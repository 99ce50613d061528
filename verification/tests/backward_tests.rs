use inference_engine::engine::backward::{backward_chain, format_rule, format_term};
use inference_engine::parser::parser;
use inference_engine::types::{Fact, KnowledgeBase, Rule, Term};

fn atom(s: &str) -> Term {
    Term::Atom(s.to_string())
}

fn var(s: &str) -> Term {
    Term::Variable(s.to_string())
}

fn compound(f: &str, args: Vec<Term>) -> Term {
    Term::Compound { functor: f.to_string(), args }
}

fn mammal_kb() -> KnowledgeBase {
    parser::parse("animal(chat). a_fourrure(chat). mammifere(X) :- animal(X), a_fourrure(X).")
}

#[test]
fn backward_proves_goal_through_rule() {
    let kb = mammal_kb();
    let goal = compound("mammifere", vec![atom("chat")]);
    let tree = backward_chain(&goal, &kb).unwrap();
    assert_eq!(tree.goal, goal);
    assert_eq!(tree.rule_used, Some("mammifere(X) :- animal(X), a_fourrure(X).".to_string()));
    assert_eq!(tree.subgoals.len(), 2);
    assert_eq!(tree.subgoals[0].goal, compound("animal", vec![atom("chat")]));
    assert_eq!(tree.subgoals[0].rule_used, None);
    assert!(tree.subgoals[0].subgoals.is_empty());
    assert_eq!(tree.subgoals[1].goal, compound("a_fourrure", vec![atom("chat")]));
    assert_eq!(tree.subgoals[1].rule_used, None);
}

#[test]
fn backward_fails_on_unprovable_goal() {
    let kb = mammal_kb();
    let goal = compound("mammifere", vec![atom("chien")]);
    assert!(backward_chain(&goal, &kb).is_none());
}

#[test]
fn backward_proves_fact_as_leaf() {
    let kb = mammal_kb();
    let goal = compound("animal", vec![atom("chat")]);
    let tree = backward_chain(&goal, &kb).unwrap();
    assert_eq!(tree.goal, goal);
    assert_eq!(tree.rule_used, None);
    assert!(tree.subgoals.is_empty());
}

#[test]
fn backward_stops_on_cyclic_rule() {
    let kb = parser::parse("p(X) :- p(X).");
    assert!(backward_chain(&compound("p", vec![atom("a")]), &kb).is_none());
}

#[test]
fn backward_two_level_proof() {
    let kb = parser::parse("parent(a, b). parent(b, c). grand(X, Z) :- parent(X, Y), parent(Y, Z).");
    let tree = backward_chain(&compound("grand", vec![atom("a"), var("Z")]), &kb);
    // The variable Y of the body is not bound by the head, so the first body goal stays open
    // and is not a fact: no proof.
    assert!(tree.is_none());
    let tree = backward_chain(&compound("grand", vec![atom("a"), atom("c")]), &kb);
    assert!(tree.is_none());
}

#[test]
fn backward_supported_leaves_are_facts() {
    let mut kb = KnowledgeBase::new();
    kb.add_fact(Fact { term: atom("sun") });
    kb.add_rule(Rule { head: atom("day"), body: vec![atom("sun")] });
    let tree = backward_chain(&atom("day"), &kb).unwrap();
    assert_eq!(tree.rule_used, Some("day :- sun.".to_string()));
    assert_eq!(tree.subgoals.len(), 1);
    assert_eq!(tree.subgoals[0].goal, atom("sun"));
}

#[test]
fn format_term_writes_empty_compound_as_name() {
    assert_eq!(format_term(&compound("vrai", vec![])), "vrai");
    assert_eq!(format_term(&compound("p", vec![atom("a"), var("X")])), "p(a, X)");
    assert_eq!(format_term(&compound("p", vec![compound("q", vec![])])), "p(q)");
}

#[test]
fn format_rule_with_and_without_body() {
    assert_eq!(format_rule(&Rule { head: atom("p"), body: vec![] }), "p.");
    assert_eq!(
        format_rule(&Rule { head: compound("p", vec![var("X")]), body: vec![atom("a"), atom("b")] }),
        "p(X) :- a, b."
    );
}
