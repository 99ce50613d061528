use inference_engine::engine::forward::forward_chain;
use inference_engine::parser::parser;
use inference_engine::types::{Fact, Term};

fn atom(s: &str) -> Term {
    Term::Atom(s.to_string())
}

fn compound(f: &str, args: Vec<Term>) -> Term {
    Term::Compound { functor: f.to_string(), args }
}

#[test]
fn forward_derives_mammal() {
    let mut kb = parser::parse("animal(chat). a_fourrure(chat). animal(grenouille). mammifere(X) :- animal(X), a_fourrure(X).");
    let added = forward_chain(&mut kb);
    assert_eq!(added, 1);
    assert_eq!(kb.facts.last(), Some(&Fact { term: compound("mammifere", vec![atom("chat")]) }));
}

#[test]
fn forward_second_run_adds_nothing() {
    let mut kb = parser::parse("parent(a, b). parent(b, c). anc(X, Y) :- parent(X, Y). anc(X, Z) :- parent(X, Y), anc(Y, Z).");
    let first = forward_chain(&mut kb);
    let facts = kb.facts.clone();
    let second = forward_chain(&mut kb);
    assert!(first > 0);
    assert_eq!(second, 0);
    assert_eq!(kb.facts, facts);
}

#[test]
fn forward_chains_over_rounds() {
    let mut kb = parser::parse("a(x). b(X) :- a(X). c(X) :- b(X).");
    let added = forward_chain(&mut kb);
    assert_eq!(added, 2);
    assert_eq!(
        kb.facts,
        vec![
            Fact { term: compound("a", vec![atom("x")]) },
            Fact { term: compound("b", vec![atom("x")]) },
            Fact { term: compound("c", vec![atom("x")]) },
        ]
    );
}

#[test]
fn forward_without_rules_adds_nothing() {
    let mut kb = parser::parse("a(x). b(y).");
    assert_eq!(forward_chain(&mut kb), 0);
    assert_eq!(kb.facts.len(), 2);
}

#[test]
fn forward_closes_under_flat_rules() {
    let mut kb = parser::parse(
        "edge(a, b). edge(b, c). edge(c, d). path(X, Y) :- edge(X, Y). path(X, Z) :- edge(X, Y), path(Y, Z).",
    );
    forward_chain(&mut kb);
    for (x, z) in [("a", "b"), ("a", "c"), ("a", "d"), ("b", "d"), ("c", "d")] {
        assert!(kb.facts.contains(&Fact { term: compound("path", vec![atom(x), atom(z)]) }));
    }
}
