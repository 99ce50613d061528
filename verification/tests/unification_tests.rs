use inference_engine::engine::unification::{apply_substitution, unify};
use inference_engine::types::{Substitution, Term};

fn cst(name: &str) -> Term {
    Term::Atom(name.to_string())
}

fn var(name: &str) -> Term {
    Term::Variable(name.to_string())
}

fn compound(functor: &str, args: Vec<Term>) -> Term {
    Term::Compound { functor: functor.to_string(), args }
}

#[test]
fn test_identical_constants() {
    assert!(unify(&cst("cat"), &cst("cat"), Substitution::new()).is_some());
}

#[test]
fn test_different_constants() {
    assert!(unify(&cst("cat"), &cst("dog"), Substitution::new()).is_none());
}

#[test]
fn test_variable_bound_to_constant() {
    let substitution = unify(&var("X"), &cst("cat"), Substitution::new()).unwrap();
    assert_eq!(substitution.get("X"), Some(&"cat".to_string()));
}

#[test]
fn test_compound_simple() {
    let t1 = compound("parent", vec![var("X"), var("Y")]);
    let t2 = compound("parent", vec![cst("alice"), cst("bob")]);
    let substitution = unify(&t1, &t2, Substitution::new()).unwrap();
    assert_eq!(substitution.get("X"), Some("alice".to_string()).as_ref());
    assert_eq!(substitution.get("Y"), Some("bob".to_string()).as_ref());
}

#[test]
fn unification_test_occurs_check() {
    assert!(unify(&var("X"), &compound("f", vec![var("X")]), Substitution::new()).is_none());
}

#[test]
fn test_apply_substitution() {
    let term = Term::Compound { functor: "mammal".to_string(), args: vec![var("X")] };
    let mut substitution = Substitution::new();
    substitution.insert("X".to_string(), cst("cat").to_string());
    assert_eq!(apply_substitution(&term, &substitution), compound("mammal", vec![cst("cat")]));
}

#[test]
fn unify_binds_variable_to_text_of_compound() {
    let s = unify(&var("X"), &compound("f", vec![cst("a"), cst("b")]), Substitution::new()).unwrap();
    assert_eq!(s.get("X"), Some(&"f(a, b)".to_string()));
}

#[test]
fn unify_respects_existing_binding() {
    let mut s = Substitution::new();
    s.insert("X".to_string(), "cat".to_string());
    assert!(unify(&var("X"), &cst("dog"), s.clone()).is_none());
    let r = unify(&var("X"), &cst("cat"), s).unwrap();
    assert_eq!(r.len(), 1);
}

#[test]
fn unify_compound_arity_mismatch_fails() {
    let t1 = compound("p", vec![var("X")]);
    let t2 = compound("p", vec![cst("a"), cst("b")]);
    assert!(unify(&t1, &t2, Substitution::new()).is_none());
    let t3 = compound("q", vec![cst("a")]);
    assert!(unify(&t1, &t3, Substitution::new()).is_none());
}

#[test]
fn unify_same_variable_adds_nothing() {
    let r = unify(&var("X"), &var("X"), Substitution::new()).unwrap();
    assert_eq!(r.len(), 0);
}

#[test]
fn apply_empty_substitution_keeps_term() {
    let t = compound("p", vec![var("X"), compound("q", vec![cst("a"), var("Y")])]);
    assert_eq!(apply_substitution(&t, &Substitution::new()), t);
}

#[test]
fn apply_leaves_unbound_variables() {
    let t = compound("p", vec![var("X"), var("Y")]);
    let mut s = Substitution::new();
    s.insert("Y".to_string(), "b".to_string());
    assert_eq!(apply_substitution(&t, &s), compound("p", vec![var("X"), cst("b")]));
}

#[test]
fn unify_compound_with_itself_adds_nothing() {
    let t = compound("p", vec![var("X"), compound("q", vec![cst("a"), var("Y")])]);
    let mut s = Substitution::new();
    s.insert("Z".to_string(), "c".to_string());
    let r = unify(&t, &t, s).unwrap();
    assert_eq!(r.len(), 1);
    assert_eq!(r.get("Z"), Some(&"c".to_string()));
}

#[test]
fn unify_keeps_earlier_bindings() {
    let mut s = Substitution::new();
    s.insert("Z".to_string(), "c".to_string());
    let r = unify(&compound("p", vec![var("X")]), &compound("p", vec![cst("a")]), s).unwrap();
    assert_eq!(r.get("Z"), Some(&"c".to_string()));
    assert_eq!(r.get("X"), Some(&"a".to_string()));
}

#[test]
fn apply_twice_is_apply_once() {
    let t = compound("p", vec![var("X"), var("Y"), cst("a")]);
    let mut s = Substitution::new();
    s.insert("X".to_string(), "Y".to_string());
    let once = apply_substitution(&t, &s);
    assert_eq!(apply_substitution(&once, &s), once);
    assert_eq!(once, compound("p", vec![cst("Y"), var("Y"), cst("a")]));
}

#[test]
fn unify_flat_pattern_binds_its_variables() {
    let pattern = compound("p", vec![var("X"), cst("b"), var("Y")]);
    let ground = compound("p", vec![cst("a"), cst("b"), cst("c")]);
    let s = unify(&pattern, &ground, Substitution::new()).unwrap();
    assert_eq!(s.len(), 2);
    assert_eq!(apply_substitution(&pattern, &s), ground);
    let twice = compound("p", vec![var("X"), var("X")]);
    assert!(unify(&twice, &compound("p", vec![cst("a"), cst("b")]), Substitution::new()).is_none());
}
