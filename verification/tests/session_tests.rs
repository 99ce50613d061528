use inference_engine::parser::parser;
use inference_engine::session::{back_proof, get_img_src, parse, parse_button, ProofOutcome};
use inference_engine::types::{Fact, KnowledgeBase, Term};

fn atom(s: &str) -> Term {
    Term::Atom(s.to_string())
}

fn compound(f: &str, args: Vec<Term>) -> Term {
    Term::Compound { functor: f.to_string(), args }
}

#[test]
fn session_parse_prefers_prolog_syntax() {
    let kb = parse("animal(chat).").unwrap();
    assert_eq!(kb.facts, vec![Fact { term: compound("animal", vec![atom("chat")]) }]);
}

#[test]
fn session_parse_falls_back_to_french() {
    let kb = parse("Un chat est un animal.").unwrap();
    assert_eq!(kb.facts, vec![Fact { term: compound("animal", vec![atom("chat")]) }]);
}

#[test]
fn session_parse_reports_french_error() {
    assert_eq!(parse("???").err(), Some("Phrase non reconnue : \"???\"".to_string()));
}

#[test]
fn session_parse_button_merges_without_duplicates() {
    let mut kb = parser::parse("animal(chat).");
    assert_eq!(parse_button("animal(chat). animal(chien). p(X) :- animal(X).", &mut kb), None);
    assert_eq!(
        kb.facts,
        vec![
            Fact { term: compound("animal", vec![atom("chat")]) },
            Fact { term: compound("animal", vec![atom("chien")]) },
        ]
    );
    assert_eq!(kb.rules.len(), 1);
}

#[test]
fn session_parse_button_error_leaves_base() {
    let mut kb = parser::parse("animal(chat).");
    let msg = parse_button("???", &mut kb);
    assert_eq!(msg, Some("Phrase non reconnue : \"???\"".to_string()));
    assert_eq!(kb.facts.len(), 1);
    assert!(kb.rules.is_empty());
}

#[test]
fn session_back_proof_outcomes() {
    let kb = parser::parse("animal(chat). a_fourrure(chat). mammifere(X) :- animal(X), a_fourrure(X).");
    assert!(back_proof("", &kb).is_none());
    match back_proof("mammifere(chat).", &kb) {
        Some(ProofOutcome::Proved(t)) => assert_eq!(t.goal, compound("mammifere", vec![atom("chat")])),
        _ => panic!("expected a proof"),
    }
    assert!(matches!(back_proof("mammifere(chien).", &kb), Some(ProofOutcome::NotProvable)));
    assert!(matches!(back_proof("p(X) :- q(X).", &kb), Some(ProofOutcome::NoFact)));
    assert!(matches!(back_proof("???", &kb), Some(ProofOutcome::ReadError(_))));
}

#[test]
fn session_image_source_is_base64_data_url() {
    assert_eq!(get_img_src(b"hi"), "data:image/png;base64,aGk=");
    assert_eq!(get_img_src(b""), "data:image/png;base64,");
    assert_eq!(get_img_src(b"abc"), "data:image/png;base64,YWJj");
}

#[test]
fn session_empty_base_has_nothing_to_prove() {
    let kb = KnowledgeBase::new();
    assert!(matches!(back_proof("p.", &kb), Some(ProofOutcome::NotProvable)));
}

#[test]
fn session_picture_source_is_png_data_url() {
    let src = inference_engine::session::picture_src(1, 1, vec![255, 0, 0]).unwrap();
    assert!(src.starts_with("data:image/png;base64,iVBORw0KGgo"));
    assert!(inference_engine::session::picture_src(2, 2, vec![0, 0, 0]).is_none());
    assert!(inference_engine::session::picture_src(0, 1, vec![0, 0, 0]).is_none());
    assert!(inference_engine::session::picture_src(2, 1, vec![1, 2, 3, 4, 5, 6, 7]).is_some());
}
