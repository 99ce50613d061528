use inference_engine::parser::parser2::parse_naturel_fr;
use inference_engine::types::{Fact, Rule, Term};

fn atom(s: &str) -> Term {
    Term::Atom(s.to_string())
}

fn var(s: &str) -> Term {
    Term::Variable(s.to_string())
}

fn compound(f: &str, args: Vec<Term>) -> Term {
    Term::Compound { functor: f.to_string(), args }
}

fn fact(t: Term) -> Fact {
    Fact { term: t }
}

#[test]
fn french_est_un_gives_fact() {
    let kb = parse_naturel_fr("Un chat est un animal.").unwrap();
    assert_eq!(kb.facts, vec![fact(compound("animal", vec![atom("chat")]))]);
    assert!(kb.rules.is_empty());
}

#[test]
fn french_a_gives_fact() {
    let kb = parse_naturel_fr("Un chat a de la fourrure.").unwrap();
    assert_eq!(kb.facts, vec![fact(compound("fourrure", vec![atom("chat")]))]);
}

#[test]
fn french_possede_gives_fact() {
    let kb = parse_naturel_fr("Un chien possède de la fourrure.").unwrap();
    assert_eq!(kb.facts, vec![fact(compound("fourrure", vec![atom("chien")]))]);
}

#[test]
fn french_relation_gives_binary_fact() {
    let kb = parse_naturel_fr("tom est un grand parent de ann.").unwrap();
    assert_eq!(kb.facts, vec![fact(compound("grand_parent", vec![atom("tom"), atom("ann")]))]);
}

#[test]
fn french_general_statement_gives_fact_and_rule() {
    let kb = parse_naturel_fr("les mammifères sont des animaux.").unwrap();
    assert_eq!(kb.facts, vec![fact(compound("animal", vec![atom("mammifère")]))]);
    assert_eq!(
        kb.rules,
        vec![Rule { head: compound("animal", vec![var("X")]), body: vec![compound("mammifère", vec![var("X")])] }]
    );
}

#[test]
fn french_plural_is_made_singular() {
    let kb = parse_naturel_fr("Toutes les baleines sont des mammifères.").unwrap();
    assert_eq!(kb.facts, vec![fact(compound("mammifère", vec![atom("baleine")]))]);
    let kb = parse_naturel_fr("Tous les chevaux sont des journaux.").unwrap();
    assert_eq!(kb.facts, vec![fact(compound("journal", vec![atom("cheval")]))]);
}

#[test]
fn french_si_alors_gives_rule() {
    let kb = parse_naturel_fr("Si X est un chat et X a de la fourrure alors X est un mammifère.").unwrap();
    assert!(kb.facts.is_empty());
    assert_eq!(
        kb.rules,
        vec![Rule {
            head: compound("mammifère", vec![var("x")]),
            body: vec![compound("chat", vec![var("x")]), compound("fourrure", vec![var("x")])],
        }]
    );
}

#[test]
fn french_whole_text() {
    let input = "
        Un chat est un animal.
        Un chien est un animal.
        Un chat a de la fourrure.
        tom est un grand parent de ann.
        Si X est un mammifère alors X est un animal.
    ";
    let kb = parse_naturel_fr(input).unwrap();
    assert_eq!(
        kb.facts,
        vec![
            fact(compound("animal", vec![atom("chat")])),
            fact(compound("animal", vec![atom("chien")])),
            fact(compound("fourrure", vec![atom("chat")])),
            fact(compound("grand_parent", vec![atom("tom"), atom("ann")])),
        ]
    );
    assert_eq!(kb.rules.len(), 1);
}

#[test]
fn french_unknown_sentence_is_an_error() {
    let r = parse_naturel_fr("Bonjour le monde.");
    assert_eq!(r.err(), Some("Phrase non reconnue : \"Bonjour le monde\"".to_string()));
}

#[test]
fn french_si_without_alors_is_an_error() {
    let r = parse_naturel_fr("Si X est un chat.");
    assert_eq!(r.err(), Some("Phrase si/alors mal formée : \"Si X est un chat\"".to_string()));
}

#[test]
fn french_si_without_condition_is_an_error() {
    let r = parse_naturel_fr("Si il pleut alors X est mouillé.");
    assert_eq!(r.err(), Some("Condition non reconnue dans : \"Si il pleut alors X est mouillé\"".to_string()));
}

#[test]
fn french_si_without_conclusion_is_an_error() {
    let r = parse_naturel_fr("Si X est un chat alors il dort.");
    assert_eq!(r.err(), Some("Conclusion non reconnue dans : \"Si X est un chat alors il dort\"".to_string()));
}

#[test]
fn french_errors_are_joined_by_lines() {
    let r = parse_naturel_fr("Bonjour. Un chat est un animal. Salut.");
    assert_eq!(
        r.err(),
        Some("Phrase non reconnue : \"Bonjour\"\nPhrase non reconnue : \"Salut\"".to_string())
    );
}

#[test]
fn french_empty_text_gives_empty_base() {
    let kb = parse_naturel_fr("  .  . ").unwrap();
    assert!(kb.facts.is_empty());
    assert!(kb.rules.is_empty());
}

#[test]
fn french_term_to_string_matches_export() {
    let t = compound("grand_parent", vec![atom("tom"), compound("f", vec![var("X")])]);
    assert_eq!(inference_engine::parser::parser2::term_to_string(&t), "grand_parent(tom, f(X))");
    assert_eq!(
        inference_engine::parser::parser2::term_to_string(&t),
        inference_engine::exporter::export_term(&t)
    );
}

#[test]
fn whitespace_splits_french_words() {
    let kb = inference_engine::parser::parser2::parse_naturel_fr("Un\u{A0}chat\test un\u{3000}animal.").unwrap();
    assert_eq!(kb.facts.len(), 1);
}
