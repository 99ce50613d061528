use inference_engine::parser::parser;
use inference_engine::types::{Fact, Rule, Term};

#[test]
fn test_parse_fact() {
    let _result = parser::parse("cat(tom).");
}

#[test]
fn test_parse_rule() {
    let _result = parser::parse("mortal(X) :- human(X).");
}

#[test]
fn test_parse_multiple_statements() {
    let input = "cat(tom). dog(rex). animal(X) :- cat(X).";
    let _result = parser::parse(input);
}

fn atom(s: &str) -> Term {
    Term::Atom(s.to_string())
}

fn var(s: &str) -> Term {
    Term::Variable(s.to_string())
}

fn compound(f: &str, args: Vec<Term>) -> Term {
    Term::Compound { functor: f.to_string(), args }
}

#[test]
fn parse_reads_facts_and_rules() {
    let kb = parser::parse("cat(tom). dog(rex). animal(X) :- cat(X).");
    assert_eq!(
        kb.facts,
        vec![Fact { term: compound("cat", vec![atom("tom")]) }, Fact { term: compound("dog", vec![atom("rex")]) }]
    );
    assert_eq!(
        kb.rules,
        vec![Rule { head: compound("animal", vec![var("X")]), body: vec![compound("cat", vec![var("X")])] }]
    );
}

#[test]
fn parse_skips_duplicates() {
    let kb = parser::parse("cat(tom). cat(tom).");
    assert_eq!(kb.facts.len(), 1);
}

#[test]
fn parse_with_error_reports_unexpected_character() {
    let (kb, err) = parser::parse_with_error("cat(tom). ?");
    assert_eq!(kb.facts.len(), 0);
    assert_eq!(err, Some("Unexpected character: '?'".to_string()));
}

#[test]
fn parse_with_error_keeps_clauses_before_error() {
    let (kb, err) = parser::parse_with_error("cat(tom). dog(");
    assert_eq!(kb.facts, vec![Fact { term: compound("cat", vec![atom("tom")]) }]);
    assert!(err.is_some());
}

#[test]
fn parse_with_error_none_on_valid_input() {
    let (_, err) = parser::parse_with_error("a. b(X) :- a.");
    assert_eq!(err, None);
}

#[test]
fn parse_error_unexpected_end() {
    assert_eq!(parser::parse_with_error("cat(tom").1, Some("Unexpected end of input".to_string()));
}

#[test]
fn parse_error_unterminated_quote() {
    assert_eq!(parser::parse_with_error("'abc").1, Some("Unterminated quoted atom".to_string()));
}

#[test]
fn parse_error_colon_without_dash() {
    assert_eq!(parser::parse_with_error("a :x").1, Some("Unexpected character after ':'".to_string()));
}

#[test]
fn parse_error_missing_term() {
    assert_eq!(parser::parse_with_error("cat(tom, ).").1, Some("Expected a term, got RParen".to_string()));
}

#[test]
fn parse_error_missing_dot() {
    assert_eq!(
        parser::parse_with_error("cat(tom) dog.").1,
        Some("Expected '.' or ':-', got Some(Atom(\"dog\"))".to_string())
    );
}

#[test]
fn parse_error_missing_parenthesis() {
    assert_eq!(parser::parse_with_error("p(a b).").1, Some("Expected RParen, got Atom(\"b\")".to_string()));
}

#[test]
fn parse_quoted_atom_and_comment() {
    let kb = parser::parse("% a comment\n'Hello World'(X) :- p(X).");
    assert_eq!(
        kb.rules,
        vec![Rule { head: compound("Hello World", vec![var("X")]), body: vec![compound("p", vec![var("X")])] }]
    );
}

#[test]
fn parse_term_export_reads_back() {
    let t = compound("bar", vec![compound("foo", vec![atom("a")]), var("X")]);
    let text = format!("{}.", inference_engine::exporter::export_term(&t));
    let kb = parser::parse(&text);
    assert_eq!(kb.facts, vec![Fact { term: t }]);
}

#[test]
fn parse_texts_joined_by_space() {
    let a = "p(a). q";
    let b = "(X) :- p(X).";
    let kb = parser::parse(&format!("{} {}", a, b));
    assert_eq!(kb.facts.len(), 1);
    assert_eq!(kb.rules.len(), 1);
}
