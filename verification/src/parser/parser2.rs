//! Reading facts and rules from simple French sentences.
//!
//! A text is cut into sentences at each `.`. Recognised sentences:
//! - `Si X est un chat et X a de la fourrure alors X est un mammifère` gives a rule;
//! - `Tous les chats sont des animaux` gives a fact and a rule;
//! - `tom est un grand parent de ann` gives a fact with two arguments;
//! - `Un chat est un animal`, `Un chat a de la fourrure` give a fact with one argument.
use vstd::prelude::*;
use crate::text::{
    chars_of, str_eq, push_char, push_str, join, strings_view, lowercase, to_lowercase, trim, trim_spec,
    words_spec, split_whitespace, split_char, split_char_spec, split_text, split_text_spec, find_from, occurs_at,
    matches_at, chars_sub, lemma_find_from,
    find_text, trimmed_start_text, trim_start_text, trimmed_end_char, trim_end_char,
    trimmed_end_non_alphanumeric, trim_end_non_alphanumeric, chars_between, join_strings, debug_str,
    debug_text,
};
use crate::types::{
    Term, TermModel, Fact, Rule, RuleModel, KnowledgeBase, KnowledgeBaseModel, with_fact, with_rule,
};
use crate::parser::parser::empty_kb;

verus! {

broadcast use vstd::std_specs::vec::group_vec_axioms, crate::types::group_terms_model;

/// Articles and quantifiers that are skipped in front of a group of words.
pub open spec fn article(w: Seq<char>) -> bool {
    ||| w == "un"@
    ||| w == "une"@
    ||| w == "des"@
    ||| w == "de"@
    ||| w == "du"@
    ||| w == "le"@
    ||| w == "la"@
    ||| w == "les"@
    ||| w == "l"@
    ||| w == "tous"@
    ||| w == "toutes"@
}

/// The words without the articles in front of them.
pub open spec fn strip_articles(ws: Seq<Seq<char>>) -> Seq<Seq<char>>
    decreases ws.len(),
{
    if ws.len() > 0 && article(ws[0]) {
        strip_articles(ws.skip(1))
    } else {
        ws
    }
}

/// A word lowercased, without the characters that are not alphanumeric at its end.
pub open spec fn clean_spec(w: Seq<char>) -> Seq<char> {
    trim_end_non_alphanumeric(lowercase(w))
}

/// The cleaned words that are not empty, in order.
pub open spec fn cleaned_words(ws: Seq<Seq<char>>) -> Seq<Seq<char>>
    decreases ws.len(),
{
    if ws.len() == 0 {
        Seq::empty()
    } else {
        let r = cleaned_words(ws.drop_last());
        let c = clean_spec(ws.last());
        if c.len() > 0 {
            r.push(c)
        } else {
            r
        }
    }
}

/// The cleaned words joined by `_`: a name made of several words.
pub open spec fn join_words_spec(ws: Seq<Seq<char>>) -> Seq<char> {
    join(cleaned_words(ws), seq!['_'])
}

/// `s` ends with `suffix`.
pub open spec fn ends_with(s: Seq<char>, suffix: Seq<char>) -> bool {
    s.len() >= suffix.len() && s.skip(s.len() - suffix.len()) == suffix
}

/// The singular of a French noun: four irregular plurals, then `-aux` becomes `-al`, then a
/// final `s` is dropped.
pub open spec fn depluralize_spec(w: Seq<char>) -> Seq<char> {
    if w == "animaux"@ {
        "animal"@
    } else if w == "mammifères"@ {
        "mammifère"@
    } else if w == "oiseaux"@ {
        "oiseau"@
    } else if w == "chevaux"@ {
        "cheval"@
    } else if ends_with(w, seq!['a', 'u', 'x']) {
        w.take(w.len() - 3) + seq!['a', 'l']
    } else if ends_with(w, seq!['s']) {
        w.drop_last()
    } else {
        w
    }
}

/// `functor(var)`, with a variable as the argument.
pub open spec fn var_compound(functor: Seq<char>, var: Seq<char>) -> TermModel {
    TermModel::Compound(functor, seq![TermModel::Variable(var)])
}

/// `object(subject)`, with an atom as the argument.
pub open spec fn atom_compound(object: Seq<char>, subject: Seq<char>) -> TermModel {
    TermModel::Compound(object, seq![TermModel::Atom(subject)])
}

/// The knowledge base with the fact added, unless it is already known.
pub open spec fn kb_with_fact(kb: KnowledgeBaseModel, f: TermModel) -> KnowledgeBaseModel {
    KnowledgeBaseModel { facts: with_fact(kb.facts, f), rules: kb.rules }
}

/// The knowledge base with the rule added, unless it is already known.
pub open spec fn kb_with_rule(kb: KnowledgeBaseModel, r: RuleModel) -> KnowledgeBaseModel {
    KnowledgeBaseModel { facts: kb.facts, rules: with_rule(kb.rules, r) }
}

/// What `Tous les <subject> sont des <object>` adds: the fact `object(subject)` and the rule
/// `object(X) :- subject(X)`.
pub open spec fn tous_sont_kb(subject: Seq<char>, object: Seq<char>, kb: KnowledgeBaseModel) -> KnowledgeBaseModel {
    kb_with_rule(
        kb_with_fact(kb, atom_compound(object, subject)),
        RuleModel { head: var_compound(object, seq!['X']), body: seq![var_compound(subject, seq!['X'])] },
    )
}

/// The first position from `k` on of a word equal to `w1` or `w2`.
pub open spec fn first_index_from(ws: Seq<Seq<char>>, w1: Seq<char>, w2: Seq<char>, k: int) -> Option<int>
    decreases ws.len() - k,
{
    if k < 0 || k >= ws.len() {
        None
    } else if ws[k] == w1 || ws[k] == w2 {
        Some(k)
    } else {
        first_index_from(ws, w1, w2, k + 1)
    }
}

/// The last position of a word equal to `w`.
pub open spec fn last_index(ws: Seq<Seq<char>>, w: Seq<char>) -> Option<int>
    decreases ws.len(),
{
    if ws.len() == 0 {
        None
    } else if ws.last() == w {
        Some(ws.len() - 1)
    } else {
        last_index(ws.drop_last(), w)
    }
}

/// The words on each side of the first word equal to `w1` or `w2`, articles stripped.
pub open spec fn around(ws: Seq<Seq<char>>, w1: Seq<char>, w2: Seq<char>) -> Option<(Seq<Seq<char>>, Seq<Seq<char>>)> {
    match first_index_from(ws, w1, w2, 0) {
        Some(p) => Some((strip_articles(ws.take(p)), strip_articles(ws.skip(p + 1)))),
        None => None,
    }
}

/// `<subject> est <relation> de <object>`: the fact `relation(subject, object)`, where the
/// relation runs up to the last `de` after `est`.
pub open spec fn relation_fact_spec(ws: Seq<Seq<char>>) -> Option<TermModel> {
    match around(ws, "est"@, "est"@) {
        None => None,
        Some((subject_words, after)) => match last_index(after, "de"@) {
            None => None,
            Some(d) => {
                let relation_words = after.take(d);
                let object_words = strip_articles(after.skip(d + 1));
                if subject_words.len() == 0 || relation_words.len() == 0 || object_words.len() == 0 {
                    None
                } else {
                    Some(
                        TermModel::Compound(
                            join_words_spec(relation_words),
                            seq![
                                TermModel::Atom(join_words_spec(subject_words)),
                                TermModel::Atom(join_words_spec(object_words)),
                            ],
                        ),
                    )
                }
            },
        },
    }
}

/// A condition `X est <words>`, `X a <words>` or `X possède <words>`: the term
/// `words(X)`, with `X` a variable.
pub open spec fn clause_condition_spec(words: Seq<Seq<char>>) -> Option<TermModel> {
    if words.len() < 3 {
        None
    } else if words[1] == "est"@ || words[1] == "a"@ || words[1] == "possède"@ {
        let rest = strip_articles(words.skip(2));
        if rest.len() == 0 {
            None
        } else {
            Some(var_compound(join_words_spec(rest), words[0]))
        }
    } else {
        None
    }
}

/// The conditions that the clauses give, in order; clauses that give none are skipped.
pub open spec fn conditions(clauses: Seq<Seq<char>>) -> Seq<TermModel>
    decreases clauses.len(),
{
    if clauses.len() == 0 {
        Seq::empty()
    } else {
        let r = conditions(clauses.drop_last());
        match clause_condition_spec(words_spec(clauses.last())) {
            Some(t) => r.push(t),
            None => r,
        }
    }
}

/// Reading `Si <conditions> alors <conclusion>`: the rule `conclusion :- conditions`, or an
/// error message when the sentence has no ` alors `, when no condition is recognised, or
/// when the conclusion is not.
pub open spec fn si_alors_result(sentence: Seq<char>, kb: KnowledgeBaseModel) -> Result<KnowledgeBaseModel, Seq<char>> {
    let after_si = trim_start_text(lowercase(sentence), "si "@);
    match find_from(after_si, " alors "@, 0) {
        None => Err("Phrase si/alors mal formée : "@ + debug_text(sentence)),
        Some(k) => {
            let condition = trim_spec(after_si.take(k));
            let conclusion = trim_end_char(trim_spec(after_si.skip(k + " alors "@.len())), '.');
            let body = conditions(split_text_spec(condition, " et "@));
            if body.len() == 0 {
                Err("Condition non reconnue dans : "@ + debug_text(sentence))
            } else {
                match clause_condition_spec(words_spec(conclusion)) {
                    Some(head) => Ok(kb_with_rule(kb, RuleModel { head, body })),
                    None => Err("Conclusion non reconnue dans : "@ + debug_text(sentence)),
                }
            }
        },
    }
}

/// Words that mark a general statement: `Tous les chats sont ...`.
pub open spec fn is_plural_trigger(w: Seq<char>) -> bool {
    w == "tous"@ || w == "toutes"@ || w == "les"@ || w == "le"@ || w == "la"@
}

/// `Tous les <subject> sont des <object>`: the two names, in the singular.
pub open spec fn tous_sont_spec(ws: Seq<Seq<char>>) -> Option<(Seq<char>, Seq<char>)> {
    if ws.len() > 0 && is_plural_trigger(ws[0]) {
        match around(ws, "sont"@, "sont"@) {
            Some((s, o)) => if s.len() > 0 && o.len() > 0 {
                Some((depluralize_spec(join_words_spec(s)), depluralize_spec(join_words_spec(o))))
            } else {
                None
            },
            None => None,
        }
    } else {
        None
    }
}

/// `<subject> <verb> <object>`, the verb being the first word equal to `v1` or `v2`: the two
/// names, when neither is empty.
pub open spec fn subject_object(ws: Seq<Seq<char>>, v1: Seq<char>, v2: Seq<char>) -> Option<(Seq<char>, Seq<char>)> {
    match around(ws, v1, v2) {
        Some((s, o)) => if join_words_spec(s).len() > 0 && join_words_spec(o).len() > 0 {
            Some((join_words_spec(s), join_words_spec(o)))
        } else {
            None
        },
        None => None,
    }
}

/// Reading one sentence: an empty sentence adds nothing; a sentence starting with `si ` is a
/// rule; otherwise, on the cleaned words, the first of these that applies: a general
/// statement, a relation, `est`, `a` / `possède`; else an error message.
pub open spec fn sentence_result(sentence: Seq<char>, kb: KnowledgeBaseModel) -> Result<KnowledgeBaseModel, Seq<char>> {
    let trimmed = trim_spec(sentence);
    if trimmed.len() == 0 {
        Ok(kb)
    } else if occurs_at(lowercase(trimmed), "si "@, 0) {
        si_alors_result(trimmed, kb)
    } else {
        let ws = words_spec(trimmed).map_values(|w: Seq<char>| clean_spec(w));
        match tous_sont_spec(ws) {
            Some((s, o)) => Ok(tous_sont_kb(s, o, kb)),
            None => match relation_fact_spec(ws) {
                Some(f) => Ok(kb_with_fact(kb, f)),
                None => match subject_object(ws, "est"@, "est"@) {
                    Some((s, o)) => Ok(kb_with_fact(kb, atom_compound(o, s))),
                    None => match subject_object(ws, "a"@, "possède"@) {
                        Some((s, o)) => Ok(kb_with_fact(kb, atom_compound(o, s))),
                        None => Err("Phrase non reconnue : "@ + debug_text(trimmed)),
                    },
                },
            },
        }
    }
}

/// The knowledge base and the error messages after reading the pieces in order; blank
/// pieces are skipped, a sentence that fails leaves the knowledge base as it was.
pub open spec fn sentences_state(pieces: Seq<Seq<char>>) -> (KnowledgeBaseModel, Seq<Seq<char>>)
    decreases pieces.len(),
{
    if pieces.len() == 0 {
        (empty_kb(), Seq::empty())
    } else {
        let (kb, errs) = sentences_state(pieces.drop_last());
        let s = trim_spec(pieces.last());
        if s.len() == 0 {
            (kb, errs)
        } else {
            match sentence_result(s, kb) {
                Ok(kb2) => (kb2, errs),
                Err(e) => (kb, errs.push(e)),
            }
        }
    }
}

/// Reading a French text: its sentences (cut at each `.`) in order; the knowledge base when
/// every sentence was recognised, else the error messages, one per line.
pub open spec fn naturel_result(input: Seq<char>) -> Result<KnowledgeBaseModel, Seq<char>> {
    let (kb, errs) = sentences_state(split_char_spec(input, '.'));
    if errs.len() == 0 {
        Ok(kb)
    } else {
        Err(join(errs, seq!['\n']))
    }
}

fn is_article(w: &str) -> (r: bool)
    ensures
        r == article(w@),
{
    str_eq(w, "un") || str_eq(w, "une") || str_eq(w, "des") || str_eq(w, "de") || str_eq(w, "du")
        || str_eq(w, "le") || str_eq(w, "la") || str_eq(w, "les") || str_eq(w, "l") || str_eq(w, "tous")
        || str_eq(w, "toutes")
}

/// The words without the articles in front of them, as `strip_articles` says.
fn strip_article_fr<'a>(words: &'a [String]) -> (r: &'a [String])
    ensures
        strings_view(r@) == strip_articles(strings_view(words@)),
    decreases words.len(),
{
    if words.len() > 0 && is_article(words[0].as_str()) {
        let rest = &words[1..words.len()];
        proof {
            assert(strings_view(rest@) =~= strings_view(words@).skip(1));
        }
        strip_article_fr(rest)
    } else {
        words
    }
}

/// The word lowercased, without the characters that are not alphanumeric at its end.
fn clean(word: &str) -> (r: String)
    ensures
        r@ == clean_spec(word@),
{
    let lower = to_lowercase(word);
    let v = chars_of(lower.as_str());
    let hi = trimmed_end_non_alphanumeric(&v);
    proof {
        assert(v@.subrange(0, hi as int) =~= v@.take(hi as int));
    }
    chars_between(&v, 0, hi)
}

/// The cleaned words that are not empty, joined by `_`.
fn join_words(words: &[String]) -> (r: String)
    ensures
        r@ == join_words_spec(strings_view(words@)),
{
    let ghost wv = strings_view(words@);
    let mut parts: Vec<String> = Vec::new();
    let mut i: usize = 0;
    proof {
        assert(wv.take(0) =~= Seq::<Seq<char>>::empty());
        assert(strings_view(parts@) =~= Seq::<Seq<char>>::empty());
    }
    while i < words.len()
        invariant
            i <= words.len(),
            wv == strings_view(words@),
            strings_view(parts@) == cleaned_words(wv.take(i as int)),
        decreases words.len() - i,
    {
        let c = clean(words[i].as_str());
        let ghost before = strings_view(parts@);
        proof {
            assert(wv.take(i + 1).drop_last() =~= wv.take(i as int));
            assert(wv.take(i + 1).last() == words@[i as int]@);
        }
        if !c.as_str().is_empty() {
            parts.push(c);
            proof {
                assert(strings_view(parts@) =~= before.push(parts@.last()@));
            }
        }
        i += 1;
    }
    proof {
        assert(wv.take(words@.len() as int) =~= wv);
    }
    join_strings(&parts, '_')
}

/// `functor(var)`, with a variable as the argument.
fn compound1_var(functor: &str, var: &str) -> (r: Term)
    ensures
        r@ == var_compound(functor@, var@),
{
    let args = vec![Term::Variable(var.to_owned())];
    let r = Term::Compound { functor: functor.to_owned(), args };
    proof {
        assert(crate::types::terms_model(args@) =~= seq![TermModel::Variable(var@)]);
    }
    r
}

/// The singular of a French noun, as `depluralize_spec` says.
fn depluralize_fr(word: &str) -> (r: String)
    ensures
        r@ == depluralize_spec(word@),
{
    if str_eq(word, "animaux") {
        return "animal".to_owned();
    }
    if str_eq(word, "mammifères") {
        return "mammifère".to_owned();
    }
    if str_eq(word, "oiseaux") {
        return "oiseau".to_owned();
    }
    if str_eq(word, "chevaux") {
        return "cheval".to_owned();
    }
    let v = chars_of(word);
    let n = v.len();
    if n >= 3 && v[n - 3] == 'a' && v[n - 2] == 'u' && v[n - 1] == 'x' {
        let mut out = chars_between(&v, 0, n - 3);
        push_char(&mut out, 'a');
        push_char(&mut out, 'l');
        proof {
            assert(v@.skip(n - 3) =~= seq!['a', 'u', 'x']);
            assert(out@ =~= v@.take(n - 3) + seq!['a', 'l']);
        }
        return out;
    }
    proof {
        if ends_with(v@, seq!['a', 'u', 'x']) {
            assert(v@.skip(n - 3)[0] == v@[n - 3]);
            assert(v@.skip(n - 3)[1] == v@[n - 2]);
            assert(v@.skip(n - 3)[2] == v@[n - 1]);
        }
    }
    if n >= 1 && v[n - 1] == 's' {
        proof {
            assert(v@.skip(n - 1) =~= seq!['s']);
            assert(v@.subrange(0, n - 1) =~= v@.drop_last());
        }
        return chars_between(&v, 0, n - 1);
    }
    proof {
        if ends_with(v@, seq!['s']) {
            assert(v@.skip(n - 1)[0] == v@[n - 1]);
        }
    }
    word.to_owned()
}

fn add_atom_fact(subject: &str, object: &str, kb: &mut KnowledgeBase)
    ensures
        final(kb)@ == kb_with_fact(old(kb)@, atom_compound(object@, subject@)),
{
    let args = vec![Term::Atom(subject.to_owned())];
    proof {
        assert(crate::types::terms_model(args@) =~= seq![TermModel::Atom(subject@)]);
    }
    kb.add_fact(Fact { term: Term::Compound { functor: object.to_owned(), args } });
}

/// `<subject> est un <object>`: the fact `object(subject)`.
fn parse_est_un(subject: &str, object: &str, kb: &mut KnowledgeBase)
    ensures
        final(kb)@ == kb_with_fact(old(kb)@, atom_compound(object@, subject@)),
{
    add_atom_fact(subject, object, kb);
}

/// `<subject> a <object>`: the fact `object(subject)`.
fn parse_a(subject: &str, object: &str, kb: &mut KnowledgeBase)
    ensures
        final(kb)@ == kb_with_fact(old(kb)@, atom_compound(object@, subject@)),
{
    add_atom_fact(subject, object, kb);
}

/// `Tous les <subject> sont des <object>`: the fact `object(subject)` and the rule
/// `object(X) :- subject(X)`.
fn parse_tous_sont(subject: &str, object: &str, kb: &mut KnowledgeBase)
    ensures
        final(kb)@ == tous_sont_kb(subject@, object@, old(kb)@),
{
    parse_est_un(subject, object, kb);
    let head = compound1_var(object, "X");
    let body = vec![compound1_var(subject, "X")];
    proof {
        reveal_strlit("X");
        assert("X"@ =~= seq!['X']);
        assert(crate::types::terms_model(body@) =~= seq![var_compound(subject@, seq!['X'])]);
    }
    kb.add_rule(Rule { head, body });
}

pub open spec fn index_opt(r: Option<usize>) -> Option<int> {
    match r {
        Some(k) => Some(k as int),
        None => None,
    }
}

pub open spec fn term_opt(r: Option<Term>) -> Option<TermModel> {
    match r {
        Some(t) => Some(t@),
        None => None,
    }
}

/// The first position of a word equal to `w1` or `w2`.
fn position_of(ws: &[String], w1: &str, w2: &str) -> (r: Option<usize>)
    ensures
        index_opt(r) == first_index_from(strings_view(ws@), w1@, w2@, 0),
{
    let ghost wv = strings_view(ws@);
    let mut k: usize = 0;
    while k < ws.len()
        invariant
            k <= ws.len(),
            wv == strings_view(ws@),
            first_index_from(wv, w1@, w2@, 0) == first_index_from(wv, w1@, w2@, k as int),
        decreases ws.len() - k,
    {
        if str_eq(ws[k].as_str(), w1) || str_eq(ws[k].as_str(), w2) {
            return Some(k);
        }
        k += 1;
    }
    None
}

/// The last position of a word equal to `w`.
fn last_position(ws: &[String], w: &str) -> (r: Option<usize>)
    ensures
        index_opt(r) == last_index(strings_view(ws@), w@),
{
    let ghost wv = strings_view(ws@);
    let mut k: usize = ws.len();
    proof {
        assert(wv.take(k as int) =~= wv);
    }
    while k > 0
        invariant
            k <= ws.len(),
            wv == strings_view(ws@),
            last_index(wv, w@) == last_index(wv.take(k as int), w@),
        decreases k,
    {
        proof {
            assert(wv.take(k as int).drop_last() =~= wv.take(k - 1));
            assert(wv.take(k as int).last() == ws@[k - 1]@);
        }
        if str_eq(ws[k - 1].as_str(), w) {
            return Some(k - 1);
        }
        k -= 1;
    }
    None
}

/// `<subject> est <relation> de <object>`: adds the fact `relation(subject, object)` and says
/// whether the sentence had that form, as `relation_fact_spec` says.
fn try_parse_relation_binaire(ws: &[String], kb: &mut KnowledgeBase) -> (r: bool)
    ensures
        (match relation_fact_spec(strings_view(ws@)) {
            Some(f) => r && final(kb)@ == kb_with_fact(old(kb)@, f),
            None => !r && final(kb)@ == old(kb)@,
        }),
{
    let ghost wv = strings_view(ws@);
    let est_pos = match position_of(ws, "est", "est") {
        Some(p) => p,
        None => return false,
    };
    proof {
        lemma_first_index_bound(wv, "est"@, "est"@, 0);
        assert(wv.len() == ws@.len());
    }
    let n = ws.len();
    let before = &ws[0..est_pos];
    let after = &ws[est_pos + 1..n];
    proof {
        assert(strings_view(before@) =~= wv.take(est_pos as int));
        assert(strings_view(after@) =~= wv.skip(est_pos + 1));
    }
    let subject_words = strip_article_fr(before);
    let after_est = strip_article_fr(after);
    let ghost av = strings_view(after_est@);
    let de_pos = match last_position(after_est, "de") {
        Some(p) => p,
        None => return false,
    };
    proof {
        lemma_last_index_bound(av, "de"@);
        assert(av.len() == after_est@.len());
    }
    let m = after_est.len();
    let relation_words = &after_est[0..de_pos];
    let object_rest = &after_est[de_pos + 1..m];
    proof {
        assert(strings_view(relation_words@) =~= av.take(de_pos as int));
        assert(strings_view(object_rest@) =~= av.skip(de_pos + 1));
    }
    let object_words = strip_article_fr(object_rest);
    if subject_words.len() == 0 || relation_words.len() == 0 || object_words.len() == 0 {
        return false;
    }
    let subject = join_words(subject_words);
    let relation = join_words(relation_words);
    let object = join_words(object_words);
    let ghost sv = subject@;
    let ghost ov = object@;
    let args = vec![Term::Atom(subject), Term::Atom(object)];
    proof {
        assert(crate::types::terms_model(args@) =~= seq![TermModel::Atom(sv), TermModel::Atom(ov)]);
    }
    kb.add_fact(Fact { term: Term::Compound { functor: relation, args } });
    true
}

proof fn lemma_last_index_bound(ws: Seq<Seq<char>>, w: Seq<char>)
    ensures
        last_index(ws, w) matches Some(d) ==> 0 <= d < ws.len() && ws[d] == w,
    decreases ws.len(),
{
    if ws.len() > 0 && ws.last() != w {
        lemma_last_index_bound(ws.drop_last(), w);
    }
}

proof fn lemma_first_index_bound(ws: Seq<Seq<char>>, w1: Seq<char>, w2: Seq<char>, k: int)
    ensures
        first_index_from(ws, w1, w2, k) matches Some(p) ==> k <= p < ws.len() && 0 <= p,
    decreases ws.len() - k,
{
    if 0 <= k < ws.len() && ws[k] != w1 && ws[k] != w2 {
        lemma_first_index_bound(ws, w1, w2, k + 1);
    }
}

proof fn lemma_first_index_shift(ws: Seq<Seq<char>>, w: Seq<char>, w1: Seq<char>, w2: Seq<char>, k: int)
    requires
        0 <= k,
    ensures
        first_index_from(seq![w] + ws, w1, w2, k + 1) == (match first_index_from(ws, w1, w2, k) {
            Some(p) => Some(p + 1),
            None => None::<int>,
        }),
    decreases ws.len() - k,
{
    let x = seq![w] + ws;
    if k < ws.len() {
        assert(x[k + 1] == ws[k]);
        if ws[k] != w1 && ws[k] != w2 {
            lemma_first_index_shift(ws, w, w1, w2, k + 1);
        }
    }
}

/// Every word of the list `un`, `une`, `des`, `de`, `du`, `le`, `la`, `les`, `l`, `tous`,
/// `toutes` is skipped in front of a group of words: with such a word in front, the words
/// keep the same articles-stripped form, and a sentence `<w> X <verb> Y` gives the same
/// subject and object, and the same relation, as `X <verb> Y`.
pub proof fn law_articles_skipped(w: Seq<char>, ws: Seq<Seq<char>>, v1: Seq<char>, v2: Seq<char>)
    requires
        w == "un"@ || w == "une"@ || w == "des"@ || w == "de"@ || w == "du"@ || w == "le"@
            || w == "la"@ || w == "les"@ || w == "l"@ || w == "tous"@ || w == "toutes"@,
        w != v1,
        w != v2,
    ensures
        strip_articles(seq![w] + ws) == strip_articles(ws),
        around(seq![w] + ws, v1, v2) == around(ws, v1, v2),
        subject_object(seq![w] + ws, v1, v2) == subject_object(ws, v1, v2),
        w != "est"@ ==> relation_fact_spec(seq![w] + ws) == relation_fact_spec(ws),
{
    let x = seq![w] + ws;
    assert(article(w));
    assert(x[0] == w);
    assert(x.skip(1) =~= ws);
    lemma_first_index_shift(ws, w, v1, v2, 0);
    assert(x[0] != v1 && x[0] != v2);
    assert(first_index_from(x, v1, v2, 0) == first_index_from(x, v1, v2, 1));
    lemma_first_index_bound(ws, v1, v2, 0);
    if let Some(p) = first_index_from(ws, v1, v2, 0) {
        assert(x.take(p + 1).skip(1) =~= ws.take(p));
        assert(x.take(p + 1)[0] == w);
        assert(strip_articles(x.take(p + 1)) == strip_articles(ws.take(p)));
        assert(x.skip(p + 2) =~= ws.skip(p + 1));
    }
    if w != "est"@ {
        lemma_first_index_shift(ws, w, "est"@, "est"@, 0);
        assert(first_index_from(x, "est"@, "est"@, 0) == first_index_from(x, "est"@, "est"@, 1));
        lemma_first_index_bound(ws, "est"@, "est"@, 0);
        if let Some(p) = first_index_from(ws, "est"@, "est"@, 0) {
            assert(x.take(p + 1).skip(1) =~= ws.take(p));
            assert(x.take(p + 1)[0] == w);
            assert(strip_articles(x.take(p + 1)) == strip_articles(ws.take(p)));
            assert(x.skip(p + 2) =~= ws.skip(p + 1));
        }
        assert(around(x, "est"@, "est"@) == around(ws, "est"@, "est"@));
    }
}

/// A condition `X est ..`, `X a ..` or `X possède ..`, as `clause_condition_spec` says.
fn parse_clause_condition(words: &[String]) -> (r: Option<Term>)
    ensures
        term_opt(r) == clause_condition_spec(strings_view(words@)),
{
    let ghost wv = strings_view(words@);
    if words.len() < 3 {
        return None;
    }
    let verb = words[1].as_str();
    if str_eq(verb, "est") || str_eq(verb, "a") || str_eq(verb, "possède") {
        let tail = &words[2..words.len()];
        proof {
            assert(strings_view(tail@) =~= wv.skip(2));
        }
        let rest = strip_article_fr(tail);
        if rest.len() == 0 {
            return None;
        }
        let functor = join_words(rest);
        Some(compound1_var(functor.as_str(), words[0].as_str()))
    } else {
        None
    }
}

/// The outcome of reading a sentence into a knowledge base, against what `expected` says:
/// on success the knowledge base is the expected one; on failure the message is the expected
/// one and the knowledge base is unchanged.
pub open spec fn sentence_outcome(
    r: Result<(), String>,
    expected: Result<KnowledgeBaseModel, Seq<char>>,
    before: KnowledgeBaseModel,
    after: KnowledgeBaseModel,
) -> bool {
    match r {
        Ok(_) => expected == Ok::<KnowledgeBaseModel, Seq<char>>(after),
        Err(e) => expected == Err::<KnowledgeBaseModel, Seq<char>>(e@) && after == before,
    }
}

/// `prefix` followed by the debug form of `sentence`.
fn message_with(prefix: &str, sentence: &str) -> (r: String)
    ensures
        r@ == prefix@ + debug_text(sentence@),
{
    let mut m = String::new();
    push_str(&mut m, prefix);
    let d = debug_str(sentence);
    push_str(&mut m, d.as_str());
    m
}

/// `Si <conditions> alors <conclusion>`: adds the rule, as `si_alors_result` says.
fn parse_si_alors(sentence: &str, kb: &mut KnowledgeBase) -> (r: Result<(), String>)
    ensures
        sentence_outcome(r, si_alors_result(sentence@, old(kb)@), old(kb)@, final(kb)@),
{
    let lower = to_lowercase(sentence);
    let lv = chars_of(lower.as_str());
    let si = chars_of("si ");
    let lo = trimmed_start_text(&lv, &si);
    let av = chars_sub(&lv, lo, lv.len());
    proof {
        assert(av@ =~= trim_start_text(lowercase(sentence@), "si "@));
    }
    let alors = chars_of(" alors ");
    let k = match find_text(&av, &alors) {
        Some(k) => k,
        None => {
            return Err(message_with("Phrase si/alors mal formée : ", sentence));
        },
    };
    proof {
        lemma_find_from(av@, alors@, 0);
    }
    let cond_chars = chars_sub(&av, 0, k);
    let condition = trim(&cond_chars);
    let conc_chars = chars_sub(&av, k + alors.len(), av.len());
    let conc_trimmed = trim(&conc_chars);
    let cv = chars_of(conc_trimmed.as_str());
    let hi = trimmed_end_char(&cv, '.');
    let conclusion = chars_sub(&cv, 0, hi);
    proof {
        assert(cond_chars@ =~= av@.take(k as int));
        assert(conc_chars@ =~= av@.skip(k + alors@.len()));
        assert(conclusion@ =~= cv@.take(hi as int));
    }
    let et = chars_of(" et ");
    let condv = chars_of(condition.as_str());
    proof {
        reveal_strlit(" et ");
    }
    let clauses = split_text(&condv, &et);
    let ghost cl = strings_view(clauses@);
    let mut body: Vec<Term> = Vec::new();
    let mut i: usize = 0;
    proof {
        assert(cl.take(0) =~= Seq::<Seq<char>>::empty());
        assert(crate::types::terms_model(body@) =~= Seq::<TermModel>::empty());
    }
    while i < clauses.len()
        invariant
            i <= clauses.len(),
            cl == strings_view(clauses@),
            crate::types::terms_model(body@) == conditions(cl.take(i as int)),
        decreases clauses.len() - i,
    {
        let cw = chars_of(clauses[i].as_str());
        let words = split_whitespace(&cw);
        let ghost before = crate::types::terms_model(body@);
        proof {
            assert(cl.take(i + 1).drop_last() =~= cl.take(i as int));
            assert(cl.take(i + 1).last() == clauses@[i as int]@);
        }
        match parse_clause_condition(words.as_slice()) {
            Some(t) => {
                let ghost prev = body@;
                body.push(t);
                proof {
                    assert(body@.drop_last() =~= prev);
                }
            },
            None => {},
        }
        i += 1;
    }
    proof {
        assert(cl.take(clauses@.len() as int) =~= cl);
        crate::types::lemma_terms_model_len(body@);
    }
    if body.len() == 0 {
        return Err(message_with("Condition non reconnue dans : ", sentence));
    }
    let conc_words = split_whitespace(&conclusion);
    match parse_clause_condition(conc_words.as_slice()) {
        Some(head) => {
            kb.add_rule(Rule { head, body });
            Ok(())
        },
        None => Err(message_with("Conclusion non reconnue dans : ", sentence)),
    }
}

fn is_plural_trigger_word(w: &str) -> (r: bool)
    ensures
        r == is_plural_trigger(w@),
{
    str_eq(w, "tous") || str_eq(w, "toutes") || str_eq(w, "les") || str_eq(w, "le") || str_eq(w, "la")
}

/// The names on each side of the first word equal to `v1` or `v2`, when neither is empty,
/// as `subject_object` says.
fn split_subject_object(ws: &[String], v1: &str, v2: &str) -> (r: Option<(String, String)>)
    ensures
        (match r {
            Some((s, o)) => Some((s@, o@)),
            None => None,
        }) == subject_object(strings_view(ws@), v1@, v2@),
{
    let ghost wv = strings_view(ws@);
    let p = match position_of(ws, v1, v2) {
        Some(p) => p,
        None => return None,
    };
    proof {
        lemma_first_index_bound(wv, v1@, v2@, 0);
        assert(wv.len() == ws@.len());
    }
    let n = ws.len();
    let before = &ws[0..p];
    let after = &ws[p + 1..n];
    proof {
        assert(strings_view(before@) =~= wv.take(p as int));
        assert(strings_view(after@) =~= wv.skip(p + 1));
    }
    let subject = join_words(strip_article_fr(before));
    let object = join_words(strip_article_fr(after));
    if !subject.as_str().is_empty() && !object.as_str().is_empty() {
        Some((subject, object))
    } else {
        None
    }
}

/// Reads one sentence into the knowledge base, as `sentence_result` says.
fn parse_sentence_fr(sentence: &str, kb: &mut KnowledgeBase) -> (r: Result<(), String>)
    ensures
        sentence_outcome(r, sentence_result(sentence@, old(kb)@), old(kb)@, final(kb)@),
{
    let sv = chars_of(sentence);
    let trimmed = trim(&sv);
    if trimmed.as_str().is_empty() {
        return Ok(());
    }
    let lower = to_lowercase(trimmed.as_str());
    let lowv = chars_of(lower.as_str());
    let si = chars_of("si ");
    if matches_at(&lowv, &si, 0) {
        return parse_si_alors(trimmed.as_str(), kb);
    }
    let tv = chars_of(trimmed.as_str());
    let raw_words = split_whitespace(&tv);
    let ghost rv = strings_view(raw_words@);
    let mut words: Vec<String> = Vec::new();
    let mut i: usize = 0;
    while i < raw_words.len()
        invariant
            i <= raw_words.len(),
            rv == strings_view(raw_words@),
            strings_view(words@) == rv.take(i as int).map_values(|w: Seq<char>| clean_spec(w)),
        decreases raw_words.len() - i,
    {
        let c = clean(raw_words[i].as_str());
        let ghost prev = strings_view(words@);
        words.push(c);
        proof {
            assert(strings_view(words@) =~= prev.push(clean_spec(rv[i as int])));
            assert(strings_view(words@) =~= rv.take(i + 1).map_values(|w: Seq<char>| clean_spec(w)));
        }
        i += 1;
    }
    proof {
        assert(rv.take(raw_words@.len() as int) =~= rv);
    }
    let ws = words.as_slice();
    let ghost wv = strings_view(ws@);
    let n = ws.len();
    if n > 0 && is_plural_trigger_word(ws[0].as_str()) {
        if let Some(sont_pos) = position_of(ws, "sont", "sont") {
            proof {
                lemma_first_index_bound(wv, "sont"@, "sont"@, 0);
            }
            let before = &ws[0..sont_pos];
            let after = &ws[sont_pos + 1..n];
            proof {
                assert(strings_view(before@) =~= wv.take(sont_pos as int));
                assert(strings_view(after@) =~= wv.skip(sont_pos + 1));
            }
            let subject_words = strip_article_fr(before);
            let object_words = strip_article_fr(after);
            if subject_words.len() > 0 && object_words.len() > 0 {
                let subject = depluralize_fr(join_words(subject_words).as_str());
                let object = depluralize_fr(join_words(object_words).as_str());
                parse_tous_sont(subject.as_str(), object.as_str(), kb);
                return Ok(());
            }
        }
    }
    if try_parse_relation_binaire(ws, kb) {
        return Ok(());
    }
    if let Some((subject, object)) = split_subject_object(ws, "est", "est") {
        parse_est_un(subject.as_str(), object.as_str(), kb);
        return Ok(());
    }
    if let Some((subject, object)) = split_subject_object(ws, "a", "possède") {
        parse_a(subject.as_str(), object.as_str(), kb);
        return Ok(());
    }
    Err(message_with("Phrase non reconnue : ", trimmed.as_str()))
}

/// Reads a French text: each sentence (the text is cut at each `.`) adds facts or rules to
/// a knowledge base that starts empty. Gives that knowledge base when every sentence was
/// recognised, else the error message of each sentence that was not, one per line, as
/// `naturel_result` says.
pub fn parse_naturel_fr(input: &str) -> (r: Result<KnowledgeBase, String>)
    ensures
        (match r {
            Ok(kb) => Ok(kb@),
            Err(e) => Err(e@),
        }) == naturel_result(input@),
{
    let mut kb = KnowledgeBase::new();
    let mut errors: Vec<String> = Vec::new();
    let iv = chars_of(input);
    let pieces = split_char(&iv, '.');
    let ghost pv = strings_view(pieces@);
    let mut i: usize = 0;
    proof {
        assert(pv.take(0) =~= Seq::<Seq<char>>::empty());
        assert(strings_view(errors@) =~= Seq::<Seq<char>>::empty());
        assert(kb@ == empty_kb());
    }
    while i < pieces.len()
        invariant
            i <= pieces.len(),
            pv == strings_view(pieces@),
            (kb@, strings_view(errors@)) == sentences_state(pv.take(i as int)),
        decreases pieces.len() - i,
    {
        let cv = chars_of(pieces[i].as_str());
        let sentence = trim(&cv);
        let ghost before = strings_view(errors@);
        proof {
            assert(pv.take(i + 1).drop_last() =~= pv.take(i as int));
            assert(pv.take(i + 1).last() == pieces@[i as int]@);
        }
        if !sentence.as_str().is_empty() {
            match parse_sentence_fr(sentence.as_str(), &mut kb) {
                Ok(_) => {},
                Err(e) => {
                    errors.push(e);
                    proof {
                        assert(strings_view(errors@) =~= before.push(errors@.last()@));
                    }
                },
            }
        }
        i += 1;
    }
    proof {
        assert(pv.take(pieces@.len() as int) =~= pv);
    }
    if errors.len() == 0 {
        Ok(kb)
    } else {
        Err(join_strings(&errors, '\n'))
    }
}

/// The text of a term, as a list of facts and rules read from French shows it: the same as
/// `Term::to_string` and `export_term`.
pub fn term_to_string(term: &Term) -> (r: String)
    ensures
        r@ == crate::types::term_text(term@),
{
    match term {
        Term::Atom(s) => s.clone(),
        Term::Variable(s) => s.clone(),
        Term::Compound { .. } => term.to_string(),
    }
}

} // verus!
