//! Reading back an export: the compact export of a knowledge base, read by the parser, gives
//! the same knowledge base.
use vstd::prelude::*;
use crate::text::{join, ascii_lower, ascii_upper};
use crate::types::{TermModel, RuleModel, KnowledgeBaseModel, term_text, args_text, rule_text, with_fact, with_rule, no_duplicates};
use crate::exporter::{fact_clause, rule_clause, clauses, compact_text};
use crate::parser::parser::{
    TokenModel, ParseErrorModel, ClauseModel, lex, prepend, ident_char, ident_len, lemma_prepend_prepend,
    term_at, more_args_at, list_at, more_list_at, clause_at, add_clause, clauses_from, empty_kb,
    parse_result, is_blank, quote_len,
};

verus! {

/// The characters after the first can continue a name.
pub open spec fn name_tail_ok(n: Seq<char>) -> bool {
    forall|i: int| 1 <= i < n.len() ==> ident_char(#[trigger] n[i])
}

/// A name that reads back as an atom.
pub open spec fn atom_name(n: Seq<char>) -> bool {
    n.len() > 0 && ascii_lower(n[0]) && name_tail_ok(n)
}

/// A name that reads back as a variable.
pub open spec fn variable_name(n: Seq<char>) -> bool {
    n.len() > 0 && (ascii_upper(n[0]) || n[0] == '_') && name_tail_ok(n)
}

/// A term whose text reads back as the same term: its names read back as what they name,
/// and every compound has at least one argument.
pub open spec fn exportable_term(t: TermModel) -> bool
    decreases t,
{
    match t {
        TermModel::Atom(n) => atom_name(n),
        TermModel::Variable(n) => variable_name(n),
        TermModel::Compound(f, args) => atom_name(f) && args.len() > 0 && exportable_args(args),
    }
}

/// Every term is exportable.
pub open spec fn exportable_args(args: Seq<TermModel>) -> bool
    decreases args,
{
    args.len() == 0 || (exportable_args(args.drop_last()) && exportable_term(args.last()))
}

/// A rule whose clause reads back as the same rule: exportable terms and a body.
pub open spec fn exportable_rule(r: RuleModel) -> bool {
    exportable_term(r.head) && r.body.len() > 0 && exportable_args(r.body)
}

/// A knowledge base whose compact export reads back as itself.
pub open spec fn exportable_kb(kb: KnowledgeBaseModel) -> bool {
    &&& kb.well_formed()
    &&& forall|i: int| 0 <= i < kb.facts.len() ==> exportable_term(#[trigger] kb.facts[i])
    &&& forall|i: int| 0 <= i < kb.rules.len() ==> exportable_rule(#[trigger] kb.rules[i])
}

/// The tokens of the text of a term.
pub open spec fn term_tokens(t: TermModel) -> Seq<TokenModel>
    decreases t,
{
    match t {
        TermModel::Atom(n) => seq![TokenModel::Atom(n)],
        TermModel::Variable(n) => seq![TokenModel::Variable(n)],
        TermModel::Compound(f, args) => seq![TokenModel::Atom(f), TokenModel::LParen] + args_tokens(args)
            + seq![TokenModel::RParen],
    }
}

/// The tokens of the texts of terms separated by `, `.
pub open spec fn args_tokens(args: Seq<TermModel>) -> Seq<TokenModel>
    decreases args,
{
    if args.len() == 0 {
        Seq::empty()
    } else if args.len() == 1 {
        term_tokens(args[0])
    } else {
        args_tokens(args.drop_last()) + seq![TokenModel::Comma] + term_tokens(args.last())
    }
}

/// The text of a clause.
pub open spec fn clause_text(c: ClauseModel) -> Seq<char> {
    match c {
        ClauseModel::Fact(t) => fact_clause(t),
        ClauseModel::Rule(r) => rule_clause(r),
    }
}

/// The tokens of the text of a clause.
pub open spec fn clause_tokens(c: ClauseModel) -> Seq<TokenModel> {
    match c {
        ClauseModel::Fact(t) => term_tokens(t) + seq![TokenModel::Dot],
        ClauseModel::Rule(r) => term_tokens(r.head) + seq![TokenModel::ColonDash] + args_tokens(r.body)
            + seq![TokenModel::Dot],
    }
}

/// The tokens of clauses, one after the other.
pub open spec fn all_tokens(cs: Seq<ClauseModel>) -> Seq<TokenModel>
    decreases cs.len(),
{
    if cs.len() == 0 {
        Seq::empty()
    } else {
        all_tokens(cs.drop_last()) + clause_tokens(cs.last())
    }
}

/// The clauses of a knowledge base: its facts, then its rules.
pub open spec fn kb_clauses(kb: KnowledgeBaseModel) -> Seq<ClauseModel> {
    kb.facts.map_values(|t: TermModel| ClauseModel::Fact(t)) + kb.rules.map_values(|r: RuleModel| ClauseModel::Rule(r))
}

/// Whether `s` cannot continue a name: it is empty or starts with a character that is not a
/// name character.
pub open spec fn ends_name(s: Seq<char>) -> bool {
    s.len() == 0 || !ident_char(s[0])
}

proof fn lemma_lex_name(n: Seq<char>, rest: Seq<char>)
    requires
        n.len() > 0,
        name_tail_ok(n),
        ends_name(rest),
    ensures
        1 + ident_len((n + rest).drop_first()) == n.len(),
        (n + rest).take(n.len() as int) == n,
        (n + rest).skip(n.len() as int) == rest,
{
    let s = n + rest;
    lemma_ident_run_from(s, 1, n.len() as int);
    assert(s.skip(1) =~= s.drop_first());
    assert(s.take(n.len() as int) =~= n);
    assert(s.skip(n.len() as int) =~= rest);
}

proof fn lemma_ident_run_from(s: Seq<char>, a: int, b: int)
    requires
        0 <= a <= b <= s.len(),
        forall|k: int| a <= k < b ==> ident_char(#[trigger] s[k]),
        b == s.len() || !ident_char(s[b]),
    ensures
        ident_len(s.skip(a)) == b - a,
    decreases b - a,
{
    if a < b {
        lemma_ident_run_from(s, a + 1, b);
        assert(s.skip(a).drop_first() =~= s.skip(a + 1));
    } else {
        if b < s.len() {
            assert(s.skip(a)[0] == s[b]);
        }
    }
}

proof fn lemma_lex_blank(c: char, rest: Seq<char>)
    requires
        c == ' ' || c == '\n',
    ensures
        lex(seq![c] + rest) == lex(rest),
{
    assert((seq![c] + rest).drop_first() =~= rest);
}

proof fn lemma_lex_single(c: char, tok: TokenModel, rest: Seq<char>)
    requires
        (c == '(' && tok == TokenModel::LParen) || (c == ')' && tok == TokenModel::RParen) || (c == ','
            && tok == TokenModel::Comma) || (c == '.' && tok == TokenModel::Dot),
    ensures
        lex(seq![c] + rest) == prepend(seq![tok], lex(rest)),
{
    assert((seq![c] + rest).drop_first() =~= rest);
}

/// The text of an exportable term reads as its tokens, whatever follows that cannot continue
/// a name.
pub proof fn lemma_lex_term(t: TermModel, rest: Seq<char>)
    requires
        exportable_term(t),
        ends_name(rest),
    ensures
        lex(term_text(t) + rest) == prepend(term_tokens(t), lex(rest)),
    decreases t,
{
    match t {
        TermModel::Atom(n) => {
            lemma_lex_name(n, rest);
        },
        TermModel::Variable(n) => {
            lemma_lex_name(n, rest);
        },
        TermModel::Compound(f, args) => {
            let inner = args_text(args);
            let r1 = seq![')'] + rest;
            let r2 = inner + r1;
            let r3 = seq!['('] + r2;
            assert(term_text(t) + rest =~= f + r3);
            lemma_lex_name(f, r3);
            // after the functor
            lemma_lex_single('(', TokenModel::LParen, r2);
            lemma_lex_args(args, r1);
            lemma_lex_single(')', TokenModel::RParen, rest);
            lemma_prepend_prepend(args_tokens(args), seq![TokenModel::RParen], lex(rest));
            lemma_prepend_prepend(seq![TokenModel::LParen], args_tokens(args) + seq![TokenModel::RParen], lex(rest));
            lemma_prepend_prepend(
                seq![TokenModel::Atom(f)],
                seq![TokenModel::LParen] + (args_tokens(args) + seq![TokenModel::RParen]),
                lex(rest),
            );
            assert(seq![TokenModel::Atom(f)] + (seq![TokenModel::LParen] + (args_tokens(args) + seq![TokenModel::RParen]))
                =~= term_tokens(t));
        },
    }
}

/// The texts of exportable terms separated by `, ` read as their tokens separated by commas.
pub proof fn lemma_lex_args(args: Seq<TermModel>, rest: Seq<char>)
    requires
        args.len() > 0,
        exportable_args(args),
        ends_name(rest),
    ensures
        lex(args_text(args) + rest) == prepend(args_tokens(args), lex(rest)),
    decreases args,
{
    if args.len() == 1 {
        lemma_lex_term(args[0], rest);
    } else {
        let init = args.drop_last();
        let last = args.last();
        let r1 = term_text(last) + rest;
        let r2 = seq![' '] + r1;
        let r3 = seq![','] + r2;
        assert(args_text(args) + rest =~= args_text(init) + r3);
        lemma_lex_args(init, r3);
        lemma_lex_single(',', TokenModel::Comma, r2);
        lemma_lex_blank(' ', r1);
        lemma_lex_term(last, rest);
        lemma_prepend_prepend(seq![TokenModel::Comma], term_tokens(last), lex(rest));
        lemma_prepend_prepend(args_tokens(init), seq![TokenModel::Comma] + term_tokens(last), lex(rest));
        assert(args_tokens(init) + (seq![TokenModel::Comma] + term_tokens(last)) =~= args_tokens(args));
    }
}

/// The text of a clause of exportable terms reads as its tokens, whatever follows.
pub proof fn lemma_lex_clause(c: ClauseModel, rest: Seq<char>)
    requires
        match c {
            ClauseModel::Fact(t) => exportable_term(t),
            ClauseModel::Rule(r) => exportable_rule(r),
        },
    ensures
        lex(clause_text(c) + rest) == prepend(clause_tokens(c), lex(rest)),
{
    match c {
        ClauseModel::Fact(t) => {
            let r1 = seq!['.'] + rest;
            assert(clause_text(c) + rest =~= term_text(t) + r1);
            lemma_lex_term(t, r1);
            lemma_lex_single('.', TokenModel::Dot, rest);
            lemma_prepend_prepend(term_tokens(t), seq![TokenModel::Dot], lex(rest));
        },
        ClauseModel::Rule(r) => {
            let r1 = seq!['.'] + rest;
            let r2 = args_text(r.body) + r1;
            let r3 = seq![' '] + r2;
            let r4 = seq![':', '-'] + r3;
            let r5 = seq![' '] + r4;
            assert(clause_text(c) + rest =~= term_text(r.head) + r5);
            lemma_lex_term(r.head, r5);
            lemma_lex_blank(' ', r4);
            assert(r4.skip(2) =~= r3);
            lemma_lex_blank(' ', r2);
            lemma_lex_args(r.body, r1);
            lemma_lex_single('.', TokenModel::Dot, rest);
            lemma_prepend_prepend(args_tokens(r.body), seq![TokenModel::Dot], lex(rest));
            lemma_prepend_prepend(seq![TokenModel::ColonDash], args_tokens(r.body) + seq![TokenModel::Dot], lex(rest));
            lemma_prepend_prepend(
                term_tokens(r.head),
                seq![TokenModel::ColonDash] + (args_tokens(r.body) + seq![TokenModel::Dot]),
                lex(rest),
            );
            assert(term_tokens(r.head) + (seq![TokenModel::ColonDash] + (args_tokens(r.body) + seq![TokenModel::Dot]))
                =~= clause_tokens(c));
        },
    }
}

/// Every clause of the sequence is made of exportable terms.
pub open spec fn exportable_clauses(cs: Seq<ClauseModel>) -> bool {
    forall|i: int|
        0 <= i < cs.len() ==> match #[trigger] cs[i] {
            ClauseModel::Fact(t) => exportable_term(t),
            ClauseModel::Rule(r) => exportable_rule(r),
        }
}

/// Clause texts joined by newlines read as the clauses' tokens, one after the other.
pub proof fn lemma_lex_join(cs: Seq<ClauseModel>, rest: Seq<char>)
    requires
        exportable_clauses(cs),
    ensures
        lex(join(cs.map_values(|c: ClauseModel| clause_text(c)), seq!['\n']) + rest) == prepend(all_tokens(cs), lex(rest)),
    decreases cs.len(),
{
    let texts = cs.map_values(|c: ClauseModel| clause_text(c));
    if cs.len() == 0 {
        assert(Seq::<char>::empty() + rest =~= rest);
        if let Ok(x) = lex(rest) {
            assert(Seq::<TokenModel>::empty() + x =~= x);
        }
    } else if cs.len() == 1 {
        lemma_lex_clause(cs[0], rest);
        assert(cs.drop_last() =~= Seq::<ClauseModel>::empty());
        assert(all_tokens(cs.drop_last()) =~= Seq::<TokenModel>::empty());
        assert(cs.last() == cs[0]);
        assert(all_tokens(cs) =~= clause_tokens(cs[0]));
    } else {
        let init = cs.drop_last();
        assert(init.map_values(|c: ClauseModel| clause_text(c)) =~= texts.drop_last());
        let r1 = clause_text(cs.last()) + rest;
        let r2 = seq!['\n'] + r1;
        assert(join(texts, seq!['\n']) + rest =~= join(texts.drop_last(), seq!['\n']) + r2);
        assert forall|i: int| 0 <= i < init.len() implies match #[trigger] init[i] {
            ClauseModel::Fact(t) => exportable_term(t),
            ClauseModel::Rule(r) => exportable_rule(r),
        } by {
            assert(init[i] == cs[i]);
        }
        lemma_lex_join(init, r2);
        lemma_lex_blank('\n', r1);
        assert(cs[cs.len() - 1] == cs.last());
        lemma_lex_clause(cs.last(), rest);
        lemma_prepend_prepend(all_tokens(init), clause_tokens(cs.last()), lex(rest));
    }
}

/// The tokens of terms, each after a comma.
pub open spec fn comma_terms(x: Seq<TermModel>) -> Seq<TokenModel>
    decreases x.len(),
{
    if x.len() == 0 {
        Seq::empty()
    } else {
        seq![TokenModel::Comma] + term_tokens(x[0]) + comma_terms(x.drop_first())
    }
}

proof fn lemma_comma_terms_push(y: Seq<TermModel>, z: TermModel)
    ensures
        comma_terms(y.push(z)) == comma_terms(y) + seq![TokenModel::Comma] + term_tokens(z),
    decreases y.len(),
{
    if y.len() == 0 {
        assert(y.push(z).drop_first() =~= Seq::<TermModel>::empty());
        assert(y.push(z)[0] == z);
        assert(comma_terms(y.push(z).drop_first()) =~= Seq::<TokenModel>::empty());
        assert(comma_terms(y.push(z)) =~= seq![TokenModel::Comma] + term_tokens(z));
        assert(comma_terms(y) =~= Seq::<TokenModel>::empty());
        assert(comma_terms(y) + seq![TokenModel::Comma] + term_tokens(z) =~= seq![TokenModel::Comma] + term_tokens(z));
    } else {
        lemma_comma_terms_push(y.drop_first(), z);
        assert(y.push(z).drop_first() =~= y.drop_first().push(z));
        assert(y.push(z)[0] == y[0]);
        assert(comma_terms(y.push(z)) =~= comma_terms(y) + seq![TokenModel::Comma] + term_tokens(z));
    }
}

proof fn lemma_args_tokens_front(a: Seq<TermModel>)
    requires
        a.len() > 0,
    ensures
        args_tokens(a) == term_tokens(a[0]) + comma_terms(a.drop_first()),
    decreases a.len(),
{
    if a.len() == 1 {
        assert(a.drop_first() =~= Seq::<TermModel>::empty());
        assert(comma_terms(a.drop_first()) =~= Seq::<TokenModel>::empty());
        assert(args_tokens(a) =~= term_tokens(a[0]) + comma_terms(a.drop_first()));
    } else {
        let init = a.drop_last();
        lemma_args_tokens_front(init);
        assert(init[0] == a[0]);
        lemma_comma_terms_push(init.drop_first(), a.last());
        assert(init.drop_first().push(a.last()) =~= a.drop_first());
        assert(args_tokens(a) =~= term_tokens(a[0]) + comma_terms(a.drop_first()));
    }
}

proof fn lemma_exportable_args_all(a: Seq<TermModel>)
    ensures
        exportable_args(a) <==> forall|i: int| 0 <= i < a.len() ==> exportable_term(#[trigger] a[i]),
    decreases a.len(),
{
    if a.len() > 0 {
        lemma_exportable_args_all(a.drop_last());
        if exportable_args(a) {
            assert forall|i: int| 0 <= i < a.len() implies exportable_term(#[trigger] a[i]) by {
                if i < a.len() - 1 {
                    assert(a.drop_last()[i] == a[i]);
                }
            }
        }
        if forall|i: int| 0 <= i < a.len() ==> exportable_term(#[trigger] a[i]) {
            assert forall|i: int| 0 <= i < a.drop_last().len() implies exportable_term(#[trigger] a.drop_last()[i]) by {
                assert(a.drop_last()[i] == a[i]);
            }
            assert(exportable_term(a[a.len() - 1]));
        }
    }
}

proof fn lemma_sub_split(ts: Seq<TokenModel>, pos: int, x: Seq<TokenModel>, y: Seq<TokenModel>)
    requires
        0 <= pos,
        pos + x.len() + y.len() <= ts.len(),
        ts.subrange(pos, pos + x.len() + y.len()) == x + y,
    ensures
        ts.subrange(pos, pos + x.len()) == x,
        ts.subrange(pos + x.len(), pos + x.len() + y.len()) == y,
{
    assert forall|i: int| 0 <= i < x.len() implies ts.subrange(pos, pos + x.len())[i] == x[i] by {
        assert(ts.subrange(pos, pos + x.len() + y.len())[i] == (x + y)[i]);
    }
    assert forall|i: int| 0 <= i < y.len() implies ts.subrange(pos + x.len(), pos + x.len() + y.len())[i] == y[i] by {
        assert(ts.subrange(pos, pos + x.len() + y.len())[x.len() + i] == (x + y)[x.len() + i]);
        assert(ts.subrange(pos, pos + x.len() + y.len())[x.len() + i] == ts[pos + x.len() + i]);
        assert((x + y)[x.len() + i] == y[i]);
        assert(ts.subrange(pos + x.len(), pos + x.len() + y.len())[i] == ts[pos + x.len() + i]);
    }
    assert(ts.subrange(pos, pos + x.len()) =~= x);
    assert(ts.subrange(pos + x.len(), pos + x.len() + y.len()) =~= y);
}

proof fn lemma_sub_index(ts: Seq<TokenModel>, pos: int, x: Seq<TokenModel>, i: int)
    requires
        0 <= pos,
        pos + x.len() <= ts.len(),
        ts.subrange(pos, pos + x.len()) == x,
        0 <= i < x.len(),
    ensures
        ts[pos + i] == x[i],
{
    assert(ts.subrange(pos, pos + x.len())[i] == ts[pos + i]);
}

proof fn lemma_term_tokens_first(t: TermModel)
    ensures
        term_tokens(t).len() > 0,
        term_tokens(t)[0] != TokenModel::Comma,
        term_tokens(t)[0] != TokenModel::RParen,
        term_tokens(t)[0] != TokenModel::Dot,
        term_tokens(t)[0] != TokenModel::ColonDash,
        term_tokens(t)[0] != TokenModel::LParen,
{
}

/// The tokens of an exportable term, followed by anything but `(`, parse back as the term.
pub proof fn lemma_parse_term(ts: Seq<TokenModel>, pos: int, t: TermModel)
    requires
        exportable_term(t),
        0 <= pos,
        pos + term_tokens(t).len() <= ts.len(),
        ts.subrange(pos, pos + term_tokens(t).len()) == term_tokens(t),
        pos + term_tokens(t).len() == ts.len() || ts[pos + term_tokens(t).len()] != TokenModel::LParen,
    ensures
        term_at(ts, pos) == Ok::<(TermModel, int), ParseErrorModel>((t, pos + term_tokens(t).len())),
    decreases t, 1nat,
{
    let k = term_tokens(t).len();
    lemma_sub_index(ts, pos, term_tokens(t), 0);
    match t {
        TermModel::Atom(n) => {},
        TermModel::Variable(n) => {},
        TermModel::Compound(f, args) => {
            lemma_sub_index(ts, pos, term_tokens(t), 1);
            lemma_args_tokens_front(args);
            lemma_exportable_args_all(args);
            let a0 = args[0];
            let rest = args.drop_first();
            let x = term_tokens(a0);
            let y = comma_terms(rest) + seq![TokenModel::RParen];
            assert(term_tokens(t) =~= seq![TokenModel::Atom(f), TokenModel::LParen] + (x + y));
            lemma_sub_split(ts, pos, seq![TokenModel::Atom(f), TokenModel::LParen], x + y);
            lemma_sub_split(ts, pos + 2, x, y);
            lemma_term_tokens_first(a0);
            if rest.len() > 0 {
                assert(y[0] == TokenModel::Comma);
            } else {
                assert(comma_terms(rest) =~= Seq::<TokenModel>::empty());
                assert(y[0] == TokenModel::RParen);
            }
            lemma_sub_index(ts, pos + 2 + x.len(), y, 0);
            assert(decreases_to!(t => args));
            assert(decreases_to!(args => args[0]));
            lemma_parse_term(ts, pos + 2, a0);
            assert forall|i: int| 0 <= i < rest.len() implies exportable_term(#[trigger] rest[i]) by {
                assert(rest[i] == args[i + 1]);
            }
            assert(decreases_to!(args => rest));
            lemma_more_args(ts, pos + 2 + x.len(), f, seq![a0], rest);
            assert(seq![a0] + rest =~= args);
        },
    }
}

/// After the first arguments `done` of `f`, the tokens of the arguments `todo`, each after a
/// comma, then `)`, parse back as `f(done + todo)`.
pub proof fn lemma_more_args(ts: Seq<TokenModel>, pos: int, f: Seq<char>, done: Seq<TermModel>, todo: Seq<TermModel>)
    requires
        forall|i: int| 0 <= i < todo.len() ==> exportable_term(#[trigger] todo[i]),
        0 <= pos,
        pos + comma_terms(todo).len() + 1 <= ts.len(),
        ts.subrange(pos, pos + comma_terms(todo).len() + 1) == comma_terms(todo) + seq![TokenModel::RParen],
    ensures
        more_args_at(ts, pos, f, done) == Ok::<(TermModel, int), ParseErrorModel>((
            TermModel::Compound(f, done + todo),
            pos + comma_terms(todo).len() + 1,
        )),
    decreases todo, 0nat,
{
    let whole = comma_terms(todo) + seq![TokenModel::RParen];
    lemma_sub_index(ts, pos, whole, 0);
    if todo.len() == 0 {
        assert(comma_terms(todo) =~= Seq::<TokenModel>::empty());
        assert(done + todo =~= done);
    } else {
        let t0 = todo[0];
        let rest = todo.drop_first();
        let x = term_tokens(t0);
        let y = comma_terms(rest) + seq![TokenModel::RParen];
        assert(whole =~= seq![TokenModel::Comma] + (x + y));
        lemma_sub_split(ts, pos, seq![TokenModel::Comma], x + y);
        lemma_sub_split(ts, pos + 1, x, y);
        if rest.len() > 0 {
            assert(y[0] == TokenModel::Comma);
        } else {
            assert(comma_terms(rest) =~= Seq::<TokenModel>::empty());
            assert(y[0] == TokenModel::RParen);
        }
        lemma_sub_index(ts, pos + 1 + x.len(), y, 0);
        assert(decreases_to!(todo => todo[0]));
        lemma_parse_term(ts, pos + 1, t0);
        assert forall|i: int| 0 <= i < rest.len() implies exportable_term(#[trigger] rest[i]) by {
            assert(rest[i] == todo[i + 1]);
        }
        lemma_more_args(ts, pos + 1 + x.len(), f, done.push(t0), rest);
        assert(done.push(t0) + rest =~= done + todo);
    }
}

/// After the terms `done`, the tokens of the terms `todo`, each after a comma, then `.`, parse
/// back as `done + todo`.
pub proof fn lemma_more_list(ts: Seq<TokenModel>, pos: int, done: Seq<TermModel>, todo: Seq<TermModel>)
    requires
        forall|i: int| 0 <= i < todo.len() ==> exportable_term(#[trigger] todo[i]),
        0 <= pos,
        pos + comma_terms(todo).len() + 1 <= ts.len(),
        ts.subrange(pos, pos + comma_terms(todo).len() + 1) == comma_terms(todo) + seq![TokenModel::Dot],
    ensures
        more_list_at(ts, pos, done) == Ok::<(Seq<TermModel>, int), ParseErrorModel>((done + todo, pos + comma_terms(todo).len())),
    decreases todo.len(),
{
    let whole = comma_terms(todo) + seq![TokenModel::Dot];
    lemma_sub_index(ts, pos, whole, 0);
    if todo.len() == 0 {
        assert(comma_terms(todo) =~= Seq::<TokenModel>::empty());
        assert(done + todo =~= done);
    } else {
        let t0 = todo[0];
        let rest = todo.drop_first();
        let x = term_tokens(t0);
        let y = comma_terms(rest) + seq![TokenModel::Dot];
        assert(whole =~= seq![TokenModel::Comma] + (x + y));
        lemma_sub_split(ts, pos, seq![TokenModel::Comma], x + y);
        lemma_sub_split(ts, pos + 1, x, y);
        if rest.len() > 0 {
            assert(y[0] == TokenModel::Comma);
        } else {
            assert(comma_terms(rest) =~= Seq::<TokenModel>::empty());
            assert(y[0] == TokenModel::Dot);
        }
        lemma_sub_index(ts, pos + 1 + x.len(), y, 0);
        lemma_parse_term(ts, pos + 1, t0);
        assert forall|i: int| 0 <= i < rest.len() implies exportable_term(#[trigger] rest[i]) by {
            assert(rest[i] == todo[i + 1]);
        }
        lemma_more_list(ts, pos + 1 + x.len(), done.push(t0), rest);
        assert(done.push(t0) + rest =~= done + todo);
    }
}

/// The tokens of a clause of exportable terms parse back as the clause.
pub proof fn lemma_parse_clause(ts: Seq<TokenModel>, pos: int, c: ClauseModel)
    requires
        match c {
            ClauseModel::Fact(t) => exportable_term(t),
            ClauseModel::Rule(r) => exportable_rule(r),
        },
        0 <= pos,
        pos + clause_tokens(c).len() <= ts.len(),
        ts.subrange(pos, pos + clause_tokens(c).len()) == clause_tokens(c),
    ensures
        clause_at(ts, pos) == Ok::<(ClauseModel, int), ParseErrorModel>((c, pos + clause_tokens(c).len())),
{
    match c {
        ClauseModel::Fact(t) => {
            let x = term_tokens(t);
            lemma_sub_split(ts, pos, x, seq![TokenModel::Dot]);
            lemma_sub_index(ts, pos + x.len(), seq![TokenModel::Dot], 0);
            lemma_parse_term(ts, pos, t);
        },
        ClauseModel::Rule(r) => {
            let x = term_tokens(r.head);
            let b = args_tokens(r.body);
            lemma_args_tokens_front(r.body);
            lemma_exportable_args_all(r.body);
            let b0 = r.body[0];
            let rest = r.body.drop_first();
            let xb = term_tokens(b0);
            let yb = comma_terms(rest) + seq![TokenModel::Dot];
            assert(clause_tokens(c) =~= x + (seq![TokenModel::ColonDash] + (xb + yb)));
            lemma_sub_split(ts, pos, x, seq![TokenModel::ColonDash] + (xb + yb));
            lemma_sub_split(ts, pos + x.len(), seq![TokenModel::ColonDash], xb + yb);
            lemma_sub_split(ts, pos + x.len() + 1, xb, yb);
            lemma_sub_index(ts, pos + x.len(), seq![TokenModel::ColonDash], 0);
            lemma_parse_term(ts, pos, r.head);
            if rest.len() > 0 {
                assert(yb[0] == TokenModel::Comma);
            } else {
                assert(comma_terms(rest) =~= Seq::<TokenModel>::empty());
                assert(yb[0] == TokenModel::Dot);
            }
            lemma_sub_index(ts, pos + x.len() + 1 + xb.len(), yb, 0);
            lemma_parse_term(ts, pos + x.len() + 1, b0);
            assert forall|i: int| 0 <= i < rest.len() implies exportable_term(#[trigger] rest[i]) by {
                assert(rest[i] == r.body[i + 1]);
            }
            lemma_more_list(ts, pos + x.len() + 1 + xb.len(), seq![b0], rest);
            assert(seq![b0] + rest =~= r.body);
            let q = pos + x.len() + 1 + xb.len() + comma_terms(rest).len();
            lemma_sub_index(ts, pos + x.len() + 1 + xb.len(), yb, comma_terms(rest).len() as int);
            assert(ts[q] == TokenModel::Dot);
            assert(RuleModel { head: r.head, body: r.body } == r);
        },
    }
}

proof fn lemma_all_tokens_front(cs: Seq<ClauseModel>)
    requires
        cs.len() > 0,
    ensures
        all_tokens(cs) == clause_tokens(cs[0]) + all_tokens(cs.drop_first()),
    decreases cs.len(),
{
    if cs.len() == 1 {
        assert(cs.drop_last() =~= Seq::<ClauseModel>::empty());
        assert(cs.drop_first() =~= Seq::<ClauseModel>::empty());
        assert(all_tokens(cs.drop_last()) =~= Seq::<TokenModel>::empty());
        assert(all_tokens(cs.drop_first()) =~= Seq::<TokenModel>::empty());
        assert(cs.last() == cs[0]);
        assert(all_tokens(cs) =~= clause_tokens(cs[0]) + all_tokens(cs.drop_first()));
    } else {
        let init = cs.drop_last();
        lemma_all_tokens_front(init);
        assert(init[0] == cs[0]);
        assert(cs.drop_first().drop_last() =~= init.drop_first());
        assert(cs.drop_first().last() == cs.last());
        assert(all_tokens(cs) =~= clause_tokens(cs[0]) + all_tokens(cs.drop_first()));
    }
}

/// The knowledge base with the clauses added one after the other.
pub open spec fn add_all(kb: KnowledgeBaseModel, cs: Seq<ClauseModel>) -> KnowledgeBaseModel
    decreases cs.len(),
{
    if cs.len() == 0 {
        kb
    } else {
        add_all(add_clause(kb, cs[0]), cs.drop_first())
    }
}

/// The tokens of exportable clauses, up to the end, parse back as those clauses.
pub proof fn lemma_parse_clauses(ts: Seq<TokenModel>, pos: int, kb: KnowledgeBaseModel, cs: Seq<ClauseModel>)
    requires
        exportable_clauses(cs),
        0 <= pos <= ts.len(),
        ts.subrange(pos, ts.len() as int) == all_tokens(cs),
    ensures
        clauses_from(ts, pos, kb) == (add_all(kb, cs), None::<ParseErrorModel>),
    decreases cs.len(),
{
    if cs.len() == 0 {
        assert(all_tokens(cs) =~= Seq::<TokenModel>::empty());
        assert(ts.subrange(pos, ts.len() as int).len() == 0);
    } else {
        lemma_all_tokens_front(cs);
        let x = clause_tokens(cs[0]);
        let y = all_tokens(cs.drop_first());
        assert(ts.subrange(pos, ts.len() as int).len() == ts.len() - pos);
        assert(pos + x.len() + y.len() == ts.len());
        lemma_sub_split(ts, pos, x, y);
        assert(match cs[0] {
            ClauseModel::Fact(t) => exportable_term(t),
            ClauseModel::Rule(r) => exportable_rule(r),
        });
        lemma_parse_clause(ts, pos, cs[0]);
        assert(x.len() > 0) by {
            match cs[0] {
                ClauseModel::Fact(t) => {},
                ClauseModel::Rule(r) => {},
            }
        }
        assert forall|i: int| 0 <= i < cs.drop_first().len() implies match #[trigger] cs.drop_first()[i] {
            ClauseModel::Fact(t) => exportable_term(t),
            ClauseModel::Rule(r) => exportable_rule(r),
        } by {
            assert(cs.drop_first()[i] == cs[i + 1]);
        }
        lemma_parse_clauses(ts, pos + x.len(), add_clause(kb, cs[0]), cs.drop_first());
    }
}

/// Adding facts `g` then rules `h`, none of them already known and none twice, appends them.
proof fn lemma_add_all_appends(f: Seq<TermModel>, r: Seq<RuleModel>, g: Seq<TermModel>, h: Seq<RuleModel>)
    requires
        no_duplicates(f + g),
        no_duplicates(r + h),
    ensures
        (add_all(
            KnowledgeBaseModel { facts: f, rules: r },
            g.map_values(|t: TermModel| ClauseModel::Fact(t)) + h.map_values(|x: RuleModel| ClauseModel::Rule(x)),
        ) == KnowledgeBaseModel { facts: f + g, rules: r + h }),
    decreases g.len() + h.len(),
{
    let cs = g.map_values(|t: TermModel| ClauseModel::Fact(t)) + h.map_values(|x: RuleModel| ClauseModel::Rule(x));
    if g.len() > 0 {
        let g0 = g[0];
        assert(cs[0] == ClauseModel::Fact(g0));
        assert(!f.contains(g0)) by {
            if f.contains(g0) {
                let k = choose|k: int| 0 <= k < f.len() && f[k] == g0;
                assert((f + g)[k] == (f + g)[f.len() as int]);
            }
        }
        assert(with_fact(f, g0) == f.push(g0));
        assert(no_duplicates(f.push(g0) + g.drop_first())) by {
            assert(f.push(g0) + g.drop_first() =~= f + g);
        }
        lemma_add_all_appends(f.push(g0), r, g.drop_first(), h);
        assert(cs.drop_first() =~= g.drop_first().map_values(|t: TermModel| ClauseModel::Fact(t)) + h.map_values(
            |x: RuleModel| ClauseModel::Rule(x),
        ));
        assert(f.push(g0) + g.drop_first() =~= f + g);
    } else if h.len() > 0 {
        let h0 = h[0];
        assert(cs[0] == ClauseModel::Rule(h0));
        assert(!r.contains(h0)) by {
            if r.contains(h0) {
                let k = choose|k: int| 0 <= k < r.len() && r[k] == h0;
                assert((r + h)[k] == (r + h)[r.len() as int]);
            }
        }
        assert(with_rule(r, h0) == r.push(h0));
        assert(no_duplicates(r.push(h0) + h.drop_first())) by {
            assert(r.push(h0) + h.drop_first() =~= r + h);
        }
        lemma_add_all_appends(f, r.push(h0), g, h.drop_first());
        assert(cs.drop_first() =~= g.map_values(|t: TermModel| ClauseModel::Fact(t)) + h.drop_first().map_values(
            |x: RuleModel| ClauseModel::Rule(x),
        ));
        assert(r.push(h0) + h.drop_first() =~= r + h);
    } else {
        assert(cs =~= Seq::<ClauseModel>::empty());
        assert(f + g =~= f);
        assert(r + h =~= r);
    }
}

/// Reading back the compact export of a knowledge base gives the same knowledge base, and no
/// error, when every name reads back as what it names (atoms and functors start with a
/// lowercase ASCII letter, variables with an uppercase ASCII letter or `_`, and the other
/// characters are letters, digits or `_`), every compound and every rule body is not empty,
/// and no fact or rule occurs twice.
pub proof fn law_export_then_parse(kb: KnowledgeBaseModel)
    requires
        exportable_kb(kb),
    ensures
        parse_result(compact_text(kb)) == (kb, None::<Seq<char>>),
{
    let cs = kb_clauses(kb);
    assert(clauses(kb) =~= cs.map_values(|c: ClauseModel| clause_text(c)));
    assert forall|i: int| 0 <= i < cs.len() implies match #[trigger] cs[i] {
        ClauseModel::Fact(t) => exportable_term(t),
        ClauseModel::Rule(r) => exportable_rule(r),
    } by {
        if i < kb.facts.len() {
            assert(cs[i] == ClauseModel::Fact(kb.facts[i]));
        } else {
            assert(cs[i] == ClauseModel::Rule(kb.rules[i - kb.facts.len()]));
        }
    }
    lemma_lex_join(cs, Seq::empty());
    assert(compact_text(kb) + Seq::<char>::empty() =~= compact_text(kb));
    assert(lex(Seq::<char>::empty()) == Ok::<Seq<TokenModel>, ParseErrorModel>(Seq::empty()));
    let ts = all_tokens(cs);
    assert(ts + Seq::<TokenModel>::empty() =~= ts);
    assert(lex(compact_text(kb)) == Ok::<Seq<TokenModel>, ParseErrorModel>(ts));
    assert(ts.subrange(0, ts.len() as int) =~= ts);
    lemma_parse_clauses(ts, 0, empty_kb(), cs);
    assert(no_duplicates(Seq::<TermModel>::empty() + kb.facts)) by {
        assert(Seq::<TermModel>::empty() + kb.facts =~= kb.facts);
    }
    assert(no_duplicates(Seq::<RuleModel>::empty() + kb.rules)) by {
        assert(Seq::<RuleModel>::empty() + kb.rules =~= kb.rules);
    }
    lemma_add_all_appends(Seq::empty(), Seq::empty(), kb.facts, kb.rules);
    assert(Seq::<TermModel>::empty() + kb.facts =~= kb.facts);
    assert(Seq::<RuleModel>::empty() + kb.rules =~= kb.rules);
}

/// The text of an exportable term reads as its tokens, and those tokens parse back as the
/// term, every token used.
pub proof fn law_term_export_then_parse(t: TermModel)
    requires
        exportable_term(t),
    ensures
        lex(term_text(t)) == Ok::<Seq<TokenModel>, ParseErrorModel>(term_tokens(t)),
        term_at(term_tokens(t), 0) == Ok::<(TermModel, int), ParseErrorModel>((t, term_tokens(t).len() as int)),
{
    lemma_lex_term(t, Seq::empty());
    assert(term_text(t) + Seq::<char>::empty() =~= term_text(t));
    assert(lex(Seq::<char>::empty()) == Ok::<Seq<TokenModel>, ParseErrorModel>(Seq::empty()));
    assert(term_tokens(t) + Seq::<TokenModel>::empty() =~= term_tokens(t));
    assert(term_tokens(t).subrange(0, term_tokens(t).len() as int) =~= term_tokens(t));
    lemma_parse_term(term_tokens(t), 0, t);
}

proof fn lemma_ident_len_append(x: Seq<char>, s: Seq<char>)
    requires
        ends_name(s),
    ensures
        ident_len(x + s) == ident_len(x),
    decreases x.len(),
{
    if x.len() == 0 {
        assert(x + s =~= s);
    } else {
        assert((x + s)[0] == x[0]);
        assert((x + s).drop_first() =~= x.drop_first() + s);
        lemma_ident_len_append(x.drop_first(), s);
    }
}

proof fn lemma_quote_len_append(x: Seq<char>, s: Seq<char>)
    requires
        quote_len(x) < x.len(),
    ensures
        quote_len(x + s) == quote_len(x),
    decreases x.len(),
{
    assert((x + s)[0] == x[0]);
    if x[0] != '\'' {
        assert((x + s).drop_first() =~= x.drop_first() + s);
        lemma_quote_len_append(x.drop_first(), s);
    }
}

/// Lexing `a` then `s`, where `a` has no comment and lexes without error, and `s` cannot
/// continue a name: the tokens of `a` in front of those of `s`.
pub proof fn lemma_lex_append(a: Seq<char>, s: Seq<char>)
    requires
        forall|i: int| 0 <= i < a.len() ==> a[i] != '%',
        lex(a) is Ok,
        ends_name(s),
    ensures
        lex(a + s) == prepend(lex(a)->Ok_0, lex(s)),
    decreases a.len(),
{
    let x = a + s;
    if a.len() == 0 {
        assert(x =~= s);
        if let Ok(ts) = lex(s) {
            assert(Seq::<TokenModel>::empty() + ts =~= ts);
        }
    } else {
        let c = a[0];
        assert(x[0] == c);
        assert(x.drop_first() =~= a.drop_first() + s);
        if is_blank(c) {
            lemma_lex_append(a.drop_first(), s);
        } else if c == '(' || c == ')' || c == ',' || c == '.' {
            let tok = if c == '(' {
                TokenModel::LParen
            } else if c == ')' {
                TokenModel::RParen
            } else if c == ',' {
                TokenModel::Comma
            } else {
                TokenModel::Dot
            };
            assert(lex(a) == prepend(seq![tok], lex(a.drop_first())));
            assert(lex(x) == prepend(seq![tok], lex(x.drop_first())));
            lemma_lex_append(a.drop_first(), s);
            lemma_prepend_prepend(seq![tok], lex(a.drop_first())->Ok_0, lex(s));
        } else if c == ':' {
            assert(x[1] == a[1]);
            assert(x.skip(2) =~= a.skip(2) + s);
            lemma_lex_append(a.skip(2), s);
            lemma_prepend_prepend(seq![TokenModel::ColonDash], lex(a.skip(2))->Ok_0, lex(s));
        } else if c == '\'' {
            crate::parser::parser::lemma_quote_len_bound(a.drop_first());
            let q = quote_len(a.drop_first()) as int;
            assert(q != a.len() - 1);
            lemma_quote_len_append(a.drop_first(), s);
            assert(x.subrange(1, q + 1) =~= a.subrange(1, q + 1));
            assert(x.skip(q + 2) =~= a.skip(q + 2) + s);
            lemma_lex_append(a.skip(q + 2), s);
            lemma_prepend_prepend(seq![TokenModel::Atom(a.subrange(1, q + 1))], lex(a.skip(q + 2))->Ok_0, lex(s));
        } else {
            lemma_ident_len_append(a.drop_first(), s);
            let n = 1 + ident_len(a.drop_first()) as int;
            crate::parser::parser::lemma_ident_len_bound(a.drop_first());
            assert(x.take(n) =~= a.take(n));
            assert(x.skip(n) =~= a.skip(n) + s);
            lemma_lex_append(a.skip(n), s);
            if ascii_lower(c) {
                lemma_prepend_prepend(seq![TokenModel::Atom(a.take(n))], lex(a.skip(n))->Ok_0, lex(s));
            } else {
                lemma_prepend_prepend(seq![TokenModel::Variable(a.take(n))], lex(a.skip(n))->Ok_0, lex(s));
            }
        }
    }
}

/// Two texts that lex without error, the first without a comment, joined by a space: the
/// tokens of the first, then those of the second.
pub proof fn law_lex_join_with_space(a: Seq<char>, b: Seq<char>)
    requires
        forall|i: int| 0 <= i < a.len() ==> a[i] != '%',
        lex(a) is Ok,
        lex(b) is Ok,
    ensures
        lex(a + seq![' '] + b) == Ok::<Seq<TokenModel>, ParseErrorModel>(lex(a)->Ok_0 + lex(b)->Ok_0),
{
    law_lex_join_with_blank(a, b, ' ');
}

/// A tab, a newline or a carriage return separates tokens exactly as a space does: two texts
/// that lex without error, the first without a comment, joined by any one of these characters,
/// give the tokens of the first, then those of the second.
pub proof fn law_lex_join_with_blank(a: Seq<char>, b: Seq<char>, c: char)
    requires
        c == ' ' || c == '\t' || c == '\n' || c == '\r',
        forall|i: int| 0 <= i < a.len() ==> a[i] != '%',
        lex(a) is Ok,
        lex(b) is Ok,
    ensures
        lex(seq![c] + b) == lex(b),
        lex(a + seq![c] + b) == Ok::<Seq<TokenModel>, ParseErrorModel>(lex(a)->Ok_0 + lex(b)->Ok_0),
        lex(a + seq![c] + b) == lex(a + seq![' '] + b),
{
    let s = seq![c] + b;
    assert(s.drop_first() =~= b);
    assert(lex(s) == lex(b));
    lemma_lex_append(a, s);
    assert(a + seq![c] + b =~= a + s);
    let s2 = seq![' '] + b;
    assert(s2.drop_first() =~= b);
    assert(lex(s2) == lex(b));
    lemma_lex_append(a, s2);
    assert(a + seq![' '] + b =~= a + s2);
}

} // verus!
