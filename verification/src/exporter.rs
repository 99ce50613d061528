//! Export of a knowledge base as Prolog-like text.
//!
//! Three formats: `Compact` (one clause per line, readable back by the parser), `Pretty`
//! (commented sections with counts) and `Prolog` (a module header, then the clauses).
use vstd::prelude::*;
use crate::text::{push_char, push_str, join};
use crate::types::{Term, Fact, Rule, KnowledgeBase, KnowledgeBaseModel, TermModel, RuleModel, term_text, rule_text};

verus! {

/// The three export formats.
#[derive(Debug, Clone, Copy, PartialEq, Eq, Structural)]
pub enum ExportFormat {
    /// One clause per line, no comments: readable back by the parser.
    Compact,
    /// Commented sections, facts and rules apart, with counts.
    Pretty,
    /// A Prolog module header, then the clauses.
    Prolog,
}

impl Default for ExportFormat {
    fn default() -> (f: ExportFormat)
        ensures
            f == ExportFormat::Compact,
    {
        ExportFormat::Compact
    }
}

/// The clause that states a fact: `term.`
pub open spec fn fact_clause(t: TermModel) -> Seq<char> {
    term_text(t).push('.')
}

/// The clause that states a rule: `head :- b1, b2.`
pub open spec fn rule_clause(r: RuleModel) -> Seq<char> {
    rule_text(r).push('.')
}

/// The clauses of a knowledge base: its facts, then its rules.
pub open spec fn clauses(kb: KnowledgeBaseModel) -> Seq<Seq<char>> {
    kb.facts.map_values(|t: TermModel| fact_clause(t)) + kb.rules.map_values(|r: RuleModel| rule_clause(r))
}

/// Each line followed by a newline.
pub open spec fn lines_text(lines: Seq<Seq<char>>) -> Seq<char>
    decreases lines.len(),
{
    if lines.len() == 0 {
        Seq::empty()
    } else {
        lines_text(lines.drop_last()) + lines.last().push('\n')
    }
}

/// The decimal digits of `n`.
pub open spec fn decimal(n: nat) -> Seq<char>
    decreases n,
{
    if n < 10 {
        seq![digit(n)]
    } else {
        decimal(n / 10).push(digit(n % 10))
    }
}

/// The character of a decimal digit.
pub open spec fn digit(d: nat) -> char {
    (48 + d) as char
}

/// The compact export: the clauses, one per line.
pub open spec fn compact_text(kb: KnowledgeBaseModel) -> Seq<char> {
    join(clauses(kb), seq!['\n'])
}

/// The header of the pretty export, with the counts of facts and rules and their total.
pub open spec fn pretty_header(facts: nat, rules: nat) -> Seq<char> {
    "% ── Knowledge Base ────────────────────────────────────\n% Facts : "@ + decimal(facts) + "  |  Rules : "@ + decimal(rules) + "  |  Total : "@ + decimal(facts + rules) + "\n% ──────────────────────────────────────────────────────\n\n"@
}

/// The second line of the pretty export counts the facts, the rules and, after `Total : `,
/// the number of facts plus the number of rules, in decimal.
pub proof fn law_pretty_total(kb: KnowledgeBaseModel)
    ensures
        ("% ── Knowledge Base ────────────────────────────────────\n% Facts : "@ + decimal(
            kb.facts.len(),
        ) + "  |  Rules : "@ + decimal(kb.rules.len()) + "  |  Total : "@ + decimal(
            kb.facts.len() + kb.rules.len(),
        ) + "\n"@).is_prefix_of(pretty_text(kb)),
{
    let head = "% ── Knowledge Base ────────────────────────────────────\n% Facts : "@
        + decimal(kb.facts.len()) + "  |  Rules : "@ + decimal(kb.rules.len())
        + "  |  Total : "@ + decimal(kb.facts.len() + kb.rules.len());
    let rest = "% ──────────────────────────────────────────────────────\n\n"@ + pretty_text(kb).skip(
        pretty_header(kb.facts.len(), kb.rules.len()).len() as int,
    );
    reveal_strlit("\n");
    reveal_strlit("\n% ──────────────────────────────────────────────────────\n\n");
    reveal_strlit("% ──────────────────────────────────────────────────────\n\n");
    assert(pretty_text(kb) =~= head + "\n"@ + rest);
    assert((head + "\n"@) =~= pretty_text(kb).subrange(0, (head + "\n"@).len() as int));
}

/// The pretty export: the header, then a commented section of facts and one of rules, each
/// present only when it is not empty.
pub open spec fn pretty_text(kb: KnowledgeBaseModel) -> Seq<char> {
    let facts = kb.facts.map_values(|t: TermModel| fact_clause(t));
    let rules = kb.rules.map_values(|r: RuleModel| rule_clause(r));
    pretty_header(kb.facts.len(), kb.rules.len()) + (if facts.len() > 0 {
        "% --- Facts ---\n"@ + lines_text(facts) + seq!['\n']
    } else {
        Seq::empty()
    }) + (if rules.len() > 0 {
        "% --- Rules ---\n"@ + lines_text(rules)
    } else {
        Seq::empty()
    })
}

/// The Prolog export: a module header, the facts, a blank line, the rules.
pub open spec fn prolog_text(kb: KnowledgeBaseModel) -> Seq<char> {
    let facts = kb.facts.map_values(|t: TermModel| fact_clause(t));
    let rules = kb.rules.map_values(|r: RuleModel| rule_clause(r));
    ":- module(knowledge_base, []).\n\n"@ + (if facts.len() > 0 {
        lines_text(facts) + seq!['\n']
    } else {
        Seq::empty()
    }) + (if rules.len() > 0 {
        lines_text(rules)
    } else {
        Seq::empty()
    })
}

/// The text of a term: `name`, or `functor(a1, a2)`.
pub fn export_term(term: &Term) -> (r: String)
    ensures
        r@ == term_text(term@),
{
    term.to_string()
}

/// The clause of a fact: `functor(args).`
pub fn export_fact(fact: &Fact) -> (r: String)
    ensures
        r@ == fact_clause(fact@),
{
    let mut out = export_term(&fact.term);
    push_char(&mut out, '.');
    out
}

/// The clause of a rule: `head :- cond1, cond2.`
pub fn export_rule(rule: &Rule) -> (r: String)
    ensures
        r@ == rule_clause(rule@),
{
    let mut out = rule.to_string();
    push_char(&mut out, '.');
    out
}

/// Exports the knowledge base in the given format.
pub fn export_knowledge_base_fmt(kb: &KnowledgeBase, format: ExportFormat) -> (r: String)
    ensures
        r@ == (match format {
            ExportFormat::Compact => compact_text(kb@),
            ExportFormat::Pretty => pretty_text(kb@),
            ExportFormat::Prolog => prolog_text(kb@),
        }),
{
    match format {
        ExportFormat::Compact => export_compact(kb),
        ExportFormat::Pretty => export_pretty(kb),
        ExportFormat::Prolog => export_prolog(kb),
    }
}

/// Exports the knowledge base in the compact format, the one the parser reads back.
pub fn export_knowledge_base(kb: &KnowledgeBase) -> (r: String)
    ensures
        r@ == compact_text(kb@),
{
    export_compact(kb)
}

/// The clauses, one per line.
fn export_compact(kb: &KnowledgeBase) -> (r: String)
    ensures
        r@ == compact_text(kb@),
{
    let ghost all = clauses(kb@);
    let ghost nf = kb.facts@.len();
    let mut out = String::new();
    let mut i: usize = 0;
    while i < kb.facts.len()
        invariant
            i <= kb.facts.len(),
            nf == kb.facts@.len(),
            all == clauses(kb@),
            out@ == join(all.take(i as int), seq!['\n']),
        decreases kb.facts.len() - i,
    {
        let line = export_fact(&kb.facts[i]);
        if i > 0 {
            push_char(&mut out, '\n');
        }
        push_str(&mut out, line.as_str());
        proof {
            assert(all.take(i + 1).drop_last() =~= all.take(i as int));
            assert(all[i as int] == fact_clause(kb@.facts[i as int]));
        }
        i += 1;
    }
    let mut k: usize = 0;
    while k < kb.rules.len()
        invariant
            k <= kb.rules.len(),
            nf == kb.facts@.len(),
            all == clauses(kb@),
            out@ == join(all.take(nf + k), seq!['\n']),
        decreases kb.rules.len() - k,
    {
        let line = export_rule(&kb.rules[k]);
        if kb.facts.len() > 0 || k > 0 {
            push_char(&mut out, '\n');
        }
        push_str(&mut out, line.as_str());
        proof {
            assert(all.take(nf + k + 1).drop_last() =~= all.take(nf + k));
            assert(all[nf + k] == rule_clause(kb@.rules[k as int]));
        }
        k += 1;
    }
    proof {
        assert(all.take(nf + kb.rules@.len() as int) =~= all);
    }
    out
}

/// The decimal text of `n`.
pub fn decimal_string(n: u128) -> (r: String)
    ensures
        r@ == decimal(n as nat),
    decreases n,
{
    if n < 10 {
        let mut s = String::new();
        push_char(&mut s, digit_char(n));
        s
    } else {
        let mut s = decimal_string(n / 10);
        push_char(&mut s, digit_char(n % 10));
        s
    }
}

fn digit_char(d: u128) -> (c: char)
    requires
        d < 10,
    ensures
        c == digit(d as nat),
{
    if d == 0 {
        '0'
    } else if d == 1 {
        '1'
    } else if d == 2 {
        '2'
    } else if d == 3 {
        '3'
    } else if d == 4 {
        '4'
    } else if d == 5 {
        '5'
    } else if d == 6 {
        '6'
    } else if d == 7 {
        '7'
    } else if d == 8 {
        '8'
    } else {
        '9'
    }
}

/// Appends each fact clause followed by a newline.
fn push_fact_lines(out: &mut String, kb: &KnowledgeBase)
    ensures
        final(out)@ == old(out)@ + lines_text(kb@.facts.map_values(|t: TermModel| fact_clause(t))),
{
    let ghost lines = kb@.facts.map_values(|t: TermModel| fact_clause(t));
    let ghost start = out@;
    let mut i: usize = 0;
    while i < kb.facts.len()
        invariant
            i <= kb.facts.len(),
            lines == kb@.facts.map_values(|t: TermModel| fact_clause(t)),
            out@ == start + lines_text(lines.take(i as int)),
        decreases kb.facts.len() - i,
    {
        let line = export_fact(&kb.facts[i]);
        push_str(out, line.as_str());
        push_char(out, '\n');
        proof {
            assert(lines.take(i + 1).drop_last() =~= lines.take(i as int));
            assert(lines[i as int] == fact_clause(kb@.facts[i as int]));
        }
        i += 1;
    }
    proof {
        assert(lines.take(kb.facts@.len() as int) =~= lines);
    }
}

/// Appends each rule clause followed by a newline.
fn push_rule_lines(out: &mut String, kb: &KnowledgeBase)
    ensures
        final(out)@ == old(out)@ + lines_text(kb@.rules.map_values(|r: RuleModel| rule_clause(r))),
{
    let ghost lines = kb@.rules.map_values(|r: RuleModel| rule_clause(r));
    let ghost start = out@;
    let mut i: usize = 0;
    while i < kb.rules.len()
        invariant
            i <= kb.rules.len(),
            lines == kb@.rules.map_values(|r: RuleModel| rule_clause(r)),
            out@ == start + lines_text(lines.take(i as int)),
        decreases kb.rules.len() - i,
    {
        let line = export_rule(&kb.rules[i]);
        push_str(out, line.as_str());
        push_char(out, '\n');
        proof {
            assert(lines.take(i + 1).drop_last() =~= lines.take(i as int));
            assert(lines[i as int] == rule_clause(kb@.rules[i as int]));
        }
        i += 1;
    }
    proof {
        assert(lines.take(kb.rules@.len() as int) =~= lines);
    }
}

/// The pretty export.
fn export_pretty(kb: &KnowledgeBase) -> (r: String)
    ensures
        r@ == pretty_text(kb@),
{
    let nf = kb.facts.len() as u128;
    let nr = kb.rules.len() as u128;
    let mut out = String::new();
    push_str(&mut out, "% ── Knowledge Base ────────────────────────────────────\n% Facts : ");
    let t = decimal_string(nf);
    push_str(&mut out, t.as_str());
    push_str(&mut out, "  |  Rules : ");
    let t = decimal_string(nr);
    push_str(&mut out, t.as_str());
    push_str(&mut out, "  |  Total : ");
    let t = decimal_string(nf + nr);
    push_str(&mut out, t.as_str());
    push_str(&mut out, "\n% ──────────────────────────────────────────────────────\n\n");
    let ghost header = out@;
    if kb.facts.len() > 0 {
        push_str(&mut out, "% --- Facts ---\n");
        push_fact_lines(&mut out, kb);
        push_char(&mut out, '\n');
    }
    let ghost middle = out@;
    if kb.rules.len() > 0 {
        push_str(&mut out, "% --- Rules ---\n");
        push_rule_lines(&mut out, kb);
    }
    proof {
        assert(header =~= pretty_header(kb@.facts.len(), kb@.rules.len()));
    }
    out
}

/// The Prolog export.
fn export_prolog(kb: &KnowledgeBase) -> (r: String)
    ensures
        r@ == prolog_text(kb@),
{
    let mut out = String::new();
    push_str(&mut out, ":- module(knowledge_base, []).\n\n");
    if kb.facts.len() > 0 {
        push_fact_lines(&mut out, kb);
        push_char(&mut out, '\n');
    }
    if kb.rules.len() > 0 {
        push_rule_lines(&mut out, kb);
    }
    out
}

} // verus!
