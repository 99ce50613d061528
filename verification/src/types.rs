//! Terms, facts, rules, knowledge bases, substitutions and proof trees.
use vstd::prelude::*;
use crate::text::{push_char, push_str, join, str_eq};

verus! {

broadcast use vstd::std_specs::vec::group_vec_axioms;

/// A logical term: an atom, a variable or a compound `functor(args..)`.
#[derive(Debug, PartialEq, Eq, Hash)]
pub enum Term {
    Atom(String),
    Variable(String),
    Compound { functor: String, args: Vec<Term> },
}

/// The mathematical value of a term.
pub enum TermModel {
    Atom(Seq<char>),
    Variable(Seq<char>),
    Compound(Seq<char>, Seq<TermModel>),
}

pub open spec fn term_model(t: &Term) -> TermModel
    decreases t,
{
    match t {
        Term::Atom(s) => TermModel::Atom(s@),
        Term::Variable(s) => TermModel::Variable(s@),
        Term::Compound { functor, args } => TermModel::Compound(functor@, terms_model(args@)),
    }
}

pub open spec fn terms_model(ts: Seq<Term>) -> Seq<TermModel>
    decreases ts,
{
    if ts.len() == 0 {
        Seq::empty()
    } else {
        terms_model(ts.drop_last()).push(term_model(&ts.last()))
    }
}

impl View for Term {
    type V = TermModel;

    open spec fn view(&self) -> TermModel {
        term_model(self)
    }
}

pub broadcast proof fn lemma_terms_model_len(ts: Seq<Term>)
    ensures
        #[trigger] terms_model(ts).len() == ts.len(),
    decreases ts.len(),
{
    if ts.len() > 0 {
        lemma_terms_model_len(ts.drop_last());
    }
}

pub broadcast proof fn lemma_terms_model_index(ts: Seq<Term>, i: int)
    requires
        0 <= i < ts.len(),
    ensures
        #[trigger] terms_model(ts)[i] == ts[i]@,
    decreases ts.len(),
{
    lemma_terms_model_len(ts);
    if i < ts.len() - 1 {
        lemma_terms_model_index(ts.drop_last(), i);
    }
}

pub broadcast group group_terms_model {
    lemma_terms_model_len,
    lemma_terms_model_index,
}

pub proof fn lemma_terms_model_ext(a: Seq<Term>, b: Seq<Term>)
    requires
        a.len() == b.len(),
        forall|j: int| 0 <= j < a.len() ==> #[trigger] a[j]@ == b[j]@,
    ensures
        terms_model(a) == terms_model(b),
{
    broadcast use group_terms_model;
    assert(terms_model(a) =~= terms_model(b));
}

/// The text of a term: `name` for atoms and variables, `f(a1, a2, ..)` for compounds.
pub open spec fn term_text(t: TermModel) -> Seq<char>
    decreases t,
{
    match t {
        TermModel::Atom(n) => n,
        TermModel::Variable(n) => n,
        TermModel::Compound(f, args) => f + seq!['('] + args_text(args) + seq![')'],
    }
}

/// The texts of the terms, separated by `", "`.
pub open spec fn args_text(args: Seq<TermModel>) -> Seq<char>
    decreases args,
{
    if args.len() == 0 {
        Seq::empty()
    } else if args.len() == 1 {
        term_text(args[0])
    } else {
        args_text(args.drop_last()) + seq![',', ' '] + term_text(args.last())
    }
}

impl Term {
    /// A copy of the term.
    pub fn deep_clone(&self) -> (r: Term)
        ensures
            r@ == self@,
        decreases self, 1nat,
    {
        match self {
            Term::Atom(s) => Term::Atom(s.clone()),
            Term::Variable(s) => Term::Variable(s.clone()),
            Term::Compound { functor, args } => {
                let out = clone_terms(args, self);
                Term::Compound { functor: functor.clone(), args: out }
            },
        }
    }

    /// Structural equality of two terms.
    pub fn equals(&self, other: &Term) -> (r: bool)
        ensures
            r == (self@ === other@),
        decreases self,
    {
        match self {
            Term::Atom(a) => match other {
                Term::Atom(b) => *a == *b,
                _ => false,
            },
            Term::Variable(a) => match other {
                Term::Variable(b) => *a == *b,
                _ => false,
            },
            Term::Compound { functor: f1, args: a1 } => match other {
                Term::Compound { functor: f2, args: a2 } => {
                    proof {
                        lemma_terms_model_len(a1@);
                        lemma_terms_model_len(a2@);
                    }
                    if !(*f1 == *f2) || a1.len() != a2.len() {
                        return false;
                    }
                    let mut i: usize = 0;
                    proof {
                        assert(decreases_to!(*self => *a1));
                    }
                    while i < a1.len()
                        invariant
                            decreases_to!(*self => *a1),
                            self@ === TermModel::Compound(f1@, terms_model(a1@)),
                            other@ === TermModel::Compound(f2@, terms_model(a2@)),
                            a1.len() == a2.len(),
                            i <= a1.len(),
                            forall|j: int| 0 <= j < i ==> #[trigger] a1@[j]@ == a2@[j]@,
                        decreases a1.len() - i,
                    {
                        proof {
                            assert(decreases_to!(*a1 => a1[i as int]));
                        }
                        if !a1[i].equals(&a2[i]) {
                            proof {
                                lemma_terms_model_index(a1@, i as int);
                                lemma_terms_model_index(a2@, i as int);
                                lemma_terms_model_len(a1@);
                                lemma_terms_model_len(a2@);
                            }
                            return false;
                        }
                        i += 1;
                    }
                    proof {
                        lemma_terms_model_ext(a1@, a2@);
                    }
                    true
                },
                _ => false,
            },
        }
    }

    /// The text of the term, as `term_text` describes it.
    pub fn to_string(&self) -> (r: String)
        ensures
            r@ == term_text(self@),
        decreases self, 1nat,
    {
        match self {
            Term::Atom(n) => n.clone(),
            Term::Variable(n) => n.clone(),
            Term::Compound { functor, args } => {
                let mut out = functor.clone();
                push_char(&mut out, '(');
                let inner = args_to_string(args, self);
                push_str(&mut out, inner.as_str());
                push_char(&mut out, ')');
                out
            },
        }
    }
}

fn clone_terms(args: &Vec<Term>, owner: &Term) -> (out: Vec<Term>)
    requires
        decreases_to!(*owner => *args),
    ensures
        terms_model(out@) == terms_model(args@),
        out@.len() == args@.len(),
    decreases owner, 0nat,
{
    broadcast use group_terms_model;
    let mut out: Vec<Term> = Vec::new();
    let mut i: usize = 0;
    while i < args.len()
        invariant
            decreases_to!(*owner => *args),
            i <= args.len(),
            out@.len() == i,
            forall|j: int| 0 <= j < i ==> #[trigger] out@[j]@ == args@[j]@,
        decreases args.len() - i,
    {
        proof {
            assert(decreases_to!(*args => args[i as int]));
            assert(decreases_to!(*owner => args[i as int]));
        }
        out.push(args[i].deep_clone());
        i += 1;
    }
    proof {
        lemma_terms_model_ext(out@, args@);
    }
    out
}

fn args_to_string(args: &Vec<Term>, owner: &Term) -> (r: String)
    requires
        decreases_to!(*owner => *args),
    ensures
        r@ == args_text(terms_model(args@)),
    decreases owner, 0nat,
{
    broadcast use group_terms_model;
    let mut out = String::new();
    let mut i: usize = 0;
    while i < args.len()
        invariant
            decreases_to!(*owner => *args),
            i <= args.len(),
            out@ == args_text(terms_model(args@.take(i as int))),
        decreases args.len() - i,
    {
        proof {
            assert(decreases_to!(*args => args[i as int]));
            assert(decreases_to!(*owner => args[i as int]));
        }
        let piece = args[i].to_string();
        if i > 0 {
            push_char(&mut out, ',');
            push_char(&mut out, ' ');
        }
        push_str(&mut out, piece.as_str());
        proof {
            let t = args@.take(i + 1);
            assert(t.drop_last() =~= args@.take(i as int));
            assert(t.last() == args@[i as int]);
            let m = terms_model(t);
            assert(m == terms_model(t.drop_last()).push(t.last()@));
            assert(m.drop_last() =~= terms_model(t.drop_last()));
            lemma_terms_model_len(t);
            if i == 0 {
                lemma_terms_model_index(t, 0);
            }
        }
        i += 1;
    }
    proof {
        assert(args@.take(args@.len() as int) =~= args@);
    }
    out
}

impl Clone for Term {
    fn clone(&self) -> (r: Term)
        ensures
            r@ == self@,
    {
        self.deep_clone()
    }
}

/// A fact: a term held to be true.
#[derive(Debug, PartialEq)]
pub struct Fact {
    pub term: Term,
}

impl View for Fact {
    type V = TermModel;

    open spec fn view(&self) -> TermModel {
        self.term@
    }
}

impl Clone for Fact {
    fn clone(&self) -> (r: Fact)
        ensures
            r@ == self@,
    {
        Fact { term: self.term.deep_clone() }
    }
}

impl Fact {
    /// The text of the fact: the text of its term.
    pub fn to_string(&self) -> (r: String)
        ensures
            r@ == term_text(self@),
    {
        self.term.to_string()
    }
}

/// A rule `head :- body[0], body[1], ..`.
#[derive(Debug, PartialEq)]
pub struct Rule {
    pub head: Term,
    pub body: Vec<Term>,
}

/// The mathematical value of a rule.
pub struct RuleModel {
    pub head: TermModel,
    pub body: Seq<TermModel>,
}

impl View for Rule {
    type V = RuleModel;

    open spec fn view(&self) -> RuleModel {
        RuleModel { head: self.head@, body: terms_model(self.body@) }
    }
}

/// The text of a rule: `head :- b1, b2`.
pub open spec fn rule_text(r: RuleModel) -> Seq<char> {
    term_text(r.head) + seq![' ', ':', '-', ' '] + args_text(r.body)
}

/// Text of each term of a sequence, joined by `sep`.
pub fn join_terms(ts: &Vec<Term>, sep: &str) -> (r: String)
    ensures
        r@ == join(terms_model(ts@).map_values(|t: TermModel| term_text(t)), sep@),
{
    broadcast use group_terms_model;
    let ghost texts = terms_model(ts@).map_values(|t: TermModel| term_text(t));
    let mut out = String::new();
    let mut i: usize = 0;
    while i < ts.len()
        invariant
            i <= ts.len(),
            texts == terms_model(ts@).map_values(|t: TermModel| term_text(t)),
            texts.len() == ts@.len(),
            out@ == join(texts.take(i as int), sep@),
        decreases ts.len() - i,
    {
        let piece = ts[i].to_string();
        if i > 0 {
            push_str(&mut out, sep);
        }
        push_str(&mut out, piece.as_str());
        proof {
            assert(texts.take(i + 1).drop_last() =~= texts.take(i as int));
            lemma_terms_model_index(ts@, i as int);
            assert(texts[i as int] == term_text(ts@[i as int]@));
        }
        i += 1;
    }
    proof {
        assert(texts.take(ts@.len() as int) =~= texts);
    }
    out
}

pub proof fn lemma_args_text_join(args: Seq<TermModel>)
    ensures
        args_text(args) == join(args.map_values(|t: TermModel| term_text(t)), seq![',', ' ']),
    decreases args.len(),
{
    let m = args.map_values(|t: TermModel| term_text(t));
    if args.len() > 1 {
        lemma_args_text_join(args.drop_last());
        assert(args.drop_last().map_values(|t: TermModel| term_text(t)) =~= m.drop_last());
    }
}

impl Clone for Rule {
    fn clone(&self) -> (r: Rule)
        ensures
            r@ == self@,
    {
        let mut body: Vec<Term> = Vec::new();
        let mut i: usize = 0;
        while i < self.body.len()
            invariant
                i <= self.body.len(),
                body@.len() == i,
                forall|j: int| 0 <= j < i ==> #[trigger] body@[j]@ == self.body@[j]@,
            decreases self.body.len() - i,
        {
            body.push(self.body[i].deep_clone());
            i += 1;
        }
        proof {
            lemma_terms_model_ext(body@, self.body@);
        }
        Rule { head: self.head.deep_clone(), body }
    }
}

impl Rule {
    /// Structural equality of two rules.
    pub fn equals(&self, other: &Rule) -> (r: bool)
        ensures
            r == (self@ === other@),
    {
        proof {
            lemma_terms_model_len(self.body@);
            lemma_terms_model_len(other.body@);
        }
        if !self.head.equals(&other.head) {
            return false;
        }
        if self.body.len() != other.body.len() {
            return false;
        }
        let mut i: usize = 0;
        while i < self.body.len()
            invariant
                self.body.len() == other.body.len(),
                i <= self.body.len(),
                forall|j: int| 0 <= j < i ==> #[trigger] self.body@[j]@ == other.body@[j]@,
            decreases self.body.len() - i,
        {
            if !self.body[i].equals(&other.body[i]) {
                proof {
                    lemma_terms_model_index(self.body@, i as int);
                    lemma_terms_model_index(other.body@, i as int);
                }
                return false;
            }
            i += 1;
        }
        proof {
            lemma_terms_model_ext(self.body@, other.body@);
        }
        true
    }

    /// The text of the rule: `head :- b1, b2`.
    pub fn to_string(&self) -> (r: String)
        ensures
            r@ == rule_text(self@),
    {
        let mut out = self.head.to_string();
        let sep = " :- ";
        proof {
            reveal_strlit(" :- ");
            reveal_strlit(", ");
            lemma_args_text_join(self@.body);
        }
        push_str(&mut out, sep);
        let body = join_terms(&self.body, ", ");
        push_str(&mut out, body.as_str());
        proof {
            assert(sep@ =~= seq![' ', ':', '-', ' ']);
            assert(", "@ =~= seq![',', ' ']);
        }
        out
    }
}

/// The mathematical value of a knowledge base.
pub struct KnowledgeBaseModel {
    pub facts: Seq<TermModel>,
    pub rules: Seq<RuleModel>,
}

/// The facts and rules known to the engine.
#[derive(Debug, PartialEq)]
pub struct KnowledgeBase {
    pub facts: Vec<Fact>,
    pub rules: Vec<Rule>,
}

impl View for KnowledgeBase {
    type V = KnowledgeBaseModel;

    open spec fn view(&self) -> KnowledgeBaseModel {
        KnowledgeBaseModel {
            facts: self.facts@.map_values(|f: Fact| f@),
            rules: self.rules@.map_values(|r: Rule| r@),
        }
    }
}

/// Adding a fact: it is appended unless it is already known.
pub open spec fn with_fact(facts: Seq<TermModel>, f: TermModel) -> Seq<TermModel> {
    if facts.contains(f) {
        facts
    } else {
        facts.push(f)
    }
}

/// Adding a rule: it is appended unless it is already known.
pub open spec fn with_rule(rules: Seq<RuleModel>, r: RuleModel) -> Seq<RuleModel> {
    if rules.contains(r) {
        rules
    } else {
        rules.push(r)
    }
}

/// No value occurs twice in the sequence.
pub open spec fn no_duplicates<A>(s: Seq<A>) -> bool {
    forall|i: int, j: int| 0 <= i < j < s.len() ==> s[i] != s[j]
}

/// Adding a value to a sequence the way `add_fact` and `add_rule` do (appending it unless it
/// is already there) keeps the sequence free of duplicates.
pub proof fn law_adding_keeps_no_duplicates<A>(s: Seq<A>, x: A)
    requires
        no_duplicates(s),
    ensures
        no_duplicates(if s.contains(x) { s } else { s.push(x) }),
{
    if !s.contains(x) {
        let t = s.push(x);
        assert forall|i: int, j: int| 0 <= i < j < t.len() implies t[i] != t[j] by {
            if j == s.len() {
                assert(t[i] == s[i]);
            }
        }
    }
}

impl KnowledgeBaseModel {
    /// Neither a fact nor a rule occurs twice.
    pub open spec fn well_formed(self) -> bool {
        no_duplicates(self.facts) && no_duplicates(self.rules)
    }
}

impl KnowledgeBase {
    /// An empty knowledge base.
    pub fn new() -> (kb: Self)
        ensures
            kb@.facts == Seq::<TermModel>::empty(),
            kb@.rules == Seq::<RuleModel>::empty(),
    {
        let kb = Self { facts: Vec::new(), rules: Vec::new() };
        proof {
            assert(kb@.facts =~= Seq::<TermModel>::empty());
            assert(kb@.rules =~= Seq::<RuleModel>::empty());
        }
        kb
    }

    /// Whether the term is one of the facts.
    pub fn has_fact(&self, t: &Term) -> (r: bool)
        ensures
            r == self@.facts.contains(t@),
    {
        let mut i: usize = 0;
        while i < self.facts.len()
            invariant
                i <= self.facts.len(),
                forall|j: int| 0 <= j < i ==> self.facts@[j]@ != t@,
            decreases self.facts.len() - i,
        {
            if self.facts[i].term.equals(t) {
                proof {
                    assert(self@.facts[i as int] == t@);
                }
                return true;
            }
            i += 1;
        }
        proof {
            if self@.facts.contains(t@) {
                let k = choose|k: int| 0 <= k < self@.facts.len() && self@.facts[k] == t@;
                assert(self.facts@[k]@ == t@);
            }
        }
        false
    }

    /// Whether the rule is one of the rules.
    pub fn has_rule(&self, rule: &Rule) -> (r: bool)
        ensures
            r == self@.rules.contains(rule@),
    {
        let mut i: usize = 0;
        while i < self.rules.len()
            invariant
                i <= self.rules.len(),
                forall|j: int| 0 <= j < i ==> self.rules@[j]@ != rule@,
            decreases self.rules.len() - i,
        {
            if self.rules[i].equals(rule) {
                proof {
                    assert(self@.rules[i as int] == rule@);
                }
                return true;
            }
            i += 1;
        }
        proof {
            if self@.rules.contains(rule@) {
                let k = choose|k: int| 0 <= k < self@.rules.len() && self@.rules[k] == rule@;
                assert(self.rules@[k]@ == rule@);
            }
        }
        false
    }

    /// Adds the fact unless it is already known; says whether it was added.
    pub fn add_fact(&mut self, fact: Fact) -> (added: bool)
        ensures
            added == !old(self)@.facts.contains(fact@),
            final(self)@.facts == with_fact(old(self)@.facts, fact@),
            final(self)@.rules == old(self)@.rules,
    {
        if self.has_fact(&fact.term) {
            false
        } else {
            let ghost f = fact@;
            self.facts.push(fact);
            proof {
                assert(self@.facts =~= old(self)@.facts.push(f));
            }
            true
        }
    }

    /// Adds the rule unless it is already known.
    pub fn add_rule(&mut self, rule: Rule)
        ensures
            final(self)@.rules == with_rule(old(self)@.rules, rule@),
            final(self)@.facts == old(self)@.facts,
    {
        if !self.has_rule(&rule) {
            let ghost r = rule@;
            self.rules.push(rule);
            proof {
                assert(self@.rules =~= old(self)@.rules.push(r));
            }
        }
    }
}

/// Text of each rule, joined by `sep`.
pub fn join_rules(rules: &Vec<Rule>, sep: &str) -> (r: String)
    ensures
        r@ == join(rules@.map_values(|r: Rule| rule_text(r@)), sep@),
{
    let ghost texts = rules@.map_values(|r: Rule| rule_text(r@));
    let mut out = String::new();
    let mut i: usize = 0;
    while i < rules.len()
        invariant
            i <= rules.len(),
            texts == rules@.map_values(|r: Rule| rule_text(r@)),
            out@ == join(texts.take(i as int), sep@),
        decreases rules.len() - i,
    {
        let piece = rules[i].to_string();
        if i > 0 {
            push_str(&mut out, sep);
        }
        push_str(&mut out, piece.as_str());
        proof {
            assert(texts.take(i + 1).drop_last() =~= texts.take(i as int));
        }
        i += 1;
    }
    proof {
        assert(texts.take(rules@.len() as int) =~= texts);
    }
    out
}

/// Text of each fact, joined by `sep`.
pub fn join_facts(facts: &Vec<Fact>, sep: &str) -> (r: String)
    ensures
        r@ == join(facts@.map_values(|f: Fact| term_text(f@)), sep@),
{
    let ghost texts = facts@.map_values(|f: Fact| term_text(f@));
    let mut out = String::new();
    let mut i: usize = 0;
    while i < facts.len()
        invariant
            i <= facts.len(),
            texts == facts@.map_values(|f: Fact| term_text(f@)),
            out@ == join(texts.take(i as int), sep@),
        decreases facts.len() - i,
    {
        let piece = facts[i].to_string();
        if i > 0 {
            push_str(&mut out, sep);
        }
        push_str(&mut out, piece.as_str());
        proof {
            assert(texts.take(i + 1).drop_last() =~= texts.take(i as int));
        }
        i += 1;
    }
    proof {
        assert(texts.take(facts@.len() as int) =~= texts);
    }
    out
}

/// `"Facts: \n\t"`
pub open spec fn facts_heading() -> Seq<char> {
    seq!['F', 'a', 'c', 't', 's', ':', ' ', '\n', '\t']
}

/// `"Rules: \n\t"`
pub open spec fn rules_heading() -> Seq<char> {
    seq!['R', 'u', 'l', 'e', 's', ':', ' ', '\n', '\t']
}

/// `"\n\t"`
pub open spec fn line_indent() -> Seq<char> {
    seq!['\n', '\t']
}

/// The text of a knowledge base: a `Facts:` section, a `Rules:` section, or `Empty`.
pub open spec fn knowledge_base_text(kb: KnowledgeBaseModel) -> Seq<char> {
    let facts = kb.facts.map_values(|t: TermModel| term_text(t));
    let rules = kb.rules.map_values(|r: RuleModel| rule_text(r));
    let facts_part = if facts.len() > 0 {
        facts_heading() + join(facts, line_indent())
    } else {
        Seq::empty()
    };
    if rules.len() > 0 {
        (if facts.len() > 0 { facts_part.push('\n') } else { facts_part }) + rules_heading() + join(
            rules,
            line_indent(),
        )
    } else if facts.len() == 0 {
        seq!['E', 'm', 'p', 't', 'y']
    } else {
        facts_part
    }
}

impl KnowledgeBase {
    /// The text of the knowledge base, as `knowledge_base_text` describes it.
    pub fn to_string(&self) -> (r: String)
        ensures
            r@ == knowledge_base_text(self@),
    {
        let ghost facts = self@.facts.map_values(|t: TermModel| term_text(t));
        let ghost rules = self@.rules.map_values(|r: RuleModel| rule_text(r));
        proof {
            reveal_strlit("Facts: \n\t");
            reveal_strlit("Rules: \n\t");
            reveal_strlit("\n\t");
            reveal_strlit("Empty");
            assert("Facts: \n\t"@ =~= facts_heading());
            assert("Rules: \n\t"@ =~= rules_heading());
            assert("\n\t"@ =~= line_indent());
            assert("Empty"@ =~= seq!['E', 'm', 'p', 't', 'y']);
            assert(self.facts@.map_values(|f: Fact| term_text(f@)) =~= facts);
            assert(self.rules@.map_values(|r: Rule| rule_text(r@)) =~= rules);
        }
        let mut res = String::new();
        if self.facts.len() > 0 {
            push_str(&mut res, "Facts: \n\t");
            let body = join_facts(&self.facts, "\n\t");
            push_str(&mut res, body.as_str());
        }
        if self.rules.len() > 0 {
            if self.facts.len() > 0 {
                push_char(&mut res, '\n');
            }
            push_str(&mut res, "Rules: \n\t");
            let body = join_rules(&self.rules, "\n\t");
            push_str(&mut res, body.as_str());
        } else if self.facts.len() == 0 {
            push_str(&mut res, "Empty");
        }
        res
    }
}

impl Clone for KnowledgeBase {
    fn clone(&self) -> (r: KnowledgeBase)
        ensures
            r@ == self@,
    {
        let mut facts: Vec<Fact> = Vec::new();
        let mut i: usize = 0;
        while i < self.facts.len()
            invariant
                i <= self.facts.len(),
                facts@.len() == i,
                forall|j: int| 0 <= j < i ==> #[trigger] facts@[j]@ == self.facts@[j]@,
            decreases self.facts.len() - i,
        {
            facts.push(self.facts[i].clone());
            i += 1;
        }
        let mut rules: Vec<Rule> = Vec::new();
        let mut k: usize = 0;
        while k < self.rules.len()
            invariant
                k <= self.rules.len(),
                rules@.len() == k,
                forall|j: int| 0 <= j < k ==> #[trigger] rules@[j]@ == self.rules@[j]@,
            decreases self.rules.len() - k,
        {
            rules.push(self.rules[k].clone());
            k += 1;
        }
        let r = KnowledgeBase { facts, rules };
        proof {
            assert(r@.facts =~= self@.facts);
            assert(r@.rules =~= self@.rules);
        }
        r
    }
}

/// A proof of `goal`: from a fact (no rule, no subgoals) or from a rule and proofs of
/// its instantiated body.
#[derive(Debug, PartialEq)]
pub struct ProofTree {
    pub goal: Term,
    pub subgoals: Vec<ProofTree>,
    pub rule_used: Option<String>,
}

/// The mathematical value of a proof tree.
pub struct ProofTreeModel {
    pub goal: TermModel,
    pub subgoals: Seq<ProofTreeModel>,
    pub rule_used: Option<Seq<char>>,
}

pub open spec fn proof_model(p: &ProofTree) -> ProofTreeModel
    decreases p,
{
    ProofTreeModel {
        goal: p.goal@,
        subgoals: proofs_model(p.subgoals@),
        rule_used: match p.rule_used {
            Some(s) => Some(s@),
            None => None,
        },
    }
}

pub open spec fn proofs_model(ps: Seq<ProofTree>) -> Seq<ProofTreeModel>
    decreases ps,
{
    if ps.len() == 0 {
        Seq::empty()
    } else {
        proofs_model(ps.drop_last()).push(proof_model(&ps.last()))
    }
}

impl View for ProofTree {
    type V = ProofTreeModel;

    open spec fn view(&self) -> ProofTreeModel {
        proof_model(self)
    }
}

pub proof fn lemma_proofs_model_len(ps: Seq<ProofTree>)
    ensures
        proofs_model(ps).len() == ps.len(),
    decreases ps.len(),
{
    if ps.len() > 0 {
        lemma_proofs_model_len(ps.drop_last());
    }
}

pub proof fn lemma_proofs_model_index(ps: Seq<ProofTree>, i: int)
    requires
        0 <= i < ps.len(),
    ensures
        proofs_model(ps)[i] == ps[i]@,
    decreases ps.len(),
{
    lemma_proofs_model_len(ps);
    if i < ps.len() - 1 {
        lemma_proofs_model_index(ps.drop_last(), i);
    }
}

pub proof fn lemma_proofs_model_push(ps: Seq<ProofTree>, p: ProofTree)
    ensures
        proofs_model(ps.push(p)) == proofs_model(ps).push(p@),
{
    assert(ps.push(p).drop_last() =~= ps);
}

/// The map from names to texts that a sequence of bindings describes (a later binding of a
/// name replaces an earlier one).
pub open spec fn bindings_map(b: Seq<(Seq<char>, Seq<char>)>) -> Map<Seq<char>, Seq<char>>
    decreases b.len(),
{
    if b.len() == 0 {
        Map::empty()
    } else {
        bindings_map(b.drop_last()).insert(b.last().0, b.last().1)
    }
}

/// A substitution: variable names bound to the texts of terms.
#[derive(Debug)]
pub struct Substitution {
    bindings: Vec<(String, String)>,
}

pub open spec fn pair_view(p: (String, String)) -> (Seq<char>, Seq<char>) {
    (p.0@, p.1@)
}

impl Substitution {
    /// The bindings, in the order in which they were made.
    pub closed spec fn entries(self) -> Seq<(Seq<char>, Seq<char>)> {
        self.bindings@.map_values(|p: (String, String)| pair_view(p))
    }

    #[verifier::type_invariant]
    closed spec fn keys_distinct(self) -> bool {
        forall|i: int, j: int|
            0 <= i < j < self.bindings@.len() ==> #[trigger] self.bindings@[i].0@ != #[trigger] self.bindings@[j].0@
    }
}

impl View for Substitution {
    type V = Map<Seq<char>, Seq<char>>;

    closed spec fn view(&self) -> Map<Seq<char>, Seq<char>> {
        bindings_map(self.entries())
    }
}

pub proof fn lemma_bindings_map_contains(b: Seq<(Seq<char>, Seq<char>)>, k: Seq<char>)
    ensures
        bindings_map(b).contains_key(k) <==> exists|i: int| 0 <= i < b.len() && #[trigger] b[i].0 == k,
    decreases b.len(),
{
    if b.len() > 0 {
        lemma_bindings_map_contains(b.drop_last(), k);
        if bindings_map(b).contains_key(k) && b.last().0 != k {
            let i = choose|i: int| 0 <= i < b.len() - 1 && #[trigger] b.drop_last()[i].0 == k;
            assert(b[i].0 == k);
        }
        if exists|i: int| 0 <= i < b.len() && #[trigger] b[i].0 == k {
            let i = choose|i: int| 0 <= i < b.len() && #[trigger] b[i].0 == k;
            if i < b.len() - 1 {
                assert(b.drop_last()[i].0 == k);
            }
        }
    }
}

pub proof fn lemma_bindings_map_value(b: Seq<(Seq<char>, Seq<char>)>, i: int)
    requires
        0 <= i < b.len(),
        forall|x: int, y: int| 0 <= x < y < b.len() ==> #[trigger] b[x].0 != #[trigger] b[y].0,
    ensures
        bindings_map(b).contains_key(b[i].0),
        bindings_map(b)[b[i].0] == b[i].1,
    decreases b.len(),
{
    if i < b.len() - 1 {
        let d = b.drop_last();
        assert forall|x: int, y: int| 0 <= x < y < d.len() implies #[trigger] d[x].0 != #[trigger] d[y].0 by {
            assert(d[x] == b[x] && d[y] == b[y]);
        }
        lemma_bindings_map_value(d, i);
        assert(b[i].0 != b[b.len() - 1].0);
    }
}

proof fn lemma_bindings_map_update(b: Seq<(Seq<char>, Seq<char>)>, i: int, v: Seq<char>)
    requires
        0 <= i < b.len(),
        forall|x: int, y: int| 0 <= x < y < b.len() ==> #[trigger] b[x].0 != #[trigger] b[y].0,
    ensures
        bindings_map(b.update(i, (b[i].0, v))) == bindings_map(b).insert(b[i].0, v),
    decreases b.len(),
{
    let u = b.update(i, (b[i].0, v));
    if i == b.len() - 1 {
        assert(u.drop_last() =~= b.drop_last());
        assert(bindings_map(u) =~= bindings_map(b).insert(b[i].0, v));
    } else {
        let d = b.drop_last();
        assert forall|x: int, y: int| 0 <= x < y < d.len() implies #[trigger] d[x].0 != #[trigger] d[y].0 by {
            assert(d[x] == b[x] && d[y] == b[y]);
        }
        lemma_bindings_map_update(d, i, v);
        assert(u.drop_last() =~= d.update(i, (d[i].0, v)));
        assert(b[i].0 != b.last().0);
        assert(bindings_map(u) =~= bindings_map(b).insert(b[i].0, v));
    }
}

impl Substitution {
    /// The empty substitution.
    pub fn new() -> (s: Substitution)
        ensures
            s@ == Map::<Seq<char>, Seq<char>>::empty(),
            s.entries().len() == 0,
    {
        let s = Substitution { bindings: Vec::new() };
        proof {
            assert(s.entries() =~= Seq::<(Seq<char>, Seq<char>)>::empty());
        }
        s
    }

    fn find(&self, key: &str) -> (r: Option<usize>)
        ensures
            match r {
                Some(i) => i < self.bindings@.len() && self.bindings@[i as int].0@ == key@,
                None => forall|i: int| 0 <= i < self.bindings@.len() ==> self.bindings@[i].0@ != key@,
            },
    {
        let mut i: usize = 0;
        while i < self.bindings.len()
            invariant
                i <= self.bindings@.len(),
                forall|j: int| 0 <= j < i ==> self.bindings@[j].0@ != key@,
            decreases self.bindings.len() - i,
        {
            if str_eq(self.bindings[i].0.as_str(), key) {
                return Some(i);
            }
            i += 1;
        }
        None
    }

    /// The text bound to `key`, if any.
    pub fn get(&self, key: &str) -> (r: Option<&String>)
        ensures
            match r {
                Some(v) => self@.contains_key(key@) && self@[key@] == v@,
                None => !self@.contains_key(key@),
            },
    {
        proof {
            use_type_invariant(self);
            lemma_bindings_map_contains(self.entries(), key@);
        }
        match self.find(key) {
            Some(i) => {
                proof {
                    assert(self.entries()[i as int] == pair_view(self.bindings@[i as int]));
                    lemma_bindings_map_value(self.entries(), i as int);
                }
                Some(&self.bindings[i].1)
            },
            None => {
                proof {
                    if self@.contains_key(key@) {
                        let j = choose|j: int| 0 <= j < self.entries().len() && #[trigger] self.entries()[j].0 == key@;
                        assert(self.entries()[j] == pair_view(self.bindings@[j]));
                    }
                }
                None
            },
        }
    }

    /// Binds `key` to `value`, replacing any earlier binding of `key`.
    pub fn insert(&mut self, key: String, value: String)
        ensures
            final(self)@ == old(self)@.insert(key@, value@),
    {
        proof {
            use_type_invariant(&*self);
        }
        match self.find(key.as_str()) {
            Some(i) => {
                let ghost e = self.entries();
                let ghost k = key@;
                let ghost v = value@;
                let mut b = Vec::new();
                std::mem::swap(&mut b, &mut self.bindings);
                b.set(i, (key, value));
                self.bindings = b;
                proof {
                    assert(e[i as int].0 == k);
                    lemma_bindings_map_update(e, i as int, v);
                    assert(self.entries() =~= e.update(i as int, (k, v)));
                }
            },
            None => {
                let ghost e = self.entries();
                let ghost k = key@;
                let ghost v = value@;
                let mut b = Vec::new();
                std::mem::swap(&mut b, &mut self.bindings);
                b.push((key, value));
                self.bindings = b;
                proof {
                    assert(self.entries() =~= e.push((k, v)));
                    assert(self.entries().drop_last() =~= e);
                }
            },
        }
    }

    /// A copy of the substitution.
    pub fn duplicate(&self) -> (r: Substitution)
        ensures
            r@ == self@,
            r.entries() == self.entries(),
    {
        proof {
            use_type_invariant(self);
        }
        let mut b: Vec<(String, String)> = Vec::new();
        let mut i: usize = 0;
        while i < self.bindings.len()
            invariant
                i <= self.bindings@.len(),
                b@.len() == i,
                forall|j: int| 0 <= j < i ==> #[trigger] pair_view(b@[j]) == pair_view(self.bindings@[j]),
            decreases self.bindings.len() - i,
        {
            let k = self.bindings[i].0.clone();
            let v = self.bindings[i].1.clone();
            b.push((k, v));
            i += 1;
        }
        proof {
            assert forall|x: int, y: int| 0 <= x < y < b@.len() implies #[trigger] b@[x].0@ != #[trigger] b@[y].0@ by {
                assert(pair_view(b@[x]) == pair_view(self.bindings@[x]));
                assert(pair_view(b@[y]) == pair_view(self.bindings@[y]));
            }
        }
        let r = Substitution { bindings: b };
        proof {
            assert(r.entries() =~= self.entries());
        }
        r
    }

    /// The number of bindings; the view is the map that the bindings describe, and no name is
    /// bound twice.
    pub fn len(&self) -> (n: usize)
        ensures
            n == self.entries().len(),
            self@ == bindings_map(self.entries()),
            forall|x: int, y: int|
                0 <= x < y < self.entries().len() ==> #[trigger] self.entries()[x].0 != #[trigger] self.entries()[y].0,
    {
        proof {
            use_type_invariant(self);
            assert forall|x: int, y: int|
                0 <= x < y < self.entries().len() implies #[trigger] self.entries()[x].0 != #[trigger] self.entries()[y].0 by {
                assert(self.entries()[x] == pair_view(self.bindings@[x]));
                assert(self.entries()[y] == pair_view(self.bindings@[y]));
            }
        }
        self.bindings.len()
    }

    /// The `i`-th binding, in the order in which they were made.
    pub fn binding(&self, i: usize) -> (r: (&String, &String))
        requires
            i < self.entries().len(),
        ensures
            (r.0@, r.1@) == self.entries()[i as int],
    {
        (&self.bindings[i].0, &self.bindings[i].1)
    }
}

impl Clone for Substitution {
    fn clone(&self) -> (r: Substitution)
        ensures
            r@ == self@,
    {
        self.duplicate()
    }
}

} // verus!
