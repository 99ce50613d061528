//! Backward chaining: a goal is proved from a fact, or from a rule whose head unifies with it
//! and whose body is proved in turn.
use vstd::prelude::*;
use crate::text::{push_char, push_str};
use crate::types::{
    Term, TermModel, Fact, Rule, RuleModel, KnowledgeBase, KnowledgeBaseModel, ProofTree, ProofTreeModel, Substitution,
    terms_model, proofs_model, lemma_terms_model_len, lemma_terms_model_index, lemma_proofs_model_push,
};
use crate::engine::unification::{
    unify, unify_spec, apply_substitution, apply_spec, apply_args_spec, law_apply_empty, law_apply_idempotent,
};
use crate::engine::forward::facts_view;

verus! {

broadcast use vstd::std_specs::vec::group_vec_axioms, crate::types::group_terms_model;

/// The text of a term in a proof tree: like `term_text`, except that a compound without
/// arguments is written as its bare functor.
pub open spec fn format_term_spec(t: TermModel) -> Seq<char>
    decreases t,
{
    match t {
        TermModel::Atom(n) => n,
        TermModel::Variable(n) => n,
        TermModel::Compound(f, args) => if args.len() == 0 {
            f
        } else {
            f + seq!['('] + format_args_spec(args) + seq![')']
        },
    }
}

/// The texts of the terms (as `format_term_spec` writes them), separated by `", "`.
pub open spec fn format_args_spec(args: Seq<TermModel>) -> Seq<char>
    decreases args,
{
    if args.len() == 0 {
        Seq::empty()
    } else if args.len() == 1 {
        format_term_spec(args[0])
    } else {
        format_args_spec(args.drop_last()) + seq![',', ' '] + format_term_spec(args.last())
    }
}

/// The text of a rule in a proof tree: `head.` for a rule without body, else
/// `head :- b1, b2.`.
pub open spec fn format_rule_spec(r: RuleModel) -> Seq<char> {
    if r.body.len() == 0 {
        format_term_spec(r.head) + seq!['.']
    } else {
        format_term_spec(r.head) + seq![' ', ':', '-', ' '] + format_args_spec(r.body) + seq!['.']
    }
}

/// Writes a term as `format_term_spec` says.
pub fn format_term(term: &Term) -> (r: String)
    ensures
        r@ == format_term_spec(term@),
    decreases term, 1nat,
{
    match term {
        Term::Atom(c) => c.clone(),
        Term::Variable(v) => v.clone(),
        Term::Compound { functor, args } => {
            proof {
                lemma_terms_model_len(args@);
            }
            if args.len() == 0 {
                functor.clone()
            } else {
                let mut out = functor.clone();
                push_char(&mut out, '(');
                let inner = format_args(args, term);
                push_str(&mut out, inner.as_str());
                push_char(&mut out, ')');
                out
            }
        },
    }
}

fn format_args(args: &Vec<Term>, owner: &Term) -> (r: String)
    requires
        decreases_to!(*owner => *args),
    ensures
        r@ == format_args_spec(terms_model(args@)),
    decreases owner, 0nat,
{
    let mut out = String::new();
    let mut i: usize = 0;
    while i < args.len()
        invariant
            decreases_to!(*owner => *args),
            i <= args.len(),
            out@ == format_args_spec(terms_model(args@.take(i as int))),
        decreases args.len() - i,
    {
        proof {
            assert(decreases_to!(*args => args[i as int]));
            assert(decreases_to!(*owner => args[i as int]));
        }
        let piece = format_term(&args[i]);
        if i > 0 {
            push_char(&mut out, ',');
            push_char(&mut out, ' ');
        }
        push_str(&mut out, piece.as_str());
        proof {
            let t = args@.take(i + 1);
            assert(t.drop_last() =~= args@.take(i as int));
            assert(t.last() == args@[i as int]);
            let m = terms_model(t);
            assert(m == terms_model(t.drop_last()).push(t.last()@));
            assert(m.drop_last() =~= terms_model(t.drop_last()));
            lemma_terms_model_len(t);
            if i == 0 {
                lemma_terms_model_index(t, 0);
            }
        }
        i += 1;
    }
    proof {
        assert(args@.take(args@.len() as int) =~= args@);
    }
    out
}

/// Writes a rule as `format_rule_spec` says.
pub fn format_rule(rule: &Rule) -> (r: String)
    ensures
        r@ == format_rule_spec(rule@),
{
    let head_str = format_term(&rule.head);
    proof {
        lemma_terms_model_len(rule.body@);
    }
    let mut out = head_str;
    if rule.body.len() == 0 {
        push_char(&mut out, '.');
    } else {
        let body_str = join_formatted(&rule.body);
        proof {
            reveal_strlit(" :- ");
        }
        push_str(&mut out, " :- ");
        push_str(&mut out, body_str.as_str());
        push_char(&mut out, '.');
    }
    out
}

fn join_formatted(ts: &Vec<Term>) -> (r: String)
    ensures
        r@ == format_args_spec(terms_model(ts@)),
{
    let mut out = String::new();
    let mut i: usize = 0;
    while i < ts.len()
        invariant
            i <= ts.len(),
            out@ == format_args_spec(terms_model(ts@.take(i as int))),
        decreases ts.len() - i,
    {
        let piece = format_term(&ts[i]);
        if i > 0 {
            proof {
                reveal_strlit(", ");
            }
            push_str(&mut out, ", ");
        }
        push_str(&mut out, piece.as_str());
        proof {
            let t = ts@.take(i + 1);
            assert(t.drop_last() =~= ts@.take(i as int));
            assert(t.last() == ts@[i as int]);
            let m = terms_model(t);
            assert(m == terms_model(t.drop_last()).push(t.last()@));
            assert(m.drop_last() =~= terms_model(t.drop_last()));
            lemma_terms_model_len(t);
            if i == 0 {
                lemma_terms_model_index(t, 0);
            }
        }
        i += 1;
    }
    proof {
        assert(ts@.take(ts@.len() as int) =~= ts@);
    }
    out
}

/// What a search gives when it ends: the proof found, if any, and the goals tried by then.
pub type Found = (Option<ProofTreeModel>, Seq<TermModel>);

/// The search for a proof of `goal` under `subst`, with the goals already tried in `visited`.
/// The goal is first instantiated by `subst`; a goal already tried fails; otherwise it is
/// recorded as tried, and it is proved by a fact equal to it, or else by the first rule, in
/// order, that proves it (`try_rules_spec`). The search is followed for at most `fuel`
/// nested goals: `None` when it goes deeper than that, else what it gives.
pub open spec fn prove_spec(
    goal: TermModel,
    facts: Seq<TermModel>,
    rules: Seq<RuleModel>,
    subst: Map<Seq<char>, Seq<char>>,
    visited: Seq<TermModel>,
    fuel: nat,
) -> Option<Found>
    decreases fuel, 2int, 0int,
{
    if fuel == 0 {
        None
    } else {
        let g = apply_spec(goal, subst);
        if visited.contains(g) {
            Some((None, visited))
        } else if facts.contains(g) {
            Some((Some(ProofTreeModel { goal: g, subgoals: Seq::empty(), rule_used: None }), visited.push(g)))
        } else {
            try_rules_spec(g, facts, rules, subst, visited.push(g), 0, fuel)
        }
    }
}

/// Rules `i..` tried in order on the instantiated goal `g`: a rule applies when its head
/// unifies with `g` (from no binding); its body, instantiated by `subst` extended with that
/// unifier, is then proved term by term (`prove_all_spec`) from the goals tried so far. The
/// first rule whose body is proved gives the proof, with the goals tried during that proof;
/// a rule that fails leaves the goals tried as they were.
pub open spec fn try_rules_spec(
    g: TermModel,
    facts: Seq<TermModel>,
    rules: Seq<RuleModel>,
    subst: Map<Seq<char>, Seq<char>>,
    visited: Seq<TermModel>,
    i: int,
    fuel: nat,
) -> Option<Found>
    decreases fuel, 1int, rules.len() - i,
{
    if i < 0 || i >= rules.len() {
        Some((None, visited))
    } else {
        match unify_spec(g, rules[i].head, Map::empty()) {
            Some(theta) => {
                let ns = subst.union_prefer_right(theta);
                let body = apply_args_spec(rules[i].body, ns);
                match prove_all_spec(body, facts, rules, ns, visited, fuel) {
                    None => None,
                    Some((Some(ps), lv)) => Some(
                        (
                            Some(ProofTreeModel { goal: g, subgoals: ps, rule_used: Some(format_rule_spec(rules[i])) }),
                            lv,
                        ),
                    ),
                    Some((None, _)) => try_rules_spec(g, facts, rules, subst, visited, i + 1, fuel),
                }
            },
            None => try_rules_spec(g, facts, rules, subst, visited, i + 1, fuel),
        }
    }
}

/// The goals proved in order, one level deeper, each from the goals tried after the one
/// before: their proofs, or no proofs at the first that fails.
pub open spec fn prove_all_spec(
    goals: Seq<TermModel>,
    facts: Seq<TermModel>,
    rules: Seq<RuleModel>,
    subst: Map<Seq<char>, Seq<char>>,
    visited: Seq<TermModel>,
    fuel: nat,
) -> Option<(Option<Seq<ProofTreeModel>>, Seq<TermModel>)>
    decreases fuel, 0int, goals.len(),
{
    if goals.len() == 0 {
        Some((Some(Seq::empty()), visited))
    } else if fuel == 0 {
        None
    } else {
        match prove_spec(goals[0], facts, rules, subst, visited, (fuel - 1) as nat) {
            None => None,
            Some((Some(t), v1)) => match prove_all_spec(goals.skip(1), facts, rules, subst, v1, fuel) {
                None => None,
                Some((Some(ps), v2)) => Some((Some(seq![t] + ps), v2)),
                Some((None, v2)) => Some((None, v2)),
            },
            Some((None, v1)) => Some((None, v1)),
        }
    }
}

/// The search for a proof of `goal` from the facts and rules of `kb` ends: some depth bounds
/// it.
pub open spec fn search_ends(goal: TermModel, kb: KnowledgeBaseModel) -> bool {
    exists|n: nat| #[trigger] prove_spec(goal, kb.facts, kb.rules, Map::empty(), Seq::empty(), n) is Some
}

/// A depth that bounds the search, when the search ends.
pub open spec fn search_fuel(goal: TermModel, kb: KnowledgeBaseModel) -> nat {
    choose|n: nat| #[trigger] prove_spec(goal, kb.facts, kb.rules, Map::empty(), Seq::empty(), n) is Some
}

/// What backward chaining gives for `goal`, when its search ends.
pub open spec fn backward_spec(goal: TermModel, kb: KnowledgeBaseModel) -> Option<ProofTreeModel> {
    match prove_spec(goal, kb.facts, kb.rules, Map::empty(), Seq::empty(), search_fuel(goal, kb)) {
        Some((r, _)) => r,
        None => None,
    }
}

pub open spec fn proof_opt_model(p: Option<ProofTree>) -> Option<ProofTreeModel> {
    match p {
        Some(t) => Some(t@),
        None => None,
    }
}

pub open spec fn rules_view(v: Seq<Rule>) -> Seq<RuleModel> {
    v.map_values(|r: Rule| r@)
}

/// The node instantiates the rule: its goal unifies with the rule's head, by a unifier that
/// `ns` extends, and it has one subproof per body term, whose goal is that term under `ns`.
pub open spec fn instantiates(t: ProofTreeModel, r: RuleModel, ns: Map<Seq<char>, Seq<char>>) -> bool {
    &&& unify_spec(t.goal, r.head, Map::empty()) matches Some(th) && th.submap_of(ns)
    &&& t.subgoals.len() == r.body.len()
    &&& forall|j: int| 0 <= j < r.body.len() ==> (#[trigger] t.subgoals[j]).goal == apply_spec(r.body[j], ns)
}

/// A proof tree that the facts and rules support: a leaf (no rule) has no subproofs and its
/// goal is one of the facts; a node names, as `format_rule_spec` writes it, one of the rules,
/// and instantiates it (see `instantiates`); every subproof is supported in turn.
pub open spec fn supported(t: ProofTreeModel, facts: Seq<TermModel>, rules: Seq<RuleModel>) -> bool
    decreases t,
{
    &&& (t.rule_used is None ==> t.subgoals.len() == 0 && facts.contains(t.goal))
    &&& (t.rule_used matches Some(name) ==> exists|i: int|
        #![trigger rules[i]]
        0 <= i < rules.len() && name == format_rule_spec(rules[i]) && exists|ns: Map<Seq<char>, Seq<char>>|
            #[trigger] instantiates(t, rules[i], ns))
    &&& forall|j: int| 0 <= j < t.subgoals.len() ==> supported(#[trigger] t.subgoals[j], facts, rules)
}

/// The proofs `done` put in front of the proofs that `r` gives, if it gives any.
pub open spec fn after_proofs(
    done: Seq<ProofTreeModel>,
    r: Option<(Option<Seq<ProofTreeModel>>, Seq<TermModel>)>,
) -> Option<(Option<Seq<ProofTreeModel>>, Seq<TermModel>)> {
    match r {
        None => None,
        Some((Some(ps), v)) => Some((Some(done + ps), v)),
        Some((None, v)) => Some((None, v)),
    }
}

fn contains_term(v: &Vec<Term>, t: &Term) -> (r: bool)
    ensures
        r == terms_model(v@).contains(t@),
{
    let mut i: usize = 0;
    while i < v.len()
        invariant
            i <= v.len(),
            forall|j: int| 0 <= j < i ==> v@[j]@ != t@,
        decreases v.len() - i,
    {
        if v[i].equals(t) {
            proof {
                assert(terms_model(v@)[i as int] == t@);
            }
            return true;
        }
        i += 1;
    }
    proof {
        if terms_model(v@).contains(t@) {
            let k = choose|k: int| 0 <= k < terms_model(v@).len() && terms_model(v@)[k] == t@;
            assert(v@[k]@ == t@);
        }
    }
    false
}

fn is_fact(facts: &Vec<Fact>, t: &Term) -> (r: bool)
    ensures
        r == facts_view(facts@).contains(t@),
{
    let mut i: usize = 0;
    while i < facts.len()
        invariant
            i <= facts.len(),
            forall|j: int| 0 <= j < i ==> facts@[j]@ != t@,
        decreases facts.len() - i,
    {
        if facts[i].term.equals(t) {
            proof {
                assert(facts_view(facts@)[i as int] == t@);
            }
            return true;
        }
        i += 1;
    }
    proof {
        if facts_view(facts@).contains(t@) {
            let k = choose|k: int| 0 <= k < facts_view(facts@).len() && facts_view(facts@)[k] == t@;
            assert(facts@[k]@ == t@);
        }
    }
    false
}

fn copy_terms(v: &Vec<Term>) -> (r: Vec<Term>)
    ensures
        terms_model(r@) == terms_model(v@),
{
    let mut out: Vec<Term> = Vec::new();
    let mut i: usize = 0;
    while i < v.len()
        invariant
            i <= v.len(),
            out@.len() == i,
            forall|j: int| 0 <= j < i ==> #[trigger] out@[j]@ == v@[j]@,
        decreases v.len() - i,
    {
        out.push(v[i].clone());
        i += 1;
    }
    proof {
        crate::types::lemma_terms_model_ext(out@, v@);
    }
    out
}

fn extend_substitution(s: &mut Substitution, t: &Substitution)
    ensures
        final(s)@ == old(s)@.union_prefer_right(t@),
{
    let n = t.len();
    let ghost e = t.entries();
    let ghost s0 = s@;
    let mut i: usize = 0;
    proof {
        assert(e.take(0) =~= Seq::<(Seq<char>, Seq<char>)>::empty());
        assert(s0.union_prefer_right(crate::types::bindings_map(e.take(0))) =~= s0);
    }
    while i < n
        invariant
            n == e.len(),
            e == t.entries(),
            t@ == crate::types::bindings_map(e),
            i <= n,
            s@ == s0.union_prefer_right(crate::types::bindings_map(e.take(i as int))),
        decreases n - i,
    {
        let (k, v) = t.binding(i);
        proof {
            assert(e.take(i + 1).drop_last() =~= e.take(i as int));
            assert(e.take(i + 1).last() == e[i as int]);
        }
        s.insert(k.clone(), v.clone());
        proof {
            assert(s@ =~= s0.union_prefer_right(crate::types::bindings_map(e.take(i + 1))));
        }
        i += 1;
    }
    proof {
        assert(e.take(n as int) =~= e);
    }
}

fn instantiate_all(ts: &Vec<Term>, s: &Substitution) -> (r: Vec<Term>)
    ensures
        terms_model(r@) == apply_args_spec(terms_model(ts@), s@),
{
    broadcast use crate::engine::unification::lemma_apply_args_len, crate::engine::unification::lemma_apply_args_index;
    let mut out: Vec<Term> = Vec::new();
    let mut i: usize = 0;
    while i < ts.len()
        invariant
            i <= ts.len(),
            out@.len() == i,
            forall|j: int| 0 <= j < i ==> #[trigger] out@[j]@ == apply_spec(ts@[j]@, s@),
        decreases ts.len() - i,
    {
        out.push(apply_substitution(&ts[i], s));
        i += 1;
    }
    proof {
        assert(terms_model(out@) =~= apply_args_spec(terms_model(ts@), s@));
    }
    out
}

fn prove(
    goal: &Term,
    facts: &Vec<Fact>,
    rules: &Vec<Rule>,
    subst: &Substitution,
    visited: &mut Vec<Term>,
    Ghost(fuel): Ghost<nat>,
) -> (r: Option<ProofTree>)
    requires
        prove_spec(goal@, facts_view(facts@), rules_view(rules@), subst@, terms_model(old(visited)@), fuel) is Some,
    ensures
        Some((proof_opt_model(r), terms_model(final(visited)@))) == prove_spec(
            goal@,
            facts_view(facts@),
            rules_view(rules@),
            subst@,
            terms_model(old(visited)@),
            fuel,
        ),
        terms_model(old(visited)@).contains(apply_spec(goal@, subst@)) ==> r is None && terms_model(final(visited)@)
            == terms_model(old(visited)@),
        terms_model(final(visited)@).contains(apply_spec(goal@, subst@)),
        forall|x: TermModel| terms_model(old(visited)@).contains(x) ==> terms_model(final(visited)@).contains(x),
        r matches Some(t) ==> t@.goal == apply_spec(goal@, subst@),
    decreases fuel,
{
    let ghost fv = facts_view(facts@);
    let ghost rv = rules_view(rules@);
    proof {
        lemma_prove_sound(goal@, fv, rv, subst@, terms_model(visited@), fuel);
    }
    let goal_instantiated = apply_substitution(goal, subst);
    let ghost g = goal_instantiated@;
    if contains_term(visited, &goal_instantiated) {
        return None;
    }
    let ghost v0 = terms_model(visited@);
    visited.push(goal_instantiated.clone());
    proof {
        assert(visited@.drop_last() =~= old(visited)@);
        assert(terms_model(visited@) == v0.push(g));
    }
    if is_fact(facts, &goal_instantiated) {
        let t = ProofTree { goal: goal_instantiated, subgoals: Vec::new(), rule_used: None };
        proof {
            assert(proofs_model(t.subgoals@) =~= Seq::<ProofTreeModel>::empty());
        }
        return Some(t);
    }
    let ghost v1 = terms_model(visited@);
    let mut i: usize = 0;
    while i < rules.len()
        invariant
            try_rules_spec(g, fv, rv, subst@, v1, i as int, fuel) is Some,
            i <= rules.len(),
            fuel > 0,
            fv == facts_view(facts@),
            rv == rules_view(rules@),
            g == goal_instantiated@,
            terms_model(visited@) == v1,
            v0 == terms_model(old(visited)@),
            prove_spec(goal@, fv, rv, subst@, v0, fuel) == try_rules_spec(g, fv, rv, subst@, v1, i as int, fuel),
        decreases rules.len() - i,
    {
        let rule = &rules[i];
        let ghost rm = rv[i as int];
        proof {
            assert(rm == rule@);
        }
        match unify(&goal_instantiated, &rule.head, Substitution::new()) {
            Some(theta) => {
                let mut new_subst = subst.clone();
                extend_substitution(&mut new_subst, &theta);
                let ghost ns = new_subst@;
                let subgoal_terms = instantiate_all(&rule.body, &new_subst);
                let ghost sgs = terms_model(subgoal_terms@);
                let mut subproofs: Vec<ProofTree> = Vec::new();
                let mut local_visited = copy_terms(visited);
                let mut ok = true;
                let mut j: usize = 0;
                proof {
                    lemma_terms_model_len(subgoal_terms@);
                    assert(sgs.skip(0) =~= sgs);
                    assert(proofs_model(subproofs@) =~= Seq::<ProofTreeModel>::empty());
                    let p = prove_all_spec(sgs, fv, rv, ns, v1, fuel);
                    assert(ns == subst@.union_prefer_right(theta@));
                    assert(sgs == apply_args_spec(rm.body, ns));
                    assert(p is Some);
                    assert(after_proofs(Seq::empty(), p) == p) by {
                        if let Some((Some(ps), _)) = p {
                            assert(Seq::<ProofTreeModel>::empty() + ps =~= ps);
                        }
                    }
                }
                while ok && j < subgoal_terms.len()
                    invariant
                        j <= subgoal_terms.len(),
                        fuel > 0,
                        fv == facts_view(facts@),
                        rv == rules_view(rules@),
                        ns == new_subst@,
                        sgs == terms_model(subgoal_terms@),
                        sgs.len() == subgoal_terms@.len(),
                        prove_all_spec(sgs, fv, rv, ns, v1, fuel) is Some,
                        ok ==> prove_all_spec(sgs, fv, rv, ns, v1, fuel) == after_proofs(
                            proofs_model(subproofs@),
                            prove_all_spec(sgs.skip(j as int), fv, rv, ns, terms_model(local_visited@), fuel),
                        ),
                        !ok ==> prove_all_spec(sgs, fv, rv, ns, v1, fuel) matches Some((None, _)),
                    decreases subgoal_terms.len() - j, if ok { 1int } else { 0int },
                {
                    let ghost lv = terms_model(local_visited@);
                    let ghost done = proofs_model(subproofs@);
                    let ghost rest = sgs.skip(j as int);
                    proof {
                        assert(rest[0] == subgoal_terms@[j as int]@);
                        assert(rest.skip(1) =~= sgs.skip(j + 1));
                        assert(prove_all_spec(rest, fv, rv, ns, lv, fuel) is Some);
                        assert(prove_spec(rest[0], fv, rv, ns, lv, (fuel - 1) as nat) is Some);
                    }
                    match prove(&subgoal_terms[j], facts, rules, &new_subst, &mut local_visited, Ghost((fuel - 1) as nat)) {
                        Some(t) => {
                            let ghost tm = t@;
                            let ghost tt = t;
                            let ghost prev = subproofs@;
                            subproofs.push(t);
                            proof {
                                lemma_proofs_model_push(prev, tt);
                                assert(subproofs@ == prev.push(tt));
                                let q = prove_all_spec(sgs.skip(j + 1), fv, rv, ns, terms_model(local_visited@), fuel);
                                assert(prove_spec(rest[0], fv, rv, ns, lv, (fuel - 1) as nat) == Some(
                                    (Some(tm), terms_model(local_visited@)),
                                ));
                                assert(prove_all_spec(rest, fv, rv, ns, lv, fuel) == after_proofs(seq![tm], q));
                                if let Some((Some(ps), _)) = q {
                                    assert(done + (seq![tm] + ps) =~= done.push(tm) + ps);
                                }
                                assert(proofs_model(subproofs@) == done.push(tm));
                            }
                            j += 1;
                        },
                        None => {
                            ok = false;
                        },
                    }
                }
                if ok {
                    proof {
                        assert(sgs.skip(j as int) =~= Seq::<TermModel>::empty());
                        assert(proofs_model(subproofs@) + Seq::<ProofTreeModel>::empty() =~= proofs_model(subproofs@));
                        assert(prove_all_spec(sgs, fv, rv, ns, v1, fuel) == Some(
                            (Some(proofs_model(subproofs@)), terms_model(local_visited@)),
                        ));
                    }
                    let rule_name = format_rule(rule);
                    *visited = local_visited;
                    let ghost done = proofs_model(subproofs@);
                    let t = ProofTree { goal: goal_instantiated, subgoals: subproofs, rule_used: Some(rule_name) };
                    proof {
                        assert(t@ == ProofTreeModel { goal: g, subgoals: done, rule_used: Some(format_rule_spec(rm)) });
                        assert(try_rules_spec(g, fv, rv, subst@, v1, i as int, fuel) == Some(
                            (Some(t@), terms_model(visited@)),
                        ));
                        lemma_prove_sound(goal@, fv, rv, subst@, v0, fuel);
                    }
                    return Some(t);
                }
            },
            None => {},
        }
        i += 1;
    }
    None
}

proof fn lemma_prove_sound(
    goal: TermModel,
    facts: Seq<TermModel>,
    rules: Seq<RuleModel>,
    subst: Map<Seq<char>, Seq<char>>,
    visited: Seq<TermModel>,
    fuel: nat,
)
    ensures
        prove_spec(goal, facts, rules, subst, visited, fuel) matches Some((r, v)) ==> {
            &&& r matches Some(t) ==> supported(t, facts, rules) && t.goal == apply_spec(goal, subst)
            &&& forall|x: TermModel| visited.contains(x) ==> v.contains(x)
            &&& visited.contains(apply_spec(goal, subst)) ==> r is None && v == visited
            &&& v.contains(apply_spec(goal, subst))
        },
    decreases fuel, 2int, 0int,
{
    if fuel > 0 {
        let g = apply_spec(goal, subst);
        if !visited.contains(g) {
            assert(visited.push(g).contains(g)) by {
                assert(visited.push(g)[visited.len() as int] == g);
            }
            assert forall|x: TermModel| visited.contains(x) implies visited.push(g).contains(x) by {
                let k = choose|k: int| 0 <= k < visited.len() && visited[k] == x;
                assert(visited.push(g)[k] == x);
            }
            if !facts.contains(g) {
                lemma_try_rules_sound(g, facts, rules, subst, visited.push(g), 0, fuel);
            }
        }
    }
}

proof fn lemma_try_rules_sound(
    g: TermModel,
    facts: Seq<TermModel>,
    rules: Seq<RuleModel>,
    subst: Map<Seq<char>, Seq<char>>,
    visited: Seq<TermModel>,
    i: int,
    fuel: nat,
)
    ensures
        try_rules_spec(g, facts, rules, subst, visited, i, fuel) matches Some((r, v)) ==> {
            &&& r matches Some(t) ==> supported(t, facts, rules) && t.goal == g
            &&& forall|x: TermModel| visited.contains(x) ==> v.contains(x)
        },
    decreases fuel, 1int, rules.len() - i,
{
    broadcast use crate::engine::unification::lemma_apply_args_len;
    if 0 <= i < rules.len() {
        match unify_spec(g, rules[i].head, Map::empty()) {
            Some(theta) => {
                let ns = subst.union_prefer_right(theta);
                let body = apply_args_spec(rules[i].body, ns);
                lemma_prove_all_sound(body, facts, rules, ns, visited, fuel);
                match prove_all_spec(body, facts, rules, ns, visited, fuel) {
                    Some((Some(ps), lv)) => {
                        let t = ProofTreeModel { goal: g, subgoals: ps, rule_used: Some(format_rule_spec(rules[i])) };
                        assert(theta.submap_of(ns));
                        assert forall|j: int| 0 <= j < rules[i].body.len() implies (#[trigger] t.subgoals[j]).goal
                            == apply_spec(rules[i].body[j], ns) by {
                            crate::engine::unification::lemma_apply_args_index(rules[i].body, ns, j);
                            law_apply_idempotent(rules[i].body[j], ns);
                        }
                        assert(instantiates(t, rules[i], ns));
                        assert(supported(t, facts, rules));
                    },
                    Some((None, _)) => lemma_try_rules_sound(g, facts, rules, subst, visited, i + 1, fuel),
                    None => {},
                }
            },
            None => lemma_try_rules_sound(g, facts, rules, subst, visited, i + 1, fuel),
        }
    }
}

proof fn lemma_prove_all_sound(
    goals: Seq<TermModel>,
    facts: Seq<TermModel>,
    rules: Seq<RuleModel>,
    subst: Map<Seq<char>, Seq<char>>,
    visited: Seq<TermModel>,
    fuel: nat,
)
    ensures
        prove_all_spec(goals, facts, rules, subst, visited, fuel) matches Some((r, v)) ==> {
            &&& r matches Some(ps) ==> ps.len() == goals.len()
                && forall|j: int| 0 <= j < ps.len() ==> supported(#[trigger] ps[j], facts, rules)
                    && ps[j].goal == apply_spec(goals[j], subst)
            &&& forall|x: TermModel| visited.contains(x) ==> v.contains(x)
        },
    decreases fuel, 0int, goals.len(),
{
    if goals.len() > 0 && fuel > 0 {
        lemma_prove_sound(goals[0], facts, rules, subst, visited, (fuel - 1) as nat);
        if let Some((Some(t), v1)) = prove_spec(goals[0], facts, rules, subst, visited, (fuel - 1) as nat) {
            lemma_prove_all_sound(goals.skip(1), facts, rules, subst, v1, fuel);
            if let Some((Some(ps), v2)) = prove_all_spec(goals.skip(1), facts, rules, subst, v1, fuel) {
                let all = seq![t] + ps;
                assert forall|j: int| 0 <= j < all.len() implies supported(#[trigger] all[j], facts, rules)
                    && all[j].goal == apply_spec(goals[j], subst) by {
                    if j > 0 {
                        assert(all[j] == ps[j - 1]);
                        assert(goals.skip(1)[j - 1] == goals[j]);
                    }
                }
            }
        }
    }
}

/// Every proof that backward chaining finds is supported by the knowledge base (see
/// `supported`), and its root is the goal that was asked for.
pub proof fn law_backward_proofs_are_supported(goal: TermModel, kb: KnowledgeBaseModel, fuel: nat)
    ensures
        prove_spec(goal, kb.facts, kb.rules, Map::empty(), Seq::empty(), fuel) matches Some((Some(t), _))
            ==> supported(t, kb.facts, kb.rules) && t.goal == goal,
{
    lemma_prove_sound(goal, kb.facts, kb.rules, Map::empty(), Seq::empty(), fuel);
    law_apply_empty(goal);
}

/// A goal that is one of the facts is proved by that fact alone.
pub proof fn law_fact_proves_itself(goal: TermModel, kb: KnowledgeBaseModel)
    requires
        kb.facts.contains(goal),
    ensures
        search_ends(goal, kb),
        backward_spec(goal, kb) == Some(ProofTreeModel { goal, subgoals: Seq::empty(), rule_used: None }),
{
    law_apply_empty(goal);
    assert(prove_spec(goal, kb.facts, kb.rules, Map::empty(), Seq::empty(), 1) is Some);
    let n = search_fuel(goal, kb);
    assert(prove_spec(goal, kb.facts, kb.rules, Map::empty(), Seq::empty(), n) is Some);
}

/// Goals whose instances under `subst` are facts, none of them tried yet and no two of them
/// alike, are all proved, whenever the search over them ends.
proof fn lemma_prove_all_facts(
    goals: Seq<TermModel>,
    facts: Seq<TermModel>,
    rules: Seq<RuleModel>,
    subst: Map<Seq<char>, Seq<char>>,
    visited: Seq<TermModel>,
    fuel: nat,
)
    requires
        prove_all_spec(goals, facts, rules, subst, visited, fuel) is Some,
        forall|j: int| 0 <= j < goals.len() ==> facts.contains(#[trigger] apply_spec(goals[j], subst)),
        forall|j: int| 0 <= j < goals.len() ==> !visited.contains(#[trigger] apply_spec(goals[j], subst)),
        forall|j: int, k: int|
            0 <= j < k < goals.len() ==> #[trigger] apply_spec(goals[j], subst) != #[trigger] apply_spec(
                goals[k],
                subst,
            ),
    ensures
        prove_all_spec(goals, facts, rules, subst, visited, fuel) matches Some((r, _)) && r is Some,
    decreases goals.len(),
{
    if goals.len() > 0 {
        let g = apply_spec(goals[0], subst);
        assert(facts.contains(g) && !visited.contains(g));
        let rest = goals.skip(1);
        let v1 = visited.push(g);
        assert(fuel > 0);
        let first = prove_spec(goals[0], facts, rules, subst, visited, (fuel - 1) as nat);
        assert(first is Some);
        assert((fuel - 1) as nat > 0);
        assert(first == Some::<Found>(
            (Some(ProofTreeModel { goal: g, subgoals: Seq::empty(), rule_used: None }), v1),
        ));
        assert(prove_all_spec(rest, facts, rules, subst, v1, fuel) is Some);
        assert forall|j: int| 0 <= j < rest.len() implies facts.contains(#[trigger] apply_spec(rest[j], subst)) by {
            assert(rest[j] == goals[j + 1]);
        }
        assert forall|j: int| 0 <= j < rest.len() implies !v1.contains(#[trigger] apply_spec(rest[j], subst)) by {
            assert(rest[j] == goals[j + 1]);
            assert(apply_spec(goals[0], subst) != apply_spec(goals[j + 1], subst));
            if v1.contains(apply_spec(rest[j], subst)) {
                let k = choose|k: int| 0 <= k < v1.len() && v1[k] == apply_spec(rest[j], subst);
                if k < visited.len() {
                    assert(visited[k] == apply_spec(goals[j + 1], subst));
                }
            }
        }
        assert forall|j: int, k: int| 0 <= j < k < rest.len() implies #[trigger] apply_spec(rest[j], subst)
            != #[trigger] apply_spec(rest[k], subst) by {
            assert(rest[j] == goals[j + 1]);
            assert(rest[k] == goals[k + 1]);
        }
        lemma_prove_all_facts(rest, facts, rules, subst, v1, fuel);
    }
}

/// Rules `k..` tried on the goal `g`, where rule `i` from `k` on unifies with `g` and has a
/// body whose instances are facts, none tried and no two alike: a proof is found, by rule `i`
/// or by one before it, whenever the search ends.
proof fn lemma_try_rules_reach(
    g: TermModel,
    facts: Seq<TermModel>,
    rules: Seq<RuleModel>,
    visited: Seq<TermModel>,
    k: int,
    i: int,
    th: Map<Seq<char>, Seq<char>>,
    fuel: nat,
)
    requires
        0 <= k <= i < rules.len(),
        try_rules_spec(g, facts, rules, Map::empty(), visited, k, fuel) is Some,
        unify_spec(g, rules[i].head, Map::empty()) == Some(th),
        forall|j: int| 0 <= j < rules[i].body.len() ==> facts.contains(#[trigger] apply_spec(rules[i].body[j], th)),
        forall|j: int| 0 <= j < rules[i].body.len() ==> !visited.contains(#[trigger] apply_spec(rules[i].body[j], th)),
        forall|j: int, m: int|
            0 <= j < m < rules[i].body.len() ==> #[trigger] apply_spec(rules[i].body[j], th)
                != #[trigger] apply_spec(rules[i].body[m], th),
    ensures
        try_rules_spec(g, facts, rules, Map::empty(), visited, k, fuel) matches Some((r, _)) && r is Some,
    decreases i - k,
{
    broadcast use crate::engine::unification::lemma_apply_args_len;
    if k < i {
        match unify_spec(g, rules[k].head, Map::empty()) {
            Some(theta) => {
                let ns = Map::<Seq<char>, Seq<char>>::empty().union_prefer_right(theta);
                let body = apply_args_spec(rules[k].body, ns);
                match prove_all_spec(body, facts, rules, ns, visited, fuel) {
                    Some((None, _)) => lemma_try_rules_reach(g, facts, rules, visited, k + 1, i, th, fuel),
                    _ => {},
                }
            },
            None => lemma_try_rules_reach(g, facts, rules, visited, k + 1, i, th, fuel),
        }
    } else {
        let ns = Map::<Seq<char>, Seq<char>>::empty().union_prefer_right(th);
        assert(ns =~= th);
        let body = apply_args_spec(rules[i].body, th);
        assert forall|j: int| 0 <= j < body.len() implies #[trigger] apply_spec(body[j], th) == apply_spec(
            rules[i].body[j],
            th,
        ) by {
            crate::engine::unification::lemma_apply_args_index(rules[i].body, th, j);
            law_apply_idempotent(rules[i].body[j], th);
        }
        assert forall|j: int, m: int| 0 <= j < m < body.len() implies #[trigger] apply_spec(body[j], th)
            != #[trigger] apply_spec(body[m], th) by {
            assert(apply_spec(body[j], th) == apply_spec(rules[i].body[j], th));
            assert(apply_spec(body[m], th) == apply_spec(rules[i].body[m], th));
        }
        lemma_prove_all_facts(body, facts, rules, th, visited, fuel);
    }
}

/// A rule that applies proves the goal whatever the rules before it do: when the goal is not
/// a fact, and rule `i`'s head unifies with it by `th` and the body instantiated by `th` is
/// made of facts, no two alike, backward chaining finds a proof, also when earlier rules
/// unify with the goal and their bodies fail.
pub proof fn law_later_rule_proves(goal: TermModel, kb: KnowledgeBaseModel, i: int, th: Map<Seq<char>, Seq<char>>)
    requires
        search_ends(goal, kb),
        !kb.facts.contains(goal),
        0 <= i < kb.rules.len(),
        unify_spec(goal, kb.rules[i].head, Map::empty()) == Some(th),
        forall|j: int| 0 <= j < kb.rules[i].body.len() ==> kb.facts.contains(#[trigger] apply_spec(kb.rules[i].body[j], th)),
        forall|j: int, m: int|
            0 <= j < m < kb.rules[i].body.len() ==> #[trigger] apply_spec(kb.rules[i].body[j], th)
                != #[trigger] apply_spec(kb.rules[i].body[m], th),
    ensures
        backward_spec(goal, kb) is Some,
{
    let n = search_fuel(goal, kb);
    assert(prove_spec(goal, kb.facts, kb.rules, Map::empty(), Seq::empty(), n) is Some);
    law_apply_empty(goal);
    let v = Seq::<TermModel>::empty().push(goal);
    assert forall|j: int| 0 <= j < kb.rules[i].body.len() implies !v.contains(
        #[trigger] apply_spec(kb.rules[i].body[j], th),
    ) by {
        if v.contains(apply_spec(kb.rules[i].body[j], th)) {
            assert(v[0] == goal);
        }
    }
    assert(!Seq::<TermModel>::empty().contains(goal));
    lemma_try_rules_reach(goal, kb.facts, kb.rules, v, 0, i, th, n);
}

/// Looks for a proof of `goal` from the facts and rules of `kb`, as `backward_spec` says.
/// The search must end (on some inputs it goes on forever, as goals keep growing). A proof
/// found is supported by `kb` and proves `goal`.
pub fn backward_chain(goal: &Term, kb: &KnowledgeBase) -> (r: Option<ProofTree>)
    requires
        search_ends(goal@, kb@),
    ensures
        proof_opt_model(r) == backward_spec(goal@, kb@),
        r matches Some(t) ==> supported(t@, kb@.facts, kb@.rules) && t@.goal == goal@,
{
    let ghost n = search_fuel(goal@, kb@);
    let mut visited: Vec<Term> = Vec::new();
    proof {
        law_backward_proofs_are_supported(goal@, kb@, n);
        assert(terms_model(visited@) =~= Seq::<TermModel>::empty());
        assert(kb@.facts =~= facts_view(kb.facts@));
        assert(kb@.rules =~= rules_view(kb.rules@));
    }
    prove(goal, &kb.facts, &kb.rules, &Substitution::new(), &mut visited, Ghost(n))
}

} // verus!
