//! Forward chaining: apply the rules to the facts until no new fact comes.
use vstd::prelude::*;
use crate::types::{
    Term, TermModel, Fact, Rule, RuleModel, KnowledgeBase, Substitution, with_fact, no_duplicates,
    bindings_map, lemma_bindings_map_value, terms_model, lemma_terms_model_len, lemma_terms_model_index,
};
use crate::engine::unification::{
    unify, unify_spec, apply_substitution, apply_spec, apply_args_spec, flat_pattern, flat_ground, pattern_vars,
    law_unify_flat, lemma_apply_args_len, lemma_apply_args_index, arg_vars,
};

verus! {

broadcast use vstd::std_specs::vec::group_vec_axioms, crate::types::group_terms_model;

/// The substitutions that unify `term` with a fact, starting from the empty substitution, in
/// the order of the facts.
pub open spec fn equate_spec(term: TermModel, facts: Seq<TermModel>) -> Seq<Map<Seq<char>, Seq<char>>>
    decreases facts.len(),
{
    if facts.len() == 0 {
        Seq::empty()
    } else {
        let r = equate_spec(term, facts.drop_last());
        match unify_spec(term, facts.last(), Map::empty()) {
            Some(s) => r.push(s),
            None => r,
        }
    }
}

/// Two substitutions agree on every name that both bind.
pub open spec fn compatible(s1: Map<Seq<char>, Seq<char>>, s2: Map<Seq<char>, Seq<char>>) -> bool {
    forall|k: Seq<char>| #[trigger] s2.contains_key(k) && s1.contains_key(k) ==> s1[k] == s2[k]
}

/// The union of two substitutions when they agree on every name that both bind.
pub open spec fn subs_match_spec(s1: Map<Seq<char>, Seq<char>>, s2: Map<Seq<char>, Seq<char>>) -> Option<Map<Seq<char>, Seq<char>>> {
    if compatible(s1, s2) {
        Some(s1.union_prefer_right(s2))
    } else {
        None
    }
}

/// The unions of `b` with each substitution of `new` that agrees with it, in order.
pub open spec fn matches_with(b: Map<Seq<char>, Seq<char>>, new: Seq<Map<Seq<char>, Seq<char>>>) -> Seq<Map<Seq<char>, Seq<char>>>
    decreases new.len(),
{
    if new.len() == 0 {
        Seq::empty()
    } else {
        let r = matches_with(b, new.drop_last());
        match subs_match_spec(b, new.last()) {
            Some(s) => r.push(s),
            None => r,
        }
    }
}

/// The unions of each substitution of `old` with each substitution of `new` that agrees with
/// it: for each of `old` in order, those of `new` in order.
pub open spec fn update_spec(old: Seq<Map<Seq<char>, Seq<char>>>, new: Seq<Map<Seq<char>, Seq<char>>>) -> Seq<Map<Seq<char>, Seq<char>>>
    decreases old.len(),
{
    if old.len() == 0 {
        Seq::empty()
    } else {
        update_spec(old.drop_last(), new) + matches_with(old.last(), new)
    }
}

/// The substitutions under which a rule body holds, as the engine computes them: body terms
/// are taken in order; the unifiers of the first with the facts start the list; the unifiers of
/// each next one are combined with the list so far, except that a list that has become empty
/// starts again from the unifiers of the next term.
pub open spec fn find_subs_spec(facts: Seq<TermModel>, body: Seq<TermModel>) -> Seq<Map<Seq<char>, Seq<char>>>
    decreases body.len(),
{
    if body.len() == 0 {
        Seq::empty()
    } else {
        let res = find_subs_spec(facts, body.drop_last());
        let new = equate_spec(body.last(), facts);
        if res.len() == 0 {
            new
        } else {
            update_spec(res, new)
        }
    }
}

/// The heads of a rule under each substitution that `find_subs_spec` gives.
pub open spec fn derived_by(facts: Seq<TermModel>, r: RuleModel) -> Seq<TermModel> {
    find_subs_spec(facts, r.body).map_values(|s: Map<Seq<char>, Seq<char>>| apply_spec(r.head, s))
}

/// What one round derives: for each rule in order, the facts it derives.
pub open spec fn round_spec(facts: Seq<TermModel>, rules: Seq<RuleModel>) -> Seq<TermModel>
    decreases rules.len(),
{
    if rules.len() == 0 {
        Seq::empty()
    } else {
        round_spec(facts, rules.drop_last()) + derived_by(facts, rules.last())
    }
}

/// The facts with each new one appended in order, unless it is already there.
pub open spec fn add_facts_spec(facts: Seq<TermModel>, new: Seq<TermModel>) -> Seq<TermModel>
    decreases new.len(),
{
    if new.len() == 0 {
        facts
    } else {
        with_fact(add_facts_spec(facts, new.drop_last()), new.last())
    }
}

/// One round of forward chaining: the facts with what the rules derive from them appended.
pub open spec fn step(facts: Seq<TermModel>, rules: Seq<RuleModel>) -> Seq<TermModel> {
    add_facts_spec(facts, round_spec(facts, rules))
}

/// `n` rounds of forward chaining.
pub open spec fn iterate(facts: Seq<TermModel>, rules: Seq<RuleModel>, n: nat) -> Seq<TermModel>
    decreases n,
{
    if n == 0 {
        facts
    } else {
        step(iterate(facts, rules, (n - 1) as nat), rules)
    }
}

pub open spec fn subs_view(v: Seq<Substitution>) -> Seq<Map<Seq<char>, Seq<char>>> {
    v.map_values(|s: Substitution| s@)
}

pub open spec fn facts_view(v: Seq<Fact>) -> Seq<TermModel> {
    v.map_values(|f: Fact| f@)
}

fn equate(term: &Term, facts: &Vec<Fact>) -> (r: Vec<Substitution>)
    ensures
        subs_view(r@) == equate_spec(term@, facts_view(facts@)),
{
    let ghost fv = facts_view(facts@);
    let mut res: Vec<Substitution> = Vec::new();
    let mut i: usize = 0;
    while i < facts.len()
        invariant
            i <= facts.len(),
            fv == facts_view(facts@),
            subs_view(res@) == equate_spec(term@, fv.take(i as int)),
        decreases facts.len() - i,
    {
        let ghost before = res@;
        match unify(term, &facts[i].term, Substitution::new()) {
            Some(s) => res.push(s),
            None => {},
        }
        proof {
            assert(fv.take(i + 1).drop_last() =~= fv.take(i as int));
            assert(fv.take(i + 1).last() == facts@[i as int]@);
            if res@.len() > before.len() {
                assert(subs_view(res@) =~= subs_view(before).push(res@.last()@));
            }
        }
        i += 1;
    }
    proof {
        assert(fv.take(facts@.len() as int) =~= fv);
    }
    res
}

fn subs_match(s1: &Substitution, s2: &Substitution) -> (r: Option<Substitution>)
    ensures
        (match r {
            Some(s) => Some(s@),
            None => None,
        }) == subs_match_spec(s1@, s2@),
{
    let mut res = s1.duplicate();
    let n = s2.len();
    let ghost e = s2.entries();
    let mut i: usize = 0;
    proof {
        assert(e.take(0) =~= Seq::<(Seq<char>, Seq<char>)>::empty());
        assert(s1@.union_prefer_right(bindings_map(e.take(0))) =~= s1@);
    }
    while i < n
        invariant
            n == e.len(),
            e == s2.entries(),
            s2@ == bindings_map(e),
            forall|x: int, y: int| 0 <= x < y < e.len() ==> #[trigger] e[x].0 != #[trigger] e[y].0,
            i <= n,
            res@ == s1@.union_prefer_right(bindings_map(e.take(i as int))),
            forall|j: int| 0 <= j < i ==> (s1@.contains_key(#[trigger] e[j].0) ==> s1@[e[j].0] == e[j].1),
        decreases n - i,
    {
        let (var, atom) = s2.binding(i);
        let ghost k = var@;
        let ghost v = atom@;
        let ghost before = res@;
        proof {
            assert(e.take(i + 1).drop_last() =~= e.take(i as int));
            assert(e.take(i + 1).last() == e[i as int]);
            assert(bindings_map(e.take(i + 1)) == bindings_map(e.take(i as int)).insert(k, v));
            crate::types::lemma_bindings_map_contains(e.take(i as int), k);
            if bindings_map(e.take(i as int)).contains_key(k) {
                let j = choose|j: int| 0 <= j < e.take(i as int).len() && #[trigger] e.take(i as int)[j].0 == k;
                assert(e[j].0 == e[i as int].0);
            }
        }
        match s1.get(var.as_str()) {
            Some(a) => {
                if !(*a == *atom) {
                    proof {
                        lemma_bindings_map_value(e, i as int);
                        assert(s2@.contains_key(k) && s1@.contains_key(k) && s1@[k] != s2@[k]);
                    }
                    return None;
                }
                proof {
                    assert(res@ =~= s1@.union_prefer_right(bindings_map(e.take(i + 1))));
                }
            },
            None => {
                res.insert(var.clone(), atom.clone());
                proof {
                    assert(res@ =~= s1@.union_prefer_right(bindings_map(e.take(i + 1))));
                }
            },
        }
        i += 1;
    }
    proof {
        assert(e.take(n as int) =~= e);
        assert forall|k: Seq<char>| #[trigger] s2@.contains_key(k) && s1@.contains_key(k) implies s1@[k] == s2@[k] by {
            crate::types::lemma_bindings_map_contains(e, k);
            let j = choose|j: int| 0 <= j < e.len() && #[trigger] e[j].0 == k;
            lemma_bindings_map_value(e, j);
        }
    }
    Some(res)
}

fn update_subs(old: &Vec<Substitution>, new: &Vec<Substitution>) -> (r: Vec<Substitution>)
    ensures
        subs_view(r@) == update_spec(subs_view(old@), subs_view(new@)),
{
    let ghost ov = subs_view(old@);
    let ghost nv = subs_view(new@);
    let mut res: Vec<Substitution> = Vec::new();
    let mut i: usize = 0;
    while i < old.len()
        invariant
            i <= old.len(),
            ov == subs_view(old@),
            nv == subs_view(new@),
            subs_view(res@) == update_spec(ov.take(i as int), nv),
        decreases old.len() - i,
    {
        let ghost start = subs_view(res@);
        let mut j: usize = 0;
        while j < new.len()
            invariant
                i < old.len(),
                j <= new.len(),
                ov == subs_view(old@),
                nv == subs_view(new@),
                subs_view(res@) == start + matches_with(ov[i as int], nv.take(j as int)),
            decreases new.len() - j,
        {
            let ghost before = subs_view(res@);
            match subs_match(&old[i], &new[j]) {
                Some(s) => res.push(s),
                None => {},
            }
            proof {
                assert(nv.take(j + 1).drop_last() =~= nv.take(j as int));
                assert(nv.take(j + 1).last() == new@[j as int]@);
                assert(ov[i as int] == old@[i as int]@);
                if subs_view(res@).len() > before.len() {
                    assert(subs_view(res@) =~= before.push(res@.last()@));
                } else {
                    assert(subs_view(res@) =~= before);
                }
                assert(subs_view(res@) =~= start + matches_with(ov[i as int], nv.take(j + 1)));
            }
            j += 1;
        }
        proof {
            assert(nv.take(new@.len() as int) =~= nv);
            assert(ov.take(i + 1).drop_last() =~= ov.take(i as int));
            assert(ov.take(i + 1).last() == ov[i as int]);
        }
        i += 1;
    }
    proof {
        assert(ov.take(old@.len() as int) =~= ov);
    }
    res
}

fn find_subs(facts: &Vec<Fact>, rule: &Rule) -> (r: Vec<Substitution>)
    ensures
        subs_view(r@) == find_subs_spec(facts_view(facts@), rule@.body),
{
    let ghost fv = facts_view(facts@);
    let ghost body = rule@.body;
    let mut res: Vec<Substitution> = Vec::new();
    let mut i: usize = 0;
    proof {
        lemma_terms_model_len(rule.body@);
        assert(body.take(0) =~= Seq::<TermModel>::empty());
        assert(subs_view(res@) =~= Seq::<Map<Seq<char>, Seq<char>>>::empty());
    }
    while i < rule.body.len()
        invariant
            i <= rule.body.len(),
            fv == facts_view(facts@),
            body == rule@.body,
            body.len() == rule.body@.len(),
            subs_view(res@) == find_subs_spec(fv, body.take(i as int)),
        decreases rule.body.len() - i,
    {
        let new = equate(&rule.body[i], facts);
        proof {
            lemma_terms_model_index(rule.body@, i as int);
            assert(body.take(i + 1).drop_last() =~= body.take(i as int));
            assert(body.take(i + 1).last() == rule.body@[i as int]@);
        }
        res = if res.len() == 0 {
            new
        } else {
            update_subs(&res, &new)
        };
        i += 1;
    }
    proof {
        assert(body.take(body.len() as int) =~= body);
    }
    res
}

/// Runs forward chaining: in rounds, every rule is applied to the facts known at the start of
/// the round, and the facts it derives are added when new; rounds go on until one adds
/// nothing. Returns the number of facts added.
pub fn forward_chain(kb: &mut KnowledgeBase) -> (added: usize)
    ensures
        final(kb)@.rules == old(kb)@.rules,
        final(kb)@.facts.len() == old(kb)@.facts.len() + added,
        old(kb)@.facts.is_prefix_of(final(kb)@.facts),
        exists|n: nat| final(kb)@.facts == iterate(old(kb)@.facts, old(kb)@.rules, n),
        step(final(kb)@.facts, final(kb)@.rules) == final(kb)@.facts,
        no_duplicates(old(kb)@.facts) ==> no_duplicates(final(kb)@.facts),
{
    let ghost initial = kb@.facts;
    let ghost rules = kb@.rules;
    let start = kb.facts.len();
    let mut rounds_done: Ghost<nat> = Ghost(0);
    proof {
        assert(iterate(initial, rules, 0) == initial);
        assert(initial.is_prefix_of(initial));
    }
    loop
        invariant
            initial == old(kb)@.facts,
            rules == old(kb)@.rules,
            kb@.rules == rules,
            start == initial.len(),
            kb@.facts == iterate(initial, rules, rounds_done@),
            initial.is_prefix_of(kb@.facts),
            kb@.facts.len() <= usize::MAX,
            no_duplicates(initial) ==> no_duplicates(kb@.facts),
        decreases usize::MAX - kb@.facts.len(),
    {
        let ghost facts0 = kb@.facts;
        let mut new_facts: Vec<Fact> = Vec::new();
        let mut r: usize = 0;
        proof {
            assert(facts_view(new_facts@) =~= round_spec(facts0, rules.take(0)));
        }
        while r < kb.rules.len()
            invariant
                r <= kb.rules.len(),
                kb@.rules == rules,
                kb@.facts == facts0,
                rules.len() == kb.rules@.len(),
                facts_view(new_facts@) == round_spec(facts0, rules.take(r as int)),
            decreases kb.rules.len() - r,
        {
            let subs = find_subs(&kb.facts, &kb.rules[r]);
            let ghost before = facts_view(new_facts@);
            let ghost head = kb.rules@[r as int]@.head;
            let mut k: usize = 0;
            while k < subs.len()
                invariant
                    k <= subs.len(),
                    kb@.rules == rules,
                    kb@.facts == facts0,
                    r < kb.rules.len(),
                    head == kb.rules@[r as int]@.head,
                    subs_view(subs@) == find_subs_spec(facts0, kb.rules@[r as int]@.body),
                    facts_view(new_facts@) == before + subs_view(subs@).take(k as int).map_values(
                        |s: Map<Seq<char>, Seq<char>>| apply_spec(head, s),
                    ),
                decreases subs.len() - k,
            {
                let t = apply_substitution(&kb.rules[r].head, &subs[k]);
                let ghost prev = new_facts@;
                new_facts.push(Fact { term: t });
                proof {
                    let sv = subs_view(subs@);
                    let f = |s: Map<Seq<char>, Seq<char>>| apply_spec(head, s);
                    assert(kb.rules@[r as int]@.head == kb.rules@[r as int].head@);
                    assert(sv[k as int] == subs@[k as int]@);
                    assert(sv.take(k + 1).drop_last() =~= sv.take(k as int));
                    assert(sv.take(k + 1).map_values(f) =~= sv.take(k as int).map_values(f).push(f(sv[k as int])));
                    assert(new_facts@ =~= prev.push(new_facts@.last()));
                    assert(facts_view(new_facts@) =~= facts_view(prev).push(t@));
                }
                k += 1;
            }
            proof {
                let sv = subs_view(subs@);
                assert(sv.take(subs@.len() as int) =~= sv);
                assert(rules.take(r + 1).drop_last() =~= rules.take(r as int));
                assert(rules.take(r + 1).last() == rules[r as int]);
                assert(rules[r as int] == kb.rules@[r as int]@);
            }
            r += 1;
        }
        proof {
            assert(rules.take(rules.len() as int) =~= rules);
        }
        let ghost derived = facts_view(new_facts@);
        let round_start = kb.facts.len();
        let mut k: usize = 0;
        while k < new_facts.len()
            invariant
                k <= new_facts.len(),
                kb@.rules == rules,
                derived == facts_view(new_facts@),
                kb@.facts == add_facts_spec(facts0, derived.take(k as int)),
                facts0.is_prefix_of(kb@.facts),
                round_start == facts0.len(),
                no_duplicates(facts0) ==> no_duplicates(kb@.facts),
            decreases new_facts.len() - k,
        {
            let f = new_facts[k].clone();
            let ghost before = kb@.facts;
            kb.add_fact(f);
            proof {
                assert(derived.take(k + 1).drop_last() =~= derived.take(k as int));
                assert(derived.take(k + 1).last() == derived[k as int]);
                if kb@.facts.len() > before.len() {
                    assert(before.is_prefix_of(kb@.facts));
                    if no_duplicates(facts0) {
                        assert(no_duplicates(kb@.facts)) by {
                            assert forall|a: int, b: int| 0 <= a < b < kb@.facts.len() implies kb@.facts[a] != kb@.facts[b] by {
                                if b == kb@.facts.len() - 1 {
                                    assert(!before.contains(kb@.facts[b]));
                                    assert(kb@.facts[a] == before[a]);
                                } else {
                                    assert(kb@.facts[a] == before[a] && kb@.facts[b] == before[b]);
                                }
                            }
                        }
                    }
                }
            }
            k += 1;
        }
        proof {
            assert(derived.take(new_facts@.len() as int) =~= derived);
            assert(kb@.facts == step(facts0, rules));
            assert(kb@.facts == iterate(initial, rules, (rounds_done@ + 1) as nat));
        }
        rounds_done = Ghost((rounds_done@ + 1) as nat);
        let n_now = kb.facts.len();
        if n_now == round_start {
            proof {
                assert(kb@.facts =~= facts0);
            }
            return n_now - start;
        }
    }
}

/// Facts that one round of the rules leaves unchanged stay unchanged by any number of rounds:
/// running forward chaining again on its own result adds nothing.
pub proof fn law_saturated_facts_stay(facts: Seq<TermModel>, rules: Seq<RuleModel>, n: nat)
    requires
        step(facts, rules) == facts,
    ensures
        iterate(facts, rules, n) == facts,
    decreases n,
{
    if n > 0 {
        law_saturated_facts_stay(facts, rules, (n - 1) as nat);
    }
}

/// A substitution agrees with `th`: every name it binds, `th` binds to the same text.
pub open spec fn agrees_with(s: Map<Seq<char>, Seq<char>>, th: Map<Seq<char>, Seq<char>>) -> bool {
    forall|n: Seq<char>| #[trigger] s.contains_key(n) ==> th.contains_key(n) && th[n] == s[n]
}

proof fn lemma_equate_contains(term: TermModel, facts: Seq<TermModel>, f: TermModel, tau: Map<Seq<char>, Seq<char>>)
    requires
        facts.contains(f),
        unify_spec(term, f, Map::empty()) == Some(tau),
    ensures
        equate_spec(term, facts).contains(tau),
    decreases facts.len(),
{
    let r = equate_spec(term, facts.drop_last());
    if facts.last() == f {
        assert(equate_spec(term, facts) == r.push(tau));
        assert(r.push(tau)[r.len() as int] == tau);
    } else {
        let i = choose|i: int| 0 <= i < facts.len() && facts[i] == f;
        assert(facts.drop_last()[i] == f);
        lemma_equate_contains(term, facts.drop_last(), f, tau);
        let k = choose|k: int| 0 <= k < r.len() && r[k] == tau;
        match unify_spec(term, facts.last(), Map::empty()) {
            Some(x) => assert(r.push(x)[k] == tau),
            None => {},
        }
    }
}

proof fn lemma_matches_with_contains(b: Map<Seq<char>, Seq<char>>, new: Seq<Map<Seq<char>, Seq<char>>>, tau: Map<Seq<char>, Seq<char>>)
    requires
        new.contains(tau),
        compatible(b, tau),
    ensures
        matches_with(b, new).contains(b.union_prefer_right(tau)),
    decreases new.len(),
{
    let r = matches_with(b, new.drop_last());
    let u = b.union_prefer_right(tau);
    if new.last() == tau {
        assert(matches_with(b, new) == r.push(u));
        assert(r.push(u)[r.len() as int] == u);
    } else {
        let i = choose|i: int| 0 <= i < new.len() && new[i] == tau;
        assert(new.drop_last()[i] == tau);
        lemma_matches_with_contains(b, new.drop_last(), tau);
        let k = choose|k: int| 0 <= k < r.len() && r[k] == u;
        match subs_match_spec(b, new.last()) {
            Some(x) => assert(r.push(x)[k] == u),
            None => {},
        }
    }
}

proof fn lemma_update_contains(
    old: Seq<Map<Seq<char>, Seq<char>>>,
    new: Seq<Map<Seq<char>, Seq<char>>>,
    sigma: Map<Seq<char>, Seq<char>>,
    tau: Map<Seq<char>, Seq<char>>,
)
    requires
        old.contains(sigma),
        new.contains(tau),
        compatible(sigma, tau),
    ensures
        update_spec(old, new).contains(sigma.union_prefer_right(tau)),
    decreases old.len(),
{
    let u = sigma.union_prefer_right(tau);
    let a = update_spec(old.drop_last(), new);
    let m = matches_with(old.last(), new);
    assert(update_spec(old, new) == a + m);
    if old.last() == sigma {
        lemma_matches_with_contains(sigma, new, tau);
        let k = choose|k: int| 0 <= k < m.len() && m[k] == u;
        assert((a + m)[a.len() + k] == u);
    } else {
        let i = choose|i: int| 0 <= i < old.len() && old[i] == sigma;
        assert(old.drop_last()[i] == sigma);
        lemma_update_contains(old.drop_last(), new, sigma, tau);
        let k = choose|k: int| 0 <= k < a.len() && a[k] == u;
        assert((a + m)[k] == u);
    }
}

proof fn lemma_round_contains(facts: Seq<TermModel>, rules: Seq<RuleModel>, r: int, x: TermModel)
    requires
        0 <= r < rules.len(),
        derived_by(facts, rules[r]).contains(x),
    ensures
        round_spec(facts, rules).contains(x),
    decreases rules.len(),
{
    let a = round_spec(facts, rules.drop_last());
    let d = derived_by(facts, rules.last());
    assert(round_spec(facts, rules) == a + d);
    if r == rules.len() - 1 {
        let k = choose|k: int| 0 <= k < d.len() && d[k] == x;
        assert((a + d)[a.len() + k] == x);
    } else {
        assert(rules.drop_last()[r] == rules[r]);
        lemma_round_contains(facts, rules.drop_last(), r, x);
        let k = choose|k: int| 0 <= k < a.len() && a[k] == x;
        assert((a + d)[k] == x);
    }
}

proof fn lemma_add_facts_contains(facts: Seq<TermModel>, new: Seq<TermModel>)
    ensures
        forall|x: TermModel| facts.contains(x) ==> add_facts_spec(facts, new).contains(x),
        forall|i: int| 0 <= i < new.len() ==> add_facts_spec(facts, new).contains(#[trigger] new[i]),
    decreases new.len(),
{
    if new.len() > 0 {
        let d = new.drop_last();
        lemma_add_facts_contains(facts, d);
        let a = add_facts_spec(facts, d);
        let y = new.last();
        assert forall|x: TermModel| a.contains(x) implies with_fact(a, y).contains(x) by {
            if !a.contains(y) {
                let k = choose|k: int| 0 <= k < a.len() && a[k] == x;
                assert(a.push(y)[k] == x);
            }
        }
        assert(with_fact(a, y).contains(y)) by {
            if !a.contains(y) {
                assert(a.push(y)[a.len() as int] == y);
            }
        }
        assert forall|i: int| 0 <= i < new.len() implies with_fact(a, y).contains(#[trigger] new[i]) by {
            if i < new.len() - 1 {
                assert(d[i] == new[i]);
                assert(a.contains(d[i]));
            }
        }
    }
}

/// A flat pattern with its variables bound by `th` becomes a flat ground term.
proof fn lemma_apply_flat_ground(p: TermModel, th: Map<Seq<char>, Seq<char>>)
    requires
        flat_pattern(p),
        pattern_vars(p).subset_of(th.dom()),
    ensures
        flat_ground(apply_spec(p, th)),
{
    broadcast use lemma_apply_args_len, lemma_apply_args_index;
    if let TermModel::Compound(f, a) = p {
        assert forall|i: int| 0 <= i < a.len() implies (#[trigger] apply_args_spec(a, th)[i]) is Atom by {
            if let TermModel::Variable(n) = a[i] {
                assert(arg_vars(a).contains(n));
            }
        }
    }
}

/// A flat pattern gives the same term under two substitutions that bind its variables to the
/// same texts.
proof fn lemma_apply_agree(p: TermModel, sigma: Map<Seq<char>, Seq<char>>, th: Map<Seq<char>, Seq<char>>)
    requires
        flat_pattern(p),
        pattern_vars(p).subset_of(sigma.dom()),
        agrees_with(sigma, th),
    ensures
        apply_spec(p, sigma) == apply_spec(p, th),
{
    broadcast use lemma_apply_args_len, lemma_apply_args_index;
    if let TermModel::Compound(f, a) = p {
        assert forall|i: int| 0 <= i < a.len() implies apply_args_spec(a, sigma)[i] == apply_args_spec(a, th)[i] by {
            if let TermModel::Variable(n) = a[i] {
                assert(arg_vars(a).contains(n));
                assert(sigma.contains_key(n));
            }
        }
        assert(apply_args_spec(a, sigma) =~= apply_args_spec(a, th));
    }
}

/// Unifying a flat pattern with its instance under `th` gives a unifier that binds exactly
/// the pattern's variables, each to its text under `th`.
proof fn lemma_unifier_of_instance(b: TermModel, th: Map<Seq<char>, Seq<char>>) -> (tau: Map<Seq<char>, Seq<char>>)
    requires
        flat_pattern(b),
        pattern_vars(b).subset_of(th.dom()),
    ensures
        unify_spec(b, apply_spec(b, th), Map::empty()) == Some(tau),
        agrees_with(tau, th),
        tau.dom() == pattern_vars(b),
{
    broadcast use lemma_apply_args_len, lemma_apply_args_index;
    lemma_apply_flat_ground(b, th);
    law_unify_flat(b, apply_spec(b, th));
    let tau = unify_spec(b, apply_spec(b, th), Map::empty())->Some_0;
    assert forall|n: Seq<char>| #[trigger] tau.contains_key(n) implies th.contains_key(n) && th[n] == tau[n] by {
        if let TermModel::Compound(f, a) = b {
            assert(arg_vars(a).contains(n));
            let i = choose|i: int| 0 <= i < a.len() && a[i] == TermModel::Variable(n);
            assert(apply_args_spec(a, tau)[i] == apply_args_spec(a, th)[i]);
        }
    }
    tau
}

/// The rules that forward chaining closes a set of facts under: flat head and body terms
/// (atoms, or compounds whose arguments are atoms or variables), a body, and every variable
/// of the head in the body.
pub open spec fn flat_rule(r: RuleModel) -> bool {
    &&& flat_pattern(r.head)
    &&& r.body.len() > 0
    &&& forall|i: int| 0 <= i < r.body.len() ==> flat_pattern(#[trigger] r.body[i])
    &&& forall|n: Seq<char>| #[trigger] pattern_vars(r.head).contains(n) ==> exists|i: int|
        0 <= i < r.body.len() && #[trigger] pattern_vars(r.body[i]).contains(n)
}

/// `th` binds every variable of the rule's body.
pub open spec fn binds_body(th: Map<Seq<char>, Seq<char>>, r: RuleModel) -> bool {
    forall|i: int| 0 <= i < r.body.len() ==> pattern_vars(#[trigger] r.body[i]).subset_of(th.dom())
}

proof fn lemma_find_subs_finds(facts: Seq<TermModel>, body: Seq<TermModel>, th: Map<Seq<char>, Seq<char>>, k: int)
    requires
        1 <= k <= body.len(),
        forall|i: int| 0 <= i < body.len() ==> flat_pattern(#[trigger] body[i]),
        forall|i: int| 0 <= i < body.len() ==> pattern_vars(#[trigger] body[i]).subset_of(th.dom()),
        forall|i: int| 0 <= i < body.len() ==> facts.contains(apply_spec(#[trigger] body[i], th)),
    ensures
        exists|sigma: Map<Seq<char>, Seq<char>>| #[trigger] find_subs_spec(facts, body.take(k)).contains(sigma)
            && agrees_with(sigma, th) && forall|i: int| 0 <= i < k ==> pattern_vars(#[trigger] body[i]).subset_of(
            sigma.dom(),
        ),
    decreases k,
{
    let pre = body.take(k);
    let b = body[k - 1];
    assert(pre.drop_last() =~= body.take(k - 1));
    assert(pre.last() == b);
    let tau = lemma_unifier_of_instance(b, th);
    lemma_equate_contains(b, facts, apply_spec(b, th), tau);
    let new = equate_spec(b, facts);
    if k == 1 {
        assert(body.take(0) =~= Seq::<TermModel>::empty());
        assert(find_subs_spec(facts, body.take(0)) =~= Seq::<Map<Seq<char>, Seq<char>>>::empty());
        assert(find_subs_spec(facts, pre) == new);
        assert(find_subs_spec(facts, pre).contains(tau));
    } else {
        lemma_find_subs_finds(facts, body, th, k - 1);
        let res = find_subs_spec(facts, body.take(k - 1));
        let sigma = choose|sigma: Map<Seq<char>, Seq<char>>| #[trigger] res.contains(sigma) && agrees_with(sigma, th)
            && forall|i: int| 0 <= i < k - 1 ==> pattern_vars(#[trigger] body[i]).subset_of(sigma.dom());
        assert(res.len() > 0);
        assert(find_subs_spec(facts, pre) == update_spec(res, new));
        assert(compatible(sigma, tau));
        lemma_update_contains(res, new, sigma, tau);
        let u = sigma.union_prefer_right(tau);
        assert(agrees_with(u, th));
        assert forall|i: int| 0 <= i < k implies pattern_vars(#[trigger] body[i]).subset_of(u.dom()) by {
            if i < k - 1 {
                assert(pattern_vars(body[i]).subset_of(sigma.dom()));
            }
        }
        assert(find_subs_spec(facts, pre).contains(u));
    }
}

/// Facts that one more round leaves unchanged are closed under every flat rule: whenever a
/// substitution makes every body term of a rule one of the facts, it makes the head one of
/// them too. `forward_chain` ends on such facts.
pub proof fn law_forward_closure(facts: Seq<TermModel>, rules: Seq<RuleModel>, r: int, th: Map<Seq<char>, Seq<char>>)
    requires
        step(facts, rules) == facts,
        0 <= r < rules.len(),
        flat_rule(rules[r]),
        binds_body(th, rules[r]),
        forall|i: int| 0 <= i < rules[r].body.len() ==> facts.contains(apply_spec(#[trigger] rules[r].body[i], th)),
    ensures
        facts.contains(apply_spec(rules[r].head, th)),
{
    let rule = rules[r];
    let body = rule.body;
    lemma_find_subs_finds(facts, body, th, body.len() as int);
    assert(body.take(body.len() as int) =~= body);
    let subs = find_subs_spec(facts, body);
    let sigma = choose|sigma: Map<Seq<char>, Seq<char>>| #[trigger] subs.contains(sigma) && agrees_with(sigma, th)
        && forall|i: int| 0 <= i < body.len() ==> pattern_vars(#[trigger] body[i]).subset_of(sigma.dom());
    assert forall|n: Seq<char>| pattern_vars(rule.head).contains(n) implies sigma.dom().contains(n) by {
        let i = choose|i: int| 0 <= i < body.len() && #[trigger] pattern_vars(body[i]).contains(n);
        assert(pattern_vars(body[i]).subset_of(sigma.dom()));
    }
    lemma_apply_agree(rule.head, sigma, th);
    let x = apply_spec(rule.head, th);
    let k = choose|k: int| 0 <= k < subs.len() && subs[k] == sigma;
    let d = derived_by(facts, rule);
    assert(d[k] == x);
    lemma_round_contains(facts, rules, r, x);
    let rd = round_spec(facts, rules);
    let j = choose|j: int| 0 <= j < rd.len() && rd[j] == x;
    lemma_add_facts_contains(facts, rd);
    assert(add_facts_spec(facts, rd).contains(rd[j]));
}

} // verus!
