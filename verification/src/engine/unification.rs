//! Unification of terms under a substitution, and application of substitutions.
use vstd::prelude::*;
use crate::types::{Term, TermModel, Substitution, term_text, terms_model, lemma_terms_model_len, lemma_terms_model_index};

verus! {

broadcast use vstd::std_specs::vec::group_vec_axioms, crate::types::group_terms_model;

/// The term that a term stands for under `s`: a bound variable stands for the atom named by
/// its binding; every other term stands for itself.
pub open spec fn resolved(t: TermModel, s: Map<Seq<char>, Seq<char>>) -> TermModel {
    match t {
        TermModel::Variable(n) => if s.contains_key(n) {
            TermModel::Atom(s[n])
        } else {
            t
        },
        _ => t,
    }
}

/// Whether the unbound variable `v` occurs in `t` under `s`.
pub open spec fn occurs(v: Seq<char>, t: TermModel, s: Map<Seq<char>, Seq<char>>) -> bool
    decreases t,
{
    match t {
        TermModel::Atom(_) => false,
        TermModel::Variable(n) => !s.contains_key(n) && n == v,
        TermModel::Compound(_, args) => occurs_in_args(v, args, s),
    }
}

/// Whether the unbound variable `v` occurs in one of the terms under `s`.
pub open spec fn occurs_in_args(v: Seq<char>, args: Seq<TermModel>, s: Map<Seq<char>, Seq<char>>) -> bool
    decreases args,
{
    if args.len() == 0 {
        false
    } else {
        occurs_in_args(v, args.drop_last(), s) || occurs(v, args.last(), s)
    }
}

/// The name of an atom or a variable, the functor of a compound.
pub open spec fn name_of(t: TermModel) -> Seq<char> {
    match t {
        TermModel::Atom(n) => n,
        TermModel::Variable(n) => n,
        TermModel::Compound(f, _) => f,
    }
}

/// The result of unifying `t1` with `t2` under `s`. After resolving both terms: equal atoms
/// and equal variables unify with no new binding; an unbound variable is bound to the text of
/// the other term unless it occurs in it; compounds unify when their functors and arities agree
/// and their arguments unify from left to right; anything else fails.
pub open spec fn unify_spec(t1: TermModel, t2: TermModel, s: Map<Seq<char>, Seq<char>>) -> Option<Map<Seq<char>, Seq<char>>>
    decreases t1,
{
    let r1 = resolved(t1, s);
    let r2 = resolved(t2, s);
    if r1 is Atom && r2 is Atom && name_of(r1) == name_of(r2) {
        Some(s)
    } else if r1 is Variable && r2 is Variable && name_of(r1) == name_of(r2) {
        Some(s)
    } else if r1 is Variable {
        if occurs(name_of(r1), r2, s) {
            None
        } else {
            Some(s.insert(name_of(r1), term_text(r2)))
        }
    } else if r2 is Variable {
        if occurs(name_of(r2), r1, s) {
            None
        } else {
            Some(s.insert(name_of(r2), term_text(r1)))
        }
    } else {
        match t1 {
            TermModel::Compound(f1, a1) => match t2 {
                TermModel::Compound(f2, a2) => if f1 == f2 && a1.len() == a2.len() {
                    unify_args_spec(a1, a2, s)
                } else {
                    None
                },
                _ => None,
            },
            _ => None,
        }
    }
}

/// Unifies `a1[i]` with `a2[i]` for each `i` from left to right, threading the substitution.
pub open spec fn unify_args_spec(a1: Seq<TermModel>, a2: Seq<TermModel>, s: Map<Seq<char>, Seq<char>>) -> Option<Map<Seq<char>, Seq<char>>>
    decreases a1,
{
    if a1.len() == 0 {
        Some(s)
    } else {
        match unify_args_spec(a1.drop_last(), a2.drop_last(), s) {
            Some(s2) => unify_spec(a1.last(), a2.last(), s2),
            None => None,
        }
    }
}

/// `t` with every bound variable replaced by the atom named by its binding.
pub open spec fn apply_spec(t: TermModel, s: Map<Seq<char>, Seq<char>>) -> TermModel
    decreases t,
{
    match t {
        TermModel::Atom(_) => t,
        TermModel::Variable(n) => if s.contains_key(n) {
            TermModel::Atom(s[n])
        } else {
            t
        },
        TermModel::Compound(f, args) => TermModel::Compound(f, apply_args_spec(args, s)),
    }
}

/// `apply_spec` on each term.
pub open spec fn apply_args_spec(args: Seq<TermModel>, s: Map<Seq<char>, Seq<char>>) -> Seq<TermModel>
    decreases args,
{
    if args.len() == 0 {
        Seq::empty()
    } else {
        apply_args_spec(args.drop_last(), s).push(apply_spec(args.last(), s))
    }
}

pub broadcast proof fn lemma_apply_args_len(args: Seq<TermModel>, s: Map<Seq<char>, Seq<char>>)
    ensures
        #[trigger] apply_args_spec(args, s).len() == args.len(),
    decreases args.len(),
{
    if args.len() > 0 {
        lemma_apply_args_len(args.drop_last(), s);
    }
}

pub broadcast proof fn lemma_apply_args_index(args: Seq<TermModel>, s: Map<Seq<char>, Seq<char>>, i: int)
    requires
        0 <= i < args.len(),
    ensures
        #[trigger] apply_args_spec(args, s)[i] == apply_spec(args[i], s),
    decreases args.len(),
{
    lemma_apply_args_len(args, s);
    if i < args.len() - 1 {
        lemma_apply_args_index(args.drop_last(), s, i);
    }
}

fn resolve(term: &Term, substitution: &Substitution) -> (r: Term)
    ensures
        r@ == resolved(term@, substitution@),
{
    match term {
        Term::Variable(name) => match substitution.get(name.as_str()) {
            Some(bound) => Term::Atom(bound.clone()),
            None => term.deep_clone(),
        },
        _ => term.deep_clone(),
    }
}

fn occurs_in(variable: &str, term: &Term, substitution: &Substitution) -> (r: bool)
    ensures
        r == occurs(variable@, term@, substitution@),
    decreases term,
{
    match term {
        Term::Atom(_) => false,
        Term::Variable(name) => match substitution.get(name.as_str()) {
            Some(_) => false,
            None => crate::text::str_eq(name.as_str(), variable),
        },
        Term::Compound { functor, args } => {
            let mut i: usize = 0;
            proof {
                assert(decreases_to!(*term => *args));
            }
            while i < args.len()
                invariant
                    decreases_to!(*term => *args),
                    term@ == TermModel::Compound(functor@, terms_model(args@)),
                    i <= args.len(),
                    !occurs_in_args(variable@, terms_model(args@.take(i as int)), substitution@),
                decreases args.len() - i,
            {
                proof {
                    assert(decreases_to!(*args => args[i as int]));
                }
                let found = occurs_in(variable, &args[i], substitution);
                proof {
                    let t = args@.take(i + 1);
                    assert(t.drop_last() =~= args@.take(i as int));
                    assert(terms_model(t).drop_last() =~= terms_model(t.drop_last()));
                    assert(terms_model(t).last() == args@[i as int]@);
                }
                if found {
                    proof {
                        lemma_occurs_in_args_prefix(variable@, terms_model(args@), (i + 1) as int, substitution@);
                        assert(terms_model(args@).take(i + 1) =~= terms_model(args@.take(i + 1)));
                    }
                    return true;
                }
                i += 1;
            }
            proof {
                assert(args@.take(args@.len() as int) =~= args@);
            }
            false
        },
    }
}

proof fn lemma_occurs_in_args_prefix(v: Seq<char>, args: Seq<TermModel>, k: int, s: Map<Seq<char>, Seq<char>>)
    requires
        0 <= k <= args.len(),
        occurs_in_args(v, args.take(k), s),
    ensures
        occurs_in_args(v, args, s),
    decreases args.len(),
{
    if k < args.len() {
        assert(args.drop_last().take(k) =~= args.take(k));
        lemma_occurs_in_args_prefix(v, args.drop_last(), k, s);
    } else {
        assert(args.take(k) =~= args);
    }
}

/// Unifies `t1` with `t2` under `substitution`, extending it in place; on failure the
/// substitution is left in an unspecified state.
fn unify_mut(t1: &Term, t2: &Term, substitution: &mut Substitution) -> (r: Option<()>)
    ensures
        match r {
            Some(_) => unify_spec(t1@, t2@, old(substitution)@) == Some(final(substitution)@),
            None => unify_spec(t1@, t2@, old(substitution)@) is None,
        },
    decreases t1,
{
    let r1 = resolve(t1, substitution);
    let r2 = resolve(t2, substitution);
    let same_atoms = match (&r1, &r2) {
        (Term::Atom(a), Term::Atom(b)) => *a == *b,
        _ => false,
    };
    if same_atoms {
        return Some(());
    }
    let same_variables = match (&r1, &r2) {
        (Term::Variable(a), Term::Variable(b)) => *a == *b,
        _ => false,
    };
    if same_variables {
        return Some(());
    }
    if let Term::Variable(name) = &r1 {
        if occurs_in(name.as_str(), &r2, substitution) {
            return None;
        }
        let text = r2.to_string();
        substitution.insert(name.clone(), text);
        return Some(());
    }
    if let Term::Variable(name) = &r2 {
        if occurs_in(name.as_str(), &r1, substitution) {
            return None;
        }
        let text = r1.to_string();
        substitution.insert(name.clone(), text);
        return Some(());
    }
    match t1 {
        Term::Compound { functor: f1, args: args1 } => match t2 {
        Term::Compound { functor: f2, args: args2 } => {
            if !(*f1 == *f2) || args1.len() != args2.len() {
                proof {
                    assert(t1@ == TermModel::Compound(f1@, terms_model(args1@)));
                    assert(t2@ == TermModel::Compound(f2@, terms_model(args2@)));
                    assert(r1@ == t1@);
                    assert(r2@ == t2@);
                    assert(!(r1@ is Variable));
                    assert(!(r2@ is Variable));
                    assert(!(r1@ is Atom));
                }
                return None;
            }
            let mut i: usize = 0;
            let ghost s0 = old(substitution)@;
            proof {
                assert(t1@ == TermModel::Compound(f1@, terms_model(args1@)));
                assert(t2@ == TermModel::Compound(f2@, terms_model(args2@)));
                assert(r1@ == t1@);
                assert(r2@ == t2@);
                assert(!(r1@ is Atom));
                assert(unify_spec(t1@, t2@, s0) == unify_args_spec(terms_model(args1@), terms_model(args2@), s0));
                assert(decreases_to!(*t1 => *args1));
                assert(args1@.take(0) =~= Seq::<Term>::empty());
                assert(args2@.take(0) =~= Seq::<Term>::empty());
            }
            while i < args1.len()
                invariant
                    decreases_to!(*t1 => *args1),
                    s0 == old(substitution)@,
                    unify_spec(t1@, t2@, s0) == unify_args_spec(terms_model(args1@), terms_model(args2@), s0),
                    args1.len() == args2.len(),
                    i <= args1.len(),
                    unify_args_spec(
                        terms_model(args1@.take(i as int)),
                        terms_model(args2@.take(i as int)),
                        s0,
                    ) == Some(substitution@),
                decreases args1.len() - i,
            {
                proof {
                    assert(decreases_to!(*args1 => args1[i as int]));
                }
                let ghost before = substitution@;
                let step = unify_mut(&args1[i], &args2[i], substitution);
                proof {
                    let x = args1@.take(i + 1);
                    let y = args2@.take(i + 1);
                    assert(x.drop_last() =~= args1@.take(i as int));
                    assert(y.drop_last() =~= args2@.take(i as int));
                    assert(terms_model(x).drop_last() =~= terms_model(x.drop_last()));
                    assert(terms_model(y).drop_last() =~= terms_model(y.drop_last()));
                    assert(terms_model(x).last() == args1@[i as int]@);
                    assert(terms_model(y).last() == args2@[i as int]@);
                }
                if step.is_none() {
                    proof {
                        assert(unify_args_spec(terms_model(args1@.take(i + 1)), terms_model(args2@.take(i + 1)), s0) is None);
                        assert(terms_model(args1@).take(i + 1) =~= terms_model(args1@.take(i + 1)));
                        assert(terms_model(args2@).take(i + 1) =~= terms_model(args2@.take(i + 1)));
                        lemma_unify_args_prefix_fails(
                            terms_model(args1@),
                            terms_model(args2@),
                            (i + 1) as int,
                            s0,
                        );
                        assert(unify_spec(t1@, t2@, s0) is None);
                    }
                    return None;
                }
                i += 1;
            }
            proof {
                assert(args1@.take(args1@.len() as int) =~= args1@);
                assert(args2@.take(args2@.len() as int) =~= args2@);
            }
            Some(())
        },
        _ => None,
        },
        _ => None,
    }
}

proof fn lemma_unify_args_prefix_fails(a1: Seq<TermModel>, a2: Seq<TermModel>, k: int, s: Map<Seq<char>, Seq<char>>)
    requires
        0 <= k <= a1.len(),
        a1.len() == a2.len(),
        unify_args_spec(a1.take(k), a2.take(k), s) is None,
    ensures
        unify_args_spec(a1, a2, s) is None,
    decreases a1.len(),
{
    if k < a1.len() {
        assert(a1.drop_last().take(k) =~= a1.take(k));
        assert(a2.drop_last().take(k) =~= a2.take(k));
        lemma_unify_args_prefix_fails(a1.drop_last(), a2.drop_last(), k, s);
    } else {
        assert(a1.take(k) =~= a1);
        assert(a2.take(k) =~= a2);
    }
}

/// Unifies `t1` with `t2` starting from `substitution`; `None` when they do not unify.
pub fn unify(t1: &Term, t2: &Term, substitution: Substitution) -> (r: Option<Substitution>)
    ensures
        unify_spec(t1@, t2@, substitution@) == (match r {
            Some(s) => Some(s@),
            None => None,
        }),
{
    let mut substitution = substitution;
    match unify_mut(t1, t2, &mut substitution) {
        Some(_) => Some(substitution),
        None => None,
    }
}

/// `term` with every bound variable replaced by the atom named by its binding.
pub fn apply_substitution(term: &Term, substitution: &Substitution) -> (r: Term)
    ensures
        r@ == apply_spec(term@, substitution@),
    decreases term,
{
    match term {
        Term::Atom(_) => term.deep_clone(),
        Term::Variable(name) => match substitution.get(name.as_str()) {
            Some(bound) => Term::Atom(bound.clone()),
            None => term.deep_clone(),
        },
        Term::Compound { functor, args: arguments } => {
            let mut args: Vec<Term> = Vec::new();
            let mut i: usize = 0;
            proof {
                assert(decreases_to!(*term => *arguments));
            }
            while i < arguments.len()
                invariant
                    decreases_to!(*term => *arguments),
                    i <= arguments.len(),
                    args@.len() == i,
                    forall|j: int| 0 <= j < i ==> #[trigger] args@[j]@ == apply_spec(arguments@[j]@, substitution@),
                decreases arguments.len() - i,
            {
                proof {
                    assert(decreases_to!(*arguments => arguments[i as int]));
                }
                args.push(apply_substitution(&arguments[i], substitution));
                i += 1;
            }
            proof {
                let m = terms_model(arguments@);
                assert forall|j: int| 0 <= j < args@.len() implies terms_model(args@)[j] == apply_args_spec(m, substitution@)[j] by {
                    lemma_apply_args_index(m, substitution@, j);
                }
                lemma_apply_args_len(m, substitution@);
                assert(terms_model(args@) =~= apply_args_spec(m, substitution@));
            }
            Term::Compound { functor: functor.clone(), args }
        },
    }
}

/// Unifying a term with itself succeeds and adds no binding.
pub proof fn law_unify_reflexive(t: TermModel, s: Map<Seq<char>, Seq<char>>)
    ensures
        unify_spec(t, t, s) == Some(s),
    decreases t,
{
    match t {
        TermModel::Compound(_, a) => lemma_unify_args_reflexive(a, s),
        _ => {},
    }
}

proof fn lemma_unify_args_reflexive(a: Seq<TermModel>, s: Map<Seq<char>, Seq<char>>)
    ensures
        unify_args_spec(a, a, s) == Some(s),
    decreases a,
{
    if a.len() > 0 {
        lemma_unify_args_reflexive(a.drop_last(), s);
        law_unify_reflexive(a.last(), s);
    }
}

/// An unbound variable meets a term that does not stand for a variable the same way on
/// either side: unification is symmetric there, and it binds the variable to the text of the
/// whole term the other side stands for, unless the variable occurs in it.
pub proof fn law_unify_variable_symmetric(t: TermModel, n: Seq<char>, s: Map<Seq<char>, Seq<char>>)
    requires
        !s.contains_key(n),
        !(resolved(t, s) is Variable),
    ensures
        unify_spec(t, TermModel::Variable(n), s) == unify_spec(TermModel::Variable(n), t, s),
        unify_spec(TermModel::Variable(n), t, s) == (if occurs(n, resolved(t, s), s) {
            None
        } else {
            Some(s.insert(n, term_text(resolved(t, s))))
        }),
{
}

/// A successful unification keeps every binding it started from: it only adds bindings.
pub proof fn law_unify_extends(t1: TermModel, t2: TermModel, s: Map<Seq<char>, Seq<char>>)
    ensures
        unify_spec(t1, t2, s) matches Some(s2) ==> s.submap_of(s2),
    decreases t1,
{
    let r1 = resolved(t1, s);
    let r2 = resolved(t2, s);
    if r1 is Atom && r2 is Atom && name_of(r1) == name_of(r2) {
    } else if r1 is Variable && r2 is Variable && name_of(r1) == name_of(r2) {
    } else if r1 is Variable {
    } else if r2 is Variable {
    } else {
        match t1 {
            TermModel::Compound(f1, a1) => match t2 {
                TermModel::Compound(f2, a2) => {
                    lemma_unify_args_extends(a1, a2, s);
                },
                _ => {},
            },
            _ => {},
        }
    }
}

proof fn lemma_unify_args_extends(a1: Seq<TermModel>, a2: Seq<TermModel>, s: Map<Seq<char>, Seq<char>>)
    ensures
        unify_args_spec(a1, a2, s) matches Some(s2) ==> s.submap_of(s2),
    decreases a1,
{
    if a1.len() > 0 {
        lemma_unify_args_extends(a1.drop_last(), a2.drop_last(), s);
        match unify_args_spec(a1.drop_last(), a2.drop_last(), s) {
            Some(s1) => {
                law_unify_extends(a1.last(), a2.last(), s1);
                if let Some(s2) = unify_spec(a1.last(), a2.last(), s1) {
                    assert forall|k: Seq<char>| #[trigger] s.contains_key(k) implies s2.contains_key(k) && s2[k] == s[k] by {
                        assert(s1.contains_key(k));
                    }
                }
            },
            None => {},
        }
    }
}

/// Applying the empty substitution gives the term back unchanged.
pub proof fn law_apply_empty(t: TermModel)
    ensures
        apply_spec(t, Map::empty()) == t,
    decreases t,
{
    match t {
        TermModel::Compound(f, a) => lemma_apply_args_empty(a),
        _ => {},
    }
}

proof fn lemma_apply_args_empty(a: Seq<TermModel>)
    ensures
        apply_args_spec(a, Map::empty()) == a,
    decreases a,
{
    if a.len() > 0 {
        lemma_apply_args_empty(a.drop_last());
        law_apply_empty(a.last());
        assert(a.drop_last().push(a.last()) =~= a);
    }
}

/// Applying a substitution a second time changes nothing: bound variables have become atoms
/// and the others are still unbound.
pub proof fn law_apply_idempotent(t: TermModel, s: Map<Seq<char>, Seq<char>>)
    ensures
        apply_spec(apply_spec(t, s), s) == apply_spec(t, s),
    decreases t,
{
    match t {
        TermModel::Compound(f, a) => lemma_apply_args_idempotent(a, s),
        _ => {},
    }
}

proof fn lemma_apply_args_idempotent(a: Seq<TermModel>, s: Map<Seq<char>, Seq<char>>)
    ensures
        apply_args_spec(apply_args_spec(a, s), s) == apply_args_spec(a, s),
    decreases a,
{
    if a.len() > 0 {
        lemma_apply_args_idempotent(a.drop_last(), s);
        law_apply_idempotent(a.last(), s);
        let b = apply_args_spec(a, s);
        assert(b.drop_last() == apply_args_spec(a.drop_last(), s));
        assert(b.last() == apply_spec(a.last(), s));
    }
}

/// An argument of a flat pattern: an atom or a variable.
pub open spec fn pattern_arg(t: TermModel) -> bool {
    t is Atom || t is Variable
}

/// A flat pattern: an atom, or a compound whose arguments are atoms or variables.
pub open spec fn flat_pattern(t: TermModel) -> bool {
    match t {
        TermModel::Atom(_) => true,
        TermModel::Compound(_, a) => forall|i: int| 0 <= i < a.len() ==> pattern_arg(#[trigger] a[i]),
        TermModel::Variable(_) => false,
    }
}

/// A flat ground term: an atom, or a compound whose arguments are atoms.
pub open spec fn flat_ground(t: TermModel) -> bool {
    match t {
        TermModel::Atom(_) => true,
        TermModel::Compound(_, a) => forall|i: int| 0 <= i < a.len() ==> (#[trigger] a[i]) is Atom,
        TermModel::Variable(_) => false,
    }
}

/// The names of the variables among the arguments.
pub open spec fn arg_vars(a: Seq<TermModel>) -> Set<Seq<char>> {
    Set::new(|n: Seq<char>| exists|i: int| 0 <= i < a.len() && a[i] == TermModel::Variable(n))
}

/// The names of the variables of a flat pattern.
pub open spec fn pattern_vars(t: TermModel) -> Set<Seq<char>> {
    match t {
        TermModel::Compound(_, a) => arg_vars(a),
        TermModel::Variable(n) => set![n],
        TermModel::Atom(_) => Set::empty(),
    }
}

proof fn lemma_arg_vars_push(a: Seq<TermModel>)
    requires
        a.len() > 0,
        pattern_arg(a.last()),
    ensures
        arg_vars(a) == arg_vars(a.drop_last()).union(pattern_vars(a.last())),
{
    let d = a.drop_last();
    let l = a.last();
    assert forall|n: Seq<char>| arg_vars(a).contains(n) <==> arg_vars(d).union(pattern_vars(l)).contains(n) by {
        if arg_vars(a).contains(n) {
            let i = choose|i: int| 0 <= i < a.len() && a[i] == TermModel::Variable(n);
            if i < a.len() - 1 {
                assert(d[i] == a[i]);
            } else {
                assert(pattern_vars(l).contains(n));
            }
        }
        if arg_vars(d).contains(n) {
            let i = choose|i: int| 0 <= i < d.len() && d[i] == TermModel::Variable(n);
            assert(a[i] == d[i]);
        }
        if pattern_vars(l).contains(n) {
            match l {
                TermModel::Variable(m) => {
                    assert(m == n);
                    assert(a[a.len() - 1] == TermModel::Variable(n));
                },
                _ => {},
            }
        }
    }
    assert(arg_vars(a) =~= arg_vars(d).union(pattern_vars(l)));
}

/// A variable, if bound by `s`, is bound to the same text by `th`.
pub open spec fn agrees_on(p: TermModel, s: Map<Seq<char>, Seq<char>>, th: Map<Seq<char>, Seq<char>>) -> bool {
    match p {
        TermModel::Variable(n) => s.contains_key(n) ==> th.contains_key(n) && th[n] == s[n],
        _ => true,
    }
}

/// Unifying a pattern argument with an atom: it succeeds when the argument, once bound, names
/// the atom; the new binding, if any, is that of the argument's variable.
proof fn lemma_unify_pattern_arg(p: TermModel, q: TermModel, s: Map<Seq<char>, Seq<char>>)
    requires
        pattern_arg(p),
        q is Atom,
    ensures
        unify_spec(p, q, s) matches Some(s2) ==> apply_spec(p, s2) == q && s.submap_of(s2) && s2.dom() == s.dom().union(
            pattern_vars(p),
        ),
        (exists|th: Map<Seq<char>, Seq<char>>| #[trigger] apply_spec(p, th) == q && agrees_on(p, s, th)) ==> unify_spec(
            p,
            q,
            s,
        ) is Some,
{
    match p {
        TermModel::Variable(n) => {
            if !s.contains_key(n) {
                assert(s.insert(n, term_text(q)).dom() =~= s.dom().union(set![n]));
            } else {
                assert(s.dom().union(set![n]) =~= s.dom());
            }
        },
        _ => {
            assert(s.dom().union(Set::<Seq<char>>::empty()) =~= s.dom());
        },
    }
}

proof fn lemma_apply_args_stable(a: Seq<TermModel>, s1: Map<Seq<char>, Seq<char>>, s2: Map<Seq<char>, Seq<char>>)
    requires
        forall|i: int| 0 <= i < a.len() ==> pattern_arg(#[trigger] a[i]),
        arg_vars(a).subset_of(s1.dom()),
        s1.submap_of(s2),
    ensures
        apply_args_spec(a, s2) == apply_args_spec(a, s1),
{
    broadcast use lemma_apply_args_len, lemma_apply_args_index;
    assert forall|i: int| 0 <= i < a.len() implies apply_args_spec(a, s2)[i] == apply_args_spec(a, s1)[i] by {
        if let TermModel::Variable(n) = a[i] {
            assert(arg_vars(a).contains(n));
        }
    }
    assert(apply_args_spec(a, s2) =~= apply_args_spec(a, s1));
}

/// Unifying flat pattern arguments with atoms is sound: the arguments, under the result,
/// are the atoms; the result keeps the bindings it started from and binds exactly the
/// arguments' variables besides.
proof fn lemma_unify_args_flat_sound(a1: Seq<TermModel>, a2: Seq<TermModel>, s: Map<Seq<char>, Seq<char>>)
    requires
        a1.len() == a2.len(),
        forall|i: int| 0 <= i < a1.len() ==> pattern_arg(#[trigger] a1[i]),
        forall|i: int| 0 <= i < a2.len() ==> (#[trigger] a2[i]) is Atom,
    ensures
        unify_args_spec(a1, a2, s) matches Some(s2) ==> apply_args_spec(a1, s2) == a2 && s.submap_of(s2)
            && s2.dom() == s.dom().union(arg_vars(a1)),
    decreases a1.len(),
{
    if a1.len() == 0 {
        assert(arg_vars(a1) =~= Set::<Seq<char>>::empty());
        assert(s.dom().union(Set::<Seq<char>>::empty()) =~= s.dom());
        assert(a2 =~= Seq::<TermModel>::empty());
    } else {
        let d1 = a1.drop_last();
        let d2 = a2.drop_last();
        assert(forall|i: int| 0 <= i < d1.len() ==> d1[i] == a1[i]);
        assert(forall|i: int| 0 <= i < d2.len() ==> d2[i] == a2[i]);
        lemma_unify_args_flat_sound(d1, d2, s);
        lemma_arg_vars_push(a1);
        if let Some(s1) = unify_args_spec(d1, d2, s) {
            lemma_unify_pattern_arg(a1.last(), a2.last(), s1);
            if let Some(s2) = unify_spec(a1.last(), a2.last(), s1) {
                lemma_apply_args_stable(d1, s1, s2);
                assert(apply_args_spec(a1, s2) =~= a2);
                assert(s2.dom() =~= s.dom().union(arg_vars(a1)));
            }
        }
    }
}

/// Unifying flat pattern arguments with atoms is complete: when some substitution that
/// agrees with the starting bindings on the arguments' variables makes the arguments the
/// atoms, unification succeeds.
proof fn lemma_unify_args_flat_complete(
    a1: Seq<TermModel>,
    a2: Seq<TermModel>,
    s: Map<Seq<char>, Seq<char>>,
    th: Map<Seq<char>, Seq<char>>,
)
    requires
        a1.len() == a2.len(),
        forall|i: int| 0 <= i < a1.len() ==> pattern_arg(#[trigger] a1[i]),
        forall|i: int| 0 <= i < a2.len() ==> (#[trigger] a2[i]) is Atom,
        apply_args_spec(a1, th) == a2,
        forall|n: Seq<char>| #[trigger] s.contains_key(n) && arg_vars(a1).contains(n) ==> th.contains_key(n) && th[n] == s[n],
    ensures
        unify_args_spec(a1, a2, s) matches Some(s2) && forall|n: Seq<char>| #[trigger] arg_vars(a1).contains(n) ==> th.contains_key(n) && s2.contains_key(n) && s2[n] == th[n],
    decreases a1.len(),
{
    broadcast use lemma_apply_args_len, lemma_apply_args_index;
    if a1.len() == 0 {
    } else {
        let d1 = a1.drop_last();
        let d2 = a2.drop_last();
        assert(forall|i: int| 0 <= i < d1.len() ==> d1[i] == a1[i]);
        assert(forall|i: int| 0 <= i < d2.len() ==> d2[i] == a2[i]);
        lemma_arg_vars_push(a1);
        assert(apply_args_spec(d1, th) == d2) by {
            assert(apply_args_spec(a1, th).drop_last() == apply_args_spec(d1, th));
        }
        lemma_unify_args_flat_complete(d1, d2, s, th);
        lemma_unify_args_flat_sound(d1, d2, s);
        let s1 = unify_args_spec(d1, d2, s)->Some_0;
        let p = a1.last();
        let q = a2.last();
        assert(apply_spec(p, th) == q) by {
            assert(apply_args_spec(a1, th)[a1.len() - 1] == apply_spec(a1[a1.len() - 1], th));
        }
        if let TermModel::Variable(n) = p {
            if s1.contains_key(n) {
                assert(th.contains_key(n) && th[n] == s1[n]) by {
                    if s.contains_key(n) {
                        assert(arg_vars(a1).contains(n));
                    } else {
                        assert(arg_vars(d1).contains(n));
                    }
                }
            }
        }
        lemma_unify_pattern_arg(p, q, s1);
        let s2 = unify_spec(p, q, s1)->Some_0;
        law_unify_extends(p, q, s1);
        assert forall|n: Seq<char>| #[trigger] arg_vars(a1).contains(n) implies th.contains_key(n) && s2.contains_key(n)
            && s2[n] == th[n] by {
            if arg_vars(d1).contains(n) {
            } else {
                assert(p == TermModel::Variable(n));
                assert(apply_spec(p, th) == TermModel::Atom(th[n]));
                assert(apply_spec(p, s2) == q);
            }
        }
    }
}

/// Unifying a flat pattern with a flat ground term, from no binding: it succeeds exactly
/// when some substitution makes the pattern the term; then its result is one, and it binds
/// exactly the pattern's variables.
pub proof fn law_unify_flat(t1: TermModel, t2: TermModel)
    requires
        flat_pattern(t1),
        flat_ground(t2),
    ensures
        unify_spec(t1, t2, Map::empty()) is Some <==> exists|th: Map<Seq<char>, Seq<char>>| #[trigger] apply_spec(t1, th)
            == t2,
        unify_spec(t1, t2, Map::empty()) matches Some(sg) ==> apply_spec(t1, sg) == t2 && sg.dom() == pattern_vars(t1),
{
    broadcast use lemma_apply_args_len;
    let e = Map::<Seq<char>, Seq<char>>::empty();
    match t1 {
        TermModel::Atom(m) => {
            assert(apply_spec(t1, e) == t1);
            assert(e.dom() =~= pattern_vars(t1));
        },
        TermModel::Compound(f1, a1) => {
            match t2 {
                TermModel::Compound(f2, a2) => {
                    if f1 == f2 && a1.len() == a2.len() {
                        lemma_unify_args_flat_sound(a1, a2, e);
                        if let Some(sg) = unify_spec(t1, t2, e) {
                            assert(sg.dom() =~= pattern_vars(t1));
                        }
                        if exists|th: Map<Seq<char>, Seq<char>>| #[trigger] apply_spec(t1, th) == t2 {
                            let th = choose|th: Map<Seq<char>, Seq<char>>| #[trigger] apply_spec(t1, th) == t2;
                            lemma_unify_args_flat_complete(a1, a2, e, th);
                        }
                    } else {
                        if exists|th: Map<Seq<char>, Seq<char>>| #[trigger] apply_spec(t1, th) == t2 {
                            let th = choose|th: Map<Seq<char>, Seq<char>>| #[trigger] apply_spec(t1, th) == t2;
                            assert(apply_args_spec(a1, th).len() == a1.len());
                        }
                    }
                },
                _ => {},
            }
        },
        TermModel::Variable(_) => {},
    }
}

} // verus!
