use vstd::prelude::*;

use crate::tree::Ty;

verus! {

/// Unification variable `v` occurs in `t`.
pub open spec fn occurs(v: usize, t: Ty) -> bool
    decreases t,
{
    match t {
        Ty::Var(w) => v == w,
        Ty::Fun(a, b) => occurs(v, *a) || occurs(v, *b),
        Ty::ParameterizedAtom(_, ps) => exists|i: int| 0 <= i < ps.len() && occurs(v, #[trigger] ps[i]),
        Ty::Polymorphic(_, m) => occurs(v, *m),
        _ => false,
    }
}

/// `t` with every unification variable `v` replaced by `new`.
pub open spec fn subst(v: usize, new: Ty, t: Ty) -> Ty
    decreases t,
{
    match t {
        Ty::Var(w) => if v == w { new } else { t },
        Ty::Fun(a, b) => Ty::Fun(Box::new(subst(v, new, *a)), Box::new(subst(v, new, *b))),
        Ty::ParameterizedAtom(n, ps) => Ty::ParameterizedAtom(
            n,
            Seq::new(ps.len(), |i: int| if 0 <= i < ps.len() { subst(v, new, ps[i]) } else { new }),
        ),
        Ty::Polymorphic(vs, m) => Ty::Polymorphic(vs, Box::new(subst(v, new, *m))),
        _ => t,
    }
}

/// `t` with every polymorphic variable `v` replaced by `new`.
pub open spec fn subst_poly(v: usize, new: Ty, t: Ty) -> Ty
    decreases t,
{
    match t {
        Ty::PolymorphicVar(w) => if v == w { new } else { t },
        Ty::Fun(a, b) => Ty::Fun(Box::new(subst_poly(v, new, *a)), Box::new(subst_poly(v, new, *b))),
        Ty::ParameterizedAtom(n, ps) => Ty::ParameterizedAtom(
            n,
            Seq::new(ps.len(), |i: int| if 0 <= i < ps.len() { subst_poly(v, new, ps[i]) } else { new }),
        ),
        Ty::Polymorphic(vs, m) => Ty::Polymorphic(vs, Box::new(subst_poly(v, new, *m))),
        _ => t,
    }
}

/// A substitution: bindings applied one after the other, first to last.
pub open spec fn apply(s: Seq<(usize, Ty)>, t: Ty) -> Ty
    decreases s.len(),
{
    if s.len() == 0 {
        t
    } else {
        apply(s.drop_first(), subst(s[0].0, s[0].1, t))
    }
}

/// Both sides of every pair with `v` replaced by `new`.
pub open spec fn subst_pairs(v: usize, new: Ty, p: Seq<(Ty, Ty)>) -> Seq<(Ty, Ty)> {
    Seq::new(p.len(), |j: int| (subst(v, new, p[j].0), subst(v, new, p[j].1)))
}

/// The pairs of elements at equal indexes, as long as both sequences last.
pub open spec fn zip_pairs(a: Seq<Ty>, b: Seq<Ty>) -> Seq<(Ty, Ty)> {
    Seq::new(if a.len() <= b.len() { a.len() } else { b.len() }, |i: int| (a[i], b[i]))
}

/// The number of nodes of a type.
pub open spec fn size(t: Ty) -> nat
    decreases t,
{
    match t {
        Ty::Fun(a, b) => 1 + size(*a) + size(*b),
        Ty::ParameterizedAtom(_, ps) => 1 + size_seq(ps),
        Ty::Polymorphic(_, m) => 1 + size(*m),
        _ => 1,
    }
}

/// The number of nodes of a sequence of types.
pub open spec fn size_seq(ps: Seq<Ty>) -> nat
    decreases ps,
{
    if ps.len() == 0 {
        0
    } else {
        size_seq(ps.drop_last()) + size(ps.last())
    }
}

/// The number of nodes of a sequence of pairs of types.
pub open spec fn size_pairs(p: Seq<(Ty, Ty)>) -> nat
    decreases p.len(),
{
    if p.len() == 0 {
        0
    } else {
        size_pairs(p.drop_last()) + size(p.last().0) + size(p.last().1)
    }
}

/// Some side of some pair mentions unification variable `x`.
pub open spec fn occurs_in_pairs(x: usize, p: Seq<(Ty, Ty)>) -> bool {
    exists|j: int| 0 <= j < p.len() && (occurs(x, #[trigger] p[j].0) || occurs(x, p[j].1))
}

/// The unification variables of a sequence of pairs, as integers.
pub open spec fn pair_vars(p: Seq<(Ty, Ty)>) -> Set<int> {
    Set::new(|x: int| 0 <= x <= usize::MAX && occurs_in_pairs(x as usize, p))
}

/// How the last pending pair is handled.
pub enum Step {
    /// The two sides are the same atom or the same variable.
    Drop,
    /// The pair is replaced by these pairs of parts.
    Split(Seq<(Ty, Ty)>),
    /// The variable is bound to the type.
    Bind(usize, Ty),
    /// The two sides cannot be unified.
    Fail,
}

/// The handling of a pair `(l, r)`.
pub open spec fn step(l: Ty, r: Ty) -> Step {
    if l is Atom && r is Atom && l->Atom_0 == r->Atom_0 {
        Step::Drop
    } else if l is Var && r is Var && l->Var_0 == r->Var_0 {
        Step::Drop
    } else if l is Fun && r is Fun {
        Step::Split(seq![(*l->Fun_0, *r->Fun_0), (*l->Fun_1, *r->Fun_1)])
    } else if l is ParameterizedAtom && r is ParameterizedAtom && l->ParameterizedAtom_0
        == r->ParameterizedAtom_0 {
        Step::Split(zip_pairs(l->ParameterizedAtom_1, r->ParameterizedAtom_1))
    } else if l is Var && !occurs(l->Var_0, r) {
        Step::Bind(l->Var_0, r)
    } else if r is Var && !occurs(r->Var_0, l) {
        Step::Bind(r->Var_0, l)
    } else {
        Step::Fail
    }
}

/// Unification of the pending pairs `p`, handling the last pair first: the
/// bindings made, in order, or the first pair that cannot be unified.
pub open spec fn unify_result(p: Seq<(Ty, Ty)>) -> Result<Seq<(usize, Ty)>, (Ty, Ty)>
    decreases pair_vars(p).len(), size_pairs(p),
{
    if p.len() == 0 {
        Ok(Seq::empty())
    } else {
        let rest = p.drop_last();
        let (l, r) = p.last();
        proof {
            lemma_step_decreases(p);
        }
        match step(l, r) {
            Step::Drop => unify_result(rest),
            Step::Split(parts) => unify_result(rest + parts),
            Step::Bind(v, t) => match unify_result(subst_pairs(v, t, rest)) {
                Ok(s) => Ok(seq![(v, t)] + s),
                Err(e) => Err(e),
            },
            Step::Fail => Err((l, r)),
        }
    }
}

// ------------------------------------------------------------------
// Lemmas
// ------------------------------------------------------------------

pub proof fn lemma_size_pos(t: Ty)
    ensures
        size(t) >= 1,
{
}

pub proof fn lemma_size_pairs_append(a: Seq<(Ty, Ty)>, b: Seq<(Ty, Ty)>)
    ensures
        size_pairs(a + b) == size_pairs(a) + size_pairs(b),
    decreases b.len(),
{
    if b.len() > 0 {
        assert((a + b).drop_last() =~= a + b.drop_last());
        lemma_size_pairs_append(a, b.drop_last());
    } else {
        assert(a + b =~= a);
    }
}

/// The pairs of two sequences of types weigh no more than the two sequences.
pub proof fn lemma_size_zip(a: Seq<Ty>, b: Seq<Ty>)
    ensures
        size_pairs(zip_pairs(a, b)) <= size_seq(a) + size_seq(b),
    decreases a.len() + b.len(),
{
    let z = zip_pairs(a, b);
    if a.len() > b.len() {
        lemma_size_zip(a.drop_last(), b);
        assert(zip_pairs(a.drop_last(), b) =~= z);
    } else if b.len() > a.len() {
        lemma_size_zip(a, b.drop_last());
        assert(zip_pairs(a, b.drop_last()) =~= z);
    } else if a.len() > 0 {
        lemma_size_zip(a.drop_last(), b.drop_last());
        assert(zip_pairs(a.drop_last(), b.drop_last()) =~= z.drop_last());
    }
}

/// The unification variables of pairs form a finite set.
pub proof fn lemma_pair_vars_finite(p: Seq<(Ty, Ty)>)
    ensures
        pair_vars(p).finite(),
{
    vstd::set_lib::lemma_int_range(0, usize::MAX + 1);
    assert(pair_vars(p).subset_of(vstd::set_lib::set_int_range(0, usize::MAX + 1)));
    vstd::set_lib::lemma_len_subset(pair_vars(p), vstd::set_lib::set_int_range(0, usize::MAX + 1));
}

/// Fewer variables: a subset has no more elements.
pub proof fn lemma_pair_vars_subset(p: Seq<(Ty, Ty)>, q: Seq<(Ty, Ty)>)
    requires
        pair_vars(q).subset_of(pair_vars(p)),
    ensures
        pair_vars(q).len() <= pair_vars(p).len(),
{
    lemma_pair_vars_finite(p);
    vstd::set_lib::lemma_len_subset(pair_vars(q), pair_vars(p));
}

/// What occurs after a substitution occurred before (and is not the replaced
/// variable), or occurs in the replacement.
pub proof fn lemma_occurs_subst(v: usize, new: Ty, t: Ty, x: usize)
    ensures
        occurs(x, subst(v, new, t)) ==> (x != v && occurs(x, t)) || (occurs(v, t) && occurs(x, new)),
    decreases t,
{
    match t {
        Ty::Fun(a, b) => {
            lemma_occurs_subst(v, new, *a, x);
            lemma_occurs_subst(v, new, *b, x);
        },
        Ty::ParameterizedAtom(n, ps) => {
            if occurs(x, subst(v, new, t)) {
                let qs = subst(v, new, t)->ParameterizedAtom_1;
                let i = choose|i: int| 0 <= i < qs.len() && occurs(x, #[trigger] qs[i]);
                assert(qs[i] == subst(v, new, ps[i]));
                lemma_occurs_subst(v, new, ps[i], x);
                assert(occurs(x, ps[i]) ==> occurs(x, t));
                assert(occurs(v, ps[i]) ==> occurs(v, t));
            }
        },
        Ty::Polymorphic(_, m) => {
            lemma_occurs_subst(v, new, *m, x);
        },
        _ => {},
    }
}

/// A substitution of a variable that does not occur changes nothing.
pub proof fn lemma_subst_id(v: usize, new: Ty, t: Ty)
    requires
        !occurs(v, t),
    ensures
        subst(v, new, t) == t,
    decreases t,
{
    match t {
        Ty::Fun(a, b) => {
            lemma_subst_id(v, new, *a);
            lemma_subst_id(v, new, *b);
        },
        Ty::ParameterizedAtom(n, ps) => {
            let qs = subst(v, new, t)->ParameterizedAtom_1;
            assert forall|i: int| 0 <= i < ps.len() implies qs[i] == ps[i] by {
                assert(!occurs(v, ps[i]));
                lemma_subst_id(v, new, ps[i]);
            }
            assert(qs =~= ps);
        },
        Ty::Polymorphic(_, m) => {
            lemma_subst_id(v, new, *m);
        },
        _ => {},
    }
}

/// Each step either removes a variable from the pending pairs, or keeps
/// them within the same variables and makes them smaller.
pub proof fn lemma_step_decreases(p: Seq<(Ty, Ty)>)
    requires
        p.len() > 0,
    ensures
        ({
            let rest = p.drop_last();
            let (l, r) = p.last();
            match step(l, r) {
                Step::Drop => pair_vars(rest).len() < pair_vars(p).len() || (pair_vars(rest).len()
                    == pair_vars(p).len() && size_pairs(rest) < size_pairs(p)),
                Step::Split(parts) => pair_vars(rest + parts).len() < pair_vars(p).len() || (
                pair_vars(rest + parts).len() == pair_vars(p).len() && size_pairs(rest + parts)
                    < size_pairs(p)),
                Step::Bind(v, t) => pair_vars(subst_pairs(v, t, rest)).len() < pair_vars(p).len(),
                Step::Fail => true,
            }
        }),
        ({
            let rest = p.drop_last();
            let (l, r) = p.last();
            match step(l, r) {
                Step::Drop => pair_vars(rest).subset_of(pair_vars(p)),
                Step::Split(parts) => pair_vars(rest + parts).subset_of(pair_vars(p)),
                Step::Bind(v, t) => pair_vars(subst_pairs(v, t, rest)).subset_of(pair_vars(p).remove(v as int))
                    && pair_vars(p).contains(v as int)
                    && forall|x: usize| occurs(x, t) ==> #[trigger] pair_vars(p).contains(x as int),
                Step::Fail => true,
            }
        }),
{
    let rest = p.drop_last();
    let (l, r) = p.last();
    lemma_size_pos(l);
    lemma_size_pos(r);
    assert forall|x: int| pair_vars(rest).contains(x) implies pair_vars(p).contains(x) by {
        let j = choose|j: int| 0 <= j < rest.len() && (occurs(x as usize, #[trigger] rest[j].0) || occurs(x as usize, rest[j].1));
        assert(p[j] == rest[j]);
    }
    match step(l, r) {
        Step::Drop => {
            lemma_pair_vars_subset(p, rest);
        },
        Step::Split(parts) => {
            let q = rest + parts;
            lemma_size_pairs_append(rest, parts);
            if l is Fun {
                let (a1, b1) = (*l->Fun_0, *l->Fun_1);
                let (a2, b2) = (*r->Fun_0, *r->Fun_1);
                let x = seq![(a1, a2)];
                assert(size_pairs(x) == size(a1) + size(a2)) by {
                    assert(x.drop_last() =~= Seq::<(Ty, Ty)>::empty());
                    assert(size_pairs(x.drop_last()) == 0);
                    assert(x.last() == (a1, a2));
                }
                assert(parts.last() == (b1, b2));
                assert(parts.drop_last() =~= x);
                assert(size_pairs(parts) == size(a1) + size(a2) + size(b1) + size(b2));
                assert forall|x: int| pair_vars(q).contains(x) implies pair_vars(p).contains(x) by {
                    let j = choose|j: int| 0 <= j < q.len() && (occurs(x as usize, #[trigger] q[j].0) || occurs(x as usize, q[j].1));
                    if j < rest.len() {
                        assert(q[j] == rest[j]);
                        assert(p[j] == rest[j]);
                    } else {
                        assert(q[j] == parts[j - rest.len()]);
                        assert(p[p.len() - 1] == (l, r));
                    }
                }
            } else {
                let ps1 = l->ParameterizedAtom_1;
                let ps2 = r->ParameterizedAtom_1;
                lemma_size_zip(ps1, ps2);
                assert forall|x: int| pair_vars(q).contains(x) implies pair_vars(p).contains(x) by {
                    let j = choose|j: int| 0 <= j < q.len() && (occurs(x as usize, #[trigger] q[j].0) || occurs(x as usize, q[j].1));
                    if j < rest.len() {
                        assert(q[j] == rest[j]);
                        assert(p[j] == rest[j]);
                        assert(occurs(x as usize, p[j].0) || occurs(x as usize, p[j].1));
                    } else {
                        let i = j - rest.len();
                        assert(q[j] == parts[i]);
                        assert(parts[i] == (ps1[i], ps2[i]));
                        if occurs(x as usize, ps1[i]) {
                            assert(occurs(x as usize, l));
                        } else {
                            assert(occurs(x as usize, r));
                        }
                        assert(p[p.len() - 1] == (l, r));
                        assert(occurs(x as usize, p[p.len() - 1].0) || occurs(x as usize, p[p.len() - 1].1));
                        assert(p[p.len() - 1] == (l, r));
                    }
                }
            }
            lemma_pair_vars_subset(p, q);
        },
        Step::Bind(v, t) => {
            let q = subst_pairs(v, t, rest);
            assert(occurs(v, l) || occurs(v, r));
            assert(!occurs(v, t));
            assert(p[p.len() - 1] == (l, r));
            assert(pair_vars(p).contains(v as int));
            assert forall|x: usize| occurs(x, t) implies #[trigger] pair_vars(p).contains(x as int) by {
                assert(occurs(x, l) || occurs(x, r));
            }
            assert forall|x: int| pair_vars(q).contains(x) implies pair_vars(p).remove(v as int).contains(x) by {
                let j = choose|j: int| 0 <= j < q.len() && (occurs(x as usize, #[trigger] q[j].0) || occurs(x as usize, q[j].1));
                lemma_occurs_subst(v, t, rest[j].0, x as usize);
                lemma_occurs_subst(v, t, rest[j].1, x as usize);
                assert(p[j] == rest[j]);
                if occurs(x as usize, t) {
                    assert(occurs(x as usize, l) || occurs(x as usize, r));
                }
            }
            lemma_pair_vars_finite(p);
            vstd::set_lib::lemma_len_subset(pair_vars(q), pair_vars(p).remove(v as int));
        },
        Step::Fail => {},
    }
}


// ------------------------------------------------------------------
// Soundness of unification
// ------------------------------------------------------------------

/// Every parameterized atom in `t` has the number of parameters that
/// `arity` gives its name.
pub open spec fn arity_ok(arity: spec_fn(Seq<char>) -> nat, t: Ty) -> bool
    decreases t,
{
    match t {
        Ty::Fun(a, b) => arity_ok(arity, *a) && arity_ok(arity, *b),
        Ty::ParameterizedAtom(n, ps) => ps.len() == arity(n) && forall|i: int|
            0 <= i < ps.len() ==> arity_ok(arity, #[trigger] ps[i]),
        Ty::Polymorphic(_, m) => arity_ok(arity, *m),
        _ => true,
    }
}

/// Both sides of every pair respect `arity`.
pub open spec fn pairs_arity_ok(arity: spec_fn(Seq<char>) -> nat, p: Seq<(Ty, Ty)>) -> bool {
    forall|j: int| 0 <= j < p.len() ==> arity_ok(arity, #[trigger] p[j].0) && arity_ok(arity, p[j].1)
}

/// A substitution unifies every pair of `p`.
pub open spec fn unifies(s: Seq<(usize, Ty)>, p: Seq<(Ty, Ty)>) -> bool {
    forall|j: int| 0 <= j < p.len() ==> apply(s, #[trigger] p[j].0) == apply(s, p[j].1)
}

pub proof fn lemma_subst_arity(arity: spec_fn(Seq<char>) -> nat, v: usize, new: Ty, t: Ty)
    requires
        arity_ok(arity, new),
        arity_ok(arity, t),
    ensures
        arity_ok(arity, subst(v, new, t)),
    decreases t,
{
    match t {
        Ty::Fun(a, b) => {
            lemma_subst_arity(arity, v, new, *a);
            lemma_subst_arity(arity, v, new, *b);
        },
        Ty::ParameterizedAtom(n, ps) => {
            let qs = subst(v, new, t)->ParameterizedAtom_1;
            assert forall|i: int| 0 <= i < qs.len() implies arity_ok(arity, #[trigger] qs[i]) by {
                assert(arity_ok(arity, ps[i]));
                lemma_subst_arity(arity, v, new, ps[i]);
            }
        },
        Ty::Polymorphic(_, m) => {
            lemma_subst_arity(arity, v, new, *m);
        },
        _ => {},
    }
}

pub proof fn lemma_apply_cons(b: (usize, Ty), s: Seq<(usize, Ty)>, t: Ty)
    ensures
        apply(seq![b] + s, t) == apply(s, subst(b.0, b.1, t)),
{
    assert((seq![b] + s).drop_first() =~= s);
    assert((seq![b] + s)[0] == b);
}

pub proof fn lemma_apply_fun(s: Seq<(usize, Ty)>, a: Ty, b: Ty)
    ensures
        apply(s, Ty::Fun(Box::new(a), Box::new(b))) == Ty::Fun(
            Box::new(apply(s, a)),
            Box::new(apply(s, b)),
        ),
    decreases s.len(),
{
    if s.len() > 0 {
        lemma_apply_fun(s.drop_first(), subst(s[0].0, s[0].1, a), subst(s[0].0, s[0].1, b));
    }
}

pub proof fn lemma_apply_param(s: Seq<(usize, Ty)>, n: Seq<char>, ps: Seq<Ty>)
    ensures
        apply(s, Ty::ParameterizedAtom(n, ps)) is ParameterizedAtom,
        apply(s, Ty::ParameterizedAtom(n, ps))->ParameterizedAtom_0 == n,
        apply(s, Ty::ParameterizedAtom(n, ps))->ParameterizedAtom_1.len() == ps.len(),
        forall|i: int| 0 <= i < ps.len() ==> #[trigger] apply(s, Ty::ParameterizedAtom(n, ps))->ParameterizedAtom_1[i]
            == apply(s, ps[i]),
    decreases s.len(),
{
    if s.len() > 0 {
        let t2 = subst(s[0].0, s[0].1, Ty::ParameterizedAtom(n, ps));
        let qs = t2->ParameterizedAtom_1;
        lemma_apply_param(s.drop_first(), n, qs);
        assert forall|i: int| 0 <= i < ps.len() implies #[trigger] apply(s, Ty::ParameterizedAtom(n, ps))->ParameterizedAtom_1[i]
            == apply(s, ps[i]) by {
            assert(qs[i] == subst(s[0].0, s[0].1, ps[i]));
        }
    }
}

/// Unification is sound: where it succeeds, the bindings it makes, applied
/// in order, make the two sides of every pair equal (for pairs whose
/// parameterized atoms each take a fixed number of parameters).
pub proof fn lemma_unify_sound(p: Seq<(Ty, Ty)>, arity: spec_fn(Seq<char>) -> nat)
    requires
        pairs_arity_ok(arity, p),
        unify_result(p) is Ok,
    ensures
        unifies(unify_result(p)->Ok_0, p),
    decreases pair_vars(p).len(), size_pairs(p),
{
    if p.len() > 0 {
        let rest = p.drop_last();
        let (l, r) = p.last();
        lemma_step_decreases(p);
        assert(p[p.len() - 1] == (l, r));
        assert(arity_ok(arity, l) && arity_ok(arity, r));
        assert forall|j: int| 0 <= j < rest.len() implies arity_ok(arity, #[trigger] rest[j].0) && arity_ok(arity, rest[j].1) by {
            assert(rest[j] == p[j]);
        }
        let s = unify_result(p)->Ok_0;
        match step(l, r) {
            Step::Drop => {
                lemma_unify_sound(rest, arity);
                assert forall|j: int| 0 <= j < p.len() implies apply(s, #[trigger] p[j].0) == apply(s, p[j].1) by {
                    if j < rest.len() {
                        assert(p[j] == rest[j]);
                    }
                }
            },
            Step::Split(parts) => {
                let q = rest + parts;
                if l is Fun {
                    let (a1, b1) = (*l->Fun_0, *l->Fun_1);
                    let (a2, b2) = (*r->Fun_0, *r->Fun_1);
                    assert forall|j: int| 0 <= j < q.len() implies arity_ok(arity, #[trigger] q[j].0) && arity_ok(arity, q[j].1) by {
                        if j < rest.len() {
                            assert(q[j] == rest[j]);
                        } else {
                            assert(q[j] == parts[j - rest.len()]);
                        }
                    }
                    lemma_unify_sound(q, arity);
                    assert(q[rest.len() as int] == (a1, a2));
                    assert(q[rest.len() + 1int] == (b1, b2));
                    lemma_apply_fun(s, a1, b1);
                    lemma_apply_fun(s, a2, b2);
                    assert(l == Ty::Fun(Box::new(a1), Box::new(b1)));
                    assert(r == Ty::Fun(Box::new(a2), Box::new(b2)));
                    assert(apply(s, q[rest.len() as int].0) == apply(s, q[rest.len() as int].1));
                    assert(apply(s, q[rest.len() + 1int].0) == apply(s, q[rest.len() + 1int].1));
                    assert(apply(s, l) == apply(s, r));
                } else {
                    let n = l->ParameterizedAtom_0;
                    let ps1 = l->ParameterizedAtom_1;
                    let ps2 = r->ParameterizedAtom_1;
                    assert(ps1.len() == ps2.len());
                    assert forall|j: int| 0 <= j < q.len() implies arity_ok(arity, #[trigger] q[j].0) && arity_ok(arity, q[j].1) by {
                        if j < rest.len() {
                            assert(q[j] == rest[j]);
                        } else {
                            let i = j - rest.len();
                            assert(q[j] == parts[i]);
                            assert(arity_ok(arity, ps1[i]));
                            assert(arity_ok(arity, ps2[i]));
                        }
                    }
                    lemma_unify_sound(q, arity);
                    lemma_apply_param(s, n, ps1);
                    lemma_apply_param(s, n, ps2);
                    let x1 = apply(s, Ty::ParameterizedAtom(n, ps1))->ParameterizedAtom_1;
                    let x2 = apply(s, Ty::ParameterizedAtom(n, ps2))->ParameterizedAtom_1;
                    assert forall|i: int| 0 <= i < x1.len() implies x1[i] == x2[i] by {
                        let k = rest.len() as int + i;
                        assert(q[k] == parts[i]);
                        assert(parts[i] == (ps1[i], ps2[i]));
                        assert(apply(s, q[k].0) == apply(s, q[k].1));
                    }
                    assert(x1 =~= x2);
                    assert(l == Ty::ParameterizedAtom(n, ps1));
                    assert(r == Ty::ParameterizedAtom(n, ps2));
                    assert(apply(s, l) == apply(s, r));
                }
                assert forall|j: int| 0 <= j < p.len() implies apply(s, #[trigger] p[j].0) == apply(s, p[j].1) by {
                    if j < rest.len() {
                        assert(p[j] == rest[j]);
                        assert(q[j] == rest[j]);
                        assert(apply(s, q[j].0) == apply(s, q[j].1));
                    } else {
                        assert(p[j] == (l, r));
                    }
                }
            },
            Step::Bind(v, t) => {
                let q = subst_pairs(v, t, rest);
                assert forall|j: int| 0 <= j < q.len() implies arity_ok(arity, #[trigger] q[j].0) && arity_ok(arity, q[j].1) by {
                    lemma_subst_arity(arity, v, t, rest[j].0);
                    lemma_subst_arity(arity, v, t, rest[j].1);
                }
                lemma_unify_sound(q, arity);
                let s2 = unify_result(q)->Ok_0;
                assert(s == seq![(v, t)] + s2);
                assert forall|j: int| 0 <= j < p.len() implies apply(s, #[trigger] p[j].0) == apply(s, p[j].1) by {
                    lemma_apply_cons((v, t), s2, p[j].0);
                    lemma_apply_cons((v, t), s2, p[j].1);
                    if j < rest.len() {
                        assert(p[j] == rest[j]);
                        assert(q[j] == (subst(v, t, rest[j].0), subst(v, t, rest[j].1)));
                        assert(apply(s2, q[j].0) == apply(s2, q[j].1));
                    } else {
                        assert(p[j] == (l, r));
                        lemma_subst_id(v, t, t);
                        if l is Var && !occurs(l->Var_0, r) {
                            assert(l == Ty::Var(v));
                            assert(t == r);
                        } else {
                            assert(r == Ty::Var(v));
                            assert(t == l);
                        }
                    }
                }
            },
            Step::Fail => {},
        }
    }
}


/// One more binding at the end applies after the others.
pub proof fn lemma_apply_snoc(s: Seq<(usize, Ty)>, b: (usize, Ty), t: Ty)
    ensures
        apply(s.push(b), t) == subst(b.0, b.1, apply(s, t)),
    decreases s.len(),
{
    if s.len() == 0 {
        assert(s.push(b).drop_first() =~= Seq::<(usize, Ty)>::empty());
        assert(s.push(b)[0] == b);
        assert(apply(s.push(b).drop_first(), subst(b.0, b.1, t)) == subst(b.0, b.1, t));
    } else {
        assert(s.push(b).drop_first() =~= s.drop_first().push(b));
        assert(s.push(b)[0] == s[0]);
        lemma_apply_snoc(s.drop_first(), b, subst(s[0].0, s[0].1, t));
    }
}

/// The outcome of unification after the bindings `acc` were already made.
pub open spec fn after(acc: Seq<(usize, Ty)>, res: Result<Seq<(usize, Ty)>, (Ty, Ty)>) -> Result<Seq<(usize, Ty)>, (Ty, Ty)> {
    match res {
        Ok(s) => Ok(acc + s),
        Err(e) => Err(e),
    }
}


/// A variable absent from the pairs is never bound, nor brought in by a binding.
pub proof fn lemma_unify_fresh(p: Seq<(Ty, Ty)>, x: usize)
    requires
        !pair_vars(p).contains(x as int),
        unify_result(p) is Ok,
    ensures
        forall|i: int| 0 <= i < unify_result(p)->Ok_0.len() ==> (#[trigger] unify_result(p)->Ok_0[i]).0 != x
            && !occurs(x, unify_result(p)->Ok_0[i].1),
    decreases pair_vars(p).len(), size_pairs(p),
{
    if p.len() > 0 {
        let rest = p.drop_last();
        let (l, r) = p.last();
        lemma_step_decreases(p);
        match step(l, r) {
            Step::Drop => {
                lemma_unify_fresh(rest, x);
            },
            Step::Split(parts) => {
                lemma_unify_fresh(rest + parts, x);
            },
            Step::Bind(v, t) => {
                let q = subst_pairs(v, t, rest);
                lemma_unify_fresh(q, x);
                let s = unify_result(p)->Ok_0;
                let s2 = unify_result(q)->Ok_0;
                assert(s == seq![(v, t)] + s2);
                assert forall|i: int| 0 <= i < s.len() implies (#[trigger] s[i]).0 != x && !occurs(x, s[i].1) by {
                    if i > 0 {
                        assert(s[i] == s2[i - 1]);
                    } else {
                        if occurs(x, t) {
                            assert(pair_vars(p).contains(x as int));
                        }
                    }
                }
            },
            Step::Fail => {},
        }
    }
}

/// No binding brings back a variable bound at it or before it.
pub open spec fn bindings_settled(s: Seq<(usize, Ty)>) -> bool {
    forall|i: int, j: int| 0 <= i <= j < s.len() ==> !occurs(#[trigger] s[i].0, #[trigger] s[j].1)
}

pub proof fn lemma_unify_settled(p: Seq<(Ty, Ty)>)
    requires
        unify_result(p) is Ok,
    ensures
        bindings_settled(unify_result(p)->Ok_0),
    decreases pair_vars(p).len(), size_pairs(p),
{
    if p.len() > 0 {
        let rest = p.drop_last();
        let (l, r) = p.last();
        lemma_step_decreases(p);
        match step(l, r) {
            Step::Drop => {
                lemma_unify_settled(rest);
            },
            Step::Split(parts) => {
                lemma_unify_settled(rest + parts);
            },
            Step::Bind(v, t) => {
                let q = subst_pairs(v, t, rest);
                lemma_unify_settled(q);
                lemma_unify_fresh(q, v);
                let s = unify_result(p)->Ok_0;
                let s2 = unify_result(q)->Ok_0;
                assert(s == seq![(v, t)] + s2);
                assert forall|i: int, j: int| 0 <= i <= j < s.len() implies !occurs(#[trigger] s[i].0, #[trigger] s[j].1) by {
                    if i > 0 {
                        assert(s[i] == s2[i - 1]);
                        assert(s[j] == s2[j - 1]);
                    } else if j > 0 {
                        assert(s[j] == s2[j - 1]);
                    }
                }
            },
            Step::Fail => {},
        }
    }
}

/// A variable in no binding's value and not in `u` stays out of `u`.
pub proof fn lemma_apply_avoids(s: Seq<(usize, Ty)>, u: Ty, x: usize)
    requires
        !occurs(x, u),
        forall|j: int| 0 <= j < s.len() ==> !occurs(x, #[trigger] s[j].1),
    ensures
        !occurs(x, apply(s, u)),
    decreases s.len(),
{
    if s.len() > 0 {
        lemma_occurs_subst(s[0].0, s[0].1, u, x);
        assert forall|j: int| 0 <= j < s.drop_first().len() implies !occurs(x, #[trigger] s.drop_first()[j].1) by {
            assert(s.drop_first()[j] == s[j + 1]);
        }
        lemma_apply_avoids(s.drop_first(), subst(s[0].0, s[0].1, u), x);
    }
}

pub proof fn lemma_apply_eliminates(s: Seq<(usize, Ty)>, t: Ty, i: int)
    requires
        bindings_settled(s),
        0 <= i < s.len(),
    ensures
        !occurs(s[i].0, apply(s, t)),
    decreases s.len(),
{
    let v = s[0].0;
    let u = subst(v, s[0].1, t);
    let rest = s.drop_first();
    assert forall|a: int, b: int| 0 <= a <= b < rest.len() implies !occurs(#[trigger] rest[a].0, #[trigger] rest[b].1) by {
        assert(rest[a] == s[a + 1]);
        assert(rest[b] == s[b + 1]);
    }
    if i == 0 {
        lemma_occurs_subst(v, s[0].1, t, v);
        assert(!occurs(s[0].0, s[0].1));
        assert forall|j: int| 0 <= j < rest.len() implies !occurs(v, #[trigger] rest[j].1) by {
            assert(rest[j] == s[j + 1]);
            assert(!occurs(s[0].0, s[j + 1].1));
        }
        lemma_apply_avoids(rest, u, v);
    } else {
        assert(rest[i - 1] == s[i]);
        lemma_apply_eliminates(rest, u, i - 1);
    }
}

/// Unification eliminates what it binds: no variable that it binds occurs
/// in any type once all the bindings are applied.
pub proof fn lemma_unify_eliminates(p: Seq<(Ty, Ty)>, t: Ty, i: int)
    requires
        unify_result(p) is Ok,
        0 <= i < unify_result(p)->Ok_0.len(),
    ensures
        !occurs(unify_result(p)->Ok_0[i].0, apply(unify_result(p)->Ok_0, t)),
{
    lemma_unify_settled(p);
    lemma_apply_eliminates(unify_result(p)->Ok_0, t, i);
}

/// A type in which no unification variable occurs is left as it is by any substitution.
pub proof fn lemma_apply_closed(s: Seq<(usize, Ty)>, t: Ty)
    requires
        forall|x: usize| !occurs(x, t),
    ensures
        apply(s, t) == t,
    decreases s.len(),
{
    if s.len() > 0 {
        lemma_subst_id(s[0].0, s[0].1, t);
        lemma_apply_closed(s.drop_first(), t);
    }
}

}
