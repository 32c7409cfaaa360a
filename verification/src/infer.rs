use vstd::prelude::*;

use crate::subst::{apply, arity_ok, lemma_apply_closed, lemma_occurs_subst, occurs, subst, subst_poly, unify_result};
use crate::tree::{Declaration, Expression, Ty};

verus! {

/// The value of a typing environment.
pub struct EnvView {
    /// The type of each variable in scope.
    pub variables: Map<Seq<char>, Ty>,
    /// The unification variables made and not yet bound.
    pub type_variables: Set<usize>,
    /// The number of parameters of each type name.
    pub type_atoms: Map<Seq<char>, usize>,
}

/// The value of a typing error.
pub enum TypeErrorView {
    UnknownType(Seq<char>),
    WrongParameterCount(Seq<char>, usize, usize),
    UnknownTypeVariable(usize),
    UnknownVariable(Seq<char>),
    CannotUnify(Ty, Ty),
    LonePolymorphicVariable,
    PolymorphicAfterUnification,
    TooManyTypeVariables,
}

/// The name `_`, which binds nothing.
pub open spec fn wildcard() -> Seq<char> {
    seq!['_']
}

/// The type `string`.
pub open spec fn string_type() -> Ty {
    Ty::Atom(seq!['s', 't', 'r', 'i', 'n', 'g'])
}

/// The type `int`.
pub open spec fn int_type() -> Ty {
    Ty::Atom(seq!['i', 'n', 't'])
}

/// The environment with `name` bound to `t` (`_` binds nothing).
pub open spec fn env_add(st: EnvView, name: Seq<char>, t: Ty) -> EnvView {
    if name == wildcard() {
        st
    } else {
        EnvView { variables: st.variables.insert(name, t), ..st }
    }
}

/// A fresh unification variable: the counter moves up by one and the new
/// variable is recorded; the counter must not overflow.
pub open spec fn new_var(st: EnvView, next: nat) -> Result<(Ty, EnvView, nat), TypeErrorView> {
    if next >= usize::MAX {
        Err(TypeErrorView::TooManyTypeVariables)
    } else {
        let v = (next + 1) as usize;
        Ok((Ty::Var(v), EnvView { type_variables: st.type_variables.insert(v), ..st }, (next + 1) as nat))
    }
}

/// Replaces the polymorphic variables `vs` of `m`, one after the other, by
/// fresh unification variables.
pub open spec fn instantiate_vars(st: EnvView, vs: Seq<usize>, m: Ty, next: nat) -> Result<(Ty, EnvView, nat), TypeErrorView>
    decreases vs.len(),
{
    if vs.len() == 0 {
        Ok((m, st, next))
    } else {
        match new_var(st, next) {
            Err(e) => Err(e),
            Ok((fv, st2, n2)) => instantiate_vars(st2, vs.drop_first(), subst_poly(vs[0], fv, m), n2),
        }
    }
}

/// A polymorphic type with fresh variables for its bound ones; other types unchanged.
pub open spec fn instantiate(st: EnvView, t: Ty, next: nat) -> Result<(Ty, EnvView, nat), TypeErrorView> {
    match t {
        Ty::Polymorphic(vs, m) => instantiate_vars(st, vs, *m, next),
        Ty::PolymorphicVar(_) => Err(TypeErrorView::LonePolymorphicVariable),
        _ => Ok((t, st, next)),
    }
}

/// The variables bound by a substitution.
pub open spec fn bound_vars(s: Seq<(usize, Ty)>) -> Set<usize> {
    Set::new(|v: usize| exists|i: int| 0 <= i < s.len() && (#[trigger] s[i]).0 == v)
}

/// Unifies the pairs `p`, applying the bindings to `t` and to the types of
/// the variables, and forgetting the bound variables.
pub open spec fn unify_env(st: EnvView, p: Seq<(Ty, Ty)>, t: Ty) -> Result<(Ty, EnvView), TypeErrorView> {
    match unify_result(p) {
        Ok(s) => Ok(
            (
                apply(s, t),
                EnvView {
                    variables: st.variables.map_values(|x: Ty| apply(s, x)),
                    type_variables: st.type_variables.difference(bound_vars(s)),
                    ..st
                },
            ),
        ),
        Err((l, r)) => Err(TypeErrorView::CannotUnify(l, r)),
    }
}

/// `t` contains a polymorphic type or a polymorphic variable.
pub open spec fn has_poly(t: Ty) -> bool
    decreases t,
{
    match t {
        Ty::Fun(a, b) => has_poly(*a) || has_poly(*b),
        Ty::ParameterizedAtom(_, ps) => exists|i: int| 0 <= i < ps.len() && has_poly(#[trigger] ps[i]),
        Ty::Polymorphic(_, _) => true,
        Ty::PolymorphicVar(_) => true,
        _ => false,
    }
}

/// The unification variables of `t`.
pub open spec fn var_set(t: Ty) -> Set<usize> {
    Set::new(|x: usize| occurs(x, t))
}

/// Strictly increasing.
pub open spec fn increasing(d: Seq<usize>) -> bool {
    forall|i: int, j: int| 0 <= i < j < d.len() ==> d[i] < d[j]
}

/// The elements of `s` below `n`, in increasing order.
pub open spec fn sorted_below(s: Set<usize>, n: nat) -> Seq<usize>
    decreases n,
{
    if n == 0 {
        Seq::empty()
    } else if s.contains((n - 1) as usize) {
        sorted_below(s, (n - 1) as nat).push((n - 1) as usize)
    } else {
        sorted_below(s, (n - 1) as nat)
    }
}

/// The unification variables of `t` in increasing order.
pub open spec fn sorted_vars(t: Ty) -> Seq<usize> {
    sorted_below(var_set(t), (usize::MAX + 1) as nat)
}

/// The unification variables free in the environment: those occurring in
/// the type of some variable in scope. They are never generalized.
pub open spec fn env_vars(st: EnvView) -> Set<usize> {
    Set::new(|x: usize| exists|k: Seq<char>| #[trigger] st.variables.contains_key(k) && occurs(x, st.variables[k]))
}

/// Replaces the variables `d` not in `fixed`, one after the other, by
/// polymorphic variables numbered from `k + 1` on.
pub open spec fn gen_matrix(d: Seq<usize>, fixed: Set<usize>, t: Ty, k: nat) -> Ty
    decreases d.len(),
{
    if d.len() == 0 {
        t
    } else if fixed.contains(d[0]) {
        gen_matrix(d.drop_first(), fixed, t, k)
    } else {
        gen_matrix(d.drop_first(), fixed, subst(d[0], Ty::PolymorphicVar((k + 1) as usize), t), k + 1)
    }
}

/// How many of the variables `d` are not in `fixed`.
pub open spec fn gen_count(d: Seq<usize>, fixed: Set<usize>) -> nat
    decreases d.len(),
{
    if d.len() == 0 {
        0
    } else if fixed.contains(d[0]) {
        gen_count(d.drop_first(), fixed)
    } else {
        gen_count(d.drop_first(), fixed) + 1
    }
}

/// The numbers 1 to n.
pub open spec fn one_to(n: nat) -> Seq<usize> {
    Seq::new(n, |i: int| (i + 1) as usize)
}

/// Quantifies a unified type over its unification variables that are not
/// free in the environment, numbered in increasing order from 1; where there
/// is none, the type is kept as it is. A type still holding a polymorphic
/// part has no such form.
pub open spec fn quantify(st2: EnvView, t2: Ty) -> Result<Ty, TypeErrorView> {
    if has_poly(t2) {
        Err(TypeErrorView::PolymorphicAfterUnification)
    } else {
        let d = sorted_vars(t2);
        let fixed = env_vars(st2);
        let m = gen_matrix(d, fixed, t2, 0);
        let n = gen_count(d, fixed);
        if n == 0 {
            Ok(m)
        } else {
            Ok(Ty::Polymorphic(one_to(n), Box::new(m)))
        }
    }
}

/// Unifies `p` and generalizes `t` over its remaining unification
/// variables that are not free in the environment.
pub open spec fn generalize(st: EnvView, p: Seq<(Ty, Ty)>, t: Ty) -> Result<(Ty, EnvView), TypeErrorView> {
    match unify_env(st, p, t) {
        Err(e) => Err(e),
        Ok((t2, st2)) => match quantify(st2, t2) {
            Err(e) => Err(e),
            Ok(g) => Ok((g, st2)),
        },
    }
}

/// The type of `e` and the constraints on it, the environment afterwards,
/// and the counter of fresh variables afterwards.
pub open spec fn build(st: EnvView, e: Expression, next: nat) -> Result<(Ty, Seq<(Ty, Ty)>, EnvView, nat), TypeErrorView>
    decreases e,
{
    match e {
        Expression::LetIn { name, value, body } => match build(st, *value, next) {
            Err(err) => Err(err),
            Ok((vt, vc, st1, n1)) => match generalize(st1, vc, vt) {
                Err(err) => Err(err),
                Ok((gt, st2)) => match build(env_add(st2, name@, gt), *body, n1) {
                    Err(err) => Err(err),
                    Ok((bt, bc, _, n2)) => Ok((bt, vc + bc, st2, n2)),
                },
            },
        },
        Expression::Fun { arg, body } => match new_var(st, next) {
            Err(err) => Err(err),
            Ok((at, wa, n1)) => match build(env_add(wa, arg@, at), *body, n1) {
                Err(err) => Err(err),
                Ok((bt, bc, _, n2)) => Ok((Ty::Fun(Box::new(at), Box::new(bt)), bc, st, n2)),
            },
        },
        Expression::App { fun, arg } => match new_var(st, next) {
            Err(err) => Err(err),
            Ok((rt, st1, n1)) => match build(st1, *fun, n1) {
                Err(err) => Err(err),
                Ok((ft, fc, st2, n2)) => match build(st2, *arg, n2) {
                    Err(err) => Err(err),
                    Ok((at, ac, st3, n3)) => Ok(
                        (rt, fc + ac + seq![(ft, Ty::Fun(Box::new(at), Box::new(rt)))], st3, n3),
                    ),
                },
            },
        },
        Expression::Variable(v) => if st.variables.contains_key(v@) {
            match instantiate(st, st.variables[v@], next) {
                Err(err) => Err(err),
                Ok((t, st1, n1)) => Ok((t, Seq::empty(), st1, n1)),
            }
        } else {
            Err(TypeErrorView::UnknownVariable(v@))
        },
        Expression::StringLiteral(_) => Ok((string_type(), Seq::empty(), st, next)),
        Expression::IntLiteral(_) => Ok((int_type(), Seq::empty(), st, next)),
    }
}

/// The generalized type of `e`, and the environment afterwards, with no
/// unification variable left recorded.
pub open spec fn infer(st: EnvView, e: Expression) -> Result<(Ty, EnvView), TypeErrorView> {
    match build(st, e, 0) {
        Err(err) => Err(err),
        Ok((t, c, st1, _)) => match generalize(st1, c, t) {
            Err(err) => Err(err),
            Ok((gt, st2)) => Ok((gt, EnvView { type_variables: Set::empty(), ..st2 })),
        },
    }
}

/// What a declaration reports.
pub enum OutcomeView {
    /// `name: type`
    Let(Seq<char>, Ty),
    /// `extern name: type`
    ExternLet(Seq<char>, Ty),
    /// `_: type`
    UnboundExpr(Ty),
    /// `type name`
    Type(Seq<char>),
}

/// The environment of a new session: no variables, and the primitive types
/// `int` and `string`, without parameters.
pub open spec fn initial_env() -> EnvView {
    EnvView {
        variables: Map::empty(),
        type_variables: Set::empty(),
        type_atoms: Map::empty().insert(seq!['i', 'n', 't'], 0usize).insert(
            seq!['s', 't', 'r', 'i', 'n', 'g'],
            0usize,
        ),
    }
}

/// A declaration: what it reports and the environment afterwards.
pub open spec fn declare(st: EnvView, decl: Declaration) -> Result<(OutcomeView, EnvView), TypeErrorView> {
    match decl {
        Declaration::Let { name, value } => match infer(st, value) {
            Err(e) => Err(e),
            Ok((t, st1)) => Ok((OutcomeView::Let(name@, t), env_add(st1, name@, t))),
        },
        Declaration::ExternLet { name, type_ } => match first_invalid(st, type_@) {
            Some(e) => Err(e),
            None => Ok((OutcomeView::ExternLet(name@, type_@), env_add(st, name@, type_@))),
        },
        Declaration::UnboundExpr(e) => match infer(st, e) {
            Err(err) => Err(err),
            Ok((t, st1)) => Ok((OutcomeView::UnboundExpr(t), st1)),
        },
        Declaration::Type { name, parameter_count } => Ok(
            (
                OutcomeView::Type(name@),
                EnvView { type_atoms: st.type_atoms.insert(name@, parameter_count), ..st },
            ),
        ),
    }
}

/// The first fault of a written type, going through it in order: an unknown
/// type name, a wrong number of parameters, or an unknown unification variable.
pub open spec fn first_invalid(st: EnvView, t: Ty) -> Option<TypeErrorView>
    decreases t, 0int,
{
    match t {
        Ty::Atom(n) => if !st.type_atoms.contains_key(n) {
            Some(TypeErrorView::UnknownType(n))
        } else if st.type_atoms[n] != 0 {
            Some(TypeErrorView::WrongParameterCount(n, st.type_atoms[n], 0))
        } else {
            None
        },
        Ty::Var(v) => if !st.type_variables.contains(v) {
            Some(TypeErrorView::UnknownTypeVariable(v))
        } else {
            None
        },
        Ty::PolymorphicVar(_) => None,
        Ty::Fun(a, b) => match first_invalid(st, *a) {
            Some(err) => Some(err),
            None => first_invalid(st, *b),
        },
        Ty::ParameterizedAtom(n, ps) => if !st.type_atoms.contains_key(n) {
            Some(TypeErrorView::UnknownType(n))
        } else if st.type_atoms[n] != ps.len() {
            Some(TypeErrorView::WrongParameterCount(n, st.type_atoms[n], ps.len() as usize))
        } else {
            first_invalid_from(st, ps, 0)
        },
        Ty::Polymorphic(_, m) => first_invalid(st, *m),
    }
}

/// The first fault among the types `ps` from index `i` on.
pub open spec fn first_invalid_from(st: EnvView, ps: Seq<Ty>, i: int) -> Option<TypeErrorView>
    decreases ps, ps.len() - i,
{
    if i < 0 || i >= ps.len() {
        None
    } else {
        match first_invalid(st, ps[i]) {
            Some(err) => Some(err),
            None => first_invalid_from(st, ps, i + 1),
        }
    }
}


// ------------------------------------------------------------------
// Lemmas on generalization
// ------------------------------------------------------------------

pub proof fn lemma_sorted_below(s: Set<usize>, n: nat)
    requires
        n <= usize::MAX + 1,
    ensures
        increasing(sorted_below(s, n)),
        forall|i: int| 0 <= i < sorted_below(s, n).len() ==> #[trigger] sorted_below(s, n)[i] < n,
        forall|x: usize| #[trigger] sorted_below(s, n).contains(x) <==> (s.contains(x) && x < n),
    decreases n,
{
    if n > 0 {
        let m = (n - 1) as nat;
        lemma_sorted_below(s, m);
        let d = sorted_below(s, m);
        if s.contains(m as usize) {
            let e = d.push(m as usize);
            assert forall|x: usize| #[trigger] e.contains(x) <==> (s.contains(x) && x < n) by {
                if e.contains(x) {
                    let i = choose|i: int| 0 <= i < e.len() && e[i] == x;
                    if i < d.len() {
                        assert(e[i] == d[i]);
                        assert(d.contains(x));
                    }
                }
                if s.contains(x) && x < n {
                    if x < m {
                        assert(d.contains(x));
                        let i = choose|i: int| 0 <= i < d.len() && d[i] == x;
                        assert(e[i] == x);
                    } else {
                        assert(e[d.len() as int] == x);
                    }
                }
            }
        }
    }
}

pub proof fn lemma_sorted_vars(t: Ty)
    ensures
        increasing(sorted_vars(t)),
        sorted_vars(t).to_set() == var_set(t),
{
    lemma_sorted_below(var_set(t), (usize::MAX + 1) as nat);
    assert(sorted_vars(t).to_set() =~= var_set(t));
}

/// Two increasing sequences with the same elements are equal.
pub proof fn lemma_increasing_unique(a: Seq<usize>, b: Seq<usize>)
    requires
        increasing(a),
        increasing(b),
        a.to_set() == b.to_set(),
    ensures
        a == b,
    decreases a.len(),
{
    if a.len() == 0 {
        if b.len() > 0 {
            assert(b.to_set().contains(b[0]));
        }
        assert(a =~= b);
    } else {
        assert(a.to_set().contains(a[0]));
        assert(b.len() > 0);
        assert(b.to_set().contains(b[0]));
        let j = choose|j: int| 0 <= j < b.len() && b[j] == a[0];
        let i = choose|i: int| 0 <= i < a.len() && a[i] == b[0];
        assert(a[0] == b[0]);
        let a2 = a.drop_first();
        let b2 = b.drop_first();
        assert forall|x: usize| a2.to_set().contains(x) <==> b2.to_set().contains(x) by {
            if a2.to_set().contains(x) {
                let k = choose|k: int| 0 <= k < a2.len() && a2[k] == x;
                assert(a[k + 1] == x);
                assert(a.to_set().contains(x));
                let m = choose|m: int| 0 <= m < b.len() && b[m] == x;
                assert(m != 0);
                assert(b2[m - 1] == x);
            }
            if b2.to_set().contains(x) {
                let k = choose|k: int| 0 <= k < b2.len() && b2[k] == x;
                assert(b[k + 1] == x);
                assert(b.to_set().contains(x));
                let m = choose|m: int| 0 <= m < a.len() && a[m] == x;
                assert(m != 0);
                assert(a2[m - 1] == x);
            }
        }
        assert(a2.to_set() =~= b2.to_set());
        lemma_increasing_unique(a2, b2);
        assert forall|k: int| 0 <= k < a.len() implies a[k] == b[k] by {
            if k > 0 {
                assert(a[k] == a2[k - 1]);
                assert(b[k] == b2[k - 1]);
            }
        }
        assert(a =~= b);
    }
}

/// A variable left by `gen_matrix` was in `t` and was skipped: it belongs to
/// `fixed` or is not among `d`.
pub proof fn lemma_gen_matrix_vars(d: Seq<usize>, fixed: Set<usize>, t: Ty, k: nat, x: usize)
    ensures
        occurs(x, gen_matrix(d, fixed, t, k)) ==> occurs(x, t) && (fixed.contains(x) || !d.contains(x)),
    decreases d.len(),
{
    if d.len() > 0 {
        let v = d[0];
        let rest = d.drop_first();
        if fixed.contains(v) {
            lemma_gen_matrix_vars(rest, fixed, t, k, x);
            if occurs(x, gen_matrix(d, fixed, t, k)) && !fixed.contains(x) && d.contains(x) {
                let i = choose|i: int| 0 <= i < d.len() && d[i] == x;
                assert(i != 0);
                assert(rest[i - 1] == x);
            }
        } else {
            let pv = Ty::PolymorphicVar((k + 1) as usize);
            let t2 = subst(v, pv, t);
            lemma_gen_matrix_vars(rest, fixed, t2, k + 1, x);
            lemma_occurs_subst(v, pv, t, x);
            if occurs(x, gen_matrix(d, fixed, t, k)) && !fixed.contains(x) && d.contains(x) {
                let i = choose|i: int| 0 <= i < d.len() && d[i] == x;
                assert(x != v);
                assert(i != 0);
                assert(rest[i - 1] == x);
            }
        }
    }
}

/// Generalization quantifies every unification variable of the unified type
/// that is not free in the environment: a variable left in the generalized
/// type occurs in the type of some variable in scope afterwards.
pub proof fn lemma_generalize_closed(st: EnvView, p: Seq<(Ty, Ty)>, t: Ty, x: usize)
    requires
        generalize(st, p, t) is Ok,
    ensures
        occurs(x, generalize(st, p, t)->Ok_0.0) ==> env_vars(generalize(st, p, t)->Ok_0.1).contains(x),
{
    let (t2, st2) = unify_env(st, p, t)->Ok_0;
    let d = sorted_vars(t2);
    let fixed = env_vars(st2);
    lemma_sorted_vars(t2);
    lemma_gen_matrix_vars(d, fixed, t2, 0, x);
    if occurs(x, gen_matrix(d, fixed, t2, 0)) {
        assert(var_set(t2).contains(x));
        assert(d.to_set().contains(x));
    }
}

/// No unification variable occurs in the type of any variable in scope.
pub open spec fn env_closed(st: EnvView) -> bool {
    forall|k: Seq<char>, x: usize| st.variables.contains_key(k) ==> !(#[trigger] occurs(x, st.variables[k]))
}

/// Unification leaves a closed environment's types as they are.
pub proof fn lemma_unify_keeps_closed(st: EnvView, p: Seq<(Ty, Ty)>, t: Ty)
    requires
        env_closed(st),
        unify_env(st, p, t) is Ok,
    ensures
        unify_env(st, p, t)->Ok_0.1.variables == st.variables,
        unify_env(st, p, t)->Ok_0.1.type_atoms == st.type_atoms,
{
    let s = unify_result(p)->Ok_0;
    let m = st.variables.map_values(|x: Ty| apply(s, x));
    assert forall|k: Seq<char>| #[trigger] m.contains_key(k) implies m[k] == st.variables[k] by {
        lemma_apply_closed(s, st.variables[k]);
    }
    assert(m =~= st.variables);
}

/// Typing an expression in a closed environment leaves its variables and
/// declared type names as they were.
pub proof fn lemma_build_keeps_scope(st: EnvView, e: Expression, next: nat)
    requires
        env_closed(st),
        build(st, e, next) is Ok,
    ensures
        build(st, e, next)->Ok_0.2.variables == st.variables,
        build(st, e, next)->Ok_0.2.type_atoms == st.type_atoms,
    decreases e,
{
    match e {
        Expression::LetIn { name, value, body } => {
            lemma_build_keeps_scope(st, *value, next);
            let (vt, vc, st1, n1) = build(st, *value, next)->Ok_0;
            lemma_unify_keeps_closed(st1, vc, vt);
        },
        Expression::Fun { arg, body } => {},
        Expression::App { fun, arg } => {
            let (rt, st1, n1) = new_var(st, next)->Ok_0;
            lemma_build_keeps_scope(st1, *fun, n1);
            let (ft, fc, st2, n2) = build(st1, *fun, n1)->Ok_0;
            lemma_build_keeps_scope(st2, *arg, n2);
        },
        Expression::Variable(v) => {
            let t = st.variables[v@];
            if let Ty::Polymorphic(vs, m) = t {
                lemma_instantiate_vars_keeps_scope(st, vs, *m, next);
            }
        },
        _ => {},
    }
}

pub proof fn lemma_instantiate_vars_keeps_scope(st: EnvView, vs: Seq<usize>, m: Ty, next: nat)
    requires
        instantiate_vars(st, vs, m, next) is Ok,
    ensures
        instantiate_vars(st, vs, m, next)->Ok_0.1.variables == st.variables,
        instantiate_vars(st, vs, m, next)->Ok_0.1.type_atoms == st.type_atoms,
    decreases vs.len(),
{
    if vs.len() > 0 {
        let (fv, st2, n2) = new_var(st, next)->Ok_0;
        lemma_instantiate_vars_keeps_scope(st2, vs.drop_first(), subst_poly(vs[0], fv, m), n2);
    }
}

/// Inferred types are closed: in an environment whose types hold no
/// unification variable, the type inferred for an expression holds none
/// either, and the environment's variables are left as they were.
pub proof fn lemma_infer_closed(st: EnvView, e: Expression, x: usize)
    requires
        env_closed(st),
        infer(st, e) is Ok,
    ensures
        !occurs(x, infer(st, e)->Ok_0.0),
        infer(st, e)->Ok_0.1.variables == st.variables,
{
    lemma_build_keeps_scope(st, e, 0);
    let (t, c, st1, n) = build(st, e, 0)->Ok_0;
    lemma_unify_keeps_closed(st1, c, t);
    lemma_generalize_closed(st1, c, t, x);
}

/// A written type that passes the checks holds only recorded unification variables.
pub proof fn lemma_valid_vars(st: EnvView, t: Ty, x: usize)
    requires
        first_invalid(st, t) is None,
        occurs(x, t),
    ensures
        st.type_variables.contains(x),
    decreases t, 0int,
{
    match t {
        Ty::Fun(a, b) => {
            if occurs(x, *a) {
                lemma_valid_vars(st, *a, x);
            } else {
                lemma_valid_vars(st, *b, x);
            }
        },
        Ty::ParameterizedAtom(n, ps) => {
            let i = choose|i: int| 0 <= i < ps.len() && occurs(x, #[trigger] ps[i]);
            lemma_valid_from_vars(st, ps, 0, i, x);
        },
        Ty::Polymorphic(_, m) => {
            lemma_valid_vars(st, *m, x);
        },
        _ => {},
    }
}

proof fn lemma_valid_from_vars(st: EnvView, ps: Seq<Ty>, j: int, i: int, x: usize)
    requires
        first_invalid_from(st, ps, j) is None,
        0 <= j <= i < ps.len(),
        occurs(x, ps[i]),
    ensures
        st.type_variables.contains(x),
    decreases ps, ps.len() - j,
{
    if j == i {
        lemma_valid_vars(st, ps[i], x);
    } else {
        lemma_valid_from_vars(st, ps, j + 1, i, x);
    }
}

/// A session between declarations: no type in scope holds a unification
/// variable, and none is recorded.
pub open spec fn session(st: EnvView) -> bool {
    env_closed(st) && st.type_variables == Set::<usize>::empty()
}

/// A session reports closed types: from a session state (as every session
/// starts), a `let` or a bare expression reports a type holding no
/// unification variable, and every declaration leaves a session state.
pub proof fn lemma_declare_closed(st: EnvView, decl: Declaration, x: usize)
    requires
        session(st),
        declare(st, decl) is Ok,
    ensures
        session(declare(st, decl)->Ok_0.1),
        declare(st, decl)->Ok_0.0 matches OutcomeView::Let(_, t) ==> !occurs(x, t),
        declare(st, decl)->Ok_0.0 matches OutcomeView::UnboundExpr(t) ==> !occurs(x, t),
{
    match decl {
        Declaration::Let { name, value } => {
            lemma_infer_closed(st, value, x);
            let (t, st1) = infer(st, value)->Ok_0;
            let st2 = env_add(st1, name@, t);
            assert forall|k: Seq<char>, y: usize| st2.variables.contains_key(k) implies !(#[trigger] occurs(y, st2.variables[k])) by {
                lemma_infer_closed(st, value, y);
            }
        },
        Declaration::ExternLet { name, type_ } => {
            let st2 = env_add(st, name@, type_@);
            assert forall|k: Seq<char>, y: usize| st2.variables.contains_key(k) implies !(#[trigger] occurs(y, st2.variables[k])) by {
                if occurs(y, type_@) {
                    lemma_valid_vars(st, type_@, y);
                }
            }
        },
        Declaration::UnboundExpr(e) => {
            lemma_infer_closed(st, e, x);
        },
        _ => {},
    }
}

/// A session starts in a session state.
pub proof fn lemma_initial_session()
    ensures
        session(initial_env()),
{
}

}

verus! {

/// A `let` binds its name to exactly the type it reports, replacing any
/// earlier binding of the name, and leaves every other name as inference
/// left it (`_` binds nothing).
pub proof fn lemma_let_binds_reported_type(st: EnvView, name: String, value: Expression)
    requires
        declare(st, Declaration::Let { name, value }) is Ok,
    ensures
        ({
            let (out, st2) = declare(st, Declaration::Let { name, value })->Ok_0;
            let (t, st1) = infer(st, value)->Ok_0;
            &&& out == OutcomeView::Let(name@, t)
            &&& name@ != wildcard() ==> st2.variables.contains_key(name@) && st2.variables[name@] == t
            &&& name@ == wildcard() ==> st2.variables == st1.variables
            &&& forall|k: Seq<char>| k != name@ ==> (#[trigger] st2.variables.contains_key(k) <==> st1.variables.contains_key(k))
            &&& forall|k: Seq<char>| k != name@ && #[trigger] st2.variables.contains_key(k) ==> st2.variables[k] == st1.variables[k]
        }),
{
}

/// The initial environment knows the primitive types: every written type
/// built from `int` and `string` with arrows passes the checks, among them
/// the types of the literals.
pub proof fn lemma_initial_knows_primitives(t: Ty)
    requires
        primitive(t),
    ensures
        first_invalid(initial_env(), t) is None,
    decreases t,
{
    let st = initial_env();
    assert(st.type_atoms.contains_key(seq!['i', 'n', 't']));
    assert(st.type_atoms[seq!['i', 'n', 't']] == 0);
    assert(st.type_atoms.contains_key(seq!['s', 't', 'r', 'i', 'n', 'g']));
    assert(st.type_atoms[seq!['s', 't', 'r', 'i', 'n', 'g']] == 0);
    if let Ty::Fun(a, b) = t {
        lemma_initial_knows_primitives(*a);
        lemma_initial_knows_primitives(*b);
    }
}

/// A type made of `int`, `string` and arrows.
pub open spec fn primitive(t: Ty) -> bool
    decreases t,
{
    match t {
        Ty::Atom(n) => n == seq!['i', 'n', 't'] || n == seq!['s', 't', 'r', 'i', 'n', 'g'],
        Ty::Fun(a, b) => primitive(*a) && primitive(*b),
        _ => false,
    }
}

/// A written type that passes the checks respects the declared numbers of
/// parameters: every parameterized type name in it has exactly as many
/// parameters as it was declared with, and every unification variable in
/// it is in use.
pub proof fn lemma_valid_respects_arity(st: EnvView, t: Ty)
    requires
        first_invalid(st, t) is None,
    ensures
        arity_ok(|n: Seq<char>| st.type_atoms[n] as nat, t),
        forall|x: usize| occurs(x, t) ==> st.type_variables.contains(x),
    decreases t, 0int,
{
    assert forall|x: usize| occurs(x, t) implies st.type_variables.contains(x) by {
        lemma_valid_vars(st, t, x);
    }
    match t {
        Ty::Fun(a, b) => {
            lemma_valid_respects_arity(st, *a);
            lemma_valid_respects_arity(st, *b);
        },
        Ty::ParameterizedAtom(n, ps) => {
            assert forall|i: int| 0 <= i < ps.len() implies arity_ok(|n: Seq<char>| st.type_atoms[n] as nat, #[trigger] ps[i]) by {
                lemma_valid_from_arity(st, ps, 0, i);
            }
        },
        Ty::Polymorphic(_, m) => {
            lemma_valid_respects_arity(st, *m);
        },
        _ => {},
    }
}

proof fn lemma_valid_from_arity(st: EnvView, ps: Seq<Ty>, j: int, i: int)
    requires
        first_invalid_from(st, ps, j) is None,
        0 <= j <= i < ps.len(),
    ensures
        arity_ok(|n: Seq<char>| st.type_atoms[n] as nat, ps[i]),
    decreases ps, ps.len() - j,
{
    if j == i {
        lemma_valid_respects_arity(st, ps[i]);
    } else {
        lemma_valid_from_arity(st, ps, j + 1, i);
    }
}

}

verus! {

/// What each declaration records: an `extern` binds its name to the written
/// type, a type declaration records its number of parameters (replacing any
/// earlier one) and leaves the variables in scope alone, and a bare
/// expression binds nothing.
pub proof fn lemma_declare_records(st: EnvView, decl: Declaration)
    requires
        declare(st, decl) is Ok,
    ensures
        decl matches Declaration::ExternLet { name, type_ } ==> (name@ != wildcard() ==> {
            &&& declare(st, decl)->Ok_0.1.variables.contains_key(name@)
            &&& declare(st, decl)->Ok_0.1.variables[name@] == type_@
        }),
        decl matches Declaration::ExternLet { name, type_ } ==> declare(st, decl)->Ok_0.1.type_atoms == st.type_atoms,
        decl matches Declaration::Type { name, parameter_count } ==> {
            &&& declare(st, decl)->Ok_0.1.type_atoms.contains_key(name@)
            &&& declare(st, decl)->Ok_0.1.type_atoms[name@] == parameter_count
            &&& declare(st, decl)->Ok_0.1.variables == st.variables
        },
        decl matches Declaration::UnboundExpr(e) ==> declare(st, decl)->Ok_0.1.variables == infer(st, e)->Ok_0.1.variables,
{
}

}
