use vstd::prelude::*;

use crate::infer::{
    build, env_closed, generalize, quantify, lemma_generalize_closed, lemma_unify_keeps_closed, lemma_build_keeps_scope, env_vars, infer, unify_env, EnvView, env_add, gen_count, gen_matrix, has_poly, instantiate_vars, int_type, new_var, one_to,
    sorted_vars, string_type, wildcard,
};
use crate::subst::{
    apply, arity_ok, lemma_subst_arity, zip_pairs, lemma_unify_sound, lemma_apply_cons, size, size_seq, lemma_apply_closed, lemma_apply_fun, lemma_apply_param, lemma_step_decreases,
    occurs, pair_vars, pairs_arity_ok, size_pairs, step, subst, subst_pairs, subst_poly, unifies,
    unify_result, Step,
};
use crate::tree::{Expression, Ty};

verus! {

// ------------------------------------------------------------------
// The typing relation
// ------------------------------------------------------------------

/// The matrix `m` with its polymorphic variables `vs` replaced, one after
/// the other, by the types `ts`.
pub open spec fn inst_all(vs: Seq<usize>, ts: Seq<Ty>, m: Ty) -> Ty
    decreases vs.len(),
{
    if vs.len() == 0 || ts.len() == 0 {
        m
    } else {
        inst_all(vs.drop_first(), ts.drop_first(), subst_poly(vs[0], ts[0], m))
    }
}

/// `t` is an instance of the type scheme `s`: a polymorphic type with types
/// put for its bound variables, or any other scheme (a lone polymorphic
/// variable excepted) itself.
pub open spec fn instance(s: Ty, t: Ty) -> bool {
    match s {
        Ty::Polymorphic(vs, m) => exists|ts: Seq<Ty>| ts.len() == vs.len() && #[trigger] inst_all(vs, ts, *m) == t,
        Ty::PolymorphicVar(_) => false,
        _ => t == s,
    }
}

/// The context `g` with `x` bound to `t` (`_` binds nothing).
pub open spec fn bind(g: Map<Seq<char>, Ty>, x: Seq<char>, t: Ty) -> Map<Seq<char>, Ty> {
    if x == wildcard() {
        g
    } else {
        g.insert(x, t)
    }
}

/// The unification variables occurring in the types of a context.
pub open spec fn context_vars(g: Map<Seq<char>, Ty>) -> Set<usize> {
    Set::new(|x: usize| exists|k: Seq<char>| #[trigger] g.contains_key(k) && occurs(x, g[k]))
}

/// `t` generalized over its unification variables that are not free in the
/// context `g`, numbered from 1 in increasing order.
pub open spec fn generalized(g: Map<Seq<char>, Ty>, t: Ty) -> Ty {
    let d = sorted_vars(t);
    let n = gen_count(d, context_vars(g));
    let m = gen_matrix(d, context_vars(g), t, 0);
    if n == 0 {
        m
    } else {
        Ty::Polymorphic(one_to(n), Box::new(m))
    }
}

/// The Hindley–Milner typing relation: in context `g`, expression `e` has
/// type `t`. A variable has any instance of its scheme; a function has an
/// arrow type whose result types its body; an application has the result
/// of an arrow type of its function whose argument types its argument; a
/// `let` types its body with the bound name given the value's type,
/// generalized over the variables not free in the context.
pub open spec fn typed(g: Map<Seq<char>, Ty>, e: Expression, t: Ty) -> bool
    decreases e,
{
    match e {
        Expression::Variable(v) => g.contains_key(v@) && instance(g[v@], t),
        Expression::StringLiteral(_) => t == string_type(),
        Expression::IntLiteral(_) => t == int_type(),
        Expression::Fun { arg, body } => t is Fun && typed(bind(g, arg@, *t->Fun_0), *body, *t->Fun_1),
        Expression::App { fun, arg } => exists|a: Ty|
            #[trigger] some_type(a) && typed(g, *fun, Ty::Fun(Box::new(a), Box::new(t))) && typed(g, *arg, a),
        Expression::LetIn { name, value, body } => exists|tv: Ty|
            #[trigger] some_type(tv) && typed(g, *value, tv) && typed(bind(g, name@, generalized(g, tv)), *body, t),
    }
}

/// Any type: the hook by which a typing's intermediate type is named.
pub open spec fn some_type(t: Ty) -> bool {
    true
}

/// `e` holds no `let`.
pub open spec fn let_free(e: Expression) -> bool
    decreases e,
{
    match e {
        Expression::LetIn { .. } => false,
        Expression::Fun { arg, body } => let_free(*body),
        Expression::App { fun, arg } => let_free(*fun) && let_free(*arg),
        _ => true,
    }
}

/// A substitution applied to every type of a context.
pub open spec fn apply_context(s: Seq<(usize, Ty)>, g: Map<Seq<char>, Ty>) -> Map<Seq<char>, Ty> {
    g.map_values(|x: Ty| apply(s, x))
}

/// No binding of the substitution holds a polymorphic type or variable.
pub open spec fn poly_free_bindings(s: Seq<(usize, Ty)>) -> bool {
    forall|i: int| 0 <= i < s.len() ==> !has_poly(#[trigger] s[i].1)
}

// ------------------------------------------------------------------
// Substitutions and polymorphic variables
// ------------------------------------------------------------------

proof fn lemma_subst_poly_free(v: usize, new: Ty, t: Ty)
    requires
        !has_poly(new),
        !has_poly(t),
    ensures
        !has_poly(subst(v, new, t)),
    decreases t,
{
    match t {
        Ty::Fun(a, b) => {
            lemma_subst_poly_free(v, new, *a);
            lemma_subst_poly_free(v, new, *b);
        },
        Ty::ParameterizedAtom(n, ps) => {
            let qs = subst(v, new, t)->ParameterizedAtom_1;
            assert forall|i: int| 0 <= i < qs.len() implies !has_poly(#[trigger] qs[i]) by {
                assert(!has_poly(ps[i]));
                lemma_subst_poly_free(v, new, ps[i]);
            }
        },
        _ => {},
    }
}

proof fn lemma_apply_poly_free(s: Seq<(usize, Ty)>, t: Ty)
    requires
        poly_free_bindings(s),
        !has_poly(t),
    ensures
        !has_poly(apply(s, t)),
    decreases s.len(),
{
    if s.len() > 0 {
        lemma_subst_poly_free(s[0].0, s[0].1, t);
        assert forall|i: int| 0 <= i < s.drop_first().len() implies !has_poly(#[trigger] s.drop_first()[i].1) by {
            assert(s.drop_first()[i] == s[i + 1]);
        }
        lemma_apply_poly_free(s.drop_first(), subst(s[0].0, s[0].1, t));
    }
}

/// Replacing a unification variable by a type without polymorphic
/// variables commutes with replacing a polymorphic variable.
proof fn lemma_subst_commute(v: usize, new: Ty, p: usize, u: Ty, m: Ty)
    requires
        !has_poly(new),
    ensures
        subst(v, new, subst_poly(p, u, m)) == subst_poly(p, subst(v, new, u), subst(v, new, m)),
    decreases m,
{
    match m {
        Ty::Var(w) => {
            if v == w {
                lemma_subst_poly_id(p, subst(v, new, u), new);
            }
        },
        Ty::Fun(a, b) => {
            lemma_subst_commute(v, new, p, u, *a);
            lemma_subst_commute(v, new, p, u, *b);
        },
        Ty::ParameterizedAtom(n, ps) => {
            let l = subst(v, new, subst_poly(p, u, m))->ParameterizedAtom_1;
            let r = subst_poly(p, subst(v, new, u), subst(v, new, m))->ParameterizedAtom_1;
            assert forall|i: int| 0 <= i < ps.len() implies l[i] == r[i] by {
                lemma_subst_commute(v, new, p, u, ps[i]);
            }
            assert(l =~= r);
        },
        Ty::Polymorphic(vs, b) => {
            lemma_subst_commute(v, new, p, u, *b);
        },
        _ => {},
    }
}

/// A type without polymorphic variables is left as it is by replacing one.
proof fn lemma_subst_poly_id(p: usize, u: Ty, t: Ty)
    requires
        !has_poly(t),
    ensures
        subst_poly(p, u, t) == t,
    decreases t,
{
    match t {
        Ty::Fun(a, b) => {
            lemma_subst_poly_id(p, u, *a);
            lemma_subst_poly_id(p, u, *b);
        },
        Ty::ParameterizedAtom(n, ps) => {
            let qs = subst_poly(p, u, t)->ParameterizedAtom_1;
            assert forall|i: int| 0 <= i < ps.len() implies qs[i] == ps[i] by {
                assert(!has_poly(ps[i]));
                lemma_subst_poly_id(p, u, ps[i]);
            }
            assert(qs =~= ps);
        },
        _ => {},
    }
}

proof fn lemma_apply_commute(s: Seq<(usize, Ty)>, p: usize, u: Ty, m: Ty)
    requires
        poly_free_bindings(s),
    ensures
        apply(s, subst_poly(p, u, m)) == subst_poly(p, apply(s, u), apply(s, m)),
    decreases s.len(),
{
    if s.len() > 0 {
        lemma_subst_commute(s[0].0, s[0].1, p, u, m);
        assert forall|i: int| 0 <= i < s.drop_first().len() implies !has_poly(#[trigger] s.drop_first()[i].1) by {
            assert(s.drop_first()[i] == s[i + 1]);
        }
        lemma_apply_commute(s.drop_first(), p, subst(s[0].0, s[0].1, u), subst(s[0].0, s[0].1, m));
    }
}

proof fn lemma_apply_inst_all(s: Seq<(usize, Ty)>, vs: Seq<usize>, ts: Seq<Ty>, m: Ty)
    requires
        poly_free_bindings(s),
        ts.len() == vs.len(),
    ensures
        apply(s, inst_all(vs, ts, m)) == inst_all(vs, ts.map_values(|x: Ty| apply(s, x)), apply(s, m)),
    decreases vs.len(),
{
    let ts2 = ts.map_values(|x: Ty| apply(s, x));
    if vs.len() > 0 {
        lemma_apply_commute(s, vs[0], ts[0], m);
        lemma_apply_inst_all(s, vs.drop_first(), ts.drop_first(), subst_poly(vs[0], ts[0], m));
        assert(ts.drop_first().map_values(|x: Ty| apply(s, x)) =~= ts2.drop_first());
    }
}

proof fn lemma_apply_polymorphic(s: Seq<(usize, Ty)>, vs: Seq<usize>, m: Ty)
    ensures
        apply(s, Ty::Polymorphic(vs, Box::new(m))) == Ty::Polymorphic(vs, Box::new(apply(s, m))),
    decreases s.len(),
{
    if s.len() > 0 {
        lemma_apply_polymorphic(s.drop_first(), vs, subst(s[0].0, s[0].1, m));
    }
}

// ------------------------------------------------------------------
// Soundness of the constraints
// ------------------------------------------------------------------

proof fn lemma_instantiate_vars_instance(st: EnvView, vs: Seq<usize>, m: Ty, next: nat)
    requires
        instantiate_vars(st, vs, m, next) is Ok,
    ensures
        exists|ts: Seq<Ty>| ts.len() == vs.len() && #[trigger] inst_all(vs, ts, m) == instantiate_vars(st, vs, m, next)->Ok_0.0,
        instantiate_vars(st, vs, m, next)->Ok_0.1.variables == st.variables,
    decreases vs.len(),
{
    if vs.len() == 0 {
        let ts = Seq::<Ty>::empty();
        assert(inst_all(vs, ts, m) == m);
    } else {
        let (fv, st2, n2) = new_var(st, next)->Ok_0;
        let m2 = subst_poly(vs[0], fv, m);
        lemma_instantiate_vars_instance(st2, vs.drop_first(), m2, n2);
        let ts2 = choose|ts: Seq<Ty>| ts.len() == vs.drop_first().len() && #[trigger] inst_all(vs.drop_first(), ts, m2)
            == instantiate_vars(st2, vs.drop_first(), m2, n2)->Ok_0.0;
        let ts = seq![fv] + ts2;
        assert(ts.drop_first() =~= ts2);
        assert(ts[0] == fv);
        assert(inst_all(vs, ts, m) == inst_all(vs.drop_first(), ts2, m2));
    }
}

proof fn lemma_let_free_keeps(st: EnvView, e: Expression, next: nat)
    requires
        let_free(e),
        build(st, e, next) is Ok,
    ensures
        build(st, e, next)->Ok_0.2.variables == st.variables,
    decreases e,
{
    match e {
        Expression::App { fun, arg } => {
            let (rt, st1, n1) = new_var(st, next)->Ok_0;
            lemma_let_free_keeps(st1, *fun, n1);
            let (ft, fc, st2, n2) = build(st1, *fun, n1)->Ok_0;
            lemma_let_free_keeps(st2, *arg, n2);
        },
        Expression::Variable(v) => {
            let t = st.variables[v@];
            if let Ty::Polymorphic(vs, m) = t {
                lemma_instantiate_vars_instance(st, vs, *m, next);
            }
        },
        _ => {},
    }
}

proof fn lemma_unifies_split(s: Seq<(usize, Ty)>, a: Seq<(Ty, Ty)>, b: Seq<(Ty, Ty)>)
    requires
        unifies(s, a + b),
    ensures
        unifies(s, a),
        unifies(s, b),
{
    assert forall|j: int| 0 <= j < a.len() implies apply(s, #[trigger] a[j].0) == apply(s, a[j].1) by {
        assert((a + b)[j] == a[j]);
    }
    assert forall|j: int| 0 <= j < b.len() implies apply(s, #[trigger] b[j].0) == apply(s, b[j].1) by {
        assert((a + b)[a.len() + j] == b[j]);
    }
}

proof fn lemma_var_sound(st: EnvView, v: String, next: nat, s: Seq<(usize, Ty)>)
    requires
        build(st, Expression::Variable(v), next) is Ok,
        poly_free_bindings(s),
    ensures
        typed(apply_context(s, st.variables), Expression::Variable(v), apply(s, build(st, Expression::Variable(v), next)->Ok_0.0)),
{
    let e = Expression::Variable(v);
    let g = apply_context(s, st.variables);
    let sc = st.variables[v@];
    let t = build(st, e, next)->Ok_0.0;
    assert(g.contains_key(v@));
    assert(g[v@] == apply(s, sc));
    match sc {
        Ty::Polymorphic(vs, m) => {
            lemma_instantiate_vars_instance(st, vs, *m, next);
            let ts = choose|ts: Seq<Ty>| ts.len() == vs.len() && #[trigger] inst_all(vs, ts, *m)
                == instantiate_vars(st, vs, *m, next)->Ok_0.0;
            lemma_apply_inst_all(s, vs, ts, *m);
            lemma_apply_polymorphic(s, vs, *m);
            let ts2 = ts.map_values(|x: Ty| apply(s, x));
            assert(inst_all(vs, ts2, apply(s, *m)) == apply(s, t));
            assert(ts2.len() == vs.len());
            assert(instance(g[v@], apply(s, t)));
        },
        Ty::Var(x) => {
            lemma_apply_poly_free(s, sc);
            assert(t == sc);
            assert(!(apply(s, sc) is Polymorphic) && !(apply(s, sc) is PolymorphicVar));
            assert(instance(g[v@], apply(s, t)));
        },
        Ty::Fun(a, b) => {
            lemma_apply_fun(s, *a, *b);
            assert(t == sc);
            assert(instance(g[v@], apply(s, t)));
        },
        Ty::ParameterizedAtom(n, ps) => {
            lemma_apply_param(s, n, ps);
            assert(t == sc);
            assert(instance(g[v@], apply(s, t)));
        },
        Ty::Atom(n) => {
            lemma_apply_closed(s, sc);
            assert(t == sc);
            assert(instance(g[v@], apply(s, t)));
        },
        Ty::PolymorphicVar(_) => {},
    }
    assert(instance(g[v@], apply(s, t)));
    assert(typed(g, e, apply(s, t)));
    assert(typed(apply_context(s, st.variables), e, apply(s, build(st, e, next)->Ok_0.0)));
}

/// The constraints built for an expression are sound: for an expression
/// without `let`, every substitution that solves them (with no polymorphic
/// type among its bindings) types the expression, in the substituted
/// context, with the substituted type.
pub proof fn lemma_build_sound(st: EnvView, e: Expression, next: nat, s: Seq<(usize, Ty)>)
    requires
        let_free(e),
        build(st, e, next) is Ok,
        unifies(s, build(st, e, next)->Ok_0.1),
        poly_free_bindings(s),
    ensures
        typed(apply_context(s, st.variables), e, apply(s, build(st, e, next)->Ok_0.0)),
    decreases e,
{
    let g = apply_context(s, st.variables);
    match e {
        Expression::Variable(v) => {
            assert(e == Expression::Variable(v));
            lemma_var_sound(st, v, next, s);
        },
        Expression::StringLiteral(_) => {
            lemma_apply_closed(s, string_type());
            assert(typed(g, e, apply(s, build(st, e, next)->Ok_0.0)));
        },
        Expression::IntLiteral(_) => {
            lemma_apply_closed(s, int_type());
            assert(typed(g, e, apply(s, build(st, e, next)->Ok_0.0)));
        },
        Expression::Fun { arg, body } => {
            let (at, wa, n1) = new_var(st, next)->Ok_0;
            let inner = env_add(wa, arg@, at);
            let (bt, bc, st3, n2) = build(inner, *body, n1)->Ok_0;
            lemma_build_sound(inner, *body, n1, s);
            lemma_apply_fun(s, at, bt);
            assert(apply_context(s, inner.variables) =~= bind(g, arg@, apply(s, at)));
            assert(build(st, e, next)->Ok_0.0 == Ty::Fun(Box::new(at), Box::new(bt)));
            assert(typed(g, e, apply(s, build(st, e, next)->Ok_0.0)));
        },
        Expression::App { fun, arg } => {
            let (rt, st1, n1) = new_var(st, next)->Ok_0;
            let (ft, fc, st2, n2) = build(st1, *fun, n1)->Ok_0;
            lemma_let_free_keeps(st1, *fun, n1);
            let (at, ac, st3, n3) = build(st2, *arg, n2)->Ok_0;
            let last = seq![(ft, Ty::Fun(Box::new(at), Box::new(rt)))];
            lemma_unifies_split(s, fc + ac, last);
            lemma_unifies_split(s, fc, ac);
            assert(last[0] == (ft, Ty::Fun(Box::new(at), Box::new(rt))));
            assert(apply(s, last[0].0) == apply(s, last[0].1));
            assert(st1.variables == st.variables);
            lemma_apply_fun(s, at, rt);
            lemma_build_sound(st1, *fun, n1, s);
            lemma_build_sound(st2, *arg, n2, s);
            assert(typed(g, *fun, Ty::Fun(Box::new(apply(s, at)), Box::new(apply(s, rt)))));
            assert(typed(g, *arg, apply(s, at)));
            assert(build(st, e, next)->Ok_0.0 == rt);
            assert(some_type(apply(s, at)));
            assert(typed(g, e, apply(s, rt)));
        },
        Expression::LetIn { .. } => {},
    }
}

// ------------------------------------------------------------------
// Type schemes and the pairs built from them
// ------------------------------------------------------------------

/// Every polymorphic variable of `m` is among `vs`, and `m` holds no
/// polymorphic type.
pub open spec fn poly_within(m: Ty, vs: Seq<usize>) -> bool
    decreases m,
{
    match m {
        Ty::PolymorphicVar(p) => vs.contains(p),
        Ty::Polymorphic(_, _) => false,
        Ty::Fun(a, b) => poly_within(*a, vs) && poly_within(*b, vs),
        Ty::ParameterizedAtom(_, ps) => forall|i: int| 0 <= i < ps.len() ==> poly_within(#[trigger] ps[i], vs),
        _ => true,
    }
}

/// A type scheme: a polymorphic type over a matrix whose polymorphic
/// variables it binds, or a type with no polymorphic part.
pub open spec fn scheme_ok(s: Ty) -> bool {
    match s {
        Ty::Polymorphic(vs, m) => poly_within(*m, vs),
        _ => poly_within(s, Seq::empty()),
    }
}

/// Both sides of every pair are free of polymorphic types and variables.
pub open spec fn pairs_poly_free(p: Seq<(Ty, Ty)>) -> bool {
    forall|j: int| 0 <= j < p.len() ==> !has_poly(#[trigger] p[j].0) && !has_poly(p[j].1)
}

proof fn lemma_poly_within_empty(m: Ty)
    requires
        poly_within(m, Seq::empty()),
    ensures
        !has_poly(m),
    decreases m,
{
    match m {
        Ty::Fun(a, b) => {
            lemma_poly_within_empty(*a);
            lemma_poly_within_empty(*b);
        },
        Ty::ParameterizedAtom(_, ps) => {
            assert forall|i: int| 0 <= i < ps.len() implies !has_poly(#[trigger] ps[i]) by {
                lemma_poly_within_empty(ps[i]);
            }
        },
        _ => {},
    }
}

proof fn lemma_poly_within_step(m: Ty, vs: Seq<usize>, u: Ty)
    requires
        poly_within(m, vs),
        vs.len() > 0,
        !has_poly(u),
    ensures
        poly_within(subst_poly(vs[0], u, m), vs.drop_first()),
    decreases m,
{
    match m {
        Ty::PolymorphicVar(p) => {
            if p != vs[0] {
                let i = choose|i: int| 0 <= i < vs.len() && vs[i] == p;
                assert(vs.drop_first()[i - 1] == p);
            } else {
                lemma_poly_within_none(u, vs.drop_first());
            }
        },
        Ty::Fun(a, b) => {
            lemma_poly_within_step(*a, vs, u);
            lemma_poly_within_step(*b, vs, u);
        },
        Ty::ParameterizedAtom(n, ps) => {
            let qs = subst_poly(vs[0], u, m)->ParameterizedAtom_1;
            assert forall|i: int| 0 <= i < qs.len() implies poly_within(#[trigger] qs[i], vs.drop_first()) by {
                lemma_poly_within_step(ps[i], vs, u);
            }
        },
        _ => {},
    }
}

proof fn lemma_poly_within_none(u: Ty, vs: Seq<usize>)
    requires
        !has_poly(u),
    ensures
        poly_within(u, vs),
    decreases u,
{
    match u {
        Ty::Fun(a, b) => {
            lemma_poly_within_none(*a, vs);
            lemma_poly_within_none(*b, vs);
        },
        Ty::ParameterizedAtom(_, ps) => {
            assert forall|i: int| 0 <= i < ps.len() implies poly_within(#[trigger] ps[i], vs) by {
                assert(!has_poly(ps[i]));
                lemma_poly_within_none(ps[i], vs);
            }
        },
        _ => {},
    }
}

proof fn lemma_subst_poly_arity(arity: spec_fn(Seq<char>) -> nat, p: usize, u: Ty, m: Ty)
    requires
        arity_ok(arity, u),
        arity_ok(arity, m),
    ensures
        arity_ok(arity, subst_poly(p, u, m)),
    decreases m,
{
    match m {
        Ty::Fun(a, b) => {
            lemma_subst_poly_arity(arity, p, u, *a);
            lemma_subst_poly_arity(arity, p, u, *b);
        },
        Ty::ParameterizedAtom(n, ps) => {
            let qs = subst_poly(p, u, m)->ParameterizedAtom_1;
            assert forall|i: int| 0 <= i < qs.len() implies arity_ok(arity, #[trigger] qs[i]) by {
                assert(arity_ok(arity, ps[i]));
                lemma_subst_poly_arity(arity, p, u, ps[i]);
            }
        },
        Ty::Polymorphic(_, b) => {
            lemma_subst_poly_arity(arity, p, u, *b);
        },
        _ => {},
    }
}

proof fn lemma_instantiate_vars_shape(st: EnvView, vs: Seq<usize>, m: Ty, next: nat, arity: spec_fn(Seq<char>) -> nat)
    requires
        instantiate_vars(st, vs, m, next) is Ok,
        poly_within(m, vs),
        arity_ok(arity, m),
    ensures
        !has_poly(instantiate_vars(st, vs, m, next)->Ok_0.0),
        arity_ok(arity, instantiate_vars(st, vs, m, next)->Ok_0.0),
    decreases vs.len(),
{
    if vs.len() == 0 {
        assert(vs =~= Seq::<usize>::empty());
        lemma_poly_within_empty(m);
    } else {
        let (fv, st2, n2) = new_var(st, next)->Ok_0;
        lemma_poly_within_step(m, vs, fv);
        lemma_subst_poly_arity(arity, vs[0], fv, m);
        lemma_instantiate_vars_shape(st2, vs.drop_first(), subst_poly(vs[0], fv, m), n2, arity);
    }
}

/// The context's types are schemes respecting `arity`.
pub open spec fn context_ok(g: Map<Seq<char>, Ty>, arity: spec_fn(Seq<char>) -> nat) -> bool {
    forall|k: Seq<char>| #[trigger] g.contains_key(k) ==> scheme_ok(g[k]) && arity_ok(arity, g[k])
}

proof fn lemma_var_shape(st: EnvView, v: String, next: nat, arity: spec_fn(Seq<char>) -> nat)
    requires
        build(st, Expression::Variable(v), next) is Ok,
        context_ok(st.variables, arity),
    ensures
        !has_poly(build(st, Expression::Variable(v), next)->Ok_0.0),
        arity_ok(arity, build(st, Expression::Variable(v), next)->Ok_0.0),
        build(st, Expression::Variable(v), next)->Ok_0.1 == Seq::<(Ty, Ty)>::empty(),
{
    let sc = st.variables[v@];
    assert(st.variables.contains_key(v@));
    match sc {
        Ty::Polymorphic(vs, m) => {
            lemma_instantiate_vars_shape(st, vs, *m, next, arity);
        },
        _ => {
            lemma_poly_within_empty(sc);
        },
    }
}

proof fn lemma_app_pairs(fc: Seq<(Ty, Ty)>, ac: Seq<(Ty, Ty)>, ft: Ty, at: Ty, rt: Ty, arity: spec_fn(Seq<char>) -> nat)
    requires
        pairs_poly_free(fc),
        pairs_arity_ok(arity, fc),
        pairs_poly_free(ac),
        pairs_arity_ok(arity, ac),
        !has_poly(ft) && !has_poly(at) && !has_poly(rt),
        arity_ok(arity, ft) && arity_ok(arity, at) && arity_ok(arity, rt),
    ensures
        pairs_poly_free(fc + ac + seq![(ft, Ty::Fun(Box::new(at), Box::new(rt)))]),
        pairs_arity_ok(arity, fc + ac + seq![(ft, Ty::Fun(Box::new(at), Box::new(rt)))]),
{
    let all = fc + ac + seq![(ft, Ty::Fun(Box::new(at), Box::new(rt)))];
    assert forall|j: int| 0 <= j < all.len() implies !has_poly(#[trigger] all[j].0) && !has_poly(all[j].1)
        && arity_ok(arity, all[j].0) && arity_ok(arity, all[j].1) by {
        if j < fc.len() {
            assert(all[j] == fc[j]);
            lemma_pair_at(fc, j, arity);
        } else if j < fc.len() + ac.len() {
            assert(all[j] == ac[j - fc.len()]);
            lemma_pair_at(ac, j - fc.len(), arity);
        } else {
            assert(all[j] == (ft, Ty::Fun(Box::new(at), Box::new(rt))));
        }
    }
}

proof fn lemma_build_shape(st: EnvView, e: Expression, next: nat, arity: spec_fn(Seq<char>) -> nat)
    requires
        let_free(e),
        build(st, e, next) is Ok,
        context_ok(st.variables, arity),
    ensures
        !has_poly(build(st, e, next)->Ok_0.0),
        arity_ok(arity, build(st, e, next)->Ok_0.0),
        pairs_poly_free(build(st, e, next)->Ok_0.1),
        pairs_arity_ok(arity, build(st, e, next)->Ok_0.1),
    decreases e,
{
    match e {
        Expression::Variable(v) => {
            lemma_var_shape(st, v, next, arity);
            assert(!has_poly(build(st, e, next)->Ok_0.0));
        },
        Expression::Fun { arg, body } => {
            let (at, wa, n1) = new_var(st, next)->Ok_0;
            let inner = env_add(wa, arg@, at);
            lemma_poly_within_none(at, Seq::empty());
            assert(context_ok(inner.variables, arity));
            lemma_build_shape(inner, *body, n1, arity);
            let (bt, bc, st3, n2) = build(inner, *body, n1)->Ok_0;
            assert(build(st, e, next)->Ok_0.0 == Ty::Fun(Box::new(at), Box::new(bt)));
            assert(build(st, e, next)->Ok_0.1 == bc);
            assert(at == Ty::Var((next + 1) as usize));
            assert(!has_poly(at) && !has_poly(bt));
            assert(arity_ok(arity, at) && arity_ok(arity, bt));
            assert(!has_poly(Ty::Fun(Box::new(at), Box::new(bt))));
        },
        Expression::App { fun, arg } => {
            let (rt, st1, n1) = new_var(st, next)->Ok_0;
            let (ft, fc, st2, n2) = build(st1, *fun, n1)->Ok_0;
            lemma_build_shape(st1, *fun, n1, arity);
            lemma_let_free_keeps(st1, *fun, n1);
            lemma_build_shape(st2, *arg, n2, arity);
            let (at, ac, st3, n3) = build(st2, *arg, n2)->Ok_0;
            assert(pairs_poly_free(fc) && pairs_arity_ok(arity, fc));
            assert(pairs_poly_free(ac) && pairs_arity_ok(arity, ac));
            lemma_app_pairs(fc, ac, ft, at, rt, arity);
            assert(build(st, e, next)->Ok_0.0 == rt);
            assert(!has_poly(build(st, e, next)->Ok_0.0));
        },
        _ => {},
    }
}

proof fn lemma_pair_at(p: Seq<(Ty, Ty)>, j: int, arity: spec_fn(Seq<char>) -> nat)
    requires
        pairs_poly_free(p),
        pairs_arity_ok(arity, p),
        0 <= j < p.len(),
    ensures
        !has_poly(p[j].0) && !has_poly(p[j].1),
        arity_ok(arity, p[j].0) && arity_ok(arity, p[j].1),
{
}

proof fn lemma_split_poly_free(l: Ty, r: Ty)
    requires
        !has_poly(l),
        !has_poly(r),
        step(l, r) is Split,
    ensures
        pairs_poly_free(step(l, r)->Split_0),
{
    let parts = step(l, r)->Split_0;
    assert forall|k: int| 0 <= k < parts.len() implies !has_poly(#[trigger] parts[k].0) && !has_poly(parts[k].1) by {
        if l is Fun && r is Fun {
            assert(parts == seq![(*l->Fun_0, *r->Fun_0), (*l->Fun_1, *r->Fun_1)]);
            if k == 0 {
                assert(parts[k] == (*l->Fun_0, *r->Fun_0));
            } else {
                assert(parts[k] == (*l->Fun_1, *r->Fun_1));
            }
        } else {
            let lps = l->ParameterizedAtom_1;
            let rps = r->ParameterizedAtom_1;
            assert(parts == zip_pairs(lps, rps));
            assert(parts[k] == (lps[k], rps[k]));
            assert(!has_poly(lps[k]));
            assert(!has_poly(rps[k]));
        }
    }
}

/// Unifying pairs free of polymorphic types binds no polymorphic type.
proof fn lemma_unify_poly_free(p: Seq<(Ty, Ty)>)
    requires
        pairs_poly_free(p),
        unify_result(p) is Ok,
    ensures
        poly_free_bindings(unify_result(p)->Ok_0),
    decreases pair_vars(p).len(), size_pairs(p),
{
    if p.len() > 0 {
        let rest = p.drop_last();
        let (l, r) = p.last();
        lemma_step_decreases(p);
        assert(p[p.len() - 1] == (l, r));
        assert forall|j: int| 0 <= j < rest.len() implies !has_poly(#[trigger] rest[j].0) && !has_poly(rest[j].1) by {
            assert(rest[j] == p[j]);
        }
        match step(l, r) {
            Step::Drop => {
                lemma_unify_poly_free(rest);
            },
            Step::Split(parts) => {
                lemma_split_poly_free(l, r);
                let q = rest + parts;
                assert forall|j: int| 0 <= j < q.len() implies !has_poly(#[trigger] q[j].0) && !has_poly(q[j].1) by {
                    if j < rest.len() {
                        assert(q[j] == rest[j]);
                    } else {
                        assert(q[j] == parts[j - rest.len()]);
                    }
                }
                lemma_unify_poly_free(q);
            },
            Step::Bind(v, t) => {
                let q = subst_pairs(v, t, rest);
                assert forall|j: int| 0 <= j < q.len() implies !has_poly(#[trigger] q[j].0) && !has_poly(q[j].1) by {
                    lemma_subst_poly_free(v, t, rest[j].0);
                    lemma_subst_poly_free(v, t, rest[j].1);
                }
                lemma_unify_poly_free(q);
                let s = unify_result(p)->Ok_0;
                let s2 = unify_result(q)->Ok_0;
                assert(s == seq![(v, t)] + s2);
                assert forall|i: int| 0 <= i < s.len() implies !has_poly(#[trigger] s[i].1) by {
                    if i > 0 {
                        assert(s[i] == s2[i - 1]);
                    }
                }
            },
            Step::Fail => {},
        }
    }
}

// ------------------------------------------------------------------
// Soundness of inference
// ------------------------------------------------------------------

// ------------------------------------------------------------------
// Unification is most general
// ------------------------------------------------------------------

proof fn lemma_size_seq_elem(ps: Seq<Ty>, i: int)
    requires
        0 <= i < ps.len(),
    ensures
        size_seq(ps) >= size(ps[i]),
    decreases ps.len(),
{
    if i < ps.len() - 1 {
        assert(ps.drop_last()[i] == ps[i]);
        lemma_size_seq_elem(ps.drop_last(), i);
    }
}

/// A type in which `v` occurs weighs, once substituted, at least what `v`
/// does, and more unless it is `v` itself.
proof fn lemma_occurs_size(s: Seq<(usize, Ty)>, v: usize, r: Ty)
    requires
        occurs(v, r),
    ensures
        size(apply(s, r)) >= size(apply(s, Ty::Var(v))),
        !(r is Var) ==> size(apply(s, r)) > size(apply(s, Ty::Var(v))),
    decreases r,
{
    match r {
        Ty::Fun(a, b) => {
            lemma_apply_fun(s, *a, *b);
            if occurs(v, *a) {
                lemma_occurs_size(s, v, *a);
            } else {
                lemma_occurs_size(s, v, *b);
            }
        },
        Ty::ParameterizedAtom(n, ps) => {
            let i = choose|i: int| 0 <= i < ps.len() && occurs(v, #[trigger] ps[i]);
            lemma_occurs_size(s, v, ps[i]);
            lemma_apply_param(s, n, ps);
            let qs = apply(s, r)->ParameterizedAtom_1;
            lemma_size_seq_elem(qs, i);
        },
        Ty::Polymorphic(vs, m) => {
            lemma_apply_polymorphic(s, vs, *m);
            lemma_occurs_size(s, v, *m);
        },
        _ => {},
    }
}

/// A substitution that makes `v` and `t` equal is unchanged by first
/// replacing `v` by `t`.
proof fn lemma_apply_subst_same(s: Seq<(usize, Ty)>, v: usize, t: Ty, u: Ty)
    requires
        apply(s, Ty::Var(v)) == apply(s, t),
    ensures
        apply(s, subst(v, t, u)) == apply(s, u),
    decreases u,
{
    match u {
        Ty::Fun(a, b) => {
            lemma_apply_subst_same(s, v, t, *a);
            lemma_apply_subst_same(s, v, t, *b);
            lemma_apply_fun(s, *a, *b);
            lemma_apply_fun(s, subst(v, t, *a), subst(v, t, *b));
        },
        Ty::ParameterizedAtom(n, ps) => {
            let qs = subst(v, t, u)->ParameterizedAtom_1;
            lemma_apply_param(s, n, ps);
            lemma_apply_param(s, n, qs);
            let x = apply(s, u)->ParameterizedAtom_1;
            let y = apply(s, subst(v, t, u))->ParameterizedAtom_1;
            assert forall|i: int| 0 <= i < ps.len() implies y[i] == x[i] by {
                lemma_apply_subst_same(s, v, t, ps[i]);
                assert(qs[i] == subst(v, t, ps[i]));
            }
            assert(y =~= x);
        },
        Ty::Polymorphic(vs, m) => {
            lemma_apply_subst_same(s, v, t, *m);
            lemma_apply_polymorphic(s, vs, *m);
            lemma_apply_polymorphic(s, vs, subst(v, t, *m));
        },
        _ => {},
    }
}

/// Where a step splits a pair that a substitution unifies, the
/// substitution unifies the parts.
proof fn lemma_split_unifies(s: Seq<(usize, Ty)>, l: Ty, r: Ty)
    requires
        step(l, r) is Split,
        apply(s, l) == apply(s, r),
    ensures
        unifies(s, step(l, r)->Split_0),
{
    let parts = step(l, r)->Split_0;
    if l is Fun && r is Fun {
        lemma_apply_fun(s, *l->Fun_0, *l->Fun_1);
        lemma_apply_fun(s, *r->Fun_0, *r->Fun_1);
        assert(parts == seq![(*l->Fun_0, *r->Fun_0), (*l->Fun_1, *r->Fun_1)]);
        assert forall|k: int| 0 <= k < parts.len() implies apply(s, #[trigger] parts[k].0) == apply(s, parts[k].1) by {
            if k == 0 {
                assert(parts[k] == (*l->Fun_0, *r->Fun_0));
            } else {
                assert(parts[k] == (*l->Fun_1, *r->Fun_1));
            }
        }
    } else {
        let n = l->ParameterizedAtom_0;
        let lps = l->ParameterizedAtom_1;
        let rps = r->ParameterizedAtom_1;
        lemma_apply_param(s, n, lps);
        lemma_apply_param(s, n, rps);
        assert(parts == zip_pairs(lps, rps));
        assert forall|k: int| 0 <= k < parts.len() implies apply(s, #[trigger] parts[k].0) == apply(s, parts[k].1) by {
            assert(parts[k] == (lps[k], rps[k]));
            assert(apply(s, l)->ParameterizedAtom_1[k] == apply(s, lps[k]));
            assert(apply(s, r)->ParameterizedAtom_1[k] == apply(s, rps[k]));
        }
    }
}

/// A pair on which a step fails is unified by no substitution.
proof fn lemma_fail_not_unified(s: Seq<(usize, Ty)>, l: Ty, r: Ty)
    requires
        !has_poly(l),
        !has_poly(r),
        step(l, r) is Fail,
    ensures
        apply(s, l) != apply(s, r),
{
    if l is Var {
        let v = l->Var_0;
        assert(occurs(v, r));
        if r is Var {
            assert(r->Var_0 == v);
        }
        lemma_occurs_size(s, v, r);
    } else if r is Var {
        let v = r->Var_0;
        assert(occurs(v, l));
        lemma_occurs_size(s, v, l);
    } else {
        match l {
            Ty::Atom(a) => {
                lemma_apply_closed(s, l);
                match r {
                    Ty::Atom(b) => {
                        lemma_apply_closed(s, r);
                    },
                    Ty::Fun(c, d) => {
                        lemma_apply_fun(s, *c, *d);
                    },
                    Ty::ParameterizedAtom(n, ps) => {
                        lemma_apply_param(s, n, ps);
                    },
                    _ => {},
                }
            },
            Ty::Fun(a, b) => {
                lemma_apply_fun(s, *a, *b);
                match r {
                    Ty::Atom(_) => {
                        lemma_apply_closed(s, r);
                    },
                    Ty::ParameterizedAtom(n, ps) => {
                        lemma_apply_param(s, n, ps);
                    },
                    _ => {},
                }
            },
            Ty::ParameterizedAtom(n, ps) => {
                lemma_apply_param(s, n, ps);
                match r {
                    Ty::Atom(_) => {
                        lemma_apply_closed(s, r);
                    },
                    Ty::Fun(c, d) => {
                        lemma_apply_fun(s, *c, *d);
                    },
                    Ty::ParameterizedAtom(m, qs) => {
                        lemma_apply_param(s, m, qs);
                    },
                    _ => {},
                }
            },
            _ => {},
        }
    }
}

/// Unification is complete and most general: where some substitution
/// unifies every pair (the pairs holding no polymorphic type), unification
/// succeeds, and that substitution is the bindings it makes followed by
/// the substitution itself.
pub proof fn lemma_unify_most_general(p: Seq<(Ty, Ty)>, s: Seq<(usize, Ty)>)
    requires
        pairs_poly_free(p),
        unifies(s, p),
    ensures
        unify_result(p) is Ok,
        forall|t: Ty| #[trigger] apply(s, apply(unify_result(p)->Ok_0, t)) == apply(s, t),
    decreases pair_vars(p).len(), size_pairs(p),
{
    if p.len() == 0 {
        assert forall|t: Ty| #[trigger] apply(s, apply(unify_result(p)->Ok_0, t)) == apply(s, t) by {
            assert(unify_result(p)->Ok_0.len() == 0);
        }
    } else {
        let rest = p.drop_last();
        let (l, r) = p.last();
        lemma_step_decreases(p);
        assert(p[p.len() - 1] == (l, r));
        assert(apply(s, l) == apply(s, r));
        assert forall|j: int| 0 <= j < rest.len() implies !has_poly(#[trigger] rest[j].0) && !has_poly(rest[j].1)
            && apply(s, rest[j].0) == apply(s, rest[j].1) by {
            assert(rest[j] == p[j]);
        }
        match step(l, r) {
            Step::Drop => {
                lemma_unify_most_general(rest, s);
            },
            Step::Split(parts) => {
                lemma_split_poly_free(l, r);
                lemma_split_unifies(s, l, r);
                let q = rest + parts;
                assert forall|j: int| 0 <= j < q.len() implies !has_poly(#[trigger] q[j].0) && !has_poly(q[j].1)
                    && apply(s, q[j].0) == apply(s, q[j].1) by {
                    if j < rest.len() {
                        assert(q[j] == rest[j]);
                    } else {
                        assert(q[j] == parts[j - rest.len()]);
                    }
                }
                lemma_unify_most_general(q, s);
            },
            Step::Bind(v, t) => {
                assert(apply(s, Ty::Var(v)) == apply(s, t));
                let q = subst_pairs(v, t, rest);
                assert forall|j: int| 0 <= j < q.len() implies !has_poly(#[trigger] q[j].0) && !has_poly(q[j].1)
                    && apply(s, q[j].0) == apply(s, q[j].1) by {
                    lemma_subst_poly_free(v, t, rest[j].0);
                    lemma_subst_poly_free(v, t, rest[j].1);
                    lemma_apply_subst_same(s, v, t, rest[j].0);
                    lemma_apply_subst_same(s, v, t, rest[j].1);
                }
                lemma_unify_most_general(q, s);
                let s2 = unify_result(q)->Ok_0;
                let s0 = unify_result(p)->Ok_0;
                assert(s0 == seq![(v, t)] + s2);
                assert forall|x: Ty| #[trigger] apply(s, apply(s0, x)) == apply(s, x) by {
                    lemma_apply_cons((v, t), s2, x);
                    assert(apply(s, apply(s2, subst(v, t, x))) == apply(s, subst(v, t, x)));
                    lemma_apply_subst_same(s, v, t, x);
                }
            },
            Step::Fail => {
                lemma_fail_not_unified(s, l, r);
            },
        }
    }
}

// ------------------------------------------------------------------
// Generalized types are schemes
// ------------------------------------------------------------------

proof fn lemma_one_to_grows(k: nat, p: usize)
    ensures
        one_to(k).contains(p) ==> one_to(k + 1).contains(p),
        one_to(k + 1).contains((k + 1) as usize),
{
    if one_to(k).contains(p) {
        let i = choose|i: int| 0 <= i < one_to(k).len() && one_to(k)[i] == p;
        assert(one_to(k + 1)[i] == p);
    }
    assert(one_to(k + 1)[k as int] == (k + 1) as usize);
}

proof fn lemma_within_mono(t: Ty, vs: Seq<usize>, ws: Seq<usize>)
    requires
        poly_within(t, vs),
        forall|p: usize| vs.contains(p) ==> ws.contains(p),
    ensures
        poly_within(t, ws),
    decreases t,
{
    match t {
        Ty::Fun(a, b) => {
            lemma_within_mono(*a, vs, ws);
            lemma_within_mono(*b, vs, ws);
        },
        Ty::ParameterizedAtom(_, ps) => {
            assert forall|i: int| 0 <= i < ps.len() implies poly_within(#[trigger] ps[i], ws) by {
                lemma_within_mono(ps[i], vs, ws);
            }
        },
        _ => {},
    }
}

proof fn lemma_subst_within(v: usize, new: Ty, t: Ty, vs: Seq<usize>)
    requires
        poly_within(t, vs),
        poly_within(new, vs),
    ensures
        poly_within(subst(v, new, t), vs),
    decreases t,
{
    match t {
        Ty::Fun(a, b) => {
            lemma_subst_within(v, new, *a, vs);
            lemma_subst_within(v, new, *b, vs);
        },
        Ty::ParameterizedAtom(_, ps) => {
            let qs = subst(v, new, t)->ParameterizedAtom_1;
            assert forall|i: int| 0 <= i < qs.len() implies poly_within(#[trigger] qs[i], vs) by {
                lemma_subst_within(v, new, ps[i], vs);
            }
        },
        _ => {},
    }
}

proof fn lemma_gen_matrix_scheme(d: Seq<usize>, fixed: Set<usize>, t: Ty, k: nat, arity: spec_fn(Seq<char>) -> nat)
    requires
        poly_within(t, one_to(k)),
        arity_ok(arity, t),
    ensures
        poly_within(gen_matrix(d, fixed, t, k), one_to(k + gen_count(d, fixed))),
        arity_ok(arity, gen_matrix(d, fixed, t, k)),
    decreases d.len(),
{
    if d.len() == 0 {
        assert(k + gen_count(d, fixed) == k);
    } else if fixed.contains(d[0]) {
        lemma_gen_matrix_scheme(d.drop_first(), fixed, t, k, arity);
    } else {
        let pv = Ty::PolymorphicVar((k + 1) as usize);
        assert forall|p: usize| one_to(k).contains(p) implies one_to(k + 1).contains(p) by {
            lemma_one_to_grows(k, p);
        }
        lemma_within_mono(t, one_to(k), one_to(k + 1));
        lemma_one_to_grows(k, 0);
        assert(poly_within(pv, one_to(k + 1)));
        lemma_subst_within(d[0], pv, t, one_to(k + 1));
        lemma_subst_arity(arity, d[0], pv, t);
        lemma_gen_matrix_scheme(d.drop_first(), fixed, subst(d[0], pv, t), k + 1, arity);
    }
}

/// A quantified type is a scheme, and keeps the arities of the type.
proof fn lemma_quantify_scheme(st: EnvView, t: Ty, arity: spec_fn(Seq<char>) -> nat)
    requires
        quantify(st, t) is Ok,
        arity_ok(arity, t),
    ensures
        scheme_ok(quantify(st, t)->Ok_0),
        arity_ok(arity, quantify(st, t)->Ok_0),
{
    let d = sorted_vars(t);
    let fixed = env_vars(st);
    lemma_poly_within_none(t, one_to(0));
    lemma_gen_matrix_scheme(d, fixed, t, 0, arity);
    if gen_count(d, fixed) == 0 {
        assert(one_to(0) =~= Seq::<usize>::empty());
    }
}

// ------------------------------------------------------------------
// Soundness with `let` outside functions
// ------------------------------------------------------------------

/// Every `let` of `e` lies outside any `fun`: the bound values are typed in
/// the context of the whole expression.
pub open spec fn lets_outside_funs(e: Expression) -> bool
    decreases e,
{
    match e {
        Expression::LetIn { name, value, body } => lets_outside_funs(*value) && lets_outside_funs(*body),
        Expression::Fun { arg, body } => let_free(*body),
        Expression::App { fun, arg } => lets_outside_funs(*fun) && lets_outside_funs(*arg),
        _ => true,
    }
}

proof fn lemma_closed_context_fixed(s: Seq<(usize, Ty)>, g: Map<Seq<char>, Ty>)
    requires
        forall|k: Seq<char>, x: usize| g.contains_key(k) ==> !(#[trigger] occurs(x, g[k])),
    ensures
        apply_context(s, g) == g,
{
    assert forall|k: Seq<char>| #[trigger] g.contains_key(k) implies apply(s, g[k]) == g[k] by {
        assert forall|x: usize| !occurs(x, g[k]) by {
            assert(!occurs(x, g[k]));
        }
        lemma_apply_closed(s, g[k]);
    }
    assert(apply_context(s, g) =~= g);
}

/// In a closed context, what a `let` binds is a closed scheme respecting
/// the arities, and the context afterwards is the same.
proof fn lemma_let_binding(st: EnvView, vc: Seq<(Ty, Ty)>, vt: Ty, arity: spec_fn(Seq<char>) -> nat)
    requires
        env_closed(st),
        generalize(st, vc, vt) is Ok,
        arity_ok(arity, vt),
        pairs_arity_ok(arity, vc),
    ensures
        generalize(st, vc, vt)->Ok_0.1.variables == st.variables,
        scheme_ok(generalize(st, vc, vt)->Ok_0.0),
        arity_ok(arity, generalize(st, vc, vt)->Ok_0.0),
        forall|x: usize| !occurs(x, generalize(st, vc, vt)->Ok_0.0),
        generalize(st, vc, vt)->Ok_0.0 == generalized(st.variables, apply(unify_result(vc)->Ok_0, vt)),
{
    lemma_unify_keeps_closed(st, vc, vt);
    let s1 = unify_result(vc)->Ok_0;
    let (t2, st2) = unify_env(st, vc, vt)->Ok_0;
    lemma_unify_sound(vc, arity);
    lemma_unify_arity(vc, arity);
    lemma_apply_arity(arity, s1, vt);
    lemma_quantify_scheme(st2, t2, arity);
    assert forall|x: usize| !occurs(x, generalize(st, vc, vt)->Ok_0.0) by {
        lemma_generalize_closed(st, vc, vt, x);
    }
    assert(env_vars(st2) =~= context_vars(st.variables));
}

/// No binding of the substitution breaks the arities.
pub open spec fn bindings_arity_ok(arity: spec_fn(Seq<char>) -> nat, s: Seq<(usize, Ty)>) -> bool {
    forall|i: int| 0 <= i < s.len() ==> arity_ok(arity, #[trigger] s[i].1)
}

proof fn lemma_apply_arity(arity: spec_fn(Seq<char>) -> nat, s: Seq<(usize, Ty)>, t: Ty)
    requires
        bindings_arity_ok(arity, s),
        arity_ok(arity, t),
    ensures
        arity_ok(arity, apply(s, t)),
    decreases s.len(),
{
    if s.len() > 0 {
        lemma_subst_arity(arity, s[0].0, s[0].1, t);
        assert forall|i: int| 0 <= i < s.drop_first().len() implies arity_ok(arity, #[trigger] s.drop_first()[i].1) by {
            assert(s.drop_first()[i] == s[i + 1]);
        }
        lemma_apply_arity(arity, s.drop_first(), subst(s[0].0, s[0].1, t));
    }
}

proof fn lemma_split_arity(l: Ty, r: Ty, arity: spec_fn(Seq<char>) -> nat)
    requires
        arity_ok(arity, l),
        arity_ok(arity, r),
        step(l, r) is Split,
    ensures
        pairs_arity_ok(arity, step(l, r)->Split_0),
{
    let parts = step(l, r)->Split_0;
    assert forall|k: int| 0 <= k < parts.len() implies arity_ok(arity, #[trigger] parts[k].0) && arity_ok(arity, parts[k].1) by {
        if l is Fun && r is Fun {
            assert(parts == seq![(*l->Fun_0, *r->Fun_0), (*l->Fun_1, *r->Fun_1)]);
            if k == 0 {
                assert(parts[k] == (*l->Fun_0, *r->Fun_0));
            } else {
                assert(parts[k] == (*l->Fun_1, *r->Fun_1));
            }
        } else {
            let lps = l->ParameterizedAtom_1;
            let rps = r->ParameterizedAtom_1;
            assert(parts == zip_pairs(lps, rps));
            assert(parts[k] == (lps[k], rps[k]));
            assert(arity_ok(arity, lps[k]));
            assert(arity_ok(arity, rps[k]));
        }
    }
}

proof fn lemma_unify_arity(p: Seq<(Ty, Ty)>, arity: spec_fn(Seq<char>) -> nat)
    requires
        pairs_arity_ok(arity, p),
        unify_result(p) is Ok,
    ensures
        bindings_arity_ok(arity, unify_result(p)->Ok_0),
    decreases pair_vars(p).len(), size_pairs(p),
{
    if p.len() > 0 {
        let rest = p.drop_last();
        let (l, r) = p.last();
        lemma_step_decreases(p);
        assert(p[p.len() - 1] == (l, r));
        assert forall|j: int| 0 <= j < rest.len() implies arity_ok(arity, #[trigger] rest[j].0) && arity_ok(arity, rest[j].1) by {
            assert(rest[j] == p[j]);
        }
        match step(l, r) {
            Step::Drop => {
                lemma_unify_arity(rest, arity);
            },
            Step::Split(parts) => {
                lemma_split_arity(l, r, arity);
                let q = rest + parts;
                assert forall|j: int| 0 <= j < q.len() implies arity_ok(arity, #[trigger] q[j].0) && arity_ok(arity, q[j].1) by {
                    if j < rest.len() {
                        assert(q[j] == rest[j]);
                    } else {
                        assert(q[j] == parts[j - rest.len()]);
                    }
                }
                lemma_unify_arity(q, arity);
            },
            Step::Bind(v, t) => {
                let q = subst_pairs(v, t, rest);
                assert forall|j: int| 0 <= j < q.len() implies arity_ok(arity, #[trigger] q[j].0) && arity_ok(arity, q[j].1) by {
                    lemma_subst_arity(arity, v, t, rest[j].0);
                    lemma_subst_arity(arity, v, t, rest[j].1);
                }
                lemma_unify_arity(q, arity);
                let s = unify_result(p)->Ok_0;
                let s2 = unify_result(q)->Ok_0;
                assert(s == seq![(v, t)] + s2);
                assert forall|i: int| 0 <= i < s.len() implies arity_ok(arity, #[trigger] s[i].1) by {
                    if i > 0 {
                        assert(s[i] == s2[i - 1]);
                    }
                }
            },
            Step::Fail => {},
        }
    }
}

proof fn lemma_build_shape_closed(st: EnvView, e: Expression, next: nat, arity: spec_fn(Seq<char>) -> nat)
    requires
        lets_outside_funs(e),
        env_closed(st),
        build(st, e, next) is Ok,
        context_ok(st.variables, arity),
    ensures
        !has_poly(build(st, e, next)->Ok_0.0),
        arity_ok(arity, build(st, e, next)->Ok_0.0),
        pairs_poly_free(build(st, e, next)->Ok_0.1),
        pairs_arity_ok(arity, build(st, e, next)->Ok_0.1),
    decreases e,
{
    match e {
        Expression::LetIn { name, value, body } => {
            lemma_build_shape_closed(st, *value, next, arity);
            lemma_build_keeps_scope(st, *value, next);
            let (vt, vc, st1, n1) = build(st, *value, next)->Ok_0;
            lemma_let_binding(st1, vc, vt, arity);
            let (gt, st2) = generalize(st1, vc, vt)->Ok_0;
            let inner = env_add(st2, name@, gt);
            assert(context_ok(inner.variables, arity));
            assert(env_closed(inner));
            lemma_build_shape_closed(inner, *body, n1, arity);
            let (bt, bc, st3, n2) = build(inner, *body, n1)->Ok_0;
            lemma_pairs_concat(vc, bc, arity);
        },
        Expression::App { fun, arg } => {
            let (rt, st1, n1) = new_var(st, next)->Ok_0;
            lemma_build_shape_closed(st1, *fun, n1, arity);
            lemma_build_keeps_scope(st1, *fun, n1);
            let (ft, fc, st2, n2) = build(st1, *fun, n1)->Ok_0;
            lemma_build_shape_closed(st2, *arg, n2, arity);
            let (at, ac, st3, n3) = build(st2, *arg, n2)->Ok_0;
            assert(pairs_poly_free(fc) && pairs_arity_ok(arity, fc));
            assert(pairs_poly_free(ac) && pairs_arity_ok(arity, ac));
            lemma_app_pairs(fc, ac, ft, at, rt, arity);
            assert(build(st, e, next)->Ok_0.0 == rt);
        },
        _ => {
            lemma_build_shape(st, e, next, arity);
        },
    }
}

proof fn lemma_pairs_concat(a: Seq<(Ty, Ty)>, b: Seq<(Ty, Ty)>, arity: spec_fn(Seq<char>) -> nat)
    requires
        pairs_poly_free(a),
        pairs_arity_ok(arity, a),
        pairs_poly_free(b),
        pairs_arity_ok(arity, b),
    ensures
        pairs_poly_free(a + b),
        pairs_arity_ok(arity, a + b),
{
    assert forall|j: int| 0 <= j < (a + b).len() implies !has_poly(#[trigger] (a + b)[j].0) && !has_poly((a + b)[j].1)
        && arity_ok(arity, (a + b)[j].0) && arity_ok(arity, (a + b)[j].1) by {
        if j < a.len() {
            assert((a + b)[j] == a[j]);
            lemma_pair_at(a, j, arity);
        } else {
            assert((a + b)[j] == b[j - a.len()]);
            lemma_pair_at(b, j - a.len(), arity);
        }
    }
}

/// The constraints built for an expression whose `let`s lie outside any
/// `fun` are sound in a closed context of schemes respecting the arities:
/// every substitution that solves them (with no polymorphic type among its
/// bindings) gives a type of the expression under the Hindley–Milner rules.
pub proof fn lemma_build_sound_closed(st: EnvView, e: Expression, next: nat, s: Seq<(usize, Ty)>, arity: spec_fn(Seq<char>) -> nat)
    requires
        lets_outside_funs(e),
        env_closed(st),
        context_ok(st.variables, arity),
        build(st, e, next) is Ok,
        unifies(s, build(st, e, next)->Ok_0.1),
        poly_free_bindings(s),
    ensures
        typed(st.variables, e, apply(s, build(st, e, next)->Ok_0.0)),
    decreases e,
{
    lemma_closed_context_fixed(s, st.variables);
    match e {
        Expression::LetIn { name, value, body } => {
            lemma_build_shape_closed(st, *value, next, arity);
            lemma_build_keeps_scope(st, *value, next);
            let (vt, vc, st1, n1) = build(st, *value, next)->Ok_0;
            lemma_let_binding(st1, vc, vt, arity);
            let (gt, st2) = generalize(st1, vc, vt)->Ok_0;
            let s1 = unify_result(vc)->Ok_0;
            lemma_unify_sound(vc, arity);
            lemma_unify_poly_free(vc);
            lemma_build_sound_closed(st, *value, next, s1, arity);
            let tv = apply(s1, vt);
            let inner = env_add(st2, name@, gt);
            assert(context_ok(inner.variables, arity));
            assert(env_closed(inner));
            let (bt, bc, st3, n2) = build(inner, *body, n1)->Ok_0;
            lemma_unifies_split(s, vc, bc);
            lemma_build_sound_closed(inner, *body, n1, s, arity);
            assert(inner.variables == bind(st.variables, name@, generalized(st.variables, tv)));
            assert(some_type(tv));
            assert(typed(st.variables, e, apply(s, bt)));
        },
        Expression::App { fun, arg } => {
            let (rt, st1, n1) = new_var(st, next)->Ok_0;
            let (ft, fc, st2, n2) = build(st1, *fun, n1)->Ok_0;
            lemma_build_keeps_scope(st1, *fun, n1);
            let (at, ac, st3, n3) = build(st2, *arg, n2)->Ok_0;
            let last = seq![(ft, Ty::Fun(Box::new(at), Box::new(rt)))];
            lemma_unifies_split(s, fc + ac, last);
            lemma_unifies_split(s, fc, ac);
            assert(last[0] == (ft, Ty::Fun(Box::new(at), Box::new(rt))));
            assert(apply(s, last[0].0) == apply(s, last[0].1));
            lemma_apply_fun(s, at, rt);
            lemma_build_sound_closed(st1, *fun, n1, s, arity);
            lemma_build_sound_closed(st2, *arg, n2, s, arity);
            assert(some_type(apply(s, at)));
            assert(build(st, e, next)->Ok_0.0 == rt);
            assert(typed(st.variables, e, apply(s, rt)));
        },
        _ => {
            lemma_build_sound(st, e, next, s);
        },
    }
}

/// Inference is sound: in a closed context of schemes respecting the type
/// names' arities, the scheme inferred for an expression whose `let`s lie
/// outside any `fun` is the generalization of a type that the
/// Hindley–Milner rules give it.
pub proof fn lemma_infer_sound(st: EnvView, e: Expression, arity: spec_fn(Seq<char>) -> nat)
    requires
        lets_outside_funs(e),
        env_closed(st),
        context_ok(st.variables, arity),
        infer(st, e) is Ok,
    ensures
        exists|t: Ty| #[trigger] typed(st.variables, e, t) && infer(st, e)->Ok_0.0 == generalized(st.variables, t),
{
    let (t, c, st1, n) = build(st, e, 0)->Ok_0;
    lemma_build_shape_closed(st, e, 0, arity);
    lemma_build_keeps_scope(st, e, 0);
    lemma_let_binding(st1, c, t, arity);
    lemma_unify_sound(c, arity);
    lemma_unify_poly_free(c);
    let s = unify_result(c)->Ok_0;
    lemma_build_sound_closed(st, e, 0, s, arity);
    let t2 = apply(s, t);
    assert(typed(st.variables, e, t2));
    assert(infer(st, e)->Ok_0.0 == generalized(st.variables, t2));
}

}
