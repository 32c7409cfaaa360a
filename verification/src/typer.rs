use vstd::prelude::*;

use std::collections::HashSet;

use crate::assoc::{
    counts_view, find_name, has_name, lemma_counts_view, lemma_types_view, names_unique, set_count, set_type,
    types_view,
};
use crate::infer::{
    build, declare, infer, initial_env, int_type, string_type, OutcomeView,
    bound_vars, env_add, env_vars, gen_count, gen_matrix, generalize, has_poly, increasing, lemma_increasing_unique,
    lemma_sorted_vars, one_to, sorted_vars, unify_env, var_set, first_invalid, first_invalid_from, instantiate, instantiate_vars, new_var, wildcard,
    EnvView, TypeErrorView,
};
use crate::subst::{
    after, apply, lemma_apply_snoc, lemma_step_decreases, occurs, pair_vars, size_pairs, step, subst,
    subst_pairs, subst_poly, unify_result, zip_pairs, Step,
};
use crate::tree::{clone_type, Declaration, Expression, Ty, Type};

verus! {

/// Whether unification variable `variable` occurs in `term`.
#[verifier::loop_isolation(false)]
pub fn occurs_in(variable: usize, term: &Type) -> (r: bool)
    ensures
        r == occurs(variable, term@),
    decreases term,
{
    match term {
        Type::Var(name) => variable == *name,
        Type::Fun(from, to) => occurs_in(variable, from) || occurs_in(variable, to),
        Type::ParameterizedAtom { name: _, parameters } => {
            let mut i: usize = 0;
            while i < parameters.len()
                invariant
                    i <= parameters.len(),
                    forall|k: int| 0 <= k < i ==> !occurs(variable, #[trigger] term@->ParameterizedAtom_1[k]),
                decreases parameters.len() - i,
            {
                proof {
                    assert(decreases_to!(*term => *parameters));
                    assert(decreases_to!(*parameters => parameters@));
                    assert(decreases_to!(parameters@ => parameters@[i as int]));
                }
                if occurs_in(variable, &parameters[i]) {
                    assert(term@->ParameterizedAtom_1[i as int] == parameters@[i as int]@);
                    return true;
                }
                i += 1;
            }
            false
        },
        Type::Atom(_) | Type::PolymorphicVar(_) => false,
        Type::Polymorphic { variables: _, matrix } => occurs_in(variable, matrix),
    }
}

/// `expr` with every unification variable `old` replaced by `new`.
#[verifier::loop_isolation(false)]
fn substituted(old: usize, new: &Type, expr: &Type) -> (r: Type)
    ensures
        r@ == subst(old, new@, expr@),
    decreases expr,
{
    match expr {
        Type::Var(v) => {
            if *v == old {
                clone_type(new)
            } else {
                Type::Var(*v)
            }
        },
        Type::Fun(from, to) => Type::Fun(
            Box::new(substituted(old, new, from)),
            Box::new(substituted(old, new, to)),
        ),
        Type::ParameterizedAtom { name, parameters } => {
            let mut ps: Vec<Type> = Vec::new();
            let mut i: usize = 0;
            while i < parameters.len()
                invariant
                    i <= parameters.len(),
                    ps.len() == i,
                    forall|k: int| 0 <= k < i ==> (#[trigger] ps@[k])@ == subst(old, new@, parameters@[k]@),
                decreases parameters.len() - i,
            {
                proof {
                    assert(decreases_to!(*expr => *parameters));
                    assert(decreases_to!(*parameters => parameters@));
                    assert(decreases_to!(parameters@ => parameters@[i as int]));
                }
                ps.push(substituted(old, new, &parameters[i]));
                i += 1;
            }
            let r = Type::ParameterizedAtom { name: name.clone(), parameters: ps };
            assert(r@->ParameterizedAtom_1 =~= subst(old, new@, expr@)->ParameterizedAtom_1);
            r
        },
        Type::Polymorphic { variables, matrix } => {
            let r = Type::Polymorphic {
                variables: variables.clone(),
                matrix: Box::new(substituted(old, new, matrix)),
            };
            assert(r@->Polymorphic_0 =~= expr@->Polymorphic_0);
            r
        },
        Type::Atom(n) => Type::Atom(n.clone()),
        Type::PolymorphicVar(v) => Type::PolymorphicVar(*v),
    }
}

/// Replaces every unification variable `old` in `expr` by `new`.
pub fn substitute(variable: usize, new: &Type, expr: &mut Type)
    ensures
        final(expr)@ == subst(variable, new@, old(expr)@),
{
    let r = substituted(variable, new, expr);
    *expr = r;
}

/// `expr` with every polymorphic variable `old` replaced by `new`.
#[verifier::loop_isolation(false)]
fn poly_substituted(old: usize, new: &Type, expr: &Type) -> (r: Type)
    ensures
        r@ == subst_poly(old, new@, expr@),
    decreases expr,
{
    match expr {
        Type::PolymorphicVar(v) => {
            if *v == old {
                clone_type(new)
            } else {
                Type::PolymorphicVar(*v)
            }
        },
        Type::Fun(from, to) => Type::Fun(
            Box::new(poly_substituted(old, new, from)),
            Box::new(poly_substituted(old, new, to)),
        ),
        Type::ParameterizedAtom { name, parameters } => {
            let mut ps: Vec<Type> = Vec::new();
            let mut i: usize = 0;
            while i < parameters.len()
                invariant
                    i <= parameters.len(),
                    ps.len() == i,
                    forall|k: int| 0 <= k < i ==> (#[trigger] ps@[k])@ == subst_poly(old, new@, parameters@[k]@),
                decreases parameters.len() - i,
            {
                proof {
                    assert(decreases_to!(*expr => *parameters));
                    assert(decreases_to!(*parameters => parameters@));
                    assert(decreases_to!(parameters@ => parameters@[i as int]));
                }
                ps.push(poly_substituted(old, new, &parameters[i]));
                i += 1;
            }
            let r = Type::ParameterizedAtom { name: name.clone(), parameters: ps };
            assert(r@->ParameterizedAtom_1 =~= subst_poly(old, new@, expr@)->ParameterizedAtom_1);
            r
        },
        Type::Polymorphic { variables, matrix } => {
            let r = Type::Polymorphic {
                variables: variables.clone(),
                matrix: Box::new(poly_substituted(old, new, matrix)),
            };
            assert(r@->Polymorphic_0 =~= expr@->Polymorphic_0);
            r
        },
        Type::Atom(n) => Type::Atom(n.clone()),
        Type::Var(v) => Type::Var(*v),
    }
}

/// Replaces every polymorphic variable `old` in `expr` by `new`.
pub fn substitute_polymorphic_variables(variable: usize, new: &Type, expr: &mut Type)
    ensures
        final(expr)@ == subst_poly(variable, new@, old(expr)@),
{
    let r = poly_substituted(variable, new, expr);
    *expr = r;
}


/// The values of a list of pairs of types.
pub open spec fn pairs_view(v: Seq<(Type, Type)>) -> Seq<(Ty, Ty)> {
    Seq::new(v.len(), |i: int| (v[i].0@, v[i].1@))
}

/// Every pair with unification variable `variable` replaced by `value` on both sides.
fn substitute_pairs(variable: usize, value: &Type, ps: &Vec<(Type, Type)>) -> (r: Vec<(Type, Type)>)
    ensures
        pairs_view(r@) == subst_pairs(variable, value@, pairs_view(ps@)),
{
    let mut r: Vec<(Type, Type)> = Vec::new();
    let mut i: usize = 0;
    while i < ps.len()
        invariant
            i <= ps.len(),
            r.len() == i,
            forall|k: int| 0 <= k < i ==> (#[trigger] r@[k]).0@ == subst(variable, value@, ps@[k].0@)
                && r@[k].1@ == subst(variable, value@, ps@[k].1@),
        decreases ps.len() - i,
    {
        r.push((substituted(variable, value, &ps[i].0), substituted(variable, value, &ps[i].1)));
        i += 1;
    }
    assert(pairs_view(r@) =~= subst_pairs(variable, value@, pairs_view(ps@)));
    r
}

/// A list whose types are those of another with a substitution applied
/// stands for the other's map with the substitution applied to each type.
proof fn lemma_types_view_subst(a: Seq<(String, Type)>, b: Seq<(String, Type)>, v: usize, t: Ty)
    requires
        a.len() == b.len(),
        forall|i: int| 0 <= i < a.len() ==> (#[trigger] a[i]).0@ == b[i].0@ && b[i].1@ == subst(v, t, a[i].1@),
    ensures
        types_view(b) == types_view(a).map_values(|x: Ty| subst(v, t, x)),
        names_unique(a) ==> names_unique(b),
    decreases a.len(),
{
    if a.len() > 0 {
        lemma_types_view_subst(a.drop_last(), b.drop_last(), v, t);
        assert(a.last().0@ == b.last().0@);
        assert(types_view(b) =~= types_view(a).map_values(|x: Ty| subst(v, t, x)));
    } else {
        assert(types_view(b) =~= types_view(a).map_values(|x: Ty| subst(v, t, x)));
    }
    if names_unique(a) {
        assert forall|i: int, j: int| 0 <= i < j < b.len() implies (#[trigger] b[i]).0@ != (#[trigger] b[j]).0@ by {
            assert(a[i].0@ != a[j].0@);
        }
    }
}

/// How unification handles a pair.
enum StepKind {
    Drop,
    SplitFun,
    SplitParameters,
    BindLeft,
    BindRight,
    Fail,
}

/// The handling of the pair `(l, r)`, in the order in which the cases are tried.
fn classify(l: &Type, r: &Type) -> (k: StepKind)
    ensures
        match k {
            StepKind::Drop => step(l@, r@) is Drop,
            StepKind::SplitFun => step(l@, r@) is Split && l@ is Fun && r@ is Fun,
            StepKind::SplitParameters => step(l@, r@) is Split && l@ is ParameterizedAtom
                && r@ is ParameterizedAtom,
            StepKind::BindLeft => l@ is Var && step(l@, r@) == Step::Bind(l@->Var_0, r@),
            StepKind::BindRight => r@ is Var && step(l@, r@) == Step::Bind(r@->Var_0, l@),
            StepKind::Fail => step(l@, r@) is Fail,
        },
{
    match l {
        Type::Atom(a) => {
            if let Type::Atom(b) = r {
                if *a == *b {
                    return StepKind::Drop;
                }
            }
        },
        Type::Var(v) => {
            if let Type::Var(w) = r {
                if *v == *w {
                    return StepKind::Drop;
                }
            }
        },
        Type::Fun(_, _) => {
            if let Type::Fun(_, _) = r {
                return StepKind::SplitFun;
            }
        },
        Type::ParameterizedAtom { name: n1, parameters: _ } => {
            if let Type::ParameterizedAtom { name: n2, parameters: _ } = r {
                if *n1 == *n2 {
                    return StepKind::SplitParameters;
                }
            }
        },
        _ => {},
    }
    if let Type::Var(v) = l {
        if !occurs_in(*v, r) {
            return StepKind::BindLeft;
        }
    }
    if let Type::Var(w) = r {
        if !occurs_in(*w, l) {
            return StepKind::BindRight;
        }
    }
    StepKind::Fail
}

/// Adds `v` to an increasing list, keeping it increasing.
fn insert_sorted(d: &mut Vec<usize>, v: usize)
    requires
        increasing(old(d)@),
    ensures
        increasing(final(d)@),
        forall|x: usize| #[trigger] final(d)@.contains(x) <==> (old(d)@.contains(x) || x == v),
{
    let mut i: usize = 0;
    while i < d.len() && d[i] < v
        invariant
            i <= d.len(),
            forall|k: int| 0 <= k < i ==> d@[k] < v,
        decreases d.len() - i,
    {
        i += 1;
    }
    if i < d.len() && d[i] == v {
        return;
    }
    let ghost old_d = d@;
    d.insert(i, v);
    proof {
        assert forall|a: int, b: int| 0 <= a < b < d@.len() implies d@[a] < d@[b] by {
            if b < i {
            } else if a < i && b == i {
            } else if a < i {
                assert(d@[b] == old_d[b - 1]);
            } else if a == i {
                assert(d@[b] == old_d[b - 1]);
                assert(old_d[i as int] > v);
                if b - 1 > i {
                    assert(old_d[i as int] < old_d[b - 1]);
                }
            } else {
                assert(d@[a] == old_d[a - 1]);
                assert(d@[b] == old_d[b - 1]);
            }
        }
        assert forall|x: usize| #[trigger] d@.contains(x) <==> (old_d.contains(x) || x == v) by {
            if d@.contains(x) {
                let k = choose|k: int| 0 <= k < d@.len() && d@[k] == x;
                if k < i {
                    assert(old_d[k] == x);
                } else if k > i {
                    assert(old_d[k - 1] == x);
                }
            }
            if old_d.contains(x) {
                let k = choose|k: int| 0 <= k < old_d.len() && old_d[k] == x;
                if k < i {
                    assert(d@[k] == x);
                } else {
                    assert(d@[k + 1] == x);
                }
            }
            if x == v {
                assert(d@[i as int] == v);
            }
        }
    }
}

/// Adds the unification variables of `ty` to the increasing list `d`;
/// false where `ty` holds a polymorphic type or variable.
#[verifier::loop_isolation(false)]
fn collect_vars(ty: &Type, d: &mut Vec<usize>) -> (r: bool)
    requires
        increasing(old(d)@),
    ensures
        r == !has_poly(ty@),
        increasing(final(d)@),
        r ==> forall|x: usize| #[trigger] final(d)@.contains(x) <==> (old(d)@.contains(x) || occurs(x, ty@)),
    decreases ty,
{
    match ty {
        Type::Atom(_) => true,
        Type::Var(v) => {
            insert_sorted(d, *v);
            true
        },
        Type::Fun(from, to) => {
            let ghost d0 = d@;
            if !collect_vars(from, d) {
                return false;
            }
            collect_vars(to, d)
        },
        Type::ParameterizedAtom { name: _, parameters } => {
            let ghost d0 = d@;
            let ghost ps = ty@->ParameterizedAtom_1;
            let mut i: usize = 0;
            while i < parameters.len()
                invariant
                    i <= parameters.len(),
                    increasing(d@),
                    d0 == old(d)@,
                    forall|k: int| 0 <= k < i ==> !has_poly(#[trigger] ps[k]),
                    forall|x: usize| #[trigger] d@.contains(x) <==> (d0.contains(x) || exists|k: int|
                        0 <= k < i && occurs(x, #[trigger] ps[k])),
                decreases parameters.len() - i,
            {
                proof {
                    assert(decreases_to!(*ty => *parameters));
                    assert(decreases_to!(*parameters => parameters@));
                    assert(decreases_to!(parameters@ => parameters@[i as int]));
                }
                assert(ps[i as int] == parameters@[i as int]@);
                let ghost before = d@;
                if !collect_vars(&parameters[i], d) {
                    return false;
                }
                proof {
                    assert forall|x: usize| #[trigger] d@.contains(x) <==> (d0.contains(x) || exists|k: int|
                        0 <= k < i + 1 && occurs(x, #[trigger] ps[k])) by {
                        if d@.contains(x) && !d0.contains(x) && !before.contains(x) {
                            assert(occurs(x, ps[i as int]));
                        }
                        if exists|k: int| 0 <= k < i + 1 && occurs(x, #[trigger] ps[k]) {
                            let k = choose|k: int| 0 <= k < i + 1 && occurs(x, #[trigger] ps[k]);
                            if k < i {
                                assert(before.contains(x));
                            }
                        }
                    }
                }
                i += 1;
            }
            true
        },
        Type::Polymorphic { .. } | Type::PolymorphicVar(_) => false,
    }
}

/// The unification variables of `ty` in increasing order, or the error of a
/// type still polymorphic after unification.
fn vars(ty: &Type) -> (r: Result<Vec<usize>, TypeError>)
    ensures
        has_poly(ty@) ==> r matches Err(TypeError::PolymorphicAfterUnification),
        !has_poly(ty@) ==> (r matches Ok(d) && d@ == sorted_vars(ty@)),
{
    let mut d: Vec<usize> = Vec::new();
    if !collect_vars(ty, &mut d) {
        return Err(TypeError::PolymorphicAfterUnification);
    }
    proof {
        lemma_sorted_vars(ty@);
        assert(d@.to_set() =~= var_set(ty@));
        lemma_increasing_unique(d@, sorted_vars(ty@));
    }
    Ok(d)
}

/// Copies of a list of pairs of types.
fn clone_pairs(ps: &Vec<(Type, Type)>) -> (r: Vec<(Type, Type)>)
    ensures
        pairs_view(r@) == pairs_view(ps@),
{
    let mut r: Vec<(Type, Type)> = Vec::new();
    let mut i: usize = 0;
    while i < ps.len()
        invariant
            i <= ps.len(),
            r.len() == i,
            forall|k: int| 0 <= k < i ==> (#[trigger] r@[k]).0@ == ps@[k].0@ && r@[k].1@ == ps@[k].1@,
        decreases ps.len() - i,
    {
        r.push((clone_type(&ps[i].0), clone_type(&ps[i].1)));
        i += 1;
    }
    assert(pairs_view(r@) =~= pairs_view(ps@));
    r
}

/// The type of an expression with the constraints gathered on it.
struct ConstraintBuildingResult {
    type_: Type,
    constraints: Vec<(Type, Type)>,
}

/// What a declaration reports: the name declared, with its type where it has one.
#[derive(Debug, PartialEq)]
pub enum Outcome {
    /// `let name = value`: the inferred type.
    Let { name: String, type_: Type },
    /// `let name = extern type_`: the declared type.
    ExternLet { name: String, type_: Type },
    /// An expression on its own: its inferred type.
    UnboundExpr(Type),
    /// `type name`.
    Type(String),
}

impl Outcome {
    pub open spec fn view(&self) -> OutcomeView {
        match self {
            Outcome::Let { name, type_ } => OutcomeView::Let(name@, type_@),
            Outcome::ExternLet { name, type_ } => OutcomeView::ExternLet(name@, type_@),
            Outcome::UnboundExpr(t) => OutcomeView::UnboundExpr(t@),
            Outcome::Type(name) => OutcomeView::Type(name@),
        }
    }
}

/// Why a declaration does not type.
#[derive(Debug, PartialEq)]
pub enum TypeError {
    /// A type name that was never declared.
    UnknownType(String),
    /// A type name used with another number of parameters than declared.
    WrongParameterCount { name: String, expected: usize, found: usize },
    /// A unification variable not in scope.
    UnknownTypeVariable(usize),
    /// A variable not in scope.
    UnknownVariable(String),
    /// Two types that cannot be made equal.
    CannotUnify(Type, Type),
    /// A polymorphic variable outside any polymorphic type.
    LonePolymorphicVariable,
    /// A polymorphic type left where unification should have made a plain one.
    PolymorphicAfterUnification,
    /// The counter of fresh unification variables would overflow.
    TooManyTypeVariables,
}

impl TypeError {
    pub open spec fn view(&self) -> TypeErrorView {
        match self {
            TypeError::UnknownType(n) => TypeErrorView::UnknownType(n@),
            TypeError::WrongParameterCount { name, expected, found } => TypeErrorView::WrongParameterCount(
                name@,
                *expected,
                *found,
            ),
            TypeError::UnknownTypeVariable(v) => TypeErrorView::UnknownTypeVariable(*v),
            TypeError::UnknownVariable(n) => TypeErrorView::UnknownVariable(n@),
            TypeError::CannotUnify(l, r) => TypeErrorView::CannotUnify(l@, r@),
            TypeError::LonePolymorphicVariable => TypeErrorView::LonePolymorphicVariable,
            TypeError::PolymorphicAfterUnification => TypeErrorView::PolymorphicAfterUnification,
            TypeError::TooManyTypeVariables => TypeErrorView::TooManyTypeVariables,
        }
    }
}

/// Copies a set of unification variables with `HashSet::clone`: the copy has
/// the same elements.
#[verifier::external_body]
fn clone_set(s: &HashSet<usize>) -> (r: HashSet<usize>)
    ensures
        r@ == s@,
{
    s.clone()
}

/// The typing environment: the types of the variables in scope, the
/// unification variables in use, and the declared type names with their
/// number of parameters.
#[derive(Debug)]
pub struct Environment {
    variables: Vec<(String, Type)>,
    type_variables: HashSet<usize>,
    type_atoms: Vec<(String, usize)>,
}

/// Copies of the entries of a list of typed names.
fn clone_entries(s: &Vec<(String, Type)>) -> (r: Vec<(String, Type)>)
    ensures
        r.len() == s.len(),
        forall|i: int| 0 <= i < s.len() ==> (#[trigger] r@[i]).0@ == s@[i].0@ && r@[i].1@ == s@[i].1@,
{
    let mut r: Vec<(String, Type)> = Vec::new();
    let mut i: usize = 0;
    while i < s.len()
        invariant
            i <= s.len(),
            r.len() == i,
            forall|k: int| 0 <= k < i ==> (#[trigger] r@[k]).0@ == s@[k].0@ && r@[k].1@ == s@[k].1@,
        decreases s.len() - i,
    {
        r.push((s[i].0.clone(), clone_type(&s[i].1)));
        i += 1;
    }
    r
}

/// Copies of the entries of a list of counted names.
fn clone_counts(s: &Vec<(String, usize)>) -> (r: Vec<(String, usize)>)
    ensures
        r.len() == s.len(),
        forall|i: int| 0 <= i < s.len() ==> (#[trigger] r@[i]).0@ == s@[i].0@ && r@[i].1 == s@[i].1,
{
    let mut r: Vec<(String, usize)> = Vec::new();
    let mut i: usize = 0;
    while i < s.len()
        invariant
            i <= s.len(),
            r.len() == i,
            forall|k: int| 0 <= k < i ==> (#[trigger] r@[k]).0@ == s@[k].0@ && r@[k].1 == s@[k].1,
        decreases s.len() - i,
    {
        r.push((s[i].0.clone(), s[i].1));
        i += 1;
    }
    r
}

/// Two lists with the same names and the same types stand for the same map.
proof fn lemma_types_view_same(a: Seq<(String, Type)>, b: Seq<(String, Type)>)
    requires
        a.len() == b.len(),
        forall|i: int| 0 <= i < a.len() ==> (#[trigger] a[i]).0@ == b[i].0@ && a[i].1@ == b[i].1@,
    ensures
        types_view(a) == types_view(b),
        names_unique(a) ==> names_unique(b),
    decreases a.len(),
{
    if a.len() > 0 {
        lemma_types_view_same(a.drop_last(), b.drop_last());
        assert(a.last().0@ == b.last().0@);
    }
    if names_unique(a) {
        assert forall|i: int, j: int| 0 <= i < j < b.len() implies (#[trigger] b[i]).0@ != (#[trigger] b[j]).0@ by {
            assert(a[i].0@ != a[j].0@);
        }
    }
}

/// Two lists with the same names and numbers stand for the same map.
proof fn lemma_counts_view_same(a: Seq<(String, usize)>, b: Seq<(String, usize)>)
    requires
        a.len() == b.len(),
        forall|i: int| 0 <= i < a.len() ==> (#[trigger] a[i]).0@ == b[i].0@ && a[i].1 == b[i].1,
    ensures
        counts_view(a) == counts_view(b),
        names_unique(a) ==> names_unique(b),
    decreases a.len(),
{
    if a.len() > 0 {
        lemma_counts_view_same(a.drop_last(), b.drop_last());
        assert(a.last().0@ == b.last().0@);
    }
    if names_unique(a) {
        assert forall|i: int, j: int| 0 <= i < j < b.len() implies (#[trigger] b[i]).0@ != (#[trigger] b[j]).0@ by {
            assert(a[i].0@ != a[j].0@);
        }
    }
}

impl Environment {
    /// The value of the environment.
    pub closed spec fn view(&self) -> EnvView {
        EnvView {
            variables: types_view(self.variables@),
            type_variables: self.type_variables@,
            type_atoms: counts_view(self.type_atoms@),
        }
    }

    /// No name is listed twice.
    pub closed spec fn wf(&self) -> bool {
        &&& names_unique(self.variables@)
        &&& names_unique(self.type_atoms@)
    }

    fn add_variable(&mut self, name: String, ty: Type)
        requires
            old(self).wf(),
        ensures
            final(self).wf(),
            final(self)@ == env_add(old(self)@, name@, ty@),
    {
        let underscore = String::from_str("_");
        proof {
            reveal_strlit("_");
            assert(underscore@ =~= wildcard());
        }
        if name == underscore {
            return;
        }
        set_type(&mut self.variables, name, ty);
    }

    /// A copy of the environment, for a nested scope.
    fn sub(&self) -> (r: Self)
        requires
            self.wf(),
        ensures
            r.wf(),
            r@ == self@,
    {
        let variables = clone_entries(&self.variables);
        let type_atoms = clone_counts(&self.type_atoms);
        proof {
            lemma_types_view_same(self.variables@, variables@);
            lemma_counts_view_same(self.type_atoms@, type_atoms@);
        }
        Environment {
            variables,
            type_variables: clone_set(&self.type_variables),
            type_atoms,
        }
    }

    fn new_var(&mut self, next_fresh_variable: &mut usize) -> (r: Result<Type, TypeError>)
        requires
            old(self).wf(),
        ensures
            final(self).wf(),
            match new_var(old(self)@, *old(next_fresh_variable) as nat) {
                Ok((t, st, n)) => r matches Ok(ty) && ty@ == t && final(self)@ == st
                    && *final(next_fresh_variable) == n,
                Err(e) => r matches Err(err) && err@ == e,
            },
    {
        broadcast use vstd::std_specs::hash::group_hash_axioms;
        if *next_fresh_variable == usize::MAX {
            return Err(TypeError::TooManyTypeVariables);
        }
        *next_fresh_variable += 1;
        self.type_variables.insert(*next_fresh_variable);
        Ok(Type::Var(*next_fresh_variable))
    }

    fn instantiate(&mut self, ty: Type, next_fresh_variable: &mut usize) -> (r: Result<Type, TypeError>)
        requires
            old(self).wf(),
            !(ty@ is PolymorphicVar),
        ensures
            final(self).wf(),
            match instantiate(old(self)@, ty@, *old(next_fresh_variable) as nat) {
                Ok((t, st, n)) => r matches Ok(rt) && rt@ == t && final(self)@ == st
                    && *final(next_fresh_variable) == n,
                Err(e) => r matches Err(err) && err@ == e,
            },
    {
        let ghost tyv = ty@;
        match ty {
            Type::Polymorphic { variables, matrix } => {
                let mut matrix = *matrix;
                let ghost vs = variables@;
                let ghost target = instantiate_vars(self@, vs, matrix@, *next_fresh_variable as nat);
                let mut i: usize = 0;
                assert(vs.subrange(0, vs.len() as int) =~= vs);
                while i < variables.len()
                    invariant
                        self.wf(),
                        i <= variables.len(),
                        vs == variables@,
                        target == instantiate_vars(self@, vs.subrange(i as int, vs.len() as int), matrix@, *next_fresh_variable as nat),
                        target == instantiate(old(self)@, tyv, *old(next_fresh_variable) as nat),
                        tyv == ty@,
                    decreases variables.len() - i,
                {
                    let ghost rest = vs.subrange(i as int, vs.len() as int);
                    assert(rest.drop_first() =~= vs.subrange(i + 1, vs.len() as int));
                    assert(rest.len() > 0 && rest[0] == variables@[i as int]);
                    let ghost st_i = self@;
                    let ghost n_i = *next_fresh_variable as nat;
                    let ghost m_i = matrix@;
                    assert(target == instantiate_vars(st_i, rest, m_i, n_i));
                    let fresh = self.new_var(next_fresh_variable);
                    match fresh {
                        Ok(fv) => {
                            substitute_polymorphic_variables(variables[i], &fv, &mut matrix);
                        },
                        Err(e) => {
                            assert(new_var(st_i, n_i) is Err);
                            assert(target == Err::<(Ty, EnvView, nat), TypeErrorView>(e@));
                            return Err(e);
                        },
                    }
                    i += 1;
                }
                assert(vs.subrange(i as int, vs.len() as int) =~= Seq::<usize>::empty());
                Ok(matrix)
            },
            Type::PolymorphicVar(_) => {
                proof {
                    assert(false);
                }
                Err(TypeError::LonePolymorphicVariable)
            },
            _ => Ok(ty),
        }
    }

    /// Checks a written type against the declared type names and the
    /// unification variables in use: `Ok` exactly when the type has no fault,
    /// and otherwise the first fault found, in order, as the error.
    #[verifier::loop_isolation(false)]
    fn try_assert_is_valid(&self, ty: &Type) -> (r: Result<(), TypeError>)
        requires
            self.wf(),
        ensures
            match first_invalid(self@, ty@) {
                None => r is Ok,
                Some(e) => r matches Err(err) && err@ == e,
            },
        decreases ty,
    {
        broadcast use vstd::std_specs::hash::group_hash_axioms;
        proof {
            lemma_counts_view(self.type_atoms@);
        }
        match ty {
            Type::Atom(name) => {
                match find_name(&self.type_atoms, name) {
                    None => Err(TypeError::UnknownType(name.clone())),
                    Some(i) => {
                        let expected = self.type_atoms[i].1;
                        if expected != 0 {
                            Err(TypeError::WrongParameterCount { name: name.clone(), expected, found: 0 })
                        } else {
                            Ok(())
                        }
                    },
                }
            },
            Type::Var(v) => {
                if !self.type_variables.contains(v) {
                    Err(TypeError::UnknownTypeVariable(*v))
                } else {
                    Ok(())
                }
            },
            Type::PolymorphicVar(_) => Ok(()),
            Type::Fun(from, to) => {
                match self.try_assert_is_valid(from) {
                    Err(e) => Err(e),
                    Ok(()) => self.try_assert_is_valid(to),
                }
            },
            Type::ParameterizedAtom { name, parameters } => {
                match find_name(&self.type_atoms, name) {
                    None => Err(TypeError::UnknownType(name.clone())),
                    Some(i) => {
                        let expected = self.type_atoms[i].1;
                        if expected != parameters.len() {
                            return Err(
                                TypeError::WrongParameterCount {
                                    name: name.clone(),
                                    expected,
                                    found: parameters.len(),
                                },
                            );
                        }
                        let ghost ps = ty@->ParameterizedAtom_1;
                        let mut k: usize = 0;
                        while k < parameters.len()
                            invariant
                                k <= parameters.len(),
                                first_invalid(self@, ty@) == first_invalid_from(self@, ps, k as int),
                            decreases parameters.len() - k,
                        {
                            proof {
                                assert(decreases_to!(*ty => *parameters));
                                assert(decreases_to!(*parameters => parameters@));
                                assert(decreases_to!(parameters@ => parameters@[k as int]));
                            }
                            assert(ps[k as int] == parameters@[k as int]@);
                            match self.try_assert_is_valid(&parameters[k]) {
                                Err(e) => {
                                    return Err(e);
                                },
                                Ok(()) => {},
                            }
                            k += 1;
                        }
                        Ok(())
                    },
                }
            },
            Type::Polymorphic { variables: _, matrix } => self.try_assert_is_valid(matrix),
        }
    }

    /// Checks a written type that has no fault: every type name declared
    /// with its number of parameters, every unification variable in use.
    /// A faulty type is outside its domain (see `try_assert_is_valid`).
    fn assert_is_valid(&self, ty: &Type)
        requires
            self.wf(),
            first_invalid(self@, ty@) is None,
    {
        match self.try_assert_is_valid(ty) {
            Ok(()) => {},
            Err(_) => {
                proof {
                    assert(false);
                }
            },
        }
    }

    /// Replaces unification variable `variable` by `value` in the type of every variable.
    fn substitute_variables(&mut self, variable: usize, value: &Type)
        requires
            old(self).wf(),
        ensures
            final(self).wf(),
            final(self)@ == (EnvView {
                variables: old(self)@.variables.map_values(|x: Ty| subst(variable, value@, x)),
                ..old(self)@
            }),
    {
        let mut r: Vec<(String, Type)> = Vec::new();
        let mut i: usize = 0;
        while i < self.variables.len()
            invariant
                i <= self.variables.len(),
                r.len() == i,
                forall|k: int| 0 <= k < i ==> (#[trigger] r@[k]).0@ == self.variables@[k].0@
                    && r@[k].1@ == subst(variable, value@, self.variables@[k].1@),
            decreases self.variables.len() - i,
        {
            r.push((self.variables[i].0.clone(), substituted(variable, value, &self.variables[i].1)));
            i += 1;
        }
        proof {
            lemma_types_view_subst(self.variables@, r@, variable, value@);
        }
        self.variables = r;
    }

    /// Unifies constraints that have a unifier, as `try_unify` does;
    /// constraints without one are outside its domain.
    fn unify(&mut self, constraints: Vec<(Type, Type)>, type_: &mut Type)
        requires
            old(self).wf(),
            unify_result(pairs_view(constraints@)) is Ok,
        ensures
            final(self).wf(),
            final(type_)@ == unify_env(old(self)@, pairs_view(constraints@), old(type_)@)->Ok_0.0,
            final(self)@ == unify_env(old(self)@, pairs_view(constraints@), old(type_)@)->Ok_0.1,
    {
        match self.try_unify(constraints, type_) {
            Ok(()) => {},
            Err(_) => {
                proof {
                    assert(false);
                }
            },
        }
    }

    /// Unifies the constraints, handling the last one first; each binding
    /// is applied at once to the pending constraints, to `type_` and to the
    /// types of the variables, and its variable is no longer in use. A pair
    /// that no substitution can make equal is refused with `CannotUnify`.
    fn try_unify(&mut self, constraints: Vec<(Type, Type)>, type_: &mut Type) -> (r: Result<(), TypeError>)
        requires
            old(self).wf(),
        ensures
            final(self).wf(),
            match unify_env(old(self)@, pairs_view(constraints@), old(type_)@) {
                Ok((t, st)) => r is Ok && final(type_)@ == t && final(self)@ == st,
                Err(e) => r matches Err(err) && err@ == e,
            },
    {
        broadcast use vstd::std_specs::hash::group_hash_axioms;
        let mut pending = constraints;
        let ghost p0 = pairs_view(pending@);
        let ghost st0 = self@;
        let ghost t0 = type_@;
        let ghost mut acc: Seq<(usize, Ty)> = Seq::empty();
        assert(after(acc, unify_result(p0)) == unify_result(p0)) by {
            if let Ok(x) = unify_result(p0) {
                assert(acc + x =~= x);
            }
        }
        assert(st0.variables.map_values(|x: Ty| apply(acc, x)) =~= st0.variables);
        assert(st0.type_variables.difference(bound_vars(acc)) =~= st0.type_variables);
        loop
            invariant
                self.wf(),
                p0 == pairs_view(constraints@),
                st0 == old(self)@,
                t0 == old(type_)@,
                unify_result(p0) == after(acc, unify_result(pairs_view(pending@))),
                type_@ == apply(acc, t0),
                self@.variables == st0.variables.map_values(|x: Ty| apply(acc, x)),
                self@.type_variables == st0.type_variables.difference(bound_vars(acc)),
                self@.type_atoms == st0.type_atoms,
            decreases pair_vars(pairs_view(pending@)).len(), size_pairs(pairs_view(pending@)),
        {
            let ghost cur = pairs_view(pending@);
            let popped = pending.pop();
            match popped {
                None => {
                    assert(cur.len() == 0);
                    assert(acc + Seq::<(usize, Ty)>::empty() =~= acc);
                    assert(self@ == (EnvView {
                        variables: st0.variables.map_values(|x: Ty| apply(acc, x)),
                        type_variables: st0.type_variables.difference(bound_vars(acc)),
                        ..st0
                    }));
                    return Ok(());
                },
                Some(c) => {
                    let (l, r) = c;
                    let ghost rest = pairs_view(pending@);
                    assert(rest =~= cur.drop_last());
                    assert(cur.last() == (l@, r@));
                    proof {
                        lemma_step_decreases(cur);
                    }
                    let kind = classify(&l, &r);
                    match kind {
                        StepKind::Drop => {},
                        StepKind::SplitFun => {
                            match l {
                                Type::Fun(a1, b1) => {
                                    match r {
                                        Type::Fun(a2, b2) => {
                                            pending.push((*a1, *a2));
                                            pending.push((*b1, *b2));
                                            assert(pairs_view(pending@) =~= rest + seq![(a1@, a2@), (b1@, b2@)]);
                                        },
                                        _ => {},
                                    }
                                },
                                _ => {},
                            }
                        },
                        StepKind::SplitParameters => {
                            match l {
                                Type::ParameterizedAtom { name: _, parameters: p1 } => {
                                    match r {
                                        Type::ParameterizedAtom { name: _, parameters: p2 } => {
                                            let ghost zs = zip_pairs(l@->ParameterizedAtom_1, r@->ParameterizedAtom_1);
                                            let n = if p1.len() <= p2.len() { p1.len() } else { p2.len() };
                                            let mut i: usize = 0;
                                            assert(forall|k: int| 0 <= k < p1.len() ==> #[trigger] l@->ParameterizedAtom_1[k] == p1@[k]@);
                                            assert(forall|k: int| 0 <= k < p2.len() ==> #[trigger] r@->ParameterizedAtom_1[k] == p2@[k]@);
                                            while i < n
                                                invariant
                                                    forall|k: int| 0 <= k < p1.len() ==> #[trigger] l@->ParameterizedAtom_1[k] == p1@[k]@,
                                                    forall|k: int| 0 <= k < p2.len() ==> #[trigger] r@->ParameterizedAtom_1[k] == p2@[k]@,
                                                    i <= n,
                                                    n <= p1.len(),
                                                    n <= p2.len(),
                                                    n == zs.len(),
                                                    zs == zip_pairs(l@->ParameterizedAtom_1, r@->ParameterizedAtom_1),
                                                    pairs_view(pending@) =~= rest + zs.subrange(0, i as int),
                                                decreases n - i,
                                            {
                                                assert(l@->ParameterizedAtom_1[i as int] == p1@[i as int]@);
                                                assert(r@->ParameterizedAtom_1[i as int] == p2@[i as int]@);
                                                assert(zs[i as int] == (p1@[i as int]@, p2@[i as int]@));
                                                let ghost before = pairs_view(pending@);
                                                pending.push((clone_type(&p1[i]), clone_type(&p2[i])));
                                                assert(pairs_view(pending@) =~= before.push(zs[i as int]));
                                                i += 1;
                                                assert(pairs_view(pending@) =~= rest + zs.subrange(0, i as int));
                                            }
                                            assert(zs.subrange(0, n as int) =~= zs);
                                        },
                                        _ => {},
                                    }
                                },
                                _ => {},
                            }
                        },
                        StepKind::BindLeft | StepKind::BindRight => {
                            let (variable, value) = match kind {
                                StepKind::BindLeft => match l {
                                    Type::Var(v) => (v, r),
                                    _ => (0, r),
                                },
                                _ => match r {
                                    Type::Var(w) => (w, l),
                                    _ => (0, l),
                                },
                            };
                            assert(step(cur.last().0, cur.last().1) == Step::Bind(variable, value@));
                            let ghost b = (variable, value@);
                            pending = substitute_pairs(variable, &value, &pending);
                            substitute(variable, &value, type_);
                            self.substitute_variables(variable, &value);
                            self.type_variables.remove(&variable);
                            proof {
                                lemma_apply_snoc(acc, b, t0);
                                assert forall|x: Ty| #[trigger] apply(acc.push(b), x) == subst(variable, value@, apply(acc, x)) by {
                                    lemma_apply_snoc(acc, b, x);
                                }
                                assert(self@.variables =~= st0.variables.map_values(|x: Ty| apply(acc.push(b), x)));
                                assert forall|v: usize| #[trigger] bound_vars(acc.push(b)).contains(v) <==> (bound_vars(acc).contains(v) || v == variable) by {
                                    if bound_vars(acc).contains(v) {
                                        let i = choose|i: int| 0 <= i < acc.len() && (#[trigger] acc[i]).0 == v;
                                        assert(acc.push(b)[i] == acc[i]);
                                    }
                                    if v == variable {
                                        assert(acc.push(b)[acc.len() as int] == b);
                                    }
                                    if bound_vars(acc.push(b)).contains(v) {
                                        let i = choose|i: int| 0 <= i < acc.len() + 1 && (#[trigger] acc.push(b)[i]).0 == v;
                                        if i < acc.len() {
                                            assert(acc.push(b)[i] == acc[i]);
                                        }
                                    }
                                }
                                assert(self@.type_variables =~= st0.type_variables.difference(bound_vars(acc.push(b))));
                                if let Ok(x) = unify_result(pairs_view(pending@)) {
                                    assert(acc + (seq![b] + x) =~= acc.push(b) + x);
                                }
                                acc = acc.push(b);
                            }
                        },
                        StepKind::Fail => {
                            return Err(TypeError::CannotUnify(l, r));
                        },
                    }
                },
            }
        }
    }

    /// Whether unification variable `v` occurs in the type of some variable in scope.
    fn free_in_env(&self, v: usize) -> (r: bool)
        requires
            self.wf(),
        ensures
            r == env_vars(self@).contains(v),
    {
        let mut i: usize = 0;
        proof {
            lemma_types_view(self.variables@);
        }
        while i < self.variables.len()
            invariant
                self.wf(),
                i <= self.variables.len(),
                forall|j: int| 0 <= j < i ==> !occurs(v, (#[trigger] self.variables@[j]).1@),
            decreases self.variables.len() - i,
        {
            if occurs_in(v, &self.variables[i].1) {
                proof {
                    lemma_types_view(self.variables@);
                    let k = self.variables@[i as int].0@;
                    assert(self@.variables.contains_key(k));
                    assert(self@.variables[k] == self.variables@[i as int].1@);
                }
                return true;
            }
            i += 1;
        }
        proof {
            lemma_types_view(self.variables@);
            assert forall|k: Seq<char>| #[trigger] self@.variables.contains_key(k) implies !occurs(v, self@.variables[k]) by {
                assert(has_name(self.variables@, k));
                let j = choose|j: int| 0 <= j < self.variables@.len() && (#[trigger] self.variables@[j]).0@ == k;
                assert(types_view(self.variables@)[self.variables@[j].0@] == self.variables@[j].1@);
                assert(!occurs(v, self.variables@[j].1@));
            }
        }
        false
    }

    /// Makes a unified type polymorphic over the unification variables left
    /// in it that are free nowhere in the environment, numbered from 1 in
    /// increasing order of the variables.
    fn quantify(&self, ty: Type) -> (r: Result<Type, TypeError>)
        requires
            self.wf(),
        ensures
            match crate::infer::quantify(self@, ty@) {
                Ok(t) => r matches Ok(rt) && rt@ == t,
                Err(e) => r matches Err(err) && err@ == e,
            },
    {
        broadcast use vstd::std_specs::hash::group_hash_axioms;
        let mut ty = ty;
        let variables = match vars(&ty) {
            Err(e) => {
                return Err(e);
            },
            Ok(d) => d,
        };
        let ghost d = variables@;
        let ghost t2 = ty@;
        let ghost fixed = env_vars(self@);
        let mut next_poly_var: usize = 0;
        let mut i: usize = 0;
        assert(d.subrange(0, d.len() as int) =~= d);
        while i < variables.len()
            invariant
                self.wf(),
                i <= variables.len(),
                d == variables@,
                fixed == env_vars(self@),
                next_poly_var <= i,
                gen_matrix(d, fixed, t2, 0) == gen_matrix(d.subrange(i as int, d.len() as int), fixed, ty@, next_poly_var as nat),
                gen_count(d, fixed) == next_poly_var + gen_count(d.subrange(i as int, d.len() as int), fixed),
            decreases variables.len() - i,
        {
            let ghost rest = d.subrange(i as int, d.len() as int);
            assert(rest.drop_first() =~= d.subrange(i + 1, d.len() as int));
            assert(rest[0] == variables@[i as int]);
            let v = variables[i];
            if !self.free_in_env(v) {
                next_poly_var += 1;
                let pv = Type::PolymorphicVar(next_poly_var);
                substitute(v, &pv, &mut ty);
            }
            i += 1;
        }
        assert(d.subrange(i as int, d.len() as int) =~= Seq::<usize>::empty());
        if next_poly_var == 0 {
            return Ok(ty);
        }
        let mut numbers: Vec<usize> = Vec::new();
        let mut k: usize = 0;
        while k < next_poly_var
            invariant
                k <= next_poly_var,
                numbers@ =~= one_to(k as nat),
            decreases next_poly_var - k,
        {
            k += 1;
            numbers.push(k);
        }
        Ok(Type::Polymorphic { variables: numbers, matrix: Box::new(ty) })
    }

    /// Unifies the constraints into `ty`, then quantifies it (`quantify`);
    /// the first fault met is the error.
    fn try_generalize(&mut self, constraints: Vec<(Type, Type)>, ty: Type) -> (r: Result<Type, TypeError>)
        requires
            old(self).wf(),
        ensures
            final(self).wf(),
            match generalize(old(self)@, pairs_view(constraints@), ty@) {
                Ok((t, st)) => r matches Ok(rt) && rt@ == t && final(self)@ == st,
                Err(e) => r matches Err(err) && err@ == e,
            },
    {
        let mut ty = ty;
        match self.try_unify(constraints, &mut ty) {
            Err(e) => {
                return Err(e);
            },
            Ok(()) => {},
        }
        self.quantify(ty)
    }

    /// Unifies the constraints into `ty`, then quantifies it, where both
    /// succeed; other inputs are outside its domain (see `try_generalize`).
    fn generalize(&mut self, constraints: Vec<(Type, Type)>, ty: Type) -> (r: Type)
        requires
            old(self).wf(),
            generalize(old(self)@, pairs_view(constraints@), ty@) is Ok,
        ensures
            final(self).wf(),
            r@ == generalize(old(self)@, pairs_view(constraints@), ty@)->Ok_0.0,
            final(self)@ == generalize(old(self)@, pairs_view(constraints@), ty@)->Ok_0.1,
    {
        let mut ty = ty;
        self.unify(constraints, &mut ty);
        match self.quantify(ty) {
            Ok(t) => t,
            Err(e) => {
                proof {
                    assert(false);
                }
                Type::Atom(String::new())
            },
        }
    }

    /// The type of `expr` and the constraints on it, drawing fresh
    /// unification variables from the counter. A variable not in scope is
    /// refused with `UnknownVariable`, a lone polymorphic variable with
    /// `LonePolymorphicVariable`, and a fault of a nested `let` with its own error.
    fn try_build_constraints(&mut self, expr: &Expression, next_fresh_variable: &mut usize) -> (r: Result<ConstraintBuildingResult, TypeError>)
        requires
            old(self).wf(),
        ensures
            final(self).wf(),
            match build(old(self)@, *expr, *old(next_fresh_variable) as nat) {
                Ok((t, c, st, n)) => r matches Ok(res) && res.type_@ == t && pairs_view(res.constraints@) == c
                    && final(self)@ == st && *final(next_fresh_variable) == n,
                Err(e) => r matches Err(err) && err@ == e,
            },
        decreases expr,
    {
        match expr {
            Expression::LetIn { name, value, body } => {
                let value_result = match self.try_build_constraints(value, next_fresh_variable) {
                    Err(e) => {
                        return Err(e);
                    },
                    Ok(v) => v,
                };
                let value_constraints = clone_pairs(&value_result.constraints);
                let value_type = match self.try_generalize(value_constraints, value_result.type_) {
                    Err(e) => {
                        return Err(e);
                    },
                    Ok(t) => t,
                };
                let mut with_var = self.sub();
                with_var.add_variable(name.clone(), value_type);
                let body_result = match with_var.try_build_constraints(body, next_fresh_variable) {
                    Err(e) => {
                        return Err(e);
                    },
                    Ok(b) => b,
                };
                let mut constraints = value_result.constraints;
                let mut body_constraints = body_result.constraints;
                let ghost vc = pairs_view(constraints@);
                let ghost bc = pairs_view(body_constraints@);
                constraints.append(&mut body_constraints);
                assert(pairs_view(constraints@) =~= vc + bc);
                Ok(ConstraintBuildingResult { type_: body_result.type_, constraints })
            },
            Expression::Fun { arg, body } => {
                let mut with_arg = self.sub();
                let arg_type = match with_arg.new_var(next_fresh_variable) {
                    Err(e) => {
                        return Err(e);
                    },
                    Ok(t) => t,
                };
                with_arg.add_variable(arg.clone(), clone_type(&arg_type));
                let body_result = match with_arg.try_build_constraints(body, next_fresh_variable) {
                    Err(e) => {
                        return Err(e);
                    },
                    Ok(b) => b,
                };
                Ok(
                    ConstraintBuildingResult {
                        type_: Type::Fun(Box::new(arg_type), Box::new(body_result.type_)),
                        constraints: body_result.constraints,
                    },
                )
            },
            Expression::App { fun, arg } => {
                let result_type = match self.new_var(next_fresh_variable) {
                    Err(e) => {
                        return Err(e);
                    },
                    Ok(t) => t,
                };
                let fun_result = match self.try_build_constraints(fun, next_fresh_variable) {
                    Err(e) => {
                        return Err(e);
                    },
                    Ok(f) => f,
                };
                let arg_result = match self.try_build_constraints(arg, next_fresh_variable) {
                    Err(e) => {
                        return Err(e);
                    },
                    Ok(a) => a,
                };
                let mut constraints = fun_result.constraints;
                let mut arg_constraints = arg_result.constraints;
                let ghost fc = pairs_view(constraints@);
                let ghost ac = pairs_view(arg_constraints@);
                constraints.append(&mut arg_constraints);
                let result_type_boxed = Box::new(clone_type(&result_type));
                let arg_type = Box::new(arg_result.type_);
                let ghost last = (fun_result.type_@, Ty::Fun(Box::new(arg_type@), Box::new(result_type@)));
                constraints.push((fun_result.type_, Type::Fun(arg_type, result_type_boxed)));
                assert(pairs_view(constraints@) =~= fc + ac + seq![last]);
                Ok(ConstraintBuildingResult { type_: result_type, constraints })
            },
            Expression::Variable(v) => {
                proof {
                    lemma_types_view(self.variables@);
                }
                match find_name(&self.variables, v) {
                    Some(i) => {
                        let ty = clone_type(&self.variables[i].1);
                        if let Type::PolymorphicVar(_) = ty {
                            return Err(TypeError::LonePolymorphicVariable);
                        }
                        match self.instantiate(ty, next_fresh_variable) {
                            Err(e) => Err(e),
                            Ok(t) => {
                                let constraints: Vec<(Type, Type)> = Vec::new();
                                assert(pairs_view(constraints@) =~= Seq::<(Ty, Ty)>::empty());
                                Ok(ConstraintBuildingResult { type_: t, constraints })
                            },
                        }
                    },
                    None => Err(TypeError::UnknownVariable(v.clone())),
                }
            },
            Expression::StringLiteral(_) => {
                let name = String::from_str("string");
                proof {
                    reveal_strlit("string");
                    assert(name@ =~= seq!['s', 't', 'r', 'i', 'n', 'g']);
                }
                let constraints: Vec<(Type, Type)> = Vec::new();
                assert(pairs_view(constraints@) =~= Seq::<(Ty, Ty)>::empty());
                Ok(ConstraintBuildingResult { type_: Type::Atom(name), constraints })
            },
            Expression::IntLiteral(_) => {
                let name = String::from_str("int");
                proof {
                    reveal_strlit("int");
                    assert(name@ =~= seq!['i', 'n', 't']);
                }
                let constraints: Vec<(Type, Type)> = Vec::new();
                assert(pairs_view(constraints@) =~= Seq::<(Ty, Ty)>::empty());
                Ok(ConstraintBuildingResult { type_: Type::Atom(name), constraints })
            },
        }
    }

    /// The type of an expression that has one and the constraints on it, as
    /// `try_build_constraints` gives them; other expressions are outside its domain.
    fn build_constraints(&mut self, expr: &Expression, next_fresh_variable: &mut usize) -> (r: ConstraintBuildingResult)
        requires
            old(self).wf(),
            build(old(self)@, *expr, *old(next_fresh_variable) as nat) is Ok,
        ensures
            final(self).wf(),
            ({
                let (t, c, st, n) = build(old(self)@, *expr, *old(next_fresh_variable) as nat)->Ok_0;
                r.type_@ == t && pairs_view(r.constraints@) == c && final(self)@ == st && *final(next_fresh_variable) == n
            }),
    {
        match self.try_build_constraints(expr, next_fresh_variable) {
            Ok(res) => res,
            Err(_) => {
                proof {
                    assert(false);
                }
                ConstraintBuildingResult { type_: Type::Atom(String::new()), constraints: Vec::new() }
            },
        }
    }

    /// The generalized type of `expr`; afterwards no unification variable is in use.
    fn try_infer_type(&mut self, expr: Expression) -> (r: Result<Type, TypeError>)
        requires
            old(self).wf(),
        ensures
            final(self).wf(),
            match infer(old(self)@, expr) {
                Ok((t, st)) => r matches Ok(rt) && rt@ == t && final(self)@ == st,
                Err(e) => r matches Err(err) && err@ == e,
            },
    {
        broadcast use vstd::std_specs::hash::group_hash_axioms;
        let mut next_fresh_variable: usize = 0;
        let result = match self.try_build_constraints(&expr, &mut next_fresh_variable) {
            Err(e) => {
                return Err(e);
            },
            Ok(res) => res,
        };
        let type_ = match self.try_generalize(result.constraints, result.type_) {
            Err(e) => {
                return Err(e);
            },
            Ok(t) => t,
        };
        self.type_variables.clear();
        Ok(type_)
    }

    /// The generalized type of an expression that has one, with no
    /// unification variable in use afterwards; other expressions are outside
    /// its domain (see `try_infer_type`).
    fn infer_type(&mut self, expr: Expression) -> (r: Type)
        requires
            old(self).wf(),
            infer(old(self)@, expr) is Ok,
        ensures
            final(self).wf(),
            r@ == infer(old(self)@, expr)->Ok_0.0,
            final(self)@ == infer(old(self)@, expr)->Ok_0.1,
    {
        broadcast use vstd::std_specs::hash::group_hash_axioms;
        let mut next_fresh_variable: usize = 0;
        let result = self.build_constraints(&expr, &mut next_fresh_variable);
        let type_ = self.generalize(result.constraints, result.type_);
        self.type_variables.clear();
        type_
    }

    /// The environment of a new session: no variables, and the primitive
    /// types `int` and `string`, without parameters.
    pub fn new() -> (r: Self)
        ensures
            r.wf(),
            r@ == initial_env(),
    {
        broadcast use vstd::std_specs::hash::group_hash_axioms;
        let int_name = String::from_str("int");
        let string_name = String::from_str("string");
        proof {
            reveal_strlit("int");
            reveal_strlit("string");
            assert(int_name@ =~= seq!['i', 'n', 't']);
            assert(string_name@ =~= seq!['s', 't', 'r', 'i', 'n', 'g']);
        }
        let mut type_atoms: Vec<(String, usize)> = Vec::new();
        type_atoms.push((int_name, 0));
        type_atoms.push((string_name, 0));
        let r = Environment {
            variables: Vec::new(),
            type_variables: HashSet::new(),
            type_atoms,
        };
        proof {
            let a = r.type_atoms@;
            assert(a.drop_last().drop_last() =~= Seq::<(String, usize)>::empty());
            assert(counts_view(a.drop_last().drop_last()) == Map::<Seq<char>, usize>::empty());
            assert(counts_view(a.drop_last()) == Map::<Seq<char>, usize>::empty().insert(seq!['i', 'n', 't'], 0usize));
            assert(counts_view(a) =~= initial_env().type_atoms);
            assert(types_view(r.variables@) =~= Map::<Seq<char>, Ty>::empty());
        }
        r
    }

    /// Types a declaration that has a type and records what it declares:
    /// the inferred or declared type of a name, or the number of parameters
    /// of a type name. Declarations without a type (see `try_declaration`)
    /// are outside its domain.
    pub fn declaration(&mut self, decl: Declaration) -> (r: Outcome)
        requires
            old(self).wf(),
            declare(old(self)@, decl) is Ok,
        ensures
            final(self).wf(),
            r@ == declare(old(self)@, decl)->Ok_0.0,
            final(self)@ == declare(old(self)@, decl)->Ok_0.1,
    {
        match decl {
            Declaration::Let { name, value } => {
                let type_ = self.infer_type(value);
                let shown = clone_type(&type_);
                let shown_name = name.clone();
                self.add_variable(name, type_);
                Outcome::Let { name: shown_name, type_: shown }
            },
            Declaration::ExternLet { name, type_ } => {
                self.assert_is_valid(&type_);
                let shown = clone_type(&type_);
                let shown_name = name.clone();
                self.add_variable(name, type_);
                Outcome::ExternLet { name: shown_name, type_: shown }
            },
            Declaration::UnboundExpr(expr) => {
                let t = self.infer_type(expr);
                Outcome::UnboundExpr(t)
            },
            Declaration::Type { name, parameter_count } => {
                let shown_name = name.clone();
                set_count(&mut self.type_atoms, name, parameter_count);
                Outcome::Type(shown_name)
            },
        }
    }

    /// Like `declaration`, and defined on every declaration: one without a
    /// type is refused with the first fault met. The faults are an unknown variable; two types that
    /// cannot be unified (a clash of type constructors, or a variable that
    /// would occur in its own value); an unknown type name, a wrong number of
    /// type parameters or an unknown unification variable in an extern
    /// type; a polymorphic variable standing alone as a type; a polymorphic
    /// type left inside a type after unification; and running out of fresh
    /// unification variables. A refused declaration leaves the environment
    /// as it was.
    pub fn try_declaration(&mut self, decl: Declaration) -> (r: Result<Outcome, TypeError>)
        requires
            old(self).wf(),
        ensures
            final(self).wf(),
            match declare(old(self)@, decl) {
                Ok((o, st)) => r matches Ok(out) && out@ == o && final(self)@ == st,
                Err(e) => r matches Err(err) && err@ == e,
            },
            r is Err ==> final(self)@ == old(self)@,
    {
        match decl {
            Declaration::Let { name, value } => {
                let mut work = self.sub();
                let type_ = match work.try_infer_type(value) {
                    Err(e) => {
                        return Err(e);
                    },
                    Ok(t) => t,
                };
                *self = work;
                let shown = clone_type(&type_);
                let shown_name = name.clone();
                self.add_variable(name, type_);
                Ok(Outcome::Let { name: shown_name, type_: shown })
            },
            Declaration::ExternLet { name, type_ } => {
                match self.try_assert_is_valid(&type_) {
                    Err(e) => {
                        return Err(e);
                    },
                    Ok(()) => {},
                }
                let shown = clone_type(&type_);
                let shown_name = name.clone();
                self.add_variable(name, type_);
                Ok(Outcome::ExternLet { name: shown_name, type_: shown })
            },
            Declaration::UnboundExpr(expr) => {
                let mut work = self.sub();
                match work.try_infer_type(expr) {
                    Err(e) => Err(e),
                    Ok(t) => {
                        *self = work;
                        Ok(Outcome::UnboundExpr(t))
                    },
                }
            },
            Declaration::Type { name, parameter_count } => {
                let shown_name = name.clone();
                set_count(&mut self.type_atoms, name, parameter_count);
                Ok(Outcome::Type(shown_name))
            },
        }
    }
}

} // verus!
