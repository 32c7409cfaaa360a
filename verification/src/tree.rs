use vstd::prelude::*;

verus! {

/// A type of the language.
#[derive(Debug, PartialEq)]
pub enum Type {
    /// A type without parameters, such as `int`.
    Atom(String),
    /// A unification variable.
    Var(usize),
    /// A variable bound by an enclosing `Polymorphic`.
    PolymorphicVar(usize),
    /// A function type.
    Fun(Box<Type>, Box<Type>),
    /// A type applied to parameters, such as `'a list`.
    ParameterizedAtom { name: String, parameters: Vec<Type> },
    /// A type generalized over some polymorphic variables.
    Polymorphic { variables: Vec<usize>, matrix: Box<Type> },
}

/// The mathematical value of a type: names as character sequences.
pub enum Ty {
    Atom(Seq<char>),
    Var(usize),
    PolymorphicVar(usize),
    Fun(Box<Ty>, Box<Ty>),
    ParameterizedAtom(Seq<char>, Seq<Ty>),
    Polymorphic(Seq<usize>, Box<Ty>),
}

impl Type {
    /// The mathematical value of the type.
    pub open spec fn view(&self) -> Ty
        decreases self,
    {
        match self {
            Type::Atom(n) => Ty::Atom(n@),
            Type::Var(v) => Ty::Var(*v),
            Type::PolymorphicVar(v) => Ty::PolymorphicVar(*v),
            Type::Fun(a, b) => Ty::Fun(Box::new(a.view()), Box::new(b.view())),
            Type::ParameterizedAtom { name, parameters } => Ty::ParameterizedAtom(
                name@,
                Seq::new(
                    parameters.len() as nat,
                    |i: int|
                        if 0 <= i < parameters.len() {
                            parameters@[i].view()
                        } else {
                            Ty::Var(0)
                        },
                ),
            ),
            Type::Polymorphic { variables, matrix } => Ty::Polymorphic(
                variables@,
                Box::new(matrix.view()),
            ),
        }
    }
}

/// An expression of the language.
#[derive(Debug, PartialEq)]
pub enum Expression {
    /// `let name = value in body`
    LetIn { name: String, value: Box<Expression>, body: Box<Expression> },
    /// `fun arg -> body`
    Fun { arg: String, body: Box<Expression> },
    /// `fun(arg)`
    App { fun: Box<Expression>, arg: Box<Expression> },
    /// A variable.
    Variable(String),
    /// A string literal.
    StringLiteral(String),
    /// An integer literal, as written.
    IntLiteral(String),
}

/// A declaration at the top level.
#[derive(Debug, PartialEq)]
pub enum Declaration {
    /// `let name = value`
    Let { name: String, value: Expression },
    /// `let name = extern type_`
    ExternLet { name: String, type_: Type },
    /// An expression on its own.
    UnboundExpr(Expression),
    /// `type name`, with its number of parameters.
    Type { name: String, parameter_count: usize },
}

/// A copy of a type.
#[verifier::loop_isolation(false)]
pub fn clone_type(t: &Type) -> (r: Type)
    ensures
        r@ == t@,
    decreases t,
{
    match t {
        Type::Atom(n) => Type::Atom(n.clone()),
        Type::Var(v) => Type::Var(*v),
        Type::PolymorphicVar(v) => Type::PolymorphicVar(*v),
        Type::Fun(a, b) => Type::Fun(Box::new(clone_type(a)), Box::new(clone_type(b))),
        Type::ParameterizedAtom { name, parameters } => {
            let mut ps: Vec<Type> = Vec::new();
            let mut i: usize = 0;
            while i < parameters.len()
                invariant
                    i <= parameters.len(),
                    ps.len() == i,
                    forall|k: int| 0 <= k < i ==> (#[trigger] ps@[k])@ == parameters@[k]@,
                decreases parameters.len() - i,
            {
                proof {
                    assert(decreases_to!(*t => *parameters));
                    assert(decreases_to!(*parameters => parameters@));
                    assert(decreases_to!(parameters@ => parameters@[i as int]));
                }
                ps.push(clone_type(&parameters[i]));
                i += 1;
            }
            let r = Type::ParameterizedAtom { name: name.clone(), parameters: ps };
            assert(r@->ParameterizedAtom_1 =~= t@->ParameterizedAtom_1);
            r
        },
        Type::Polymorphic { variables, matrix } => {
            let r = Type::Polymorphic { variables: variables.clone(), matrix: Box::new(clone_type(matrix)) };
            assert(r@->Polymorphic_0 =~= t@->Polymorphic_0);
            r
        },
    }
}

}
