use tiped_lang::tree::{Declaration, Expression, Type};
use tiped_lang::typer::{Environment, Outcome, TypeError};

fn s(x: &str) -> String {
    x.to_string()
}

fn var(x: &str) -> Expression {
    Expression::Variable(s(x))
}

fn fun(arg: &str, body: Expression) -> Expression {
    Expression::Fun { arg: s(arg), body: Box::new(body) }
}

fn app(f: Expression, a: Expression) -> Expression {
    Expression::App { fun: Box::new(f), arg: Box::new(a) }
}

fn arrow(a: Type, b: Type) -> Type {
    Type::Fun(Box::new(a), Box::new(b))
}

fn atom(x: &str) -> Type {
    Type::Atom(s(x))
}

fn pv(n: usize) -> Type {
    Type::PolymorphicVar(n)
}

fn list(t: Type) -> Type {
    Type::ParameterizedAtom { name: s("list"), parameters: vec![t] }
}

fn poly(vs: Vec<usize>, m: Type) -> Type {
    Type::Polymorphic { variables: vs, matrix: Box::new(m) }
}

fn int_lit() -> Expression {
    Expression::IntLiteral(s("1"))
}

#[test]
fn identity_is_polymorphic() {
    let mut env = Environment::new();
    let r = env.try_declaration(Declaration::Let { name: s("id"), value: fun("x", var("x")) });
    assert_eq!(r, Ok(Outcome::Let { name: s("id"), type_: poly(vec![1], arrow(pv(1), pv(1))) }));
}

#[test]
fn identity_applied_to_identity_is_polymorphic() {
    let mut env = Environment::new();
    let r = env.try_declaration(Declaration::Let {
        name: s("id2"),
        value: app(fun("x", var("x")), fun("x", var("x"))),
    });
    assert_eq!(r, Ok(Outcome::Let { name: s("id2"), type_: poly(vec![1], arrow(pv(1), pv(1))) }));
}

#[test]
fn declared_names_can_be_used_afterwards() {
    let mut env = Environment::new();
    env.try_declaration(Declaration::Let { name: s("id"), value: fun("x", var("x")) }).unwrap();
    let r = env.try_declaration(Declaration::UnboundExpr(app(var("id"), Expression::StringLiteral(s("a")))));
    assert_eq!(r, Ok(Outcome::UnboundExpr(atom("string"))));
}

#[test]
fn literals() {
    let mut env = Environment::new();
    assert_eq!(env.try_declaration(Declaration::UnboundExpr(int_lit())), Ok(Outcome::UnboundExpr(atom("int"))));
    assert_eq!(
        env.try_declaration(Declaration::UnboundExpr(Expression::StringLiteral(s("x")))),
        Ok(Outcome::UnboundExpr(atom("string")))
    );
}

#[test]
fn let_in_generalizes_the_bound_value() {
    let mut env = Environment::new();
    let e = Expression::LetIn {
        name: s("f"),
        value: Box::new(fun("x", var("x"))),
        body: Box::new(app(var("f"), int_lit())),
    };
    assert_eq!(env.try_declaration(Declaration::UnboundExpr(e)), Ok(Outcome::UnboundExpr(atom("int"))));
}

#[test]
fn unknown_variable() {
    let mut env = Environment::new();
    assert_eq!(env.try_declaration(Declaration::UnboundExpr(var("y"))), Err(TypeError::UnknownVariable(s("y"))));
}

#[test]
fn underscore_binds_nothing() {
    let mut env = Environment::new();
    env.try_declaration(Declaration::Let { name: s("_"), value: int_lit() }).unwrap();
    assert_eq!(env.try_declaration(Declaration::UnboundExpr(var("_"))), Err(TypeError::UnknownVariable(s("_"))));
}

#[test]
fn applying_an_integer_fails_to_unify() {
    let mut env = Environment::new();
    let r = env.try_declaration(Declaration::UnboundExpr(app(int_lit(), int_lit())));
    assert_eq!(r, Err(TypeError::CannotUnify(atom("int"), arrow(atom("int"), Type::Var(1)))));
}

#[test]
fn self_application_fails_the_occurs_check() {
    let mut env = Environment::new();
    let r = env.try_declaration(Declaration::Let { name: s("w"), value: fun("x", app(var("x"), var("x"))) });
    assert_eq!(r, Err(TypeError::CannotUnify(Type::Var(1), arrow(Type::Var(1), Type::Var(2)))));
}

#[test]
fn type_declarations_and_extern_values() {
    let mut env = Environment::new();
    assert_eq!(
        env.try_declaration(Declaration::Type { name: s("list"), parameter_count: 1 }),
        Ok(Outcome::Type(s("list")))
    );
    let cons_type = poly(vec![1], arrow(pv(1), arrow(list(pv(1)), list(pv(1)))));
    let r = env.try_declaration(Declaration::ExternLet { name: s("cons"), type_: poly(vec![1], arrow(pv(1), arrow(list(pv(1)), list(pv(1))))) });
    assert_eq!(r, Ok(Outcome::ExternLet { name: s("cons"), type_: cons_type }));
    let r = env.try_declaration(Declaration::UnboundExpr(app(var("cons"), int_lit())));
    assert_eq!(r, Ok(Outcome::UnboundExpr(arrow(list(atom("int")), list(atom("int"))))));
}

#[test]
fn extern_types_are_checked() {
    let mut env = Environment::new();
    let r = env.try_declaration(Declaration::ExternLet { name: s("nil"), type_: list(atom("int")) });
    assert_eq!(r, Err(TypeError::UnknownType(s("list"))));
    env.try_declaration(Declaration::Type { name: s("list"), parameter_count: 1 }).unwrap();
    let r = env.try_declaration(Declaration::ExternLet {
        name: s("nil"),
        type_: Type::ParameterizedAtom { name: s("list"), parameters: vec![] },
    });
    assert_eq!(r, Err(TypeError::WrongParameterCount { name: s("list"), expected: 1, found: 0 }));
    let r = env.try_declaration(Declaration::ExternLet { name: s("x"), type_: atom("list") });
    assert_eq!(r, Err(TypeError::WrongParameterCount { name: s("list"), expected: 1, found: 0 }));
    let r = env.try_declaration(Declaration::ExternLet { name: s("x"), type_: Type::Var(3) });
    assert_eq!(r, Err(TypeError::UnknownTypeVariable(3)));
    let r = env.try_declaration(Declaration::ExternLet { name: s("x"), type_: atom("bool") });
    assert_eq!(r, Err(TypeError::UnknownType(s("bool"))));
}

#[test]
fn a_lone_polymorphic_variable_is_refused_on_use() {
    let mut env = Environment::new();
    env.try_declaration(Declaration::ExternLet { name: s("x"), type_: pv(1) }).unwrap();
    assert_eq!(env.try_declaration(Declaration::UnboundExpr(var("x"))), Err(TypeError::LonePolymorphicVariable));
}

#[test]
fn two_variables_are_numbered_in_order() {
    let mut env = Environment::new();
    let k = fun("x", fun("y", var("x")));
    let r = env.try_declaration(Declaration::Let { name: s("k"), value: k });
    assert_eq!(
        r,
        Ok(Outcome::Let { name: s("k"), type_: poly(vec![1, 2], arrow(pv(1), arrow(pv(2), pv(1)))) })
    );
}

#[test]
fn map_over_lists_from_a_fixed_point() {
    let mut env = Environment::new();
    env.try_declaration(Declaration::Type { name: s("unit"), parameter_count: 0 }).unwrap();
    env.try_declaration(Declaration::Type { name: s("list"), parameter_count: 1 }).unwrap();
    env.try_declaration(Declaration::ExternLet { name: s("nil"), type_: poly(vec![1], list(pv(1))) }).unwrap();
    env.try_declaration(Declaration::ExternLet {
        name: s("cons"),
        type_: poly(vec![1], arrow(pv(1), arrow(list(pv(1)), list(pv(1))))),
    })
    .unwrap();
    env.try_declaration(Declaration::ExternLet {
        name: s("match_list"),
        type_: poly(
            vec![1, 2],
            arrow(
                list(pv(1)),
                arrow(arrow(atom("unit"), pv(2)), arrow(arrow(pv(1), arrow(list(pv(1)), pv(2))), pv(2))),
            ),
        ),
    })
    .unwrap();
    env.try_declaration(Declaration::ExternLet {
        name: s("fix"),
        type_: poly(vec![1, 2], arrow(arrow(arrow(pv(1), pv(2)), arrow(pv(1), pv(2))), arrow(pv(1), pv(2)))),
    })
    .unwrap();
    let body = app(
        app(app(var("match_list"), var("lst")), fun("_", var("nil"))),
        fun("h", fun("t", app(app(var("cons"), app(var("f"), var("h"))), app(app(var("rec"), var("f")), var("t"))))),
    );
    let map_inner = fun("rec", fun("f", fun("lst", body)));
    let value = Expression::LetIn {
        name: s("map_inner"),
        value: Box::new(map_inner),
        body: Box::new(app(var("fix"), var("map_inner"))),
    };
    let r = env.try_declaration(Declaration::Let { name: s("map"), value });
    assert_eq!(
        r,
        Ok(Outcome::Let {
            name: s("map"),
            type_: poly(vec![1, 2], arrow(arrow(pv(2), pv(1)), arrow(list(pv(2)), list(pv(1))))),
        })
    );
}

#[test]
fn let_does_not_generalize_a_variable_of_the_environment() {
    let mut env = Environment::new();
    let e = fun(
        "y",
        Expression::LetIn { name: s("z"), value: Box::new(var("y")), body: Box::new(var("z")) },
    );
    let r = env.declaration(Declaration::Let { name: s("f"), value: e });
    assert_eq!(r, Outcome::Let { name: s("f"), type_: poly(vec![1], arrow(pv(1), pv(1))) });
}

#[test]
fn let_keeps_variables_bound_through_the_environment() {
    let mut env = Environment::new();
    let e = fun(
        "y",
        Expression::LetIn { name: s("z"), value: Box::new(app(var("y"), int_lit())), body: Box::new(var("z")) },
    );
    let r = env.declaration(Declaration::UnboundExpr(e));
    assert_eq!(r, Outcome::UnboundExpr(poly(vec![1], arrow(arrow(atom("int"), pv(1)), pv(1)))));
}

#[test]
fn let_polymorphism_inside_a_function() {
    let mut env = Environment::new();
    // fun y -> let id = fun x -> x in id(id)(y)
    let body = Expression::LetIn {
        name: s("id"),
        value: Box::new(fun("x", var("x"))),
        body: Box::new(app(app(var("id"), var("id")), var("y"))),
    };
    let r = env.declaration(Declaration::UnboundExpr(fun("y", body)));
    assert_eq!(r, Outcome::UnboundExpr(poly(vec![1], arrow(pv(1), pv(1)))));
}

#[test]
fn a_failed_declaration_binds_nothing_new_to_later_lookups() {
    let mut env = Environment::new();
    let d = Declaration::ExternLet { name: s("nil"), type_: poly(vec![1], list(pv(1))) };
    assert_eq!(env.try_declaration(d), Err(TypeError::UnknownType(s("list"))));
    assert_eq!(env.try_declaration(Declaration::UnboundExpr(var("nil"))), Err(TypeError::UnknownVariable(s("nil"))));
}

#[test]
fn twice_has_its_principal_type() {
    let mut env = Environment::new();
    let twice = fun("f", fun("x", app(var("f"), app(var("f"), var("x")))));
    let r = env.declaration(Declaration::Let { name: s("twice"), value: twice });
    assert_eq!(
        r,
        Outcome::Let { name: s("twice"), type_: poly(vec![1], arrow(arrow(pv(1), pv(1)), arrow(pv(1), pv(1)))) }
    );
}
