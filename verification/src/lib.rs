use vstd::prelude::*;

pub mod assoc;
pub mod infer;
pub mod lexer;
pub mod subst;
pub mod text;
pub mod tree;
pub mod typer;
pub mod typing;

verus! {
}
