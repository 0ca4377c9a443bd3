//! The surface tree: what a parser hands over, with names as written.
use crate::common::Ident;
use vstd::prelude::*;

verus! {

/// A name introduced by a lambda, a `let` or a procedure parameter.
#[derive(Debug, Clone, PartialEq, Eq, Hash)]
pub struct Binding(pub Ident);

/// The name of a top-level procedure; procedures live in their own namespace.
#[derive(Debug, Clone, PartialEq, Eq, Hash)]
pub struct GlobalSymbol(pub Ident);

#[derive(Debug, Clone, Copy, PartialEq, Eq, Hash, Structural)]
pub enum Type {
    Never,
    Unit,
    I32,
}

#[derive(Debug, PartialEq, Eq, Hash)]
pub enum Top {
    Procedure { name: GlobalSymbol, args: Vec<(Binding, Type)>, return_type: Type, body: Expr },
}

#[derive(Debug, PartialEq, Eq, Hash)]
pub enum Expr {
    Number(i32),
    LambdaFunction { arg: Binding, body: Box<Expr> },
    LetBinding { name: Binding, value: Box<Expr>, body: Box<Expr> },
    BinaryOperation(Box<Expr>, BinaryOpKind, Box<Expr>),
    Referal(Ident),
    ProcCall { name: GlobalSymbol, args: Vec<Expr> },
}

#[derive(Debug, Clone, Copy, PartialEq, Eq, Hash, Structural)]
pub enum BinaryOpKind {
    Call,
    Addition,
    Multiplication,
    Composition,
}

/// How many fresh scope ids resolving `e` mints: one for every lambda, `let`
/// and composition in it.
pub open spec fn ids_needed(e: Expr) -> nat
    decreases e,
{
    match e {
        Expr::Number(_) => 0,
        Expr::LambdaFunction { arg, body } => 1 + ids_needed(*body),
        Expr::LetBinding { name, value, body } => 1 + ids_needed(*value) + ids_needed(*body),
        Expr::BinaryOperation(l, kind, r) => (if kind == BinaryOpKind::Composition {
            1nat
        } else {
            0nat
        }) + ids_needed(*l) + ids_needed(*r),
        Expr::Referal(_) => 0,
        Expr::ProcCall { name, args } => ids_needed_all(args@),
    }
}

pub open spec fn ids_needed_all(es: Seq<Expr>) -> nat
    decreases es,
{
    if es.len() == 0 {
        0
    } else {
        ids_needed_all(es.drop_last()) + ids_needed(es.last())
    }
}

/// Fresh ids that resolving a procedure mints: one per parameter, plus those
/// of its body.
pub open spec fn top_ids_needed(t: Top) -> nat {
    match t {
        Top::Procedure { name, args, return_type, body } => args@.len() + ids_needed(body),
    }
}

} // verus!
