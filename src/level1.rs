//! The resolved tree: every binding carries a unique scope id, every
//! reference points at the scope id of its binding, and every lambda lists
//! the scope ids it captures. `let` and composition no longer occur.
use crate::common::{Id, Scope};
use crate::level0::{GlobalSymbol, Type};
use vstd::prelude::*;

verus! {

#[derive(Debug, Clone, Copy, PartialEq, Eq, Hash, Structural)]
pub struct Binding {
    pub scope: Scope,
}

#[derive(Debug, Clone, Copy, PartialEq, Eq, Hash, Structural)]
pub enum BinaryOpKind {
    Call,
    Addition,
    Multiplication,
}

#[derive(Debug, PartialEq, Eq)]
pub enum Expr {
    Number(i32),
    LambdaFunction { arg: Binding, body: Box<Expr>, captured: Vec<Binding> },
    BinaryOperation(Box<Expr>, BinaryOpKind, Box<Expr>),
    Referal { scope: Scope },
    ProcCall { name: GlobalSymbol, args: Vec<Expr> },
}

#[derive(Debug, PartialEq, Eq)]
pub enum Top {
    Procedure { name: GlobalSymbol, args: Vec<(Binding, Type)>, return_type: Type, body: Expr },
}

/// The mathematical content of a resolved expression: capture lists become
/// sets and procedure names become character sequences.
pub enum ExprModel {
    Number(i32),
    Lambda { arg: Scope, body: Box<ExprModel>, captured: Set<Scope> },
    Binary(Box<ExprModel>, BinaryOpKind, Box<ExprModel>),
    Referal(Scope),
    ProcCall(Seq<char>, Seq<ExprModel>),
}

/// The mathematical content of a top-level procedure.
pub struct ProcModel {
    pub name: Seq<char>,
    pub params: Seq<Scope>,
    pub param_types: Seq<Type>,
    pub return_type: Type,
    pub body: ExprModel,
}

pub open spec fn scope_of_id(n: nat) -> Scope {
    Scope(Id(n as usize))
}

/// The scopes that a list of bindings names.
pub open spec fn scope_set(bs: Seq<Binding>) -> Set<Scope> {
    Set::new(|s: Scope| exists|i: int| 0 <= i < bs.len() && bs[i].scope == s)
}

/// No scope is listed twice.
pub open spec fn scopes_distinct(bs: Seq<Binding>) -> bool {
    forall|i: int, j: int| 0 <= i < bs.len() && 0 <= j < bs.len() && i != j ==> bs[i].scope != bs[j].scope
}

/// Every capture list in the tree lists each scope once.
pub open spec fn captures_distinct(e: Expr) -> bool
    decreases e,
{
    match e {
        Expr::LambdaFunction { arg, body, captured } => scopes_distinct(captured@) && captures_distinct(*body),
        Expr::BinaryOperation(l, k, r) => captures_distinct(*l) && captures_distinct(*r),
        Expr::ProcCall { name, args } => captures_distinct_all(args@),
        _ => true,
    }
}

pub open spec fn captures_distinct_all(es: Seq<Expr>) -> bool
    decreases es,
{
    es.len() == 0 || (captures_distinct_all(es.drop_last()) && captures_distinct(es.last()))
}

pub open spec fn model_of(e: Expr) -> ExprModel
    decreases e,
{
    match e {
        Expr::Number(n) => ExprModel::Number(n),
        Expr::LambdaFunction { arg, body, captured } => ExprModel::Lambda {
            arg: arg.scope,
            body: Box::new(model_of(*body)),
            captured: scope_set(captured@),
        },
        Expr::BinaryOperation(l, k, r) => ExprModel::Binary(
            Box::new(model_of(*l)),
            k,
            Box::new(model_of(*r)),
        ),
        Expr::Referal { scope } => ExprModel::Referal(scope),
        Expr::ProcCall { name, args } => ExprModel::ProcCall(name.0.name(), models_of(args@)),
    }
}

pub open spec fn models_of(es: Seq<Expr>) -> Seq<ExprModel>
    decreases es,
{
    if es.len() == 0 {
        Seq::empty()
    } else {
        models_of(es.drop_last()).push(model_of(es.last()))
    }
}

impl View for Expr {
    type V = ExprModel;

    open spec fn view(&self) -> ExprModel {
        model_of(*self)
    }
}

pub open spec fn types_of<B>(ps: Seq<(B, Type)>) -> Seq<Type> {
    ps.map_values(|p: (B, Type)| p.1)
}

pub open spec fn params_of(ps: Seq<(Binding, Type)>) -> Seq<Scope> {
    ps.map_values(|p: (Binding, Type)| p.0.scope)
}

impl View for Top {
    type V = ProcModel;

    open spec fn view(&self) -> ProcModel {
        match *self {
            Top::Procedure { name, args, return_type, body } => ProcModel {
                name: name.0.name(),
                params: params_of(args@),
                param_types: types_of(args@),
                return_type,
                body: model_of(body),
            },
        }
    }
}

/// The scope ids that an expression reads from outside itself: a reference
/// reads its own scope, a lambda reads what it captures.
pub open spec fn free_scopes(m: ExprModel) -> Set<Scope>
    decreases m,
{
    match m {
        ExprModel::Number(_) => Set::empty(),
        ExprModel::Lambda { arg, body, captured } => captured,
        ExprModel::Binary(l, k, r) => free_scopes(*l) + free_scopes(*r),
        ExprModel::Referal(s) => set![s],
        ExprModel::ProcCall(name, args) => free_scopes_all(args),
    }
}

pub open spec fn free_scopes_all(ms: Seq<ExprModel>) -> Set<Scope>
    decreases ms,
{
    if ms.len() == 0 {
        Set::empty()
    } else {
        free_scopes_all(ms.drop_last()) + free_scopes(ms.last())
    }
}

pub proof fn lemma_models_of(es: Seq<Expr>)
    ensures
        models_of(es).len() == es.len(),
        forall|i: int| 0 <= i < es.len() ==> #[trigger] models_of(es)[i] == model_of(es[i]),
    decreases es.len(),
{
    if es.len() > 0 {
        lemma_models_of(es.drop_last());
        assert forall|i: int| 0 <= i < es.len() implies #[trigger] models_of(es)[i] == model_of(es[i]) by {
            if i < es.len() - 1 {
                assert(es.drop_last()[i] == es[i]);
            }
        }
    }
}

} // verus!
