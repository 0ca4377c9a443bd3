//! What resolution produces, stated over the mathematical models.
use crate::common::{Ident, Scope};
use crate::keyed_stack::{last_index_of, lemma_last_index_of};
use crate::level0;
use crate::level0::GlobalSymbol;
use crate::level1::{types_of, free_scopes, free_scopes_all, scope_of_id, BinaryOpKind, Binding, ExprModel, ProcModel};
use vstd::prelude::*;

verus! {

/// Why a surface tree could not be resolved.
#[derive(Debug, PartialEq, Eq)]
pub enum ResolveError {
    /// A reference with no enclosing binding of that name.
    UnresolvedName(Ident),
    /// A call of a procedure that is not declared.
    UnknownProcedure(GlobalSymbol),
}

/// The bindings in lexical scope, outermost first: each surface name with
/// the binding it was given.
pub type Env = Seq<(Seq<char>, Binding)>;

/// The scope of the innermost binding of `name`.
pub open spec fn lookup(env: Env, name: Seq<char>) -> Option<Scope> {
    match last_index_of(env, name) {
        Some(i) => Some(env[i as int].1.scope),
        None => None,
    }
}

pub open spec fn lower_kind(k: level0::BinaryOpKind) -> BinaryOpKind {
    match k {
        level0::BinaryOpKind::Addition => BinaryOpKind::Addition,
        level0::BinaryOpKind::Multiplication => BinaryOpKind::Multiplication,
        _ => BinaryOpKind::Call,
    }
}

/// `l . r` as the lambda `point -> l (r point)`; it captures what `l` and
/// `r` read.
pub open spec fn compose_model(l: ExprModel, r: ExprModel, point: Scope) -> ExprModel {
    ExprModel::Lambda {
        arg: point,
        body: Box::new(
            ExprModel::Binary(
                Box::new(l),
                BinaryOpKind::Call,
                Box::new(
                    ExprModel::Binary(
                        Box::new(r),
                        BinaryOpKind::Call,
                        Box::new(ExprModel::Referal(point)),
                    ),
                ),
            ),
        ),
        captured: free_scopes(l) + free_scopes(r),
    }
}

/// Resolution of `e` under `env`, with `globals` the declared procedure
/// names and `next` the first unused id. Fresh ids are taken in order, and
/// the id counter after the walk comes back with the result.
pub open spec fn resolve_spec(e: level0::Expr, env: Env, globals: Seq<Seq<char>>, next: nat) -> Result<
    (ExprModel, nat),
    ResolveError,
>
    decreases e, 0nat,
{
    match e {
        level0::Expr::Number(n) => Ok((ExprModel::Number(n), next)),
        level0::Expr::LambdaFunction { arg, body } => resolve_lambda_spec(arg, *body, env, globals, next),
        level0::Expr::LetBinding { name, value, body } => match resolve_spec(*value, env, globals, next) {
            Err(err) => Err(err),
            Ok((v, n1)) => match resolve_lambda_spec(name, *body, env, globals, n1) {
                Err(err) => Err(err),
                Ok((f, n2)) => Ok(
                    (ExprModel::Binary(Box::new(f), BinaryOpKind::Call, Box::new(v)), n2),
                ),
            },
        },
        level0::Expr::BinaryOperation(l, kind, r) => {
            let composed = kind == level0::BinaryOpKind::Composition;
            let start = if composed {
                next + 1
            } else {
                next
            };
            match resolve_spec(*l, env, globals, start) {
                Err(err) => Err(err),
                Ok((ml, n1)) => match resolve_spec(*r, env, globals, n1) {
                    Err(err) => Err(err),
                    Ok((mr, n2)) => if composed {
                        Ok((compose_model(ml, mr, scope_of_id(next)), n2))
                    } else {
                        Ok((ExprModel::Binary(Box::new(ml), lower_kind(kind), Box::new(mr)), n2))
                    },
                },
            }
        },
        level0::Expr::Referal(name) => match lookup(env, name.name()) {
            Some(s) => Ok((ExprModel::Referal(s), next)),
            None => Err(ResolveError::UnresolvedName(name)),
        },
        level0::Expr::ProcCall { name, args } => match resolve_all_spec(args@, env, globals, next) {
            Err(err) => Err(err),
            Ok((ms, n1)) => if globals.contains(name.0.name()) {
                Ok((ExprModel::ProcCall(name.0.name(), ms), n1))
            } else {
                Err(ResolveError::UnknownProcedure(name))
            },
        },
    }
}

/// A lambda binds a fresh scope for its parameter and captures every scope
/// its body reads except that one.
pub open spec fn resolve_lambda_spec(
    arg: level0::Binding,
    body: level0::Expr,
    env: Env,
    globals: Seq<Seq<char>>,
    next: nat,
) -> Result<(ExprModel, nat), ResolveError>
    decreases body, 1nat,
{
    let a = scope_of_id(next);
    match resolve_spec(body, env.push((arg.0.name(), Binding { scope: a })), globals, next + 1) {
        Err(err) => Err(err),
        Ok((mb, n1)) => Ok(
            (ExprModel::Lambda { arg: a, body: Box::new(mb), captured: free_scopes(mb).remove(a) }, n1),
        ),
    }
}

/// Resolution of a list of expressions, left to right; the first failure wins.
pub open spec fn resolve_all_spec(es: Seq<level0::Expr>, env: Env, globals: Seq<Seq<char>>, next: nat) -> Result<
    (Seq<ExprModel>, nat),
    ResolveError,
>
    decreases es, 0nat,
{
    if es.len() == 0 {
        Ok((Seq::empty(), next))
    } else {
        match resolve_all_spec(es.drop_last(), env, globals, next) {
            Err(err) => Err(err),
            Ok((ms, n1)) => match resolve_spec(es.last(), env, globals, n1) {
                Err(err) => Err(err),
                Ok((m, n2)) => Ok((ms.push(m), n2)),
            },
        }
    }
}

/// The bindings a procedure's parameters get, starting at id `next`.
pub open spec fn param_env(args: Seq<(level0::Binding, level0::Type)>, next: nat) -> Env {
    Seq::new(args.len(), |i: int| (args[i].0.0.name(), Binding { scope: scope_of_id(next + i as nat) }))
}

/// Resolution of a top-level procedure: its parameters are bound in order,
/// nothing else is in scope, and nothing is captured.
pub open spec fn resolve_top_spec(top: level0::Top, globals: Seq<Seq<char>>, next: nat) -> Result<
    (ProcModel, nat),
    ResolveError,
> {
    match top {
        level0::Top::Procedure { name, args, return_type, body } => {
            let env = param_env(args@, next);
            match resolve_spec(body, env, globals, next + args@.len()) {
                Err(err) => Err(err),
                Ok((mb, n1)) => Ok(
                    (
                        ProcModel {
                            name: name.0.name(),
                            params: env.map_values(|p: (Seq<char>, Binding)| p.1.scope),
                            param_types: types_of(args@),
                            return_type,
                            body: mb,
                        },
                        n1,
                    ),
                ),
            }
        },
    }
}

pub open spec fn bound_in(env: Env, s: Scope) -> bool {
    exists|i: int| 0 <= i < env.len() && env[i].1.scope == s
}

/// A resolved expression reads only scopes of its environment.
pub proof fn lemma_free_bound(e: level0::Expr, env: Env, globals: Seq<Seq<char>>, next: nat)
    ensures
        resolve_spec(e, env, globals, next) matches Ok((m, n)) ==> forall|s: Scope|
            #[trigger] free_scopes(m).contains(s) ==> bound_in(env, s),
    decreases e, 0nat,
{
    match e {
        level0::Expr::Number(_) => {},
        level0::Expr::LambdaFunction { arg, body } => {
            lemma_free_bound_lambda(arg, *body, env, globals, next);
        },
        level0::Expr::LetBinding { name, value, body } => {
            lemma_free_bound(*value, env, globals, next);
            if let Ok((v, n1)) = resolve_spec(*value, env, globals, next) {
                lemma_free_bound_lambda(name, *body, env, globals, n1);
                if let Ok((f, n2)) = resolve_lambda_spec(name, *body, env, globals, n1) {
                    let m = ExprModel::Binary(Box::new(f), BinaryOpKind::Call, Box::new(v));
                    assert(free_scopes(m) == free_scopes(f) + free_scopes(v));
                    assert(resolve_spec(e, env, globals, next) == Ok::<(ExprModel, nat), ResolveError>((m, n2)));
                    assert forall|s: Scope| #[trigger] (free_scopes(f) + free_scopes(v)).contains(s) implies bound_in(env, s) by {
                        assert(free_scopes(f).contains(s) || free_scopes(v).contains(s));
                    }
                }
            }
        },
        level0::Expr::BinaryOperation(l, kind, r) => {
            let start = if kind == level0::BinaryOpKind::Composition {
                next + 1
            } else {
                next
            };
            lemma_free_bound(*l, env, globals, start);
            if let Ok((ml, n1)) = resolve_spec(*l, env, globals, start) {
                lemma_free_bound(*r, env, globals, n1);
                if let Ok((mr, n2)) = resolve_spec(*r, env, globals, n1) {
                    let m = ExprModel::Binary(Box::new(ml), lower_kind(kind), Box::new(mr));
                    assert(free_scopes(m) == free_scopes(ml) + free_scopes(mr));
                    assert(free_scopes(compose_model(ml, mr, scope_of_id(next))) == free_scopes(ml) + free_scopes(mr));
                    assert forall|s: Scope| #[trigger] (free_scopes(ml) + free_scopes(mr)).contains(s) implies bound_in(env, s) by {
                        assert(free_scopes(ml).contains(s) || free_scopes(mr).contains(s));
                    }
                }
            }
        },
        level0::Expr::Referal(name) => {
            lemma_last_index_of(env, name.name());
            if let Some(i) = last_index_of(env, name.name()) {
                assert(bound_in(env, env[i as int].1.scope));
            }
        },
        level0::Expr::ProcCall { name, args } => {
            lemma_free_bound_all(args@, env, globals, next);
            if let Ok((ms, n1)) = resolve_all_spec(args@, env, globals, next) {
                assert(free_scopes(ExprModel::ProcCall(name.0.name(), ms)) == free_scopes_all(ms));
            }
        },
    }
}

pub proof fn lemma_free_bound_lambda(
    arg: level0::Binding,
    body: level0::Expr,
    env: Env,
    globals: Seq<Seq<char>>,
    next: nat,
)
    ensures
        resolve_lambda_spec(arg, body, env, globals, next) matches Ok((m, n)) ==> forall|s: Scope|
            #[trigger] free_scopes(m).contains(s) ==> bound_in(env, s),
    decreases body, 1nat,
{
    let a = scope_of_id(next);
    let inner = env.push((arg.0.name(), Binding { scope: a }));
    lemma_free_bound(body, inner, globals, next + 1);
    if let Ok((mb, n1)) = resolve_spec(body, inner, globals, next + 1) {
        assert forall|s: Scope| #[trigger] free_scopes(mb).remove(a).contains(s) implies bound_in(env, s) by {
            let i = choose|i: int| 0 <= i < inner.len() && inner[i].1.scope == s;
            assert(i < env.len());
            assert(env[i] == inner[i]);
        }
    }
}

pub proof fn lemma_free_bound_all(es: Seq<level0::Expr>, env: Env, globals: Seq<Seq<char>>, next: nat)
    ensures
        resolve_all_spec(es, env, globals, next) matches Ok((ms, n)) ==> forall|s: Scope|
            #[trigger] free_scopes_all(ms).contains(s) ==> bound_in(env, s),
    decreases es, 0nat,
{
    if es.len() > 0 {
        lemma_free_bound_all(es.drop_last(), env, globals, next);
        if let Ok((ms, n1)) = resolve_all_spec(es.drop_last(), env, globals, next) {
            lemma_free_bound(es.last(), env, globals, n1);
            if let Ok((m, n2)) = resolve_spec(es.last(), env, globals, n1) {
                assert(ms.push(m).drop_last() =~= ms);
                assert forall|s: Scope| #[trigger] free_scopes_all(ms.push(m)).contains(s) implies bound_in(env, s) by {
                    assert(free_scopes_all(ms).contains(s) || free_scopes(m).contains(s));
                }
            }
        }
    }
}

} // verus!
