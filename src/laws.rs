//! General properties of resolution and evaluation, proved over the models.
use crate::eval::{eval_all_spec, eval_spec, EvalError, ValueModel};
use crate::keyed_stack::{last_index_of, lemma_last_index_of};
use crate::level0;
use crate::level0::{ids_needed, ids_needed_all};
use crate::level1::{free_scopes, free_scopes_all, scope_of_id, BinaryOpKind, Binding, ExprModel, ProcModel};
use crate::resolver::ids_ordered;
use crate::pipeline::resolve_tops_spec;
use crate::resolve_spec::{
    param_env, resolve_top_spec, bound_in, compose_model, lemma_free_bound, lookup, resolve_all_spec, resolve_lambda_spec, resolve_spec, Env,
};
use crate::common::Scope;
use vstd::prelude::*;

verus! {

/// Built from number literals, `+` and `*` alone.
pub open spec fn is_arithmetic(e: level0::Expr) -> bool
    decreases e,
{
    match e {
        level0::Expr::Number(_) => true,
        level0::Expr::BinaryOperation(l, k, r) => (k == level0::BinaryOpKind::Addition || k
            == level0::BinaryOpKind::Multiplication) && is_arithmetic(*l) && is_arithmetic(*r),
        _ => false,
    }
}

/// Direct 32-bit wrapping arithmetic on the surface tree.
pub open spec fn arithmetic_value(e: level0::Expr) -> i32
    decreases e,
{
    match e {
        level0::Expr::BinaryOperation(l, k, r) => if k == level0::BinaryOpKind::Multiplication {
            arithmetic_value(*l).wrapping_mul(arithmetic_value(*r))
        } else {
            arithmetic_value(*l).wrapping_add(arithmetic_value(*r))
        },
        level0::Expr::Number(n) => n,
        _ => 0,
    }
}

/// An expression of literals, `+` and `*` resolves without taking an id and
/// evaluates to its direct arithmetic value.
pub proof fn lemma_arithmetic_agrees(
    e: level0::Expr,
    env: Env,
    globals: Seq<Seq<char>>,
    next: nat,
    values: Map<Scope, ValueModel>,
    procs: Seq<ProcModel>,
    depth: nat,
)
    requires
        is_arithmetic(e),
    ensures
        resolve_spec(e, env, globals, next) matches Ok((m, n)) && n == next && eval_spec(m, values, procs, depth)
            == Ok::<ValueModel, EvalError>(ValueModel::Number(arithmetic_value(e))),
    decreases e,
{
    if let level0::Expr::BinaryOperation(l, k, r) = e {
        lemma_arithmetic_agrees(*l, env, globals, next, values, procs, depth);
        lemma_arithmetic_agrees(*r, env, globals, next, values, procs, depth);
    }
}

/// `+` and `*` on a closure fail with a type mismatch; nothing is coerced.
pub proof fn lemma_arithmetic_rejects_functions(
    l: ExprModel,
    kind: BinaryOpKind,
    r: ExprModel,
    env: Map<Scope, ValueModel>,
    procs: Seq<ProcModel>,
    depth: nat,
)
    requires
        kind != BinaryOpKind::Call,
        eval_spec(l, env, procs, depth) is Ok,
        eval_spec(r, env, procs, depth) is Ok,
        eval_spec(l, env, procs, depth)->Ok_0 is Function || eval_spec(r, env, procs, depth)->Ok_0 is Function,
    ensures
        eval_spec(ExprModel::Binary(Box::new(l), kind, Box::new(r)), env, procs, depth) == Err::<
            ValueModel,
            EvalError,
        >(EvalError::TypeMismatch),
{
}

/// A call runs the closure's body with exactly the closure's captures and
/// its parameter bound to the argument: nothing of the caller's environment
/// reaches it, so one call cannot see the bindings of another.
pub proof fn lemma_call_isolated(
    l: ExprModel,
    r: ExprModel,
    env: Map<Scope, ValueModel>,
    procs: Seq<ProcModel>,
    depth: nat,
)
    requires
        depth > 0,
        eval_spec(l, env, procs, depth) matches Ok(ValueModel::Function { .. }),
        eval_spec(r, env, procs, depth) is Ok,
    ensures
        ({
            let f = eval_spec(l, env, procs, depth)->Ok_0;
            let v = eval_spec(r, env, procs, depth)->Ok_0;
            eval_spec(ExprModel::Binary(Box::new(l), BinaryOpKind::Call, Box::new(r)), env, procs, depth)
                == eval_spec(f->body, f->captures.insert(f->arg, v), procs, (depth - 1) as nat)
        }),
{
}

/// The names of an environment, outermost first.
pub open spec fn names_of(env: Env) -> Seq<Seq<char>> {
    env.map_values(|p: (Seq<char>, Binding)| p.0)
}

/// Every reference has an enclosing binding and every called procedure is
/// declared.
pub open spec fn names_resolve(e: level0::Expr, scope: Seq<Seq<char>>, globals: Seq<Seq<char>>) -> bool
    decreases e,
{
    match e {
        level0::Expr::Number(_) => true,
        level0::Expr::LambdaFunction { arg, body } => names_resolve(*body, scope.push(arg.0.name()), globals),
        level0::Expr::LetBinding { name, value, body } => names_resolve(*value, scope, globals)
            && names_resolve(*body, scope.push(name.0.name()), globals),
        level0::Expr::BinaryOperation(l, k, r) => names_resolve(*l, scope, globals) && names_resolve(
            *r,
            scope,
            globals,
        ),
        level0::Expr::Referal(x) => scope.contains(x.name()),
        level0::Expr::ProcCall { name, args } => globals.contains(name.0.name()) && names_resolve_all(
            args@,
            scope,
            globals,
        ),
    }
}

pub open spec fn names_resolve_all(es: Seq<level0::Expr>, scope: Seq<Seq<char>>, globals: Seq<Seq<char>>) -> bool
    decreases es,
{
    es.len() == 0 || (names_resolve_all(es.drop_last(), scope, globals) && names_resolve(es.last(), scope, globals))
}

proof fn lemma_names_of_push(env: Env, key: Seq<char>, b: Binding)
    ensures
        names_of(env.push((key, b))) == names_of(env).push(key),
{
    assert(names_of(env.push((key, b))) =~= names_of(env).push(key));
}

proof fn lemma_lookup_names(env: Env, x: Seq<char>)
    ensures
        lookup(env, x) is Some <==> names_of(env).contains(x),
{
    lemma_last_index_of(env, x);
    if let Some(i) = last_index_of(env, x) {
        assert(names_of(env)[i as int] == x);
    } else {
        if names_of(env).contains(x) {
            let j = choose|j: int| 0 <= j < names_of(env).len() && names_of(env)[j] == x;
            assert(env[j].0 == x);
        }
    }
}

/// Resolution succeeds exactly when every reference has an enclosing binding
/// and every called procedure is declared; otherwise it fails, before any
/// evaluation.
pub proof fn lemma_resolution_succeeds_iff_bound(e: level0::Expr, env: Env, globals: Seq<Seq<char>>, next: nat)
    ensures
        resolve_spec(e, env, globals, next) is Ok <==> names_resolve(e, names_of(env), globals),
    decreases e, 0nat,
{
    match e {
        level0::Expr::Number(_) => {},
        level0::Expr::LambdaFunction { arg, body } => {
            lemma_lambda_succeeds_iff_bound(arg, *body, env, globals, next);
        },
        level0::Expr::LetBinding { name, value, body } => {
            lemma_resolution_succeeds_iff_bound(*value, env, globals, next);
            if let Ok((v, n1)) = resolve_spec(*value, env, globals, next) {
                lemma_lambda_succeeds_iff_bound(name, *body, env, globals, n1);
            }
        },
        level0::Expr::BinaryOperation(l, kind, r) => {
            let start = if kind == level0::BinaryOpKind::Composition {
                next + 1
            } else {
                next
            };
            lemma_resolution_succeeds_iff_bound(*l, env, globals, start);
            if let Ok((ml, n1)) = resolve_spec(*l, env, globals, start) {
                lemma_resolution_succeeds_iff_bound(*r, env, globals, n1);
            }
        },
        level0::Expr::Referal(x) => {
            lemma_lookup_names(env, x.name());
        },
        level0::Expr::ProcCall { name, args } => {
            lemma_all_succeed_iff_bound(args@, env, globals, next);
        },
    }
}

proof fn lemma_lambda_succeeds_iff_bound(
    arg: level0::Binding,
    body: level0::Expr,
    env: Env,
    globals: Seq<Seq<char>>,
    next: nat,
)
    ensures
        resolve_lambda_spec(arg, body, env, globals, next) is Ok <==> names_resolve(
            body,
            names_of(env).push(arg.0.name()),
            globals,
        ),
    decreases body, 1nat,
{
    let b = Binding { scope: scope_of_id(next) };
    lemma_names_of_push(env, arg.0.name(), b);
    lemma_resolution_succeeds_iff_bound(body, env.push((arg.0.name(), b)), globals, next + 1);
}

proof fn lemma_all_succeed_iff_bound(es: Seq<level0::Expr>, env: Env, globals: Seq<Seq<char>>, next: nat)
    ensures
        resolve_all_spec(es, env, globals, next) is Ok <==> names_resolve_all(es, names_of(env), globals),
    decreases es, 0nat,
{
    if es.len() > 0 {
        lemma_all_succeed_iff_bound(es.drop_last(), env, globals, next);
        if let Ok((ms, n1)) = resolve_all_spec(es.drop_last(), env, globals, next) {
            lemma_resolution_succeeds_iff_bound(es.last(), env, globals, n1);
        }
    }
}

/// The position of the innermost binding of `x` among `names`.
pub open spec fn last_position(names: Seq<Seq<char>>, x: Seq<char>) -> Option<nat>
    decreases names.len(),
{
    if names.len() == 0 {
        None
    } else if names.last() == x {
        Some((names.len() - 1) as nat)
    } else {
        last_position(names.drop_last(), x)
    }
}

/// `e1` and `e2` differ at most in the names of their bound variables: with
/// `n1` and `n2` the names bound around them, every reference points at the
/// binding in the same position, free names are equal, and everything else
/// is the same.
pub open spec fn alpha_equiv(e1: level0::Expr, e2: level0::Expr, n1: Seq<Seq<char>>, n2: Seq<Seq<char>>) -> bool
    decreases e1,
{
    match (e1, e2) {
        (level0::Expr::Number(a), level0::Expr::Number(b)) => a == b,
        (
            level0::Expr::LambdaFunction { arg: a1, body: b1 },
            level0::Expr::LambdaFunction { arg: a2, body: b2 },
        ) => alpha_equiv(*b1, *b2, n1.push(a1.0.name()), n2.push(a2.0.name())),
        (
            level0::Expr::LetBinding { name: x1, value: v1, body: b1 },
            level0::Expr::LetBinding { name: x2, value: v2, body: b2 },
        ) => alpha_equiv(*v1, *v2, n1, n2) && alpha_equiv(*b1, *b2, n1.push(x1.0.name()), n2.push(x2.0.name())),
        (level0::Expr::BinaryOperation(l1, k1, r1), level0::Expr::BinaryOperation(l2, k2, r2)) => k1 == k2
            && alpha_equiv(*l1, *l2, n1, n2) && alpha_equiv(*r1, *r2, n1, n2),
        (level0::Expr::Referal(x), level0::Expr::Referal(y)) => last_position(n1, x.name()) == last_position(
            n2,
            y.name(),
        ) && (last_position(n1, x.name()) is None ==> x == y),
        (level0::Expr::ProcCall { name: f1, args: a1 }, level0::Expr::ProcCall { name: f2, args: a2 }) => f1 == f2
            && alpha_equiv_all(a1@, a2@, n1, n2),
        _ => false,
    }
}

pub open spec fn alpha_equiv_all(s1: Seq<level0::Expr>, s2: Seq<level0::Expr>, n1: Seq<Seq<char>>, n2: Seq<Seq<char>>) -> bool
    decreases s1,
{
    s1.len() == s2.len() && (s1.len() == 0 || (alpha_equiv_all(s1.drop_last(), s2.drop_last(), n1, n2)
        && alpha_equiv(s1.last(), s2.last(), n1, n2)))
}

proof fn lemma_last_position(env: Env, x: Seq<char>)
    ensures
        last_index_of(env, x) == last_position(names_of(env), x),
    decreases env.len(),
{
    if env.len() > 0 {
        assert(names_of(env.drop_last()) =~= names_of(env).drop_last());
        lemma_last_position(env.drop_last(), x);
    }
}

/// Two environments that bind the same scopes at the same positions.
pub open spec fn same_bindings(env1: Env, env2: Env) -> bool {
    env1.len() == env2.len() && forall|i: int| 0 <= i < env1.len() ==> #[trigger] env1[i].1 == env2[i].1
}

/// Renaming bound variables changes nothing in the resolved tree: the ids,
/// the capture sets and so what evaluation gives all stay the same.
pub proof fn lemma_alpha_renaming(
    e1: level0::Expr,
    e2: level0::Expr,
    env1: Env,
    env2: Env,
    globals: Seq<Seq<char>>,
    next: nat,
)
    requires
        alpha_equiv(e1, e2, names_of(env1), names_of(env2)),
        same_bindings(env1, env2),
    ensures
        resolve_spec(e1, env1, globals, next) == resolve_spec(e2, env2, globals, next),
    decreases e1, 0nat,
{
    match (e1, e2) {
        (
            level0::Expr::LambdaFunction { arg: a1, body: b1 },
            level0::Expr::LambdaFunction { arg: a2, body: b2 },
        ) => {
            lemma_alpha_lambda(a1, *b1, a2, *b2, env1, env2, globals, next);
        },
        (
            level0::Expr::LetBinding { name: x1, value: v1, body: b1 },
            level0::Expr::LetBinding { name: x2, value: v2, body: b2 },
        ) => {
            lemma_alpha_renaming(*v1, *v2, env1, env2, globals, next);
            if let Ok((v, n1)) = resolve_spec(*v1, env1, globals, next) {
                lemma_alpha_lambda(x1, *b1, x2, *b2, env1, env2, globals, n1);
            }
        },
        (level0::Expr::BinaryOperation(l1, k1, r1), level0::Expr::BinaryOperation(l2, k2, r2)) => {
            let start = if k1 == level0::BinaryOpKind::Composition {
                next + 1
            } else {
                next
            };
            lemma_alpha_renaming(*l1, *l2, env1, env2, globals, start);
            if let Ok((ml, n1)) = resolve_spec(*l1, env1, globals, start) {
                lemma_alpha_renaming(*r1, *r2, env1, env2, globals, n1);
            }
        },
        (level0::Expr::Referal(x), level0::Expr::Referal(y)) => {
            lemma_last_position(env1, x.name());
            lemma_last_position(env2, y.name());
            lemma_last_index_of(env1, x.name());
        },
        (level0::Expr::ProcCall { name: f1, args: a1 }, level0::Expr::ProcCall { name: f2, args: a2 }) => {
            lemma_alpha_all(a1@, a2@, env1, env2, globals, next);
        },
        _ => {},
    }
}

proof fn lemma_alpha_lambda(
    a1: level0::Binding,
    b1: level0::Expr,
    a2: level0::Binding,
    b2: level0::Expr,
    env1: Env,
    env2: Env,
    globals: Seq<Seq<char>>,
    next: nat,
)
    requires
        alpha_equiv(b1, b2, names_of(env1).push(a1.0.name()), names_of(env2).push(a2.0.name())),
        same_bindings(env1, env2),
    ensures
        resolve_lambda_spec(a1, b1, env1, globals, next) == resolve_lambda_spec(a2, b2, env2, globals, next),
    decreases b1, 1nat,
{
    let b = Binding { scope: scope_of_id(next) };
    let inner1 = env1.push((a1.0.name(), b));
    let inner2 = env2.push((a2.0.name(), b));
    lemma_names_of_push(env1, a1.0.name(), b);
    lemma_names_of_push(env2, a2.0.name(), b);
    assert forall|i: int| 0 <= i < inner1.len() implies #[trigger] inner1[i].1 == inner2[i].1 by {
        if i < env1.len() {
            assert(inner1[i] == env1[i]);
            assert(inner2[i] == env2[i]);
        }
    }
    lemma_alpha_renaming(b1, b2, inner1, inner2, globals, next + 1);
}

proof fn lemma_alpha_all(
    s1: Seq<level0::Expr>,
    s2: Seq<level0::Expr>,
    env1: Env,
    env2: Env,
    globals: Seq<Seq<char>>,
    next: nat,
)
    requires
        alpha_equiv_all(s1, s2, names_of(env1), names_of(env2)),
        same_bindings(env1, env2),
    ensures
        resolve_all_spec(s1, env1, globals, next) == resolve_all_spec(s2, env2, globals, next),
    decreases s1, 0nat,
{
    if s1.len() > 0 {
        lemma_alpha_all(s1.drop_last(), s2.drop_last(), env1, env2, globals, next);
        if let Ok((ms, n1)) = resolve_all_spec(s1.drop_last(), env1, globals, next) {
            lemma_alpha_renaming(s1.last(), s2.last(), env1, env2, globals, n1);
        }
    }
}

/// A result that did not run out of depth stays the same with more depth.
pub proof fn lemma_depth_monotone(
    e: ExprModel,
    env: Map<Scope, ValueModel>,
    procs: Seq<ProcModel>,
    d1: nat,
    d2: nat,
)
    requires
        d1 <= d2,
        eval_spec(e, env, procs, d1) != Err::<ValueModel, EvalError>(EvalError::DepthExceeded),
    ensures
        eval_spec(e, env, procs, d2) == eval_spec(e, env, procs, d1),
    decreases d1, e,
{
    match e {
        ExprModel::Binary(l, kind, r) => {
            if eval_spec(*l, env, procs, d1) != Err::<ValueModel, EvalError>(EvalError::DepthExceeded) {
                lemma_depth_monotone(*l, env, procs, d1, d2);
            }
            if eval_spec(*r, env, procs, d1) != Err::<ValueModel, EvalError>(EvalError::DepthExceeded) {
                lemma_depth_monotone(*r, env, procs, d1, d2);
            }
            if kind == BinaryOpKind::Call {
                if let Ok(ValueModel::Function { arg, body, captures }) = eval_spec(*l, env, procs, d1) {
                    if let Ok(v) = eval_spec(*r, env, procs, d1) {
                        if d1 > 0 {
                            lemma_depth_monotone(body, captures.insert(arg, v), procs, (d1 - 1) as nat, (d2 - 1) as nat);
                        }
                    }
                }
            }
        },
        ExprModel::ProcCall(name, args) => {
            if eval_all_spec(args, env, procs, d1) != Err::<Seq<ValueModel>, EvalError>(EvalError::DepthExceeded) {
                lemma_depth_monotone_all(args, env, procs, d1, d2);
            }
            if let Ok(vs) = eval_all_spec(args, env, procs, d1) {
                if let Some(p) = crate::eval::find_proc(procs, name) {
                    if d1 > 0 && p.params.len() == vs.len() {
                        lemma_depth_monotone(
                            p.body,
                            crate::eval::bind_params(p.params, vs),
                            procs,
                            (d1 - 1) as nat,
                            (d2 - 1) as nat,
                        );
                    }
                }
            }
        },
        _ => {},
    }
}

proof fn lemma_depth_monotone_all(
    es: Seq<ExprModel>,
    env: Map<Scope, ValueModel>,
    procs: Seq<ProcModel>,
    d1: nat,
    d2: nat,
)
    requires
        d1 <= d2,
        eval_all_spec(es, env, procs, d1) != Err::<Seq<ValueModel>, EvalError>(EvalError::DepthExceeded),
    ensures
        eval_all_spec(es, env, procs, d2) == eval_all_spec(es, env, procs, d1),
    decreases d1, es,
{
    if es.len() > 0 {
        if eval_all_spec(es.drop_last(), env, procs, d1) != Err::<Seq<ValueModel>, EvalError>(EvalError::DepthExceeded) {
            lemma_depth_monotone_all(es.drop_last(), env, procs, d1, d2);
        }
        if eval_spec(es.last(), env, procs, d1) != Err::<ValueModel, EvalError>(EvalError::DepthExceeded) {
            lemma_depth_monotone(es.last(), env, procs, d1, d2);
        }
    }
}

/// Two environments that agree on the scopes `s`.
pub open spec fn agree_on(env1: Map<Scope, ValueModel>, env2: Map<Scope, ValueModel>, s: Set<Scope>) -> bool {
    forall|x: Scope|
        #[trigger] s.contains(x) ==> env1.dom().contains(x) == env2.dom().contains(x) && (env1.dom().contains(x)
            ==> env1[x] == env2[x])
}

/// Evaluation reads the environment only at the expression's free scopes.
pub proof fn lemma_env_agreement(
    e: ExprModel,
    env1: Map<Scope, ValueModel>,
    env2: Map<Scope, ValueModel>,
    procs: Seq<ProcModel>,
    depth: nat,
)
    requires
        agree_on(env1, env2, free_scopes(e)),
    ensures
        eval_spec(e, env1, procs, depth) == eval_spec(e, env2, procs, depth),
    decreases depth, e,
{
    match e {
        ExprModel::Lambda { arg, body, captured } => {
            assert(free_scopes(e) == captured);
            assert forall|x: Scope| #[trigger] captured.contains(x) implies env1.dom().contains(x) == env2.dom().contains(x)
                && (env1.dom().contains(x) ==> env1[x] == env2[x]) by {
                assert(free_scopes(e).contains(x));
            }
            assert(env1.restrict(captured) =~= env2.restrict(captured));
            if captured.subset_of(env1.dom()) {
                assert(captured.subset_of(env2.dom()));
            }
            if captured.subset_of(env2.dom()) {
                assert(captured.subset_of(env1.dom()));
            }
        },
        ExprModel::Referal(x) => {
            assert(free_scopes(e).contains(x));
        },
        ExprModel::Binary(l, kind, r) => {
            assert(free_scopes(e) == free_scopes(*l) + free_scopes(*r));
            assert forall|x: Scope| #[trigger] free_scopes(*l).contains(x) implies free_scopes(e).contains(x) by {}
            assert forall|x: Scope| #[trigger] free_scopes(*r).contains(x) implies free_scopes(e).contains(x) by {}
            lemma_env_agreement(*l, env1, env2, procs, depth);
            lemma_env_agreement(*r, env1, env2, procs, depth);
        },
        ExprModel::ProcCall(name, args) => {
            lemma_env_agreement_all(args, env1, env2, procs, depth);
        },
        _ => {},
    }
}

proof fn lemma_env_agreement_all(
    es: Seq<ExprModel>,
    env1: Map<Scope, ValueModel>,
    env2: Map<Scope, ValueModel>,
    procs: Seq<ProcModel>,
    depth: nat,
)
    requires
        agree_on(env1, env2, free_scopes_all(es)),
    ensures
        eval_all_spec(es, env1, procs, depth) == eval_all_spec(es, env2, procs, depth),
    decreases depth, es,
{
    if es.len() > 0 {
        assert forall|x: Scope| #[trigger] free_scopes_all(es.drop_last()).contains(x) implies free_scopes_all(es).contains(x) by {}
        assert forall|x: Scope| #[trigger] free_scopes(es.last()).contains(x) implies free_scopes_all(es).contains(x) by {}
        lemma_env_agreement_all(es.drop_last(), env1, env2, procs, depth);
        lemma_env_agreement(es.last(), env1, env2, procs, depth);
    }
}

/// `f . g` applied to `x` evaluates as `f (g x)`: where both evaluate, they
/// give the same value. `point` is the parameter of the composed lambda,
/// which neither `f` nor `g` reads.
pub proof fn lemma_compose_applied(
    f: ExprModel,
    g: ExprModel,
    x: ExprModel,
    point: Scope,
    env: Map<Scope, ValueModel>,
    procs: Seq<ProcModel>,
    d1: nat,
    d2: nat,
)
    requires
        !free_scopes(f).contains(point),
        !free_scopes(g).contains(point),
        eval_spec(
            ExprModel::Binary(Box::new(compose_model(f, g, point)), BinaryOpKind::Call, Box::new(x)),
            env,
            procs,
            d1,
        ) is Ok,
        eval_spec(
            ExprModel::Binary(
                Box::new(f),
                BinaryOpKind::Call,
                Box::new(ExprModel::Binary(Box::new(g), BinaryOpKind::Call, Box::new(x))),
            ),
            env,
            procs,
            d2,
        ) is Ok,
    ensures
        eval_spec(
            ExprModel::Binary(Box::new(compose_model(f, g, point)), BinaryOpKind::Call, Box::new(x)),
            env,
            procs,
            d1,
        ) == eval_spec(
            ExprModel::Binary(
                Box::new(f),
                BinaryOpKind::Call,
                Box::new(ExprModel::Binary(Box::new(g), BinaryOpKind::Call, Box::new(x))),
            ),
            env,
            procs,
            d2,
        ),
{
    let c = compose_model(f, g, point);
    let inner = ExprModel::Binary(Box::new(g), BinaryOpKind::Call, Box::new(ExprModel::Referal(point)));
    let body = ExprModel::Binary(Box::new(f), BinaryOpKind::Call, Box::new(inner));
    let gx = ExprModel::Binary(Box::new(g), BinaryOpKind::Call, Box::new(x));
    let composed = ExprModel::Binary(Box::new(c), BinaryOpKind::Call, Box::new(x));
    let direct = ExprModel::Binary(Box::new(f), BinaryOpKind::Call, Box::new(gx));
    let fs = free_scopes(f) + free_scopes(g);
    let big = d1 + d2;
    // the composed side: closure creation, the argument, then the body
    assert(eval_spec(c, env, procs, d1) == Ok::<ValueModel, EvalError>(
        ValueModel::Function { arg: point, body, captures: env.restrict(fs) },
    ));
    let xv = eval_spec(x, env, procs, d1)->Ok_0;
    assert(d1 > 0);
    let env2 = env.restrict(fs).insert(point, xv);
    assert(eval_spec(composed, env, procs, d1) == eval_spec(body, env2, procs, (d1 - 1) as nat));
    assert(agree_on(env2, env, free_scopes(f)));
    assert(agree_on(env2, env, free_scopes(g)));
    lemma_env_agreement(f, env2, env, procs, (d1 - 1) as nat);
    lemma_env_agreement(g, env2, env, procs, (d1 - 1) as nat);
    let fv = eval_spec(f, env, procs, (d1 - 1) as nat)->Ok_0;
    let gv = eval_spec(g, env, procs, (d1 - 1) as nat)->Ok_0;
    assert(eval_spec(ExprModel::Referal(point), env2, procs, (d1 - 1) as nat) == Ok::<ValueModel, EvalError>(xv));
    // bring every piece to the same depth
    lemma_depth_monotone(f, env, procs, (d1 - 1) as nat, big);
    lemma_depth_monotone(f, env, procs, d2, big);
    lemma_depth_monotone(g, env, procs, (d1 - 1) as nat, big);
    lemma_depth_monotone(g, env, procs, d2, big);
    lemma_depth_monotone(x, env, procs, d1, big);
    lemma_depth_monotone(x, env, procs, d2, big);
    assert(eval_spec(f, env, procs, d2) == Ok::<ValueModel, EvalError>(fv));
    assert(eval_spec(g, env, procs, d2) == Ok::<ValueModel, EvalError>(gv));
    assert(eval_spec(x, env, procs, d2) == Ok::<ValueModel, EvalError>(xv));
    assert(d1 - 1 > 0);
    assert(d2 > 0);
    let gr = eval_spec(gv->body, gv->captures.insert(gv->arg, xv), procs, (d1 - 2) as nat);
    lemma_depth_monotone(gv->body, gv->captures.insert(gv->arg, xv), procs, (d1 - 2) as nat, big);
    lemma_depth_monotone(gv->body, gv->captures.insert(gv->arg, xv), procs, (d2 - 1) as nat, big);
    assert(eval_spec(inner, env2, procs, (d1 - 1) as nat) == gr);
    assert(eval_spec(gx, env, procs, d2) == eval_spec(gv->body, gv->captures.insert(gv->arg, xv), procs, (d2 - 1) as nat));
    let gxv = gr->Ok_0;
    lemma_depth_monotone(fv->body, fv->captures.insert(fv->arg, gxv), procs, (d1 - 2) as nat, big);
    lemma_depth_monotone(fv->body, fv->captures.insert(fv->arg, gxv), procs, (d2 - 1) as nat, big);
}

/// The parameter the resolver gives a composition is read by neither side,
/// so every resolved composition meets the premise of `lemma_compose_applied`.
pub proof fn lemma_composition_point_fresh(
    f: level0::Expr,
    g: level0::Expr,
    env: Env,
    globals: Seq<Seq<char>>,
    next: nat,
)
    requires
        ids_ordered(env, next),
        next < usize::MAX,
    ensures
        resolve_spec(
            level0::Expr::BinaryOperation(Box::new(f), level0::BinaryOpKind::Composition, Box::new(g)),
            env,
            globals,
            next,
        ) matches Ok((m, n)) ==> exists|mf: ExprModel, mg: ExprModel|
            m == compose_model(mf, mg, scope_of_id(next)) && !free_scopes(mf).contains(scope_of_id(next))
                && !free_scopes(mg).contains(scope_of_id(next)),
{
    let p = scope_of_id(next);
    lemma_free_bound(f, env, globals, next + 1);
    if let Ok((mf, n1)) = resolve_spec(f, env, globals, next + 1) {
        lemma_free_bound(g, env, globals, n1);
        if let Ok((mg, n2)) = resolve_spec(g, env, globals, n1) {
            assert forall|s: Scope| #[trigger] free_scopes(mf).contains(s) || free_scopes(mg).contains(s) implies s != p by {
                assert(bound_in(env, s));
                let i = choose|i: int| 0 <= i < env.len() && env[i].1.scope == s;
                assert((env[i].1.scope.0.0 as nat) < next);
            }
            assert(!free_scopes(mf).contains(p));
            assert(!free_scopes(mg).contains(p));
        }
    }
}

/// The scopes a resolved expression binds, in tree order.
pub open spec fn binders(m: ExprModel) -> Seq<Scope>
    decreases m,
{
    match m {
        ExprModel::Lambda { arg, body, .. } => seq![arg] + binders(*body),
        ExprModel::Binary(l, _, r) => binders(*l) + binders(*r),
        ExprModel::ProcCall(_, args) => binders_all(args),
        _ => Seq::empty(),
    }
}

pub open spec fn binders_all(ms: Seq<ExprModel>) -> Seq<Scope>
    decreases ms,
{
    if ms.len() == 0 {
        Seq::empty()
    } else {
        binders_all(ms.drop_last()) + binders(ms.last())
    }
}

/// Distinct scopes whose ids lie in `lo..hi`.
pub open spec fn fresh_in(s: Seq<Scope>, lo: nat, hi: nat) -> bool {
    &&& s.no_duplicates()
    &&& forall|i: int| 0 <= i < s.len() ==> lo <= (#[trigger] s[i].0.0 as nat) < hi
}

proof fn lemma_fresh_concat(s1: Seq<Scope>, s2: Seq<Scope>, lo1: nat, hi1: nat, lo2: nat, hi2: nat)
    requires
        fresh_in(s1, lo1, hi1),
        fresh_in(s2, lo2, hi2),
        hi1 <= lo2 || hi2 <= lo1,
    ensures
        fresh_in(s1 + s2, if lo1 < lo2 { lo1 } else { lo2 }, if hi1 < hi2 { hi2 } else { hi1 }),
{
    let s = s1 + s2;
    assert forall|i: int, j: int| 0 <= i < s.len() && 0 <= j < s.len() && i != j implies s[i] != s[j] by {
        if i < s1.len() && j >= s1.len() {
            assert(s[j] == s2[j - s1.len()]);
            assert(s[i].0.0 != s[j].0.0);
        } else if j < s1.len() && i >= s1.len() {
            assert(s[i] == s2[i - s1.len()]);
            assert(s[i].0.0 != s[j].0.0);
        } else if i >= s1.len() {
            assert(s[i] == s2[i - s1.len()]);
            assert(s[j] == s2[j - s1.len()]);
        }
    }
    assert forall|i: int| 0 <= i < s.len() implies (if lo1 < lo2 { lo1 } else { lo2 }) <= (#[trigger] s[i].0.0 as nat)
        < (if hi1 < hi2 { hi2 } else { hi1 }) by {
        if i >= s1.len() {
            assert(s[i] == s2[i - s1.len()]);
        }
    }
}

/// Every binding gets a scope of its own: the scopes a resolved expression
/// binds are the ids `next..n` handed out while resolving it, each once.
pub proof fn lemma_scopes_unique(e: level0::Expr, env: Env, globals: Seq<Seq<char>>, next: nat)
    requires
        next + ids_needed(e) <= usize::MAX,
    ensures
        resolve_spec(e, env, globals, next) matches Ok((m, n)) ==> n == next + ids_needed(e) && binders(m).len()
            == ids_needed(e) && fresh_in(binders(m), next, n),
    decreases e, 0nat,
{
    match e {
        level0::Expr::Number(_) => {
            assert(fresh_in(Seq::<Scope>::empty(), next, next));
        },
        level0::Expr::Referal(_) => {
            assert(fresh_in(Seq::<Scope>::empty(), next, next));
        },
        level0::Expr::LambdaFunction { arg, body } => {
            lemma_lambda_scopes_unique(arg, *body, env, globals, next);
        },
        level0::Expr::LetBinding { name, value, body } => {
            lemma_scopes_unique(*value, env, globals, next);
            if let Ok((v, n1)) = resolve_spec(*value, env, globals, next) {
                lemma_lambda_scopes_unique(name, *body, env, globals, n1);
                if let Ok((f, n2)) = resolve_lambda_spec(name, *body, env, globals, n1) {
                    lemma_fresh_concat(binders(f), binders(v), n1, n2, next, n1);
                    let m = ExprModel::Binary(Box::new(f), BinaryOpKind::Call, Box::new(v));
                    assert(binders(m) == binders(f) + binders(v));
                }
            }
        },
        level0::Expr::BinaryOperation(l, kind, r) => {
            let composed = kind == level0::BinaryOpKind::Composition;
            let start = if composed {
                next + 1
            } else {
                next
            };
            lemma_scopes_unique(*l, env, globals, start);
            if let Ok((ml, n1)) = resolve_spec(*l, env, globals, start) {
                lemma_scopes_unique(*r, env, globals, n1);
                if let Ok((mr, n2)) = resolve_spec(*r, env, globals, n1) {
                    lemma_fresh_concat(binders(ml), binders(mr), start, n1, n1, n2);
                    if composed {
                        let p = scope_of_id(next);
                        let inner = ExprModel::Binary(Box::new(mr), BinaryOpKind::Call, Box::new(ExprModel::Referal(p)));
                        assert(binders(ExprModel::Referal(p)) == Seq::<Scope>::empty());
                        assert(binders(inner) =~= binders(mr));
                        let body = ExprModel::Binary(Box::new(ml), BinaryOpKind::Call, Box::new(inner));
                        assert(binders(body) =~= binders(ml) + binders(mr));
                        assert(fresh_in(seq![p], next, next + 1));
                        lemma_fresh_concat(seq![p], binders(body), next, next + 1, next + 1, n2);
                        assert(binders(compose_model(ml, mr, p)) == seq![p] + binders(body));
                    } else {
                        let m = ExprModel::Binary(Box::new(ml), crate::resolve_spec::lower_kind(kind), Box::new(mr));
                        assert(binders(m) == binders(ml) + binders(mr));
                    }
                }
            }
        },
        level0::Expr::ProcCall { name, args } => {
            lemma_all_scopes_unique(args@, env, globals, next);
        },
    }
}

proof fn lemma_lambda_scopes_unique(
    arg: level0::Binding,
    body: level0::Expr,
    env: Env,
    globals: Seq<Seq<char>>,
    next: nat,
)
    requires
        next + 1 + ids_needed(body) <= usize::MAX,
    ensures
        resolve_lambda_spec(arg, body, env, globals, next) matches Ok((m, n)) ==> n == next + 1 + ids_needed(body)
            && binders(m).len() == 1 + ids_needed(body) && fresh_in(binders(m), next, n),
    decreases body, 1nat,
{
    let a = scope_of_id(next);
    let inner = env.push((arg.0.name(), Binding { scope: a }));
    lemma_scopes_unique(body, inner, globals, next + 1);
    if let Ok((mb, n1)) = resolve_spec(body, inner, globals, next + 1) {
        assert(fresh_in(seq![a], next, next + 1));
        lemma_fresh_concat(seq![a], binders(mb), next, next + 1, next + 1, n1);
    }
}

proof fn lemma_all_scopes_unique(es: Seq<level0::Expr>, env: Env, globals: Seq<Seq<char>>, next: nat)
    requires
        next + ids_needed_all(es) <= usize::MAX,
    ensures
        resolve_all_spec(es, env, globals, next) matches Ok((ms, n)) ==> n == next + ids_needed_all(es)
            && binders_all(ms).len() == ids_needed_all(es) && fresh_in(binders_all(ms), next, n),
    decreases es, 0nat,
{
    if es.len() == 0 {
        assert(fresh_in(Seq::<Scope>::empty(), next, next));
    } else {
        lemma_all_scopes_unique(es.drop_last(), env, globals, next);
        if let Ok((ms, n1)) = resolve_all_spec(es.drop_last(), env, globals, next) {
            lemma_scopes_unique(es.last(), env, globals, n1);
            if let Ok((m, n2)) = resolve_spec(es.last(), env, globals, n1) {
                lemma_fresh_concat(binders_all(ms), binders(m), next, n1, n1, n2);
                assert(ms.push(m).drop_last() =~= ms);
            }
        }
    }
}

/// Every reference in `m` names a scope of `bound` or the parameter of a
/// lambda around it.
pub open spec fn references_bound(m: ExprModel, bound: Set<Scope>) -> bool
    decreases m,
{
    match m {
        ExprModel::Number(_) => true,
        ExprModel::Lambda { arg, body, .. } => references_bound(*body, bound.insert(arg)),
        ExprModel::Binary(l, _, r) => references_bound(*l, bound) && references_bound(*r, bound),
        ExprModel::Referal(s) => bound.contains(s),
        ExprModel::ProcCall(_, args) => references_bound_all(args, bound),
    }
}

pub open spec fn references_bound_all(ms: Seq<ExprModel>, bound: Set<Scope>) -> bool
    decreases ms,
{
    ms.len() == 0 || (references_bound_all(ms.drop_last(), bound) && references_bound(ms.last(), bound))
}

/// The scopes an environment binds.
pub open spec fn env_scopes(env: Env) -> Set<Scope> {
    Set::new(|s: Scope| bound_in(env, s))
}

proof fn lemma_references_bound_grow(m: ExprModel, a: Set<Scope>, b: Set<Scope>)
    requires
        references_bound(m, a),
        a.subset_of(b),
    ensures
        references_bound(m, b),
    decreases m,
{
    match m {
        ExprModel::Lambda { arg, body, .. } => {
            lemma_references_bound_grow(*body, a.insert(arg), b.insert(arg));
        },
        ExprModel::Binary(l, _, r) => {
            lemma_references_bound_grow(*l, a, b);
            lemma_references_bound_grow(*r, a, b);
        },
        ExprModel::ProcCall(_, args) => {
            lemma_references_bound_grow_all(args, a, b);
        },
        _ => {},
    }
}

proof fn lemma_references_bound_grow_all(ms: Seq<ExprModel>, a: Set<Scope>, b: Set<Scope>)
    requires
        references_bound_all(ms, a),
        a.subset_of(b),
    ensures
        references_bound_all(ms, b),
    decreases ms,
{
    if ms.len() > 0 {
        lemma_references_bound_grow_all(ms.drop_last(), a, b);
        lemma_references_bound_grow(ms.last(), a, b);
    }
}

/// Resolution points every reference at a binding that encloses it: one of
/// the environment or a lambda's parameter around the reference.
pub proof fn lemma_references_dominated(e: level0::Expr, env: Env, globals: Seq<Seq<char>>, next: nat)
    ensures
        resolve_spec(e, env, globals, next) matches Ok((m, n)) ==> references_bound(m, env_scopes(env)),
    decreases e, 0nat,
{
    match e {
        level0::Expr::LambdaFunction { arg, body } => {
            lemma_lambda_references_dominated(arg, *body, env, globals, next);
        },
        level0::Expr::LetBinding { name, value, body } => {
            lemma_references_dominated(*value, env, globals, next);
            if let Ok((v, n1)) = resolve_spec(*value, env, globals, next) {
                lemma_lambda_references_dominated(name, *body, env, globals, n1);
                if let Ok((f, n2)) = resolve_lambda_spec(name, *body, env, globals, n1) {
                    assert(references_bound(
                        ExprModel::Binary(Box::new(f), BinaryOpKind::Call, Box::new(v)),
                        env_scopes(env),
                    ));
                }
            }
        },
        level0::Expr::BinaryOperation(l, kind, r) => {
            let start = if kind == level0::BinaryOpKind::Composition {
                next + 1
            } else {
                next
            };
            lemma_references_dominated(*l, env, globals, start);
            if let Ok((ml, n1)) = resolve_spec(*l, env, globals, start) {
                lemma_references_dominated(*r, env, globals, n1);
                if let Ok((mr, n2)) = resolve_spec(*r, env, globals, n1) {
                    if kind == level0::BinaryOpKind::Composition {
                        let p = scope_of_id(next);
                        let bound = env_scopes(env);
                        lemma_references_bound_grow(ml, bound, bound.insert(p));
                        lemma_references_bound_grow(mr, bound, bound.insert(p));
                        let inner = ExprModel::Binary(Box::new(mr), BinaryOpKind::Call, Box::new(ExprModel::Referal(p)));
                        assert(references_bound(ExprModel::Referal(p), bound.insert(p)));
                        assert(references_bound(inner, bound.insert(p)));
                        let fbody = ExprModel::Binary(Box::new(ml), BinaryOpKind::Call, Box::new(inner));
                        assert(references_bound(fbody, bound.insert(p)));
                        assert(references_bound(compose_model(ml, mr, p), bound));
                    } else {
                        assert(references_bound(
                            ExprModel::Binary(Box::new(ml), crate::resolve_spec::lower_kind(kind), Box::new(mr)),
                            env_scopes(env),
                        ));
                    }
                }
            }
        },
        level0::Expr::Referal(x) => {
            lemma_last_index_of(env, x.name());
            if let Some(i) = last_index_of(env, x.name()) {
                assert(bound_in(env, env[i as int].1.scope));
                assert(env_scopes(env).contains(env[i as int].1.scope));
            }
        },
        level0::Expr::ProcCall { name, args } => {
            lemma_all_references_dominated(args@, env, globals, next);
            if let Ok((ms, n1)) = resolve_all_spec(args@, env, globals, next) {
                assert(references_bound(ExprModel::ProcCall(name.0.name(), ms), env_scopes(env))
                    == references_bound_all(ms, env_scopes(env)));
            }
        },
        _ => {},
    }
}

proof fn lemma_lambda_references_dominated(
    arg: level0::Binding,
    body: level0::Expr,
    env: Env,
    globals: Seq<Seq<char>>,
    next: nat,
)
    ensures
        resolve_lambda_spec(arg, body, env, globals, next) matches Ok((m, n)) ==> references_bound(m, env_scopes(env)),
    decreases body, 1nat,
{
    let a = scope_of_id(next);
    let inner = env.push((arg.0.name(), Binding { scope: a }));
    lemma_references_dominated(body, inner, globals, next + 1);
    assert forall|s: Scope| #[trigger] env_scopes(inner).contains(s) == env_scopes(env).insert(a).contains(s) by {
        if bound_in(inner, s) {
            let i = choose|i: int| 0 <= i < inner.len() && inner[i].1.scope == s;
            if i < env.len() {
                assert(inner[i] == env[i]);
            }
        }
        if bound_in(env, s) {
            let i = choose|i: int| 0 <= i < env.len() && env[i].1.scope == s;
            assert(inner[i] == env[i]);
        }
        if s == a {
            assert(inner[env.len() as int].1.scope == a);
        }
    }
    assert(env_scopes(inner) =~= env_scopes(env).insert(a));
}

proof fn lemma_all_references_dominated(es: Seq<level0::Expr>, env: Env, globals: Seq<Seq<char>>, next: nat)
    ensures
        resolve_all_spec(es, env, globals, next) matches Ok((ms, n)) ==> references_bound_all(ms, env_scopes(env)),
    decreases es, 0nat,
{
    if es.len() > 0 {
        lemma_all_references_dominated(es.drop_last(), env, globals, next);
        if let Ok((ms, n1)) = resolve_all_spec(es.drop_last(), env, globals, next) {
            lemma_references_dominated(es.last(), env, globals, n1);
            if let Ok((m, n2)) = resolve_spec(es.last(), env, globals, n1) {
                assert(ms.push(m).drop_last() =~= ms);
            }
        }
    }
}

/// A whole expression with a reference that no binding encloses, or a call
/// of an undeclared procedure, fails to resolve; `lower_all_the_way` then
/// returns that error without evaluating anything.
pub proof fn lemma_unbound_name_stops_lowering(e: level0::Expr)
    ensures
        !names_resolve(e, Seq::empty(), Seq::empty()) ==> resolve_spec(e, Seq::empty(), Seq::empty(), 0) is Err,
{
    assert(names_of(Seq::<(Seq<char>, Binding)>::empty()) =~= Seq::<Seq<char>>::empty());
    lemma_resolution_succeeds_iff_bound(e, Seq::empty(), Seq::empty(), 0);
}

/// The names of a procedure's parameters, in order.
pub open spec fn param_names(top: level0::Top) -> Seq<Seq<char>> {
    match top {
        level0::Top::Procedure { args, .. } => args@.map_values(|a: (level0::Binding, level0::Type)| a.0.0.name()),
    }
}

pub open spec fn top_body(top: level0::Top) -> level0::Expr {
    match top {
        level0::Top::Procedure { body, .. } => body,
    }
}

/// A procedure resolves exactly when its body's names resolve with only its
/// parameters in scope.
pub proof fn lemma_top_resolves_iff_bound(top: level0::Top, globals: Seq<Seq<char>>, next: nat)
    ensures
        resolve_top_spec(top, globals, next) is Ok <==> names_resolve(top_body(top), param_names(top), globals),
{
    match top {
        level0::Top::Procedure { name, args, return_type, body } => {
            let env = param_env(args@, next);
            assert(names_of(env) =~= param_names(top));
            lemma_resolution_succeeds_iff_bound(body, env, globals, next + args@.len());
        },
    }
}

/// A program resolves exactly when every procedure's body refers only to its
/// own parameters, to names bound inside it, and to declared procedures; a
/// program that breaks this for any procedure never reaches evaluation.
pub proof fn lemma_program_resolves_iff_bound(tops: Seq<level0::Top>, globals: Seq<Seq<char>>, next: nat)
    ensures
        resolve_tops_spec(tops, globals, next) is Ok <==> forall|i: int|
            0 <= i < tops.len() ==> names_resolve(top_body(#[trigger] tops[i]), param_names(tops[i]), globals),
    decreases tops.len(),
{
    if tops.len() > 0 {
        let rest = tops.drop_last();
        lemma_program_resolves_iff_bound(rest, globals, next);
        if let Ok((ps, n1)) = resolve_tops_spec(rest, globals, next) {
            lemma_top_resolves_iff_bound(tops.last(), globals, n1);
        }
        if forall|i: int|
            0 <= i < tops.len() ==> names_resolve(top_body(#[trigger] tops[i]), param_names(tops[i]), globals) {
            assert forall|i: int| 0 <= i < rest.len() implies names_resolve(
                top_body(#[trigger] rest[i]),
                param_names(rest[i]),
                globals,
            ) by {
                assert(rest[i] == tops[i]);
            }
        }
        if resolve_tops_spec(tops, globals, next) is Ok {
            assert forall|i: int| 0 <= i < tops.len() implies names_resolve(
                top_body(#[trigger] tops[i]),
                param_names(tops[i]),
                globals,
            ) by {
                if i < rest.len() {
                    assert(rest[i] == tops[i]);
                }
            }
        }
    }
}

proof fn lemma_alpha_ids_needed(e1: level0::Expr, e2: level0::Expr, n1: Seq<Seq<char>>, n2: Seq<Seq<char>>)
    requires
        alpha_equiv(e1, e2, n1, n2),
    ensures
        ids_needed(e1) == ids_needed(e2),
    decreases e1,
{
    match (e1, e2) {
        (level0::Expr::LambdaFunction { arg: a1, body: b1 }, level0::Expr::LambdaFunction { arg: a2, body: b2 }) => {
            lemma_alpha_ids_needed(*b1, *b2, n1.push(a1.0.name()), n2.push(a2.0.name()));
        },
        (
            level0::Expr::LetBinding { name: x1, value: v1, body: b1 },
            level0::Expr::LetBinding { name: x2, value: v2, body: b2 },
        ) => {
            lemma_alpha_ids_needed(*v1, *v2, n1, n2);
            lemma_alpha_ids_needed(*b1, *b2, n1.push(x1.0.name()), n2.push(x2.0.name()));
        },
        (level0::Expr::BinaryOperation(l1, k1, r1), level0::Expr::BinaryOperation(l2, k2, r2)) => {
            lemma_alpha_ids_needed(*l1, *l2, n1, n2);
            lemma_alpha_ids_needed(*r1, *r2, n1, n2);
        },
        (level0::Expr::ProcCall { name: f1, args: a1 }, level0::Expr::ProcCall { name: f2, args: a2 }) => {
            lemma_alpha_ids_needed_all(a1@, a2@, n1, n2);
        },
        _ => {},
    }
}

proof fn lemma_alpha_ids_needed_all(s1: Seq<level0::Expr>, s2: Seq<level0::Expr>, n1: Seq<Seq<char>>, n2: Seq<Seq<char>>)
    requires
        alpha_equiv_all(s1, s2, n1, n2),
    ensures
        ids_needed_all(s1) == ids_needed_all(s2),
    decreases s1,
{
    if s1.len() > 0 {
        lemma_alpha_ids_needed_all(s1.drop_last(), s2.drop_last(), n1, n2);
        lemma_alpha_ids_needed(s1.last(), s2.last(), n1, n2);
    }
}

/// Two whole expressions that differ only in the names of their bound
/// variables need the same ids and resolve to the same tree, so
/// `lower_all_the_way` gives both the same result, closures included.
pub proof fn lemma_alpha_renaming_lowers_alike(e1: level0::Expr, e2: level0::Expr)
    requires
        alpha_equiv(e1, e2, Seq::empty(), Seq::empty()),
    ensures
        ids_needed(e1) == ids_needed(e2),
        resolve_spec(e1, Seq::empty(), Seq::empty(), 0) == resolve_spec(e2, Seq::empty(), Seq::empty(), 0),
{
    let env = Seq::<(Seq<char>, Binding)>::empty();
    assert(names_of(env) =~= Seq::<Seq<char>>::empty());
    lemma_alpha_ids_needed(e1, e2, Seq::empty(), Seq::empty());
    lemma_alpha_renaming(e1, e2, env, env, Seq::empty(), 0);
}

} // verus!
