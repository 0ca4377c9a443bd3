use lowering::common::{Id, Ident, Scope};
use lowering::eval::{EvalError, Evaluator, Value};
use lowering::keyed_stack::KeyedStack;
use lowering::level0::{BinaryOpKind, Binding, Expr, GlobalSymbol, Top, Type};
use lowering::level1;
use lowering::pipeline::{InitialLevel, LowerError};
use lowering::resolve_spec::ResolveError;
use lowering::resolver::State;

fn num(n: i32) -> Expr {
    Expr::Number(n)
}

fn var(name: &str) -> Expr {
    Expr::Referal(Ident::new(name))
}

fn lam(arg: &str, body: Expr) -> Expr {
    Expr::LambdaFunction { arg: Binding(Ident::new(arg)), body: Box::new(body) }
}

fn let_in(name: &str, value: Expr, body: Expr) -> Expr {
    Expr::LetBinding { name: Binding(Ident::new(name)), value: Box::new(value), body: Box::new(body) }
}

fn bin(l: Expr, kind: BinaryOpKind, r: Expr) -> Expr {
    Expr::BinaryOperation(Box::new(l), kind, Box::new(r))
}

fn add(l: Expr, r: Expr) -> Expr {
    bin(l, BinaryOpKind::Addition, r)
}

fn mul(l: Expr, r: Expr) -> Expr {
    bin(l, BinaryOpKind::Multiplication, r)
}

fn call(f: Expr, x: Expr) -> Expr {
    bin(f, BinaryOpKind::Call, x)
}

fn proc_call(name: &str, args: Vec<Expr>) -> Expr {
    Expr::ProcCall { name: GlobalSymbol(Ident::new(name)), args }
}

fn procedure(name: &str, params: &[&str], body: Expr) -> Top {
    Top::Procedure {
        name: GlobalSymbol(Ident::new(name)),
        args: params.iter().map(|p| (Binding(Ident::new(p)), Type::I32)).collect(),
        return_type: Type::I32,
        body,
    }
}

fn scope(n: usize) -> Scope {
    Scope::new(Id::new(n))
}

#[test]
fn arithmetic_matches_direct_evaluation() {
    let e = mul(add(num(2), num(3)), num(4));
    assert_eq!(e.lower_all_the_way(), Ok(Value::Number(20)));
}

#[test]
fn arithmetic_wraps_like_i32() {
    assert_eq!(add(num(i32::MAX), num(1)).lower_all_the_way(), Ok(Value::Number(i32::MIN)));
    assert_eq!(mul(num(65536), num(65536)).lower_all_the_way(), Ok(Value::Number(0)));
    assert_eq!(mul(num(-3), num(7)).lower_all_the_way(), Ok(Value::Number(-21)));
}

#[test]
fn let_is_an_applied_lambda() {
    let e = let_in("x", num(5), mul(var("x"), var("x")));
    let mut state = State::new();
    let resolved = state.map_expr(e).unwrap();
    match &resolved {
        level1::Expr::BinaryOperation(f, level1::BinaryOpKind::Call, v) => {
            assert!(matches!(**v, level1::Expr::Number(5)));
            match &**f {
                level1::Expr::LambdaFunction { arg, body, captured } => {
                    assert!(captured.is_empty());
                    let square = level1::Expr::BinaryOperation(
                        Box::new(level1::Expr::Referal { scope: arg.scope }),
                        level1::BinaryOpKind::Multiplication,
                        Box::new(level1::Expr::Referal { scope: arg.scope }),
                    );
                    assert_eq!(**body, square);
                }
                other => panic!("expected a lambda, got {:?}", other),
            }
        }
        other => panic!("expected a call, got {:?}", other),
    }
    let mut evaluator = Evaluator::new();
    assert_eq!(evaluator.eval_expr(resolved), Ok(Value::Number(25)));
}

#[test]
fn curried_lambda_captures_only_outer_argument() {
    let adder = lam("a", lam("b", add(var("a"), var("b"))));
    let e = call(call(adder, num(3)), num(4));
    let mut state = State::new();
    let resolved = state.map_expr(e).unwrap();
    let level1::Expr::BinaryOperation(inner_call, _, _) = &resolved else { panic!("not a call") };
    let level1::Expr::BinaryOperation(outer, _, _) = &**inner_call else { panic!("not a call") };
    let level1::Expr::LambdaFunction { arg: a, body, captured: outer_captured } = &**outer else {
        panic!("not a lambda")
    };
    assert!(outer_captured.is_empty());
    let level1::Expr::LambdaFunction { arg: b, captured, .. } = &**body else { panic!("not a lambda") };
    assert_eq!(captured, &vec![*a]);
    assert_ne!(a.scope, b.scope);
    let mut evaluator = Evaluator::new();
    assert_eq!(evaluator.eval_expr(resolved), Ok(Value::Number(7)));
}

#[test]
fn composition_applies_right_then_left() {
    let double = lam("y", mul(var("y"), num(2)));
    let succ = lam("z", add(var("z"), num(1)));
    let composed = let_in(
        "f",
        double,
        let_in("g", succ, call(bin(var("f"), BinaryOpKind::Composition, var("g")), num(5))),
    );
    let nested = let_in(
        "f",
        lam("y", mul(var("y"), num(2))),
        let_in("g", lam("z", add(var("z"), num(1))), call(var("f"), call(var("g"), num(5)))),
    );
    assert_eq!(composed.lower_all_the_way(), Ok(Value::Number(12)));
    assert_eq!(nested.lower_all_the_way(), Ok(Value::Number(12)));
}

#[test]
fn composition_desugars_to_a_capturing_lambda() {
    let e = lam("f", lam("g", bin(var("f"), BinaryOpKind::Composition, var("g"))));
    let mut state = State::new();
    let resolved = state.map_expr(e).unwrap();
    let level1::Expr::LambdaFunction { arg: f, body, .. } = &resolved else { panic!("not a lambda") };
    let level1::Expr::LambdaFunction { arg: g, body, captured } = &**body else { panic!("not a lambda") };
    assert_eq!(captured, &vec![*f]);
    let level1::Expr::LambdaFunction { arg: point, body, captured } = &**body else { panic!("not a lambda") };
    let mut expected = vec![*f, *g];
    expected.sort_by_key(|b| b.scope.0 .0);
    let mut got = captured.clone();
    got.sort_by_key(|b| b.scope.0 .0);
    assert_eq!(got, expected);
    let applied = level1::Expr::BinaryOperation(
        Box::new(level1::Expr::Referal { scope: f.scope }),
        level1::BinaryOpKind::Call,
        Box::new(level1::Expr::BinaryOperation(
            Box::new(level1::Expr::Referal { scope: g.scope }),
            level1::BinaryOpKind::Call,
            Box::new(level1::Expr::Referal { scope: point.scope }),
        )),
    );
    assert_eq!(**body, applied);
}

#[test]
fn unbound_reference_fails_resolution() {
    let e = lam("x", var("y"));
    assert_eq!(e.lower_all_the_way(), Err(LowerError::Resolve(ResolveError::UnresolvedName(Ident::new("y")))));
    let mut state = State::new();
    assert_eq!(state.map_expr(var("x")), Err(ResolveError::UnresolvedName(Ident::new("x"))));
}

#[test]
fn let_value_does_not_see_its_own_name() {
    let e = let_in("x", var("x"), var("x"));
    assert_eq!(e.lower_all_the_way(), Err(LowerError::Resolve(ResolveError::UnresolvedName(Ident::new("x")))));
}

#[test]
fn unknown_procedure_fails_resolution() {
    let e = proc_call("nope", vec![num(1)]);
    assert_eq!(
        e.lower_all_the_way(),
        Err(LowerError::Resolve(ResolveError::UnknownProcedure(GlobalSymbol(Ident::new("nope")))))
    );
}

#[test]
fn arithmetic_on_a_function_is_a_type_mismatch() {
    assert_eq!(add(lam("x", var("x")), num(1)).lower_all_the_way(), Err(LowerError::Eval(EvalError::TypeMismatch)));
    assert_eq!(mul(num(1), lam("x", var("x"))).lower_all_the_way(), Err(LowerError::Eval(EvalError::TypeMismatch)));
}

#[test]
fn calling_a_number_is_a_type_mismatch() {
    assert_eq!(call(num(1), num(2)).lower_all_the_way(), Err(LowerError::Eval(EvalError::TypeMismatch)));
}

#[test]
fn calls_do_not_share_bindings() {
    let e = let_in("f", lam("x", var("x")), add(call(var("f"), num(1)), call(var("f"), num(2))));
    assert_eq!(e.lower_all_the_way(), Ok(Value::Number(3)));
}

#[test]
fn shadowing_picks_innermost_binding() {
    let e = let_in("x", num(1), let_in("x", num(2), var("x")));
    assert_eq!(e.lower_all_the_way(), Ok(Value::Number(2)));
    let e = let_in("x", num(1), add(let_in("x", num(2), var("x")), var("x")));
    assert_eq!(e.lower_all_the_way(), Ok(Value::Number(3)));
}

#[test]
fn closure_keeps_value_at_creation() {
    let e = let_in(
        "k",
        num(10),
        let_in("f", lam("y", add(var("k"), var("y"))), let_in("k", num(100), call(var("f"), num(1)))),
    );
    assert_eq!(e.lower_all_the_way(), Ok(Value::Number(11)));
}

#[test]
fn renamed_bound_variables_resolve_identically() {
    let first = call(lam("x", lam("y", add(var("x"), var("y")))), num(1));
    let second = call(lam("a", lam("b", add(var("a"), var("b")))), num(1));
    let r1 = State::new().map_expr(first).unwrap();
    let r2 = State::new().map_expr(second).unwrap();
    assert_eq!(r1, r2);
    let v1 = Evaluator::new().eval_expr(r1).unwrap();
    let v2 = Evaluator::new().eval_expr(r2).unwrap();
    assert_eq!(v1, v2);
}

#[test]
fn function_value_records_captures() {
    let e = let_in("k", num(4), lam("y", var("k")));
    match e.lower_all_the_way() {
        Ok(Value::Function { captures, .. }) => {
            assert_eq!(captures.len(), 1);
            assert_eq!(captures[0].1, Value::Number(4));
        }
        other => panic!("expected a closure, got {:?}", other),
    }
}

#[test]
fn program_runs_main() {
    let program = InitialLevel(vec![
        procedure("main", &[], proc_call("add", vec![num(2), num(3)])),
        procedure("add", &["a", "b"], add(var("a"), var("b"))),
    ]);
    let resolved = program.lower_all_the_way().unwrap();
    assert_eq!(resolved.eval(), Ok(Value::Number(5)));
}

#[test]
fn procedure_sees_only_its_parameters() {
    let program = InitialLevel(vec![
        procedure("main", &[], let_in("a", num(1), proc_call("get", vec![]))),
        procedure("get", &[], var("a")),
    ]);
    assert_eq!(program.lower_all_the_way().err(), Some(ResolveError::UnresolvedName(Ident::new("a"))));
}

#[test]
fn program_arity_mismatch() {
    let program = InitialLevel(vec![
        procedure("main", &[], proc_call("id", vec![num(1), num(2)])),
        procedure("id", &["a"], var("a")),
    ]);
    assert_eq!(program.lower_all_the_way().unwrap().eval(), Err(EvalError::ArityMismatch));
}

#[test]
fn program_without_main() {
    let program = InitialLevel(vec![procedure("other", &[], num(1))]);
    assert_eq!(program.lower_all_the_way().unwrap().eval(), Err(EvalError::UnknownProcedure));
}

#[test]
fn depth_limit_stops_calls() {
    let e = call(lam("x", var("x")), num(1));
    let resolved = State::new().map_expr(e).unwrap();
    let mut evaluator = Evaluator::with_depth_limit(0);
    assert_eq!(evaluator.eval_expr(resolved), Err(EvalError::DepthExceeded));
}

#[test]
fn missing_binding_is_reported() {
    let mut evaluator = Evaluator::new();
    assert_eq!(evaluator.eval_expr(level1::Expr::Referal { scope: scope(7) }), Err(EvalError::MissingBinding));
    let lambda = level1::Expr::LambdaFunction {
        arg: level1::Binding { scope: scope(1) },
        body: Box::new(level1::Expr::Referal { scope: scope(2) }),
        captured: vec![level1::Binding { scope: scope(2) }],
    };
    assert_eq!(evaluator.eval_expr(lambda), Err(EvalError::MissingBinding));
}

#[test]
fn fresh_scopes_are_distinct() {
    let mut state = State::new();
    let a = state.introduce_binding(&Binding(Ident::new("x")));
    let b = state.introduce_binding(&Binding(Ident::new("x")));
    assert_ne!(a.scope, b.scope);
    assert_eq!(state.map_expr(var("x")), Ok(level1::Expr::Referal { scope: b.scope }));
}

#[test]
fn keyed_stack_finds_latest_entry() {
    let mut stack: KeyedStack<u32> = KeyedStack::new();
    stack.push(Ident::new("a"), 1);
    stack.push(Ident::new("b"), 2);
    stack.push(Ident::new("a"), 3);
    assert_eq!(stack.len(), 3);
    assert_eq!(stack.find(&Ident::new("a")), Some((2, &3)));
    assert_eq!(stack.find(&Ident::new("b")), Some((1, &2)));
    assert_eq!(stack.find(&Ident::new("c")), None);
    assert_eq!(stack.pop(&Ident::new("a")), Some(3));
    assert_eq!(stack.find(&Ident::new("a")), Some((0, &1)));
    assert_eq!(stack.find(&Ident::new("b")), Some((1, &2)));
    assert_eq!(stack.len(), 2);
    assert_eq!(stack.pop(&Ident::new("b")), Some(2));
    assert_eq!(stack.find(&Ident::new("a")), Some((0, &1)));
    assert_eq!(stack.find(&Ident::new("b")), None);
}

#[test]
fn deep_copy_preserves_values() {
    let v = let_in("k", num(4), lam("y", add(var("k"), var("y")))).lower_all_the_way().unwrap();
    assert_eq!(v.deep_copy(), v);
}

#[test]
fn procedure_keeps_its_types() {
    let top = Top::Procedure {
        name: GlobalSymbol(Ident::new("pick")),
        args: vec![(Binding(Ident::new("a")), Type::I32), (Binding(Ident::new("b")), Type::Unit)],
        return_type: Type::Never,
        body: var("a"),
    };
    let mut state = State::new();
    state.declare_global(GlobalSymbol(Ident::new("pick")));
    let level1::Top::Procedure { name, args, return_type, body } = state.map_top(top).unwrap();
    assert_eq!(name, GlobalSymbol(Ident::new("pick")));
    assert_eq!(return_type, Type::Never);
    assert_eq!(args.len(), 2);
    assert_eq!(args[0].1, Type::I32);
    assert_eq!(args[1].1, Type::Unit);
    assert_ne!(args[0].0.scope, args[1].0.scope);
    assert_eq!(body, level1::Expr::Referal { scope: args[0].0.scope });
}

#[test]
fn program_keeps_procedure_types() {
    let program = InitialLevel(vec![Top::Procedure {
        name: GlobalSymbol(Ident::new("main")),
        args: vec![],
        return_type: Type::Unit,
        body: num(0),
    }]);
    let resolved = program.lower_all_the_way().unwrap();
    let level1::Top::Procedure { return_type, args, .. } = &resolved.0[0];
    assert_eq!(*return_type, Type::Unit);
    assert!(args.is_empty());
}

#[test]
fn unknown_procedure_in_program_fails_resolution() {
    let program = InitialLevel(vec![procedure("main", &[], proc_call("missing", vec![]))]);
    assert_eq!(
        program.lower_all_the_way().err(),
        Some(ResolveError::UnknownProcedure(GlobalSymbol(Ident::new("missing"))))
    );
}
