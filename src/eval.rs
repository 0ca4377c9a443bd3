//! The evaluator: walks a resolved tree with one environment keyed by scope
//! id. Calls swap in a fresh environment holding exactly the callee's
//! parameter and captures, and swap the caller's back afterwards.
use crate::common::Scope;
use crate::level0::GlobalSymbol;
use crate::level1::{model_of, models_of, params_of, scope_set, BinaryOpKind, Binding, Expr, ExprModel, ProcModel, Top};
use vstd::prelude::*;

verus! {

/// The call depth an evaluator allows unless told otherwise: as deep as the
/// native stack goes.
pub const DEFAULT_DEPTH_LIMIT: u64 = 0xffff_ffff_ffff_ffff;

#[derive(Debug, PartialEq, Eq)]
pub enum Value {
    Number(i32),
    /// A closure: its parameter, its body, and the values its captured
    /// scopes had when it was created.
    Function { arg: Binding, body: Expr, captures: Vec<(Scope, Value)> },
}

/// Why evaluation stopped.
#[derive(Debug, Clone, Copy, PartialEq, Eq, Hash, Structural)]
pub enum EvalError {
    /// An operand of `+` or `*` is not a number, or a called value is not a function.
    TypeMismatch,
    /// A scope id is read that the environment does not hold.
    MissingBinding,
    /// A procedure is called that was never registered.
    UnknownProcedure,
    /// A procedure is called with another number of arguments than it has parameters.
    ArityMismatch,
    /// Calls nested deeper than the evaluator's depth limit.
    DepthExceeded,
}

pub enum ValueModel {
    Number(i32),
    Function { arg: Scope, body: ExprModel, captures: Map<Scope, ValueModel> },
}

pub open spec fn value_model(v: Value) -> ValueModel
    decreases v,
{
    match v {
        Value::Number(n) => ValueModel::Number(n),
        Value::Function { arg, body, captures } => ValueModel::Function {
            arg: arg.scope,
            body: model_of(body),
            captures: env_model(captures@),
        },
    }
}

/// An environment as a map; a later entry for a scope hides an earlier one.
pub open spec fn env_model(s: Seq<(Scope, Value)>) -> Map<Scope, ValueModel>
    decreases s,
{
    if s.len() == 0 {
        Map::empty()
    } else {
        env_model(s.drop_last()).insert(s.last().0, value_model(s.last().1))
    }
}

impl View for Value {
    type V = ValueModel;

    open spec fn view(&self) -> ValueModel {
        value_model(*self)
    }
}

pub open spec fn values_model(vs: Seq<Value>) -> Seq<ValueModel> {
    vs.map_values(|v: Value| value_model(v))
}

/// The procedure registered last under `name`.
pub open spec fn find_proc(procs: Seq<ProcModel>, name: Seq<char>) -> Option<ProcModel>
    decreases procs.len(),
{
    if procs.len() == 0 {
        None
    } else if procs.last().name == name {
        Some(procs.last())
    } else {
        find_proc(procs.drop_last(), name)
    }
}

/// Each parameter bound to the argument at its position.
pub open spec fn bind_params(params: Seq<Scope>, args: Seq<ValueModel>) -> Map<Scope, ValueModel>
    decreases params.len(),
{
    if params.len() == 0 || args.len() == 0 {
        Map::empty()
    } else {
        bind_params(params.drop_last(), args.drop_last()).insert(params.last(), args.last())
    }
}

pub open spec fn arith(kind: BinaryOpKind, x: i32, y: i32) -> i32 {
    if kind == BinaryOpKind::Multiplication {
        x.wrapping_mul(y)
    } else {
        x.wrapping_add(y)
    }
}

/// Evaluation of `e` in environment `env`, with `procs` the registered
/// procedures and `depth` the number of calls that may still nest.
pub open spec fn eval_spec(e: ExprModel, env: Map<Scope, ValueModel>, procs: Seq<ProcModel>, depth: nat) -> Result<
    ValueModel,
    EvalError,
>
    decreases depth, e,
{
    match e {
        ExprModel::Number(n) => Ok(ValueModel::Number(n)),
        ExprModel::Lambda { arg, body, captured } => if captured.subset_of(env.dom()) {
            Ok(ValueModel::Function { arg, body: *body, captures: env.restrict(captured) })
        } else {
            Err(EvalError::MissingBinding)
        },
        ExprModel::Referal(s) => if env.dom().contains(s) {
            Ok(env[s])
        } else {
            Err(EvalError::MissingBinding)
        },
        ExprModel::Binary(l, kind, r) => if kind == BinaryOpKind::Call {
            match eval_spec(*l, env, procs, depth) {
                Err(err) => Err(err),
                Ok(ValueModel::Number(_)) => Err(EvalError::TypeMismatch),
                Ok(ValueModel::Function { arg, body, captures }) => match eval_spec(*r, env, procs, depth) {
                    Err(err) => Err(err),
                    Ok(v) => if depth == 0 {
                        Err(EvalError::DepthExceeded)
                    } else {
                        eval_spec(body, captures.insert(arg, v), procs, (depth - 1) as nat)
                    },
                },
            }
        } else {
            match eval_spec(*l, env, procs, depth) {
                Err(err) => Err(err),
                Ok(a) => match eval_spec(*r, env, procs, depth) {
                    Err(err) => Err(err),
                    Ok(b) => match (a, b) {
                        (ValueModel::Number(x), ValueModel::Number(y)) => Ok(ValueModel::Number(arith(kind, x, y))),
                        _ => Err(EvalError::TypeMismatch),
                    },
                },
            }
        },
        ExprModel::ProcCall(name, args) => match eval_all_spec(args, env, procs, depth) {
            Err(err) => Err(err),
            Ok(vs) => match find_proc(procs, name) {
                None => Err(EvalError::UnknownProcedure),
                Some(p) => if p.params.len() != vs.len() {
                    Err(EvalError::ArityMismatch)
                } else if depth == 0 {
                    Err(EvalError::DepthExceeded)
                } else {
                    eval_spec(p.body, bind_params(p.params, vs), procs, (depth - 1) as nat)
                },
            },
        },
    }
}

/// Evaluation of a list of expressions, left to right; the first failure wins.
pub open spec fn eval_all_spec(es: Seq<ExprModel>, env: Map<Scope, ValueModel>, procs: Seq<ProcModel>, depth: nat) -> Result<
    Seq<ValueModel>,
    EvalError,
>
    decreases depth, es,
{
    if es.len() == 0 {
        Ok(Seq::empty())
    } else {
        match eval_all_spec(es.drop_last(), env, procs, depth) {
            Err(err) => Err(err),
            Ok(vs) => match eval_spec(es.last(), env, procs, depth) {
                Err(err) => Err(err),
                Ok(v) => Ok(vs.push(v)),
            },
        }
    }
}

impl Expr {
    /// A copy of the whole tree.
    pub fn deep_copy(&self) -> (r: Expr)
        ensures
            r@ == self@,
        decreases self,
    {
        let ghost e0 = *self;
        match self {
            Expr::Number(n) => Expr::Number(*n),
            Expr::LambdaFunction { arg, body, captured } => {
                let mut list: Vec<Binding> = Vec::new();
                let mut i: usize = 0;
                while i < captured.len()
                    invariant
                        i <= captured@.len(),
                        list@ == captured@.subrange(0, i as int),
                    decreases captured@.len() - i,
                {
                    list.push(captured[i]);
                    i = i + 1;
                    assert(list@ =~= captured@.subrange(0, i as int));
                }
                assert(list@ =~= captured@);
                Expr::LambdaFunction { arg: *arg, body: Box::new(body.deep_copy()), captured: list }
            },
            Expr::BinaryOperation(l, k, r) => Expr::BinaryOperation(
                Box::new(l.deep_copy()),
                *k,
                Box::new(r.deep_copy()),
            ),
            Expr::Referal { scope } => Expr::Referal { scope: *scope },
            Expr::ProcCall { name, args } => {
                let mut list: Vec<Expr> = Vec::new();
                let mut i: usize = 0;
                proof {
                    assert(decreases_to!(e0 => e0->ProcCall_args));
                    assert forall|j: int| 0 <= j < args@.len() implies decreases_to!(e0 => args@[j]) by {
                        assert(decreases_to!(e0->ProcCall_args => args@));
                        assert(decreases_to!(args@ => args@[j]));
                    }
                }
                while i < args.len()
                    invariant
                        e0 == *self,
                        forall|j: int| 0 <= j < args@.len() ==> decreases_to!(e0 => args@[j]),
                        i <= args@.len(),
                        list@.len() == i,
                        models_of(list@) == models_of(args@.subrange(0, i as int)),
                    decreases args@.len() - i,
                {
                    let ghost before = list@;
                    list.push(args[i].deep_copy());
                    proof {
                        assert(list@.drop_last() =~= before);
                        assert(args@.subrange(0, i + 1).drop_last() =~= args@.subrange(0, i as int));
                    }
                    i = i + 1;
                }
                assert(args@.subrange(0, args@.len() as int) =~= args@);
                Expr::ProcCall { name: GlobalSymbol(crate::common::Ident(name.0.0.clone())), args: list }
            },
        }
    }
}

impl Value {
    /// A copy of the value, closures included.
    pub fn deep_copy(&self) -> (r: Value)
        ensures
            r@ == self@,
        decreases self,
    {
        let ghost v0 = *self;
        match self {
            Value::Number(n) => Value::Number(*n),
            Value::Function { arg, body, captures } => {
                let mut list: Vec<(Scope, Value)> = Vec::new();
                let mut i: usize = 0;
                proof {
                    assert(decreases_to!(v0 => v0->captures));
                    assert forall|j: int| 0 <= j < captures@.len() implies decreases_to!(v0 => captures@[j].1) by {
                        assert(decreases_to!(v0->captures => captures@));
                        assert(decreases_to!(captures@ => captures@[j]));
                        assert(decreases_to!(captures@[j] => captures@[j].1));
                    }
                }
                while i < captures.len()
                    invariant
                        v0 == *self,
                        forall|j: int| 0 <= j < captures@.len() ==> decreases_to!(v0 => captures@[j].1),
                        i <= captures@.len(),
                        env_model(list@) == env_model(captures@.subrange(0, i as int)),
                    decreases captures@.len() - i,
                {
                    let ghost before = list@;
                    let entry = (captures[i].0, captures[i].1.deep_copy());
                    list.push(entry);
                    proof {
                        assert(list@.drop_last() =~= before);
                        assert(captures@.subrange(0, i + 1).drop_last() =~= captures@.subrange(0, i as int));
                    }
                    i = i + 1;
                }
                assert(captures@.subrange(0, captures@.len() as int) =~= captures@);
                Value::Function { arg: *arg, body: body.deep_copy(), captures: list }
            },
        }
    }
}

/// The value of the last entry for `scope`.
fn lookup(env: &Vec<(Scope, Value)>, scope: Scope) -> (r: Option<&Value>)
    ensures
        match r {
            Some(v) => env_model(env@).dom().contains(scope) && env_model(env@)[scope] == v@,
            None => !env_model(env@).dom().contains(scope),
        },
{
    let mut i: usize = env.len();
    assert(env@.subrange(0, i as int) =~= env@);
    while i > 0
        invariant
            i <= env@.len(),
            env_model(env@).dom().contains(scope) == env_model(env@.subrange(0, i as int)).dom().contains(scope),
            env_model(env@).dom().contains(scope) ==> env_model(env@)[scope] == env_model(
                env@.subrange(0, i as int),
            )[scope],
        decreases i,
    {
        let ghost s = env@.subrange(0, i as int);
        assert(s.drop_last() =~= env@.subrange(0, i - 1));
        assert(s.last() == env@[i - 1]);
        assert(env_model(s) == env_model(s.drop_last()).insert(s.last().0, value_model(s.last().1)));
        if env[i - 1].0 == scope {
            return Some(&env[i - 1].1);
        }
        i = i - 1;
    }
    assert(env@.subrange(0, 0) =~= Seq::<(Scope, Value)>::empty());
    None
}

pub struct Evaluator {
    bindings: Vec<(Scope, Value)>,
    globals: Vec<Top>,
    depth_limit: u64,
}

impl Evaluator {
    /// The current environment.
    pub closed spec fn env(&self) -> Map<Scope, ValueModel> {
        env_model(self.bindings@)
    }

    /// The registered procedures, in order of registration.
    pub closed spec fn procs(&self) -> Seq<ProcModel> {
        self.globals@.map_values(|t: Top| t@)
    }

    pub closed spec fn limit(&self) -> nat {
        self.depth_limit as nat
    }

    pub fn new() -> (r: Evaluator)
        ensures
            r.env() == Map::<Scope, ValueModel>::empty(),
            r.procs() == Seq::<ProcModel>::empty(),
            r.limit() == DEFAULT_DEPTH_LIMIT,
    {
        Evaluator::with_depth_limit(DEFAULT_DEPTH_LIMIT)
    }

    /// An evaluator that lets calls nest at most `limit` deep.
    pub fn with_depth_limit(limit: u64) -> (r: Evaluator)
        ensures
            r.env() == Map::<Scope, ValueModel>::empty(),
            r.procs() == Seq::<ProcModel>::empty(),
            r.limit() == limit,
    {
        let r = Evaluator { bindings: Vec::new(), globals: Vec::new(), depth_limit: limit };
        assert(r.procs() =~= Seq::<ProcModel>::empty());
        r
    }

    /// Registers a procedure; a later one hides an earlier one of the same name.
    pub fn eval_top(&mut self, top: Top)
        ensures
            final(self).procs() == old(self).procs().push(top@),
            final(self).env() == old(self).env(),
            final(self).limit() == old(self).limit(),
    {
        self.globals.push(top);
        assert(self.procs() =~= old(self).procs().push(top@));
    }

    /// Evaluates `expr` in the current environment, which is left as it was.
    pub fn eval_expr(&mut self, expr: Expr) -> (r: Result<Value, EvalError>)
        ensures
            final(self).env() == old(self).env(),
            final(self).procs() == old(self).procs(),
            final(self).limit() == old(self).limit(),
            match eval_spec(expr@, old(self).env(), old(self).procs(), old(self).limit()) {
                Ok(v) => r matches Ok(x) && x@ == v,
                Err(err) => r == Err::<Value, EvalError>(err),
            },
    {
        let depth = self.depth_limit;
        self.eval(expr, depth)
    }

    fn find_global(&self, name: &GlobalSymbol) -> (r: Option<usize>)
        ensures
            match r {
                Some(i) => i < self.procs().len() && find_proc(self.procs(), name.0.name()) == Some(self.procs()[i as int]),
                None => find_proc(self.procs(), name.0.name()) is None,
            },
    {
        let mut i: usize = self.globals.len();
        assert(self.procs().subrange(0, i as int) =~= self.procs());
        while i > 0
            invariant
                i <= self.globals@.len(),
                self.procs().len() == self.globals@.len(),
                find_proc(self.procs(), name.0.name()) == find_proc(self.procs().subrange(0, i as int), name.0.name()),
            decreases i,
        {
            let ghost s = self.procs().subrange(0, i as int);
            assert(s.drop_last() =~= self.procs().subrange(0, i - 1));
            let found = match &self.globals[i - 1] {
                Top::Procedure { name: n, .. } => n.0.same_name(&name.0),
            };
            if found {
                return Some(i - 1);
            }
            i = i - 1;
        }
        assert(self.procs().subrange(0, 0) =~= Seq::<ProcModel>::empty());
        None
    }

    fn eval(&mut self, expr: Expr, depth: u64) -> (r: Result<Value, EvalError>)
        ensures
            final(self).bindings == old(self).bindings,
            final(self).globals == old(self).globals,
            final(self).depth_limit == old(self).depth_limit,
            match eval_spec(expr@, old(self).env(), old(self).procs(), depth as nat) {
                Ok(v) => r matches Ok(x) && x@ == v,
                Err(err) => r == Err::<Value, EvalError>(err),
            },
        decreases depth, 0nat, expr, 1nat,
    {
        let ghost e0 = expr;
        match expr {
            Expr::Number(n) => Ok(Value::Number(n)),
            Expr::LambdaFunction { arg, body, captured } => match self.capture_values(&captured) {
                None => Err(EvalError::MissingBinding),
                Some(caps) => Ok(Value::Function { arg, body: *body, captures: caps }),
            },
            Expr::Referal { scope } => match lookup(&self.bindings, scope) {
                None => Err(EvalError::MissingBinding),
                Some(v) => Ok(v.deep_copy()),
            },
            Expr::BinaryOperation(l, kind, r) => {
                if kind == BinaryOpKind::Call {
                    match self.eval(*l, depth) {
                        Err(err) => Err(err),
                        Ok(Value::Number(_)) => Err(EvalError::TypeMismatch),
                        Ok(Value::Function { arg, body, captures }) => match self.eval(*r, depth) {
                            Err(err) => Err(err),
                            Ok(v) => {
                                if depth == 0 {
                                    Err(EvalError::DepthExceeded)
                                } else {
                                    let ghost cs = captures@;
                                    let mut env = captures;
                                    env.push((arg.scope, v));
                                    proof {
                                        assert(env@.drop_last() =~= cs);
                                    }
                                    self.eval_in(body, env, depth - 1)
                                }
                            },
                        },
                    }
                } else {
                    match self.eval(*l, depth) {
                        Err(err) => Err(err),
                        Ok(a) => match self.eval(*r, depth) {
                            Err(err) => Err(err),
                            Ok(b) => match (a, b) {
                                (Value::Number(x), Value::Number(y)) => {
                                    if kind == BinaryOpKind::Multiplication {
                                        Ok(Value::Number(x.wrapping_mul(y)))
                                    } else {
                                        Ok(Value::Number(x.wrapping_add(y)))
                                    }
                                },
                                _ => Err(EvalError::TypeMismatch),
                            },
                        },
                    }
                }
            },
            Expr::ProcCall { name, args } => self.eval_call(name, args, depth, Ghost(e0)),
        }
    }

    /// Evaluates the arguments left to right, then runs the procedure's body
    /// in an environment holding only its parameters.
    fn eval_call(&mut self, name: GlobalSymbol, args: Vec<Expr>, depth: u64, Ghost(e0): Ghost<Expr>) -> (r: Result<
        Value,
        EvalError,
    >)
        requires
            e0 == (Expr::ProcCall { name, args }),
        ensures
            final(self).bindings == old(self).bindings,
            final(self).globals == old(self).globals,
            final(self).depth_limit == old(self).depth_limit,
            match eval_spec(e0@, old(self).env(), old(self).procs(), depth as nat) {
                Ok(v) => r matches Ok(x) && x@ == v,
                Err(err) => r == Err::<Value, EvalError>(err),
            },
        decreases depth, 0nat, e0, 0nat,
    {
        let ghost all = args@;
        let ghost ms = models_of(all);
        let ghost env = self.env();
        let ghost procs = self.procs();
        proof {
            crate::level1::lemma_models_of(all);
            assert(ms.subrange(0, 0) =~= Seq::<ExprModel>::empty());
            assert(values_model(Seq::<Value>::empty()) =~= Seq::<ValueModel>::empty());
            assert(args@.subrange(0, args@.len() as int) =~= args@);
        }
        let mut rest = args;
        let mut vals: Vec<Value> = Vec::new();
        while rest.len() > 0
            invariant
                e0 == (Expr::ProcCall { name, args }),
                all == args@,
                ms == models_of(all),
                ms.len() == all.len(),
                forall|j: int| 0 <= j < all.len() ==> ms[j] == #[trigger] model_of(all[j]),
                env == old(self).env(),
                procs == old(self).procs(),
                self.bindings == old(self).bindings,
                self.globals == old(self).globals,
                self.depth_limit == old(self).depth_limit,
                vals@.len() <= all.len(),
                rest@ == all.subrange(vals@.len() as int, all.len() as int),
                eval_all_spec(ms.subrange(0, vals@.len() as int), env, procs, depth as nat)
                    == Ok::<Seq<ValueModel>, EvalError>(values_model(vals@)),
            decreases rest@.len(),
        {
            let ghost i = vals@.len() as int;
            let a = rest.remove(0);
            proof {
                assert(a == all[i]);
                assert(decreases_to!(e0 => all[i]));
                assert(ms.subrange(0, i + 1).drop_last() =~= ms.subrange(0, i));
                assert(ms.subrange(0, i + 1).last() == a@);
            }
            match self.eval(a, depth) {
                Err(err) => {
                    proof {
                        lemma_eval_all_err(ms, i + 1, env, procs, depth as nat);
                        assert(ms.subrange(0, ms.len() as int) =~= ms);
                    }
                    return Err(err);
                },
                Ok(v) => {
                    let ghost before = vals@;
                    vals.push(v);
                    proof {
                        assert(values_model(vals@) =~= values_model(before).push(v@));
                    }
                },
            }
        }
        proof {
            assert(ms.subrange(0, ms.len() as int) =~= ms);
        }
        match self.find_global(&name) {
            None => Err(EvalError::UnknownProcedure),
            Some(i) => {
                let (params, body) = match &self.globals[i] {
                    Top::Procedure { args: ps, body, .. } => (param_scopes(ps), body.deep_copy()),
                };
                proof {
                    assert(self.procs()[i as int] == self.globals@[i as int]@);
                }
                if params.len() != vals.len() {
                    Err(EvalError::ArityMismatch)
                } else if depth == 0 {
                    Err(EvalError::DepthExceeded)
                } else {
                    let frame = bind_args(params, vals);
                    self.eval_in(body, frame, depth - 1)
                }
            },
        }
    }

    /// The current values of the `captured` scopes, or `None` when one of
    /// them is not bound.
    fn capture_values(&self, captured: &Vec<Binding>) -> (r: Option<Vec<(Scope, Value)>>)
        ensures
            match r {
                Some(caps) => scope_set(captured@).subset_of(self.env().dom()) && env_model(caps@)
                    == self.env().restrict(scope_set(captured@)),
                None => !scope_set(captured@).subset_of(self.env().dom()),
            },
    {
        let ghost env = self.env();
        let mut caps: Vec<(Scope, Value)> = Vec::new();
        let mut i: usize = 0;
        proof {
            assert(scope_set(captured@.subrange(0, 0)) =~= Set::<Scope>::empty());
            assert(env_model(caps@) =~= env.restrict(Set::<Scope>::empty()));
        }
        while i < captured.len()
            invariant
                i <= captured@.len(),
                env == self.env(),
                scope_set(captured@.subrange(0, i as int)).subset_of(env.dom()),
                env_model(caps@) == env.restrict(scope_set(captured@.subrange(0, i as int))),
            decreases captured@.len() - i,
        {
            let s = captured[i].scope;
            proof {
                assert(scope_set(captured@.subrange(0, i + 1)) =~= scope_set(captured@.subrange(0, i as int)).insert(s)) by {
                    assert forall|x: Scope| #[trigger] scope_set(captured@.subrange(0, i + 1)).contains(x)
                        == scope_set(captured@.subrange(0, i as int)).insert(s).contains(x) by {
                        if scope_set(captured@.subrange(0, i as int)).contains(x) {
                            let j = choose|j: int| 0 <= j < i && captured@.subrange(0, i as int)[j].scope == x;
                            assert(captured@.subrange(0, i + 1)[j] == captured@.subrange(0, i as int)[j]);
                        }
                        if x == s {
                            assert(captured@.subrange(0, i + 1)[i as int].scope == s);
                        }
                    }
                }
            }
            match lookup(&self.bindings, s) {
                None => {
                    proof {
                        assert(captured@[i as int].scope == s);
                        assert(scope_set(captured@).contains(s));
                    }
                    return None;
                },
                Some(v) => {
                    let c = v.deep_copy();
                    let ghost before = caps@;
                    caps.push((s, c));
                    proof {
                        assert(caps@.drop_last() =~= before);
                        assert(env.restrict(scope_set(captured@.subrange(0, i + 1))) =~= env.restrict(
                            scope_set(captured@.subrange(0, i as int)),
                        ).insert(s, env[s]));
                    }
                },
            }
            i = i + 1;
        }
        proof {
            assert(captured@.subrange(0, captured@.len() as int) =~= captured@);
        }
        Some(caps)
    }

    /// Runs `body` in an environment holding exactly `env`, then puts the
    /// caller's environment back.
    fn eval_in(&mut self, body: Expr, env: Vec<(Scope, Value)>, depth: u64) -> (r: Result<Value, EvalError>)
        ensures
            final(self).bindings == old(self).bindings,
            final(self).globals == old(self).globals,
            final(self).depth_limit == old(self).depth_limit,
            match eval_spec(body@, env_model(env@), old(self).procs(), depth as nat) {
                Ok(v) => r matches Ok(x) && x@ == v,
                Err(err) => r == Err::<Value, EvalError>(err),
            },
        decreases depth, 1nat, body, 0nat,
    {
        let mut env = env;
        std::mem::swap(&mut self.bindings, &mut env);
        let r = self.eval(body, depth);
        std::mem::swap(&mut self.bindings, &mut env);
        r
    }
}

fn param_scopes(ps: &Vec<(Binding, crate::level0::Type)>) -> (r: Vec<Scope>)
    ensures
        r@ == params_of(ps@),
{
    let mut r: Vec<Scope> = Vec::new();
    let mut i: usize = 0;
    while i < ps.len()
        invariant
            i <= ps@.len(),
            r@ == params_of(ps@).subrange(0, i as int),
        decreases ps@.len() - i,
    {
        r.push(ps[i].0.scope);
        i = i + 1;
        assert(r@ =~= params_of(ps@).subrange(0, i as int));
    }
    assert(params_of(ps@).subrange(0, i as int) =~= params_of(ps@));
    r
}

/// Pairs each parameter with the argument at its position.
fn bind_args(params: Vec<Scope>, args: Vec<Value>) -> (r: Vec<(Scope, Value)>)
    requires
        params@.len() == args@.len(),
    ensures
        env_model(r@) == bind_params(params@, values_model(args@)),
{
    let ghost vs = values_model(args@);
    let ghost n = args@.len();
    let mut rest = args;
    let mut r: Vec<(Scope, Value)> = Vec::new();
    let mut i: usize = 0;
    proof {
        assert(params@.subrange(0, 0) =~= Seq::<Scope>::empty());
        assert(values_model(rest@) =~= vs.subrange(0, n as int));
    }
    while i < params.len()
        invariant
            params@.len() == n,
            vs.len() == n,
            i <= n,
            rest@.len() == n - i,
            values_model(rest@) == vs.subrange(i as int, n as int),
            env_model(r@) == bind_params(params@.subrange(0, i as int), vs.subrange(0, i as int)),
        decreases n - i,
    {
        let ghost before = r@;
        let ghost rest_before = rest@;
        let v = rest.remove(0);
        proof {
            assert(values_model(rest_before)[0] == v@);
            assert(values_model(rest@) =~= values_model(rest_before).subrange(1, rest_before.len() as int));
        }
        r.push((params[i], v));
        proof {
            assert(r@.drop_last() =~= before);
            assert(params@.subrange(0, i + 1).drop_last() =~= params@.subrange(0, i as int));
            assert(vs.subrange(0, i + 1).drop_last() =~= vs.subrange(0, i as int));
            assert(vs.subrange(i as int, n as int)[0] == vs[i as int]);
        }
        i = i + 1;
    }
    proof {
        assert(params@.subrange(0, n as int) =~= params@);
        assert(vs.subrange(0, n as int) =~= vs);
    }
    r
}

/// Once a prefix of the arguments fails to evaluate, the whole list fails the same way.
proof fn lemma_eval_all_err(ms: Seq<ExprModel>, i: int, env: Map<Scope, ValueModel>, procs: Seq<ProcModel>, depth: nat)
    requires
        0 <= i <= ms.len(),
        eval_all_spec(ms.subrange(0, i), env, procs, depth) is Err,
    ensures
        eval_all_spec(ms, env, procs, depth) == eval_all_spec(ms.subrange(0, i), env, procs, depth),
    decreases ms.len() - i,
{
    if i < ms.len() {
        assert(ms.subrange(0, i + 1).drop_last() =~= ms.subrange(0, i));
        lemma_eval_all_err(ms, i + 1, env, procs, depth);
    } else {
        assert(ms.subrange(0, i) =~= ms);
    }
}

} // verus!
