//! The resolver: walks a surface tree with a stack of bindings and a stack of
//! capture frames, one frame per lambda being resolved.
use crate::common::{Id, Ident, Scope};
use crate::keyed_stack::{lemma_last_index_of, KeyedStack};
use crate::level0;
use crate::level0::{ids_needed, ids_needed_all, top_ids_needed, GlobalSymbol, Type};
use crate::level1::{
    captures_distinct, captures_distinct_all, free_scopes, free_scopes_all, model_of, models_of,
    scope_of_id, scope_set, scopes_distinct, BinaryOpKind, Binding, Expr, ExprModel, Top, params_of,
};
use crate::resolve_spec::{
    bound_in, compose_model, lemma_free_bound, resolve_all_spec, resolve_lambda_spec, resolve_spec, resolve_top_spec, param_env, Env, ResolveError,
};
use vstd::prelude::*;

verus! {

/// Scope ids grow from the bottom of the stack to the top, and all of them
/// are below the next id to hand out.
pub open spec fn ids_ordered(env: Env, next: nat) -> bool {
    &&& forall|i: int, j: int|
        0 <= i < j < env.len() ==> (env[i].1.scope.0.0 as nat) < (env[j].1.scope.0.0 as nat)
    &&& forall|i: int| 0 <= i < env.len() ==> (env[i].1.scope.0.0 as nat) < next
}

/// Frame thresholds never decrease from the outermost frame inwards, and
/// none exceeds the depth of the binding stack.
pub open spec fn thresholds_ordered(frames: Seq<(nat, Set<Scope>)>, depth: nat) -> bool {
    &&& forall|i: int, j: int| 0 <= i <= j < frames.len() ==> frames[i].0 <= frames[j].0
    &&& forall|i: int| 0 <= i < frames.len() ==> frames[i].0 <= depth
}

/// Of the scopes `f`, those bound below depth `t` of `env`: outside a lambda
/// whose frame has threshold `t`.
pub open spec fn captured_from(f: Set<Scope>, env: Env, t: nat) -> Set<Scope> {
    if t < env.len() {
        f.filter(|s: Scope| (s.0.0 as nat) < (env[t as int].1.scope.0.0 as nat))
    } else {
        f
    }
}

pub struct State {
    bindings: KeyedStack<Binding>,
    captures: Vec<(usize, Vec<Binding>)>,
    globals: Vec<GlobalSymbol>,
    next_id: usize,
}

impl State {
    /// The bindings in scope, outermost first.
    pub closed spec fn env(&self) -> Env {
        self.bindings@
    }

    /// The open capture frames, outermost first: threshold and captured scopes.
    pub closed spec fn frames(&self) -> Seq<(nat, Set<Scope>)> {
        self.captures@.map_values(|f: (usize, Vec<Binding>)| (f.0 as nat, scope_set(f.1@)))
    }

    /// The declared procedure names.
    pub closed spec fn global_names(&self) -> Seq<Seq<char>> {
        self.globals@.map_values(|g: GlobalSymbol| g.0.name())
    }

    /// The next scope id to hand out.
    pub closed spec fn next(&self) -> nat {
        self.next_id as nat
    }

    /// Each open frame lists every scope once.
    pub closed spec fn frames_distinct(&self) -> bool {
        forall|k: int| 0 <= k < self.captures@.len() ==> scopes_distinct(#[trigger] self.captures@[k].1@)
    }

    pub open spec fn wf(&self) -> bool {
        &&& ids_ordered(self.env(), self.next())
        &&& thresholds_ordered(self.frames(), self.env().len())
        &&& self.frames_distinct()
    }

    /// Back at the scope stack, declarations and frame thresholds of `old`,
    /// with no id handed out twice.
    pub open spec fn unwound_to(&self, old: &State) -> bool {
        &&& self.wf()
        &&& self.env() == old.env()
        &&& self.global_names() == old.global_names()
        &&& self.frames().len() == old.frames().len()
        &&& forall|k: int| 0 <= k < old.frames().len() ==> #[trigger] self.frames()[k].0 == old.frames()[k].0
        &&& old.next() <= self.next()
    }

    /// Every open frame of `old` has gained what it captures of `f`.
    pub open spec fn frames_extended(&self, old: &State, f: Set<Scope>) -> bool {
        forall|k: int|
            0 <= k < old.frames().len() ==> #[trigger] self.frames()[k].1 == old.frames()[k].1
                + captured_from(f, old.env(), old.frames()[k].0)
    }

    /// The state and result after resolving one expression whose
    /// resolution is `outcome` and which needs `needed` fresh ids.
    pub open spec fn resolved_as(
        &self,
        old: &State,
        outcome: Result<(ExprModel, nat), ResolveError>,
        r: Result<Expr, ResolveError>,
        needed: nat,
    ) -> bool {
        &&& self.unwound_to(old)
        &&& match outcome {
            Ok((m, n)) => {
                &&& r matches Ok(x) && x@ == m && captures_distinct(x)
                &&& self.next() == n
                &&& n == old.next() + needed
                &&& self.frames_extended(old, free_scopes(m))
            },
            Err(err) => r == Err::<Expr, ResolveError>(err),
        }
    }

    pub fn new() -> (r: State)
        ensures
            r.wf(),
            r.env() == Seq::<(Seq<char>, Binding)>::empty(),
            r.frames() == Seq::<(nat, Set<Scope>)>::empty(),
            r.global_names() == Seq::<Seq<char>>::empty(),
            r.next() == 0,
    {
        let r = State { bindings: KeyedStack::new(), captures: Vec::new(), globals: Vec::new(), next_id: 0 };
        assert(r.frames() =~= Seq::<(nat, Set<Scope>)>::empty());
        assert(r.global_names() =~= Seq::<Seq<char>>::empty());
        r
    }

    /// Makes a procedure name known, so that calls of it resolve.
    pub fn declare_global(&mut self, name: GlobalSymbol)
        ensures
            final(self).global_names() == old(self).global_names().push(name.0.name()),
            old(self).wf() ==> final(self).wf(),
            final(self).env() == old(self).env(),
            final(self).frames() == old(self).frames(),
            final(self).next() == old(self).next(),
    {
        self.globals.push(name);
        assert(self.global_names() =~= old(self).global_names().push(name.0.name()));
    }

    fn is_global(&self, name: &GlobalSymbol) -> (r: bool)
        ensures
            r == self.global_names().contains(name.0.name()),
    {
        let mut i: usize = 0;
        while i < self.globals.len()
            invariant
                i <= self.globals@.len(),
                forall|j: int| 0 <= j < i ==> self.global_names()[j] != name.0.name(),
            decreases self.globals@.len() - i,
        {
            if self.globals[i].0.same_name(&name.0) {
                assert(self.global_names()[i as int] == name.0.name());
                return true;
            }
            i = i + 1;
        }
        false
    }

    fn fresh_binding(&mut self) -> (r: Binding)
        requires
            old(self).wf(),
            old(self).next() < usize::MAX,
        ensures
            r.scope == scope_of_id(old(self).next()),
            final(self).next() == old(self).next() + 1,
            final(self).env() == old(self).env(),
            final(self).frames() == old(self).frames(),
            final(self).global_names() == old(self).global_names(),
            final(self).wf(),
    {
        let r = Binding { scope: Scope::new(Id::new(self.next_id)) };
        self.next_id = self.next_id + 1;
        r
    }

    /// Binds `binding` to a fresh scope, on top of the binding stack.
    pub fn introduce_binding(&mut self, binding: &level0::Binding) -> (r: Binding)
        requires
            old(self).wf(),
            old(self).next() < usize::MAX,
        ensures
            r.scope == scope_of_id(old(self).next()),
            final(self).env() == old(self).env().push((binding.0.name(), r)),
            final(self).next() == old(self).next() + 1,
            final(self).frames() == old(self).frames(),
            final(self).global_names() == old(self).global_names(),
            final(self).wf(),
    {
        let b = self.fresh_binding();
        self.bindings.push(Ident(binding.0.0.clone()), b);
        b
    }

    fn push_frame(&mut self)
        requires
            old(self).wf(),
        ensures
            final(self).frames() == old(self).frames().push((old(self).env().len(), Set::<Scope>::empty())),
            final(self).env() == old(self).env(),
            final(self).next() == old(self).next(),
            final(self).global_names() == old(self).global_names(),
            final(self).wf(),
    {
        let depth = self.bindings.len();
        self.captures.push((depth, Vec::new()));
        assert forall|k: int| 0 <= k < self.captures@.len() implies scopes_distinct(#[trigger] self.captures@[k].1@) by {
            if k < old(self).captures@.len() {
                assert(self.captures@[k] == old(self).captures@[k]);
            }
        }
        assert(scope_set(Seq::<Binding>::empty()) =~= Set::<Scope>::empty());
        assert(self.frames() =~= old(self).frames().push((old(self).env().len(), Set::<Scope>::empty())));
    }

    fn pop_frame(&mut self) -> (r: Vec<Binding>)
        requires
            old(self).frames().len() > 0,
        ensures
            final(self).frames() == old(self).frames().drop_last(),
            scope_set(r@) == old(self).frames().last().1,
            old(self).frames_distinct() ==> final(self).frames_distinct() && scopes_distinct(r@),
            final(self).env() == old(self).env(),
            final(self).next() == old(self).next(),
            final(self).global_names() == old(self).global_names(),
    {
        let ghost last = old(self).captures@.len() - 1;
        let (_, captured) = self.captures.pop().unwrap();
        assert(self.frames() =~= old(self).frames().drop_last());
        assert(captured@ == old(self).captures@[last].1@);
        assert forall|k: int| 0 <= k < self.captures@.len() implies #[trigger] self.captures@[k] == old(self).captures@[k] by {}
        captured
    }

    /// The first frame whose threshold lies above depth `idx`.
    fn first_frame_above(&self, idx: usize) -> (r: usize)
        requires
            self.wf(),
        ensures
            r <= self.frames().len(),
            forall|k: int| 0 <= k < r ==> self.frames()[k].0 <= idx,
            forall|k: int| r <= k < self.frames().len() ==> self.frames()[k].0 > idx,
    {
        let mut lo: usize = 0;
        let mut hi: usize = self.captures.len();
        while lo < hi
            invariant
                self.wf(),
                lo <= hi <= self.captures@.len(),
                self.frames().len() == self.captures@.len(),
                forall|k: int| 0 <= k < lo ==> self.frames()[k].0 <= idx,
                forall|k: int| hi <= k < self.frames().len() ==> self.frames()[k].0 > idx,
            decreases hi - lo,
        {
            let mid = lo + (hi - lo) / 2;
            assert(self.frames()[mid as int].0 == self.captures@[mid as int].0);
            if self.captures[mid].0 <= idx {
                lo = mid + 1;
            } else {
                hi = mid;
            }
        }
        lo
    }

    /// Records that the binding at depth `idx` is read: every frame above
    /// that depth captures it.
    fn capture(&mut self, idx: usize, b: Binding)
        requires
            old(self).wf(),
            idx < old(self).env().len(),
            old(self).env()[idx as int].1 == b,
        ensures
            final(self).unwound_to(old(self)),
            final(self).next() == old(self).next(),
            final(self).frames_extended(old(self), set![b.scope]),
    {
        let first = self.first_frame_above(idx);
        let mut k: usize = first;
        while k < self.captures.len()
            invariant
                first <= k <= self.captures@.len(),
                self.captures@.len() == old(self).captures@.len(),
                self.bindings == old(self).bindings,
                self.globals == old(self).globals,
                self.next_id == old(self).next_id,
                forall|j: int| 0 <= j < self.captures@.len() ==> #[trigger] self.captures@[j].0 == old(self).captures@[j].0,
                forall|j: int| 0 <= j < first ==> self.frames()[j] == #[trigger] old(self).frames()[j],
                forall|j: int| k <= j < self.captures@.len() ==> self.frames()[j] == #[trigger] old(self).frames()[j],
                forall|j: int| first <= j < k ==> self.frames()[j].1 == #[trigger] old(self).frames()[j].1.insert(b.scope),
                old(self).frames_distinct(),
                self.frames_distinct(),
            decreases self.captures@.len() - k,
        {
            let ghost before = self.captures@;
            add_capture(&mut self.captures[k].1, b);
            proof {
                assert(self.frames()[k as int].1 == scope_set(self.captures@[k as int].1@));
                assert forall|j: int| 0 <= j < self.captures@.len() implies scopes_distinct(#[trigger] self.captures@[j].1@) by {
                    if j != k {
                        assert(self.captures@[j] == before[j]);
                    }
                }
            }
            k = k + 1;
        }
        proof {
            assert(self.frames().len() == old(self).frames().len());
            assert forall|j: int| 0 <= j < old(self).frames().len() implies #[trigger] self.frames()[j].1
                == old(self).frames()[j].1 + captured_from(set![b.scope], old(self).env(), old(self).frames()[j].0) by {
                let t = old(self).frames()[j].0;
                let env = old(self).env();
                if j >= first {
                    if t < env.len() {
                        assert(set![b.scope].filter(|s: Scope| (s.0.0 as nat) < (env[t as int].1.scope.0.0 as nat)) =~= set![b.scope]);
                    }
                    assert(old(self).frames()[j].1.insert(b.scope) =~= old(self).frames()[j].1 + set![b.scope]);
                } else {
                    assert(set![b.scope].filter(|s: Scope| (s.0.0 as nat) < (env[t as int].1.scope.0.0 as nat)) =~= Set::<Scope>::empty());
                    assert(old(self).frames()[j].1 =~= old(self).frames()[j].1 + Set::<Scope>::empty());
                }
            }
            assert forall|j: int| 0 <= j < old(self).frames().len() implies #[trigger] self.frames()[j].0 == old(self).frames()[j].0 by {
                assert(self.captures@[j].0 == old(self).captures@[j].0);
            }
        }
    }
}

impl State {
    /// Resolves a surface expression in the current scope.
    pub fn map_expr(&mut self, expr: level0::Expr) -> (r: Result<Expr, ResolveError>)
        requires
            old(self).wf(),
            old(self).next() + ids_needed(expr) <= usize::MAX,
        ensures
            final(self).resolved_as(
                old(self),
                resolve_spec(expr, old(self).env(), old(self).global_names(), old(self).next()),
                r,
                ids_needed(expr),
            ),
        decreases expr, 1nat,
    {
        let ghost e0 = expr;
        let ghost s0 = *self;
        match expr {
            level0::Expr::Number(n) => {
                proof {
                    lemma_extended_by_nothing(*self);
                }
                Ok(Expr::Number(n))
            },
            level0::Expr::LambdaFunction { arg, body } => self.resolve_lambda(arg, *body),
            level0::Expr::LetBinding { name, value, body } => {
                match self.map_expr(*value) {
                    Err(err) => Err(err),
                    Ok(v) => {
                        let ghost s1 = *self;
                        match self.resolve_lambda(name, *body) {
                            Err(err) => {
                                proof {
                                    lemma_unwound_trans(s0, s1, *self);
                                }
                                Err(err)
                            },
                            Ok(f) => {
                                proof {
                                    lemma_extended_trans(s0, s1, *self, free_scopes(v@), free_scopes(f@));
                                    assert(free_scopes(v@) + free_scopes(f@) =~= free_scopes(f@) + free_scopes(v@));
                                }
                                Ok(Expr::BinaryOperation(Box::new(f), BinaryOpKind::Call, Box::new(v)))
                            },
                        }
                    },
                }
            },
            level0::Expr::BinaryOperation(l, kind, r) => self.resolve_binary(*l, kind, *r, Ghost(e0)),
            level0::Expr::Referal(name) => {
                proof {
                    lemma_last_index_of(self.env(), name.name());
                }
                match self.bindings.find(&name) {
                    None => Err(ResolveError::UnresolvedName(name)),
                    Some((idx, b)) => {
                        let b = *b;
                        self.capture(idx, b);
                        Ok(Expr::Referal { scope: b.scope })
                    },
                }
            },
            level0::Expr::ProcCall { name, args } => self.resolve_call(name, args, Ghost(e0)),
        }
    }

    /// Resolves `arg -> body`: a new frame collects what the body reads
    /// from outside the lambda.
    fn resolve_lambda(&mut self, arg: level0::Binding, body: level0::Expr) -> (r: Result<Expr, ResolveError>)
        requires
            old(self).wf(),
            old(self).next() + 1 + ids_needed(body) <= usize::MAX,
        ensures
            final(self).resolved_as(
                old(self),
                resolve_lambda_spec(arg, body, old(self).env(), old(self).global_names(), old(self).next()),
                r,
                1 + ids_needed(body),
            ),
        decreases body, 2nat,
    {
        let ghost s0 = *self;
        self.push_frame();
        let b = self.introduce_binding(&arg);
        let ghost s2 = *self;
        let body_r = self.map_expr(body);
        let ghost s3 = *self;
        // the parameter goes out of scope; its binding is `b`
        let _ = self.bindings.pop(&arg.0);
        proof {
            let env = s0.env();
            let inner = s2.env();
            assert(inner.drop_last() =~= env);
            assert(self.env() == env);
            assert(s3.frames()[s0.frames().len() as int].0 == env.len());
        }
        let captured = self.pop_frame();
        proof {
            let env = s0.env();
            let a = b.scope;
            assert(self.frames() =~= s3.frames().drop_last());
            assert forall|k: int| 0 <= k < s0.frames().len() implies #[trigger] self.frames()[k].0 == s0.frames()[k].0 by {
                assert(s3.frames()[k].0 == s2.frames()[k].0);
            }
            if let Ok((mb, n1)) = resolve_spec(body, s2.env(), s0.global_names(), s0.next() + 1) {
                lemma_free_bound(body, s2.env(), s0.global_names(), s0.next() + 1);
                let fb = free_scopes(mb);
                lemma_captured_after_push(fb, env, arg.0.name(), s0.next(), env.len());
                assert(s3.frames()[s0.frames().len() as int].1 == Set::<Scope>::empty() + captured_from(fb, s2.env(), env.len()));
                assert(scope_set(captured@) =~= fb.remove(a));
                assert forall|k: int| 0 <= k < s0.frames().len() implies #[trigger] self.frames()[k].1
                    == s0.frames()[k].1 + captured_from(fb.remove(a), env, s0.frames()[k].0) by {
                    lemma_captured_after_push(fb, env, arg.0.name(), s0.next(), s0.frames()[k].0);
                    assert(s3.frames()[k].1 == s2.frames()[k].1 + captured_from(fb, s2.env(), s2.frames()[k].0));
                }
            }
        }
        match body_r {
            Err(err) => Err(err),
            Ok(mb) => Ok(Expr::LambdaFunction { arg: b, body: Box::new(mb), captured }),
        }
    }

    /// Resolves a binary operation; `l . r` becomes `point -> l (r point)`.
    fn resolve_binary(
        &mut self,
        l: level0::Expr,
        kind: level0::BinaryOpKind,
        r: level0::Expr,
        Ghost(e0): Ghost<level0::Expr>,
    ) -> (res: Result<Expr, ResolveError>)
        requires
            e0 == level0::Expr::BinaryOperation(Box::new(l), kind, Box::new(r)),
            old(self).wf(),
            old(self).next() + ids_needed(e0) <= usize::MAX,
        ensures
            final(self).resolved_as(
                old(self),
                resolve_spec(e0, old(self).env(), old(self).global_names(), old(self).next()),
                res,
                ids_needed(e0),
            ),
        decreases e0, 0nat,
    {
        let ghost s0 = *self;
        proof {
            assert(decreases_to!(e0 => l));
            assert(decreases_to!(e0 => r));
        }
        if kind == level0::BinaryOpKind::Composition {
            let point = self.fresh_binding();
            self.push_frame();
            let ghost s1 = *self;
            match self.map_expr(l) {
                Err(err) => {
                    let _ = self.pop_frame();
                    proof {
                        assert forall|k: int| 0 <= k < s0.frames().len() implies #[trigger] self.frames()[k].0 == s0.frames()[k].0 by {
                            assert(s1.frames()[k].0 == s0.frames()[k].0);
                        }
                    }
                    Err(err)
                },
                Ok(ml) => {
                    let ghost s2 = *self;
                    let rr = self.map_expr(r);
                    let ghost s3 = *self;
                    let captured = self.pop_frame();
                    proof {
                        let env = s0.env();
                        let d = env.len();
                        let fi = s0.frames().len() as int;
                        assert forall|k: int| 0 <= k < s0.frames().len() implies #[trigger] self.frames()[k].0 == s0.frames()[k].0 by {
                            assert(s1.frames()[k].0 == s0.frames()[k].0);
                            assert(s2.frames()[k].0 == s1.frames()[k].0);
                        }
                        if rr is Ok {
                            let mr = rr->Ok_0;
                            let fl = free_scopes(ml@);
                            let fr = free_scopes(mr@);
                            assert(s1.frames()[fi] == (d, Set::<Scope>::empty()));
                            assert(s2.frames()[fi].1 == Set::<Scope>::empty() + captured_from(fl, env, d));
                            assert(s3.frames()[fi].1 == s2.frames()[fi].1 + captured_from(fr, env, d));
                            assert(scope_set(captured@) =~= fl + fr);
                            assert forall|k: int| 0 <= k < s0.frames().len() implies #[trigger] self.frames()[k].1
                                == s0.frames()[k].1 + captured_from(fl + fr, env, s0.frames()[k].0) by {
                                lemma_captured_union(fl, fr, env, s0.frames()[k].0);
                                assert(s2.frames()[k].1 == s1.frames()[k].1 + captured_from(fl, env, s1.frames()[k].0));
                                assert(s3.frames()[k].1 == s2.frames()[k].1 + captured_from(fr, env, s2.frames()[k].0));
                                assert(s3.frames()[k].1 =~= s0.frames()[k].1 + captured_from(fl + fr, env, s0.frames()[k].0));
                            }
                            assert(free_scopes(compose_model(ml@, mr@, point.scope)) == fl + fr);
                        }
                    }
                    match rr {
                        Err(err) => Err(err),
                        Ok(mr) => {
                            let ghost (gl, gr) = (ml@, mr@);
                            proof {
                                assert(captures_distinct(ml));
                                assert(captures_distinct(mr));
                                assert(captures_distinct(Expr::Referal { scope: point.scope }));
                            }
                            let applied = Expr::BinaryOperation(
                                Box::new(mr),
                                BinaryOpKind::Call,
                                Box::new(Expr::Referal { scope: point.scope }),
                            );
                            let body = Expr::BinaryOperation(Box::new(ml), BinaryOpKind::Call, Box::new(applied));
                            let f = Expr::LambdaFunction { arg: point, body: Box::new(body), captured };
                            proof {
                                assert(captures_distinct(applied));
                                assert(captures_distinct(body));
                                assert(model_of(Expr::Referal { scope: point.scope }) == ExprModel::Referal(point.scope));
                                assert(applied@ == ExprModel::Binary(Box::new(gr), BinaryOpKind::Call, Box::new(ExprModel::Referal(point.scope))));
                                assert(body@ == ExprModel::Binary(Box::new(gl), BinaryOpKind::Call, Box::new(applied@)));
                                assert(f@ == compose_model(gl, gr, point.scope));
                            }
                            Ok(f)
                        },
                    }
                },
            }
        } else {
            let k = match kind {
                level0::BinaryOpKind::Addition => BinaryOpKind::Addition,
                level0::BinaryOpKind::Multiplication => BinaryOpKind::Multiplication,
                _ => BinaryOpKind::Call,
            };
            match self.map_expr(l) {
                Err(err) => Err(err),
                Ok(ml) => {
                    let ghost s1 = *self;
                    match self.map_expr(r) {
                        Err(err) => {
                            proof {
                                lemma_unwound_trans(s0, s1, *self);
                            }
                            Err(err)
                        },
                        Ok(mr) => {
                            proof {
                                lemma_extended_trans(s0, s1, *self, free_scopes(ml@), free_scopes(mr@));
                            }
                            Ok(Expr::BinaryOperation(Box::new(ml), k, Box::new(mr)))
                        },
                    }
                },
            }
        }
    }

    /// Resolves a procedure call: the arguments left to right, then the name.
    fn resolve_call(&mut self, name: GlobalSymbol, args: Vec<level0::Expr>, Ghost(e0): Ghost<level0::Expr>) -> (res:
        Result<Expr, ResolveError>)
        requires
            e0 == (level0::Expr::ProcCall { name, args }),
            old(self).wf(),
            old(self).next() + ids_needed(e0) <= usize::MAX,
        ensures
            final(self).resolved_as(
                old(self),
                resolve_spec(e0, old(self).env(), old(self).global_names(), old(self).next()),
                res,
                ids_needed(e0),
            ),
        decreases e0, 0nat,
    {
        let ghost s0 = *self;
        let ghost all = args@;
        let ghost env = s0.env();
        let ghost globals = s0.global_names();
        let mut rest = args;
        let mut out: Vec<Expr> = Vec::new();
        proof {
            assert(all.subrange(0, 0) =~= Seq::<level0::Expr>::empty());
            assert(models_of(out@) =~= Seq::<ExprModel>::empty());
            assert(rest@ =~= all.subrange(0, all.len() as int));
            lemma_extended_by_nothing(*self);
            assert(free_scopes_all(Seq::<ExprModel>::empty()) =~= Set::<Scope>::empty());
        }
        while rest.len() > 0
            invariant
                e0 == (level0::Expr::ProcCall { name, args }),
                all == args@,
                s0 == *old(self),
                env == s0.env(),
                globals == s0.global_names(),
                s0.wf(),
                s0.next() + ids_needed_all(all) <= usize::MAX,
                out@.len() <= all.len(),
                rest@ == all.subrange(out@.len() as int, all.len() as int),
                self.unwound_to(&s0),
                resolve_all_spec(all.subrange(0, out@.len() as int), env, globals, s0.next())
                    == Ok::<(Seq<ExprModel>, nat), ResolveError>((models_of(out@), self.next())),
                self.next() == s0.next() + ids_needed_all(all.subrange(0, out@.len() as int)),
                self.frames_extended(&s0, free_scopes_all(models_of(out@))),
                captures_distinct_all(out@),
            decreases rest@.len(),
        {
            let ghost i = out@.len() as int;
            let a = rest.remove(0);
            proof {
                assert(a == all[i]);
                assert(decreases_to!(e0 => all[i]));
                lemma_ids_needed_prefix(all, i + 1);
                assert(all.subrange(0, i + 1).drop_last() =~= all.subrange(0, i));
                assert(all.subrange(0, i + 1).last() == all[i]);
            }
            let ghost s1 = *self;
            match self.map_expr(a) {
                Err(err) => {
                    proof {
                        lemma_resolve_all_err(all, i + 1, env, globals, s0.next());
                        lemma_unwound_trans(s0, s1, *self);
                    }
                    return Err(err);
                },
                Ok(m) => {
                    let ghost before = out@;
                    out.push(m);
                    proof {
                        assert(out@.drop_last() =~= before);
                        assert(captures_distinct_all(out@));
                        assert(models_of(out@) =~= models_of(before).push(m@));
                        assert(models_of(out@).drop_last() =~= models_of(before));
                        lemma_extended_trans(s0, s1, *self, free_scopes_all(models_of(before)), free_scopes(m@));
                    }
                },
            }
        }
        proof {
            assert(all.subrange(0, all.len() as int) =~= all);
        }
        if self.is_global(&name) {
            Ok(Expr::ProcCall { name, args: out })
        } else {
            Err(ResolveError::UnknownProcedure(name))
        }
    }
}

proof fn lemma_extended_by_nothing(s: State)
    ensures
        s.frames_extended(&s, free_scopes(ExprModel::Number(0))),
        s.frames_extended(&s, Set::<Scope>::empty()),
{
    assert forall|k: int| 0 <= k < s.frames().len() implies #[trigger] s.frames()[k].1 == s.frames()[k].1
        + captured_from(Set::<Scope>::empty(), s.env(), s.frames()[k].0) by {
        assert(captured_from(Set::<Scope>::empty(), s.env(), s.frames()[k].0) =~= Set::<Scope>::empty());
        assert(s.frames()[k].1 + Set::<Scope>::empty() =~= s.frames()[k].1);
    }
    assert(free_scopes(ExprModel::Number(0)) == Set::<Scope>::empty());
}

proof fn lemma_unwound_trans(s0: State, s1: State, s2: State)
    requires
        s1.unwound_to(&s0),
        s2.unwound_to(&s1),
    ensures
        s2.unwound_to(&s0),
{
    assert forall|k: int| 0 <= k < s0.frames().len() implies #[trigger] s2.frames()[k].0 == s0.frames()[k].0 by {
        assert(s1.frames()[k].0 == s0.frames()[k].0);
    }
}

proof fn lemma_captured_union(a: Set<Scope>, b: Set<Scope>, env: Env, t: nat)
    ensures
        captured_from(a + b, env, t) == captured_from(a, env, t) + captured_from(b, env, t),
{
    assert(captured_from(a + b, env, t) =~= captured_from(a, env, t) + captured_from(b, env, t));
}

proof fn lemma_extended_trans(s0: State, s1: State, s2: State, a: Set<Scope>, b: Set<Scope>)
    requires
        s1.unwound_to(&s0),
        s1.frames_extended(&s0, a),
        s2.unwound_to(&s1),
        s2.frames_extended(&s1, b),
    ensures
        s2.unwound_to(&s0),
        s2.frames_extended(&s0, a + b),
{
    assert forall|k: int| 0 <= k < s0.frames().len() implies #[trigger] s2.frames()[k].0 == s0.frames()[k].0 by {
        assert(s1.frames()[k].0 == s0.frames()[k].0);
    }
    assert forall|k: int| 0 <= k < s0.frames().len() implies #[trigger] s2.frames()[k].1 == s0.frames()[k].1
        + captured_from(a + b, s0.env(), s0.frames()[k].0) by {
        assert(s1.frames()[k].0 == s0.frames()[k].0);
        assert(s1.frames()[k].1 == s0.frames()[k].1 + captured_from(a, s0.env(), s0.frames()[k].0));
        assert(s2.frames()[k].1 == s1.frames()[k].1 + captured_from(b, s1.env(), s1.frames()[k].0));
        lemma_captured_union(a, b, s0.env(), s0.frames()[k].0);
        assert(s2.frames()[k].1 =~= s0.frames()[k].1 + captured_from(a + b, s0.env(), s0.frames()[k].0));
    }
}

/// Pushing a fresh binding `a` changes what a frame captures of `f` only by `a`.
proof fn lemma_captured_after_push(f: Set<Scope>, env: Env, key: Seq<char>, next: nat, t: nat)
    requires
        ids_ordered(env, next),
        next <= usize::MAX,
        t <= env.len(),
        forall|s: Scope| #[trigger] f.contains(s) ==> bound_in(env.push((key, Binding { scope: scope_of_id(next) })), s),
    ensures
        captured_from(f, env.push((key, Binding { scope: scope_of_id(next) })), t)
            == captured_from(f.remove(scope_of_id(next)), env, t),
{
    let a = scope_of_id(next);
    let inner = env.push((key, Binding { scope: a }));
    if t < env.len() {
        assert(inner[t as int] == env[t as int]);
        assert(captured_from(f, inner, t) =~= captured_from(f.remove(a), env, t));
    } else {
        assert(inner[t as int].1.scope == a);
        assert forall|s: Scope| #[trigger] captured_from(f, inner, t).contains(s) == f.remove(a).contains(s) by {
            if f.contains(s) {
                let i = choose|i: int| 0 <= i < inner.len() && inner[i].1.scope == s;
                if i < env.len() {
                    assert(inner[i] == env[i]);
                }
            }
        }
        assert(captured_from(f, inner, t) =~= captured_from(f.remove(a), env, t));
    }
}

proof fn lemma_ids_needed_prefix(all: Seq<level0::Expr>, i: int)
    requires
        0 <= i <= all.len(),
    ensures
        ids_needed_all(all.subrange(0, i)) <= ids_needed_all(all),
    decreases all.len() - i,
{
    if i < all.len() {
        lemma_ids_needed_prefix(all, i + 1);
        assert(all.subrange(0, i + 1).drop_last() =~= all.subrange(0, i));
    } else {
        assert(all.subrange(0, i) =~= all);
    }
}

/// Once a prefix of the arguments fails to resolve, the whole list fails the same way.
proof fn lemma_resolve_all_err(all: Seq<level0::Expr>, i: int, env: Env, globals: Seq<Seq<char>>, next: nat)
    requires
        0 <= i <= all.len(),
        resolve_all_spec(all.subrange(0, i), env, globals, next) is Err,
    ensures
        resolve_all_spec(all, env, globals, next) == resolve_all_spec(all.subrange(0, i), env, globals, next),
    decreases all.len() - i,
{
    if i < all.len() {
        assert(all.subrange(0, i + 1).drop_last() =~= all.subrange(0, i));
        lemma_resolve_all_err(all, i + 1, env, globals, next);
    } else {
        assert(all.subrange(0, i) =~= all);
    }
}

impl State {
    /// Resolves a top-level procedure: its parameters are bound, in order,
    /// around its body, outside any lambda.
    pub fn map_top(&mut self, top: level0::Top) -> (r: Result<Top, ResolveError>)
        requires
            old(self).wf(),
            old(self).env().len() == 0,
            old(self).frames().len() == 0,
            old(self).next() + top_ids_needed(top) <= usize::MAX,
        ensures
            final(self).unwound_to(old(self)),
            match resolve_top_spec(top, old(self).global_names(), old(self).next()) {
                Ok((p, n)) => r matches Ok(x) && x@ == p && final(self).next() == n && n == old(self).next()
                    + top_ids_needed(top),
                Err(err) => r == Err::<Top, ResolveError>(err),
            },
    {
        let ghost s0 = *self;
        match top {
            level0::Top::Procedure { name, args, return_type, body } => {
                let ghost all = args@;
                let ghost env = param_env(all, s0.next());
                let mut rest = args;
                let mut params: Vec<(Binding, Type)> = Vec::new();
                let mut keys: Vec<Ident> = Vec::new();
                proof {
                    assert(s0.env() =~= env.subrange(0, 0));
                    assert(rest@ =~= all.subrange(0, all.len() as int));
                }
                while rest.len() > 0
                    invariant
                        s0 == *old(self),
                        env == param_env(all, s0.next()),
                        s0.next() + all.len() + ids_needed(body) <= usize::MAX,
                        params@.len() == keys@.len(),
                        params@.len() <= all.len(),
                        rest@ == all.subrange(params@.len() as int, all.len() as int),
                        self.wf(),
                        self.env() == env.subrange(0, params@.len() as int),
                        self.next() == s0.next() + params@.len(),
                        self.frames().len() == 0,
                        self.global_names() == s0.global_names(),
                        forall|j: int| 0 <= j < params@.len() ==> #[trigger] params@[j].0.scope == env[j].1.scope,
                        forall|j: int| 0 <= j < params@.len() ==> #[trigger] params@[j].1 == all[j].1,
                        forall|j: int| 0 <= j < params@.len() ==> #[trigger] keys@[j].name() == env[j].0,
                    decreases rest@.len(),
                {
                    let ghost i = params@.len() as int;
                    let (b, t) = rest.remove(0);
                    let nb = self.introduce_binding(&b);
                    proof {
                        assert(b == all[i].0);
                        assert(self.env() =~= env.subrange(0, i + 1));
                    }
                    keys.push(b.0);
                    params.push((nb, t));
                }
                let ghost s1 = *self;
                let body_r = self.map_expr(body);
                let ghost s2 = *self;
                proof {
                    assert(env.subrange(0, all.len() as int) =~= env);
                }
                while keys.len() > 0
                    invariant
                        s0 == *old(self),
                        keys@.len() <= all.len(),
                        env.len() == all.len(),
                        self.wf(),
                        self.env() == env.subrange(0, keys@.len() as int),
                        self.frames().len() == 0,
                        self.global_names() == s0.global_names(),
                        self.next() == s2.next(),
                        s1.env() == env,
                        s1.global_names() == s0.global_names(),
                        s1.next() == s0.next() + all.len(),
                        s2.resolved_as(&s1, resolve_spec(body, env, s0.global_names(), s0.next() + all.len()), body_r, ids_needed(body)),
                        forall|j: int| 0 <= j < keys@.len() ==> #[trigger] keys@[j].name() == env[j].0,
                    decreases keys@.len(),
                {
                    // parameters leave scope innermost first
                    let k = keys.pop().unwrap();
                    let ghost m = keys@.len() as int;
                    let ghost before = self.env();
                    proof {
                        assert(before.last().0 == k.name());
                        assert(before.drop_last() =~= env.subrange(0, m));
                    }
                    let _ = self.bindings.pop(&k);
                }
                proof {
                    assert(self.env() =~= s0.env());
                    assert(self.frames() =~= s0.frames());
                    assert(params_of(params@) =~= env.map_values(|p: (Seq<char>, Binding)| p.1.scope));
                    assert(crate::level1::types_of(params@) =~= crate::level1::types_of(all));
                }
                match body_r {
                    Err(err) => Err(err),
                    Ok(b) => Ok(Top::Procedure { name, args: params, return_type, body: b }),
                }
            },
        }
    }
}

/// Adds `b` to a capture list unless its scope is already there.
fn add_capture(frame: &mut Vec<Binding>, b: Binding)
    ensures
        scope_set(final(frame)@) == scope_set(old(frame)@).insert(b.scope),
        scopes_distinct(old(frame)@) ==> scopes_distinct(final(frame)@),
{
    let mut i: usize = 0;
    while i < frame.len()
        invariant
            i <= frame@.len(),
            forall|j: int| 0 <= j < i ==> frame@[j].scope != b.scope,
        decreases frame@.len() - i,
    {
        if frame[i].scope == b.scope {
            assert(scope_set(frame@) =~= scope_set(frame@).insert(b.scope));
            return;
        }
        i = i + 1;
    }
    let ghost before = frame@;
    frame.push(b);
    assert forall|i: int, j: int| 0 <= i < frame@.len() && 0 <= j < frame@.len() && i != j && scopes_distinct(before) implies frame@[i].scope != frame@[j].scope by {
        if i < before.len() && j < before.len() {
            assert(frame@[i] == before[i] && frame@[j] == before[j]);
        } else if i < before.len() {
            assert(frame@[i] == before[i]);
        } else if j < before.len() {
            assert(frame@[j] == before[j]);
        }
    }
    assert forall|s: Scope| #[trigger] scope_set(frame@).contains(s) == scope_set(before).insert(b.scope).contains(s) by {
        if scope_set(before).contains(s) {
            let j = choose|j: int| 0 <= j < before.len() && before[j].scope == s;
            assert(frame@[j] == before[j]);
        }
        if s == b.scope {
            assert(frame@[before.len() as int] == b);
        }
        if scope_set(frame@).contains(s) {
            let j = choose|j: int| 0 <= j < frame@.len() && frame@[j].scope == s;
            if j < before.len() {
                assert(frame@[j] == before[j]);
            }
        }
    }
    assert(scope_set(frame@) =~= scope_set(before).insert(b.scope));
}

} // verus!
