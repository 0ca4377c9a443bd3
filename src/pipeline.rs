//! The whole pipeline: a program of procedures is resolved against the
//! names it declares, then run from its `main` procedure.
use crate::common::Ident;
use crate::eval::{eval_spec, EvalError, Evaluator, Value, ValueModel, DEFAULT_DEPTH_LIMIT};
use crate::level0;
use crate::level0::{ids_needed, top_ids_needed, GlobalSymbol};
use crate::level1::{models_of, Expr, ExprModel, ProcModel, Top};
use crate::resolve_spec::{resolve_spec, resolve_top_spec, ResolveError};
use crate::resolver::State;
use vstd::prelude::*;

verus! {

/// A program as parsed: its procedures in order.
pub struct InitialLevel(pub Vec<level0::Top>);

/// A program after resolution.
pub struct FinalLevel(pub Vec<Top>);

/// Why lowering one expression all the way to a value failed.
#[derive(Debug, PartialEq, Eq)]
pub enum LowerError {
    Resolve(ResolveError),
    Eval(EvalError),
}

pub open spec fn top_name(t: level0::Top) -> Seq<char> {
    match t {
        level0::Top::Procedure { name, .. } => name.0.name(),
    }
}

/// The procedure names a program declares.
pub open spec fn declared_names(tops: Seq<level0::Top>) -> Seq<Seq<char>> {
    tops.map_values(|t: level0::Top| top_name(t))
}

pub open spec fn tops_ids_needed(tops: Seq<level0::Top>) -> nat
    decreases tops.len(),
{
    if tops.len() == 0 {
        0
    } else {
        tops_ids_needed(tops.drop_last()) + top_ids_needed(tops.last())
    }
}

/// Resolution of the procedures in order, all against the same `globals`;
/// the first failure wins.
pub open spec fn resolve_tops_spec(tops: Seq<level0::Top>, globals: Seq<Seq<char>>, next: nat) -> Result<
    (Seq<ProcModel>, nat),
    ResolveError,
>
    decreases tops.len(),
{
    if tops.len() == 0 {
        Ok((Seq::empty(), next))
    } else {
        match resolve_tops_spec(tops.drop_last(), globals, next) {
            Err(err) => Err(err),
            Ok((ps, n1)) => match resolve_top_spec(tops.last(), globals, n1) {
                Err(err) => Err(err),
                Ok((p, n2)) => Ok((ps.push(p), n2)),
            },
        }
    }
}

/// The call that starts a program: `main` with no arguments.
pub open spec fn main_call() -> ExprModel {
    ExprModel::ProcCall("main"@, Seq::empty())
}

impl FinalLevel {
    pub open spec fn procs(&self) -> Seq<ProcModel> {
        self.0@.map_values(|t: Top| t@)
    }
}

impl InitialLevel {
    /// Resolves every procedure; all names are declared first, so that
    /// procedures may call each other in any order.
    pub fn lower_all_the_way(self) -> (r: Result<FinalLevel, ResolveError>)
        requires
            tops_ids_needed(self.0@) <= usize::MAX,
        ensures
            match resolve_tops_spec(self.0@, declared_names(self.0@), 0) {
                Ok((ps, n)) => r matches Ok(f) && f.procs() == ps,
                Err(err) => r == Err::<FinalLevel, ResolveError>(err),
            },
    {
        let ghost all = self.0@;
        let ghost names = declared_names(all);
        let mut state = State::new();
        let tops = self.0;
        let mut i: usize = 0;
        while i < tops.len()
            invariant
                tops@ == all,
                names == declared_names(all),
                names.len() == all.len(),
                i <= all.len(),
                state.wf(),
                state.env().len() == 0,
                state.frames().len() == 0,
                state.next() == 0,
                state.global_names() == names.subrange(0, i as int),
            decreases all.len() - i,
        {
            let symbol = match &tops[i] {
                level0::Top::Procedure { name, .. } => GlobalSymbol(Ident(name.0.0.clone())),
            };
            assert(symbol.0.name() == names[i as int]);
            state.declare_global(symbol);
            i = i + 1;
            assert(state.global_names() =~= names.subrange(0, i as int));
        }
        assert(names.subrange(0, all.len() as int) =~= names);
        let mut rest = tops;
        let mut done: Vec<Top> = Vec::new();
        proof {
            assert(all.subrange(0, 0) =~= Seq::<level0::Top>::empty());
            assert(done@.map_values(|t: Top| t@) =~= Seq::<ProcModel>::empty());
            assert(rest@ =~= all.subrange(0, all.len() as int));
        }
        while rest.len() > 0
            invariant
                all == self.0@,
                names == declared_names(all),
                tops_ids_needed(all) <= usize::MAX,
                done@.len() <= all.len(),
                rest@ == all.subrange(done@.len() as int, all.len() as int),
                state.wf(),
                state.env().len() == 0,
                state.frames().len() == 0,
                state.global_names() == names,
                state.next() == tops_ids_needed(all.subrange(0, done@.len() as int)),
                resolve_tops_spec(all.subrange(0, done@.len() as int), names, 0) == Ok::<(Seq<ProcModel>, nat), ResolveError>(
                    (done@.map_values(|t: Top| t@), state.next()),
                ),
            decreases rest@.len(),
        {
            let ghost k = done@.len() as int;
            let t = rest.remove(0);
            proof {
                assert(t == all[k]);
                lemma_tops_ids_prefix(all, k + 1);
                assert(all.subrange(0, k + 1).drop_last() =~= all.subrange(0, k));
                assert(all.subrange(0, k + 1).last() == all[k]);
            }
            match state.map_top(t) {
                Err(err) => {
                    proof {
                        lemma_resolve_tops_err(all, k + 1, names);
                    }
                    return Err(err);
                },
                Ok(p) => {
                    let ghost before = done@;
                    done.push(p);
                    proof {
                        assert(done@.map_values(|t: Top| t@) =~= before.map_values(|t: Top| t@).push(p@));
                    }
                },
            }
        }
        assert(all.subrange(0, all.len() as int) =~= all);
        Ok(FinalLevel(done))
    }
}

impl FinalLevel {
    /// Registers every procedure, then calls `main` with no arguments.
    pub fn eval(self) -> (r: Result<Value, EvalError>)
        ensures
            match eval_spec(main_call(), Map::empty(), self.procs(), DEFAULT_DEPTH_LIMIT as nat) {
                Ok(v) => r matches Ok(x) && x@ == v,
                Err(err) => r == Err::<Value, EvalError>(err),
            },
    {
        let ghost procs = self.procs();
        let mut evaluator = Evaluator::new();
        let mut rest = self.0;
        let mut n: usize = 0;
        let total_len = rest.len();
        let ghost total = total_len as nat;
        proof {
            assert(procs.subrange(0, 0) =~= evaluator.procs());
        }
        while rest.len() > 0
            invariant
                procs == self.procs(),
                procs.len() == total,
                total == total_len,
                n + rest@.len() == total,
                forall|j: int| 0 <= j < rest@.len() ==> #[trigger] rest@[j]@ == procs[n + j],
                evaluator.procs() == procs.subrange(0, n as int),
                evaluator.env() == Map::<crate::common::Scope, ValueModel>::empty(),
                evaluator.limit() == DEFAULT_DEPTH_LIMIT,
            decreases rest@.len(),
        {
            let ghost before = rest@;
            let t = rest.remove(0);
            proof {
                assert(before[0]@ == procs[n as int]);
                assert forall|j: int| 0 <= j < rest@.len() implies #[trigger] rest@[j]@ == procs[n + 1 + j] by {
                    assert(rest@[j] == before[j + 1]);
                }
            }
            evaluator.eval_top(t);
            n = n + 1;
            assert(evaluator.procs() =~= procs.subrange(0, n as int));
        }
        assert(procs.subrange(0, total as int) =~= procs);
        let call = Expr::ProcCall { name: GlobalSymbol(Ident::new("main")), args: Vec::new() };
        proof {
            assert(models_of(Seq::<Expr>::empty()) =~= Seq::<ExprModel>::empty());
            assert(call@ == main_call());
        }
        evaluator.eval_expr(call)
    }
}

impl level0::Expr {
    /// Resolves the expression with nothing in scope and no procedures, then
    /// evaluates it. A resolution failure is returned before any evaluation.
    pub fn lower_all_the_way(self) -> (r: Result<Value, LowerError>)
        requires
            ids_needed(self) <= usize::MAX,
        ensures
            match resolve_spec(self, Seq::empty(), Seq::empty(), 0) {
                Err(err) => r == Err::<Value, LowerError>(LowerError::Resolve(err)),
                Ok((m, n)) => match eval_spec(m, Map::empty(), Seq::empty(), DEFAULT_DEPTH_LIMIT as nat) {
                    Ok(v) => r matches Ok(x) && x@ == v,
                    Err(err) => r == Err::<Value, LowerError>(LowerError::Eval(err)),
                },
            },
    {
        let mut state = State::new();
        match state.map_expr(self) {
            Err(err) => Err(LowerError::Resolve(err)),
            Ok(resolved) => {
                let mut evaluator = Evaluator::new();
                match evaluator.eval_expr(resolved) {
                    Ok(v) => Ok(v),
                    Err(err) => Err(LowerError::Eval(err)),
                }
            },
        }
    }
}

proof fn lemma_tops_ids_prefix(all: Seq<level0::Top>, i: int)
    requires
        0 <= i <= all.len(),
    ensures
        tops_ids_needed(all.subrange(0, i)) <= tops_ids_needed(all),
    decreases all.len() - i,
{
    if i < all.len() {
        lemma_tops_ids_prefix(all, i + 1);
        assert(all.subrange(0, i + 1).drop_last() =~= all.subrange(0, i));
    } else {
        assert(all.subrange(0, i) =~= all);
    }
}

proof fn lemma_resolve_tops_err(all: Seq<level0::Top>, i: int, globals: Seq<Seq<char>>)
    requires
        0 <= i <= all.len(),
        resolve_tops_spec(all.subrange(0, i), globals, 0) is Err,
    ensures
        resolve_tops_spec(all, globals, 0) == resolve_tops_spec(all.subrange(0, i), globals, 0),
    decreases all.len() - i,
{
    if i < all.len() {
        assert(all.subrange(0, i + 1).drop_last() =~= all.subrange(0, i));
        lemma_resolve_tops_err(all, i + 1, globals);
    } else {
        assert(all.subrange(0, i) =~= all);
    }
}

} // verus!
