//! One-step lookahead: evaluate every legal action's resulting position and
//! pick the best by the scoring policy, the first seen winning on ties.

use vstd::prelude::*;
use crate::state::{
    MazeState, StateView, action_legal, succ_score, view_done,
};

verus! {

/// What the greedy engine promises: an action is returned exactly when the
/// position is non-terminal and some action is legal, and the returned
/// action maximises the evaluation of the successor position, the smallest
/// such action winning on ties.
pub open spec fn greedy_pick(v: StateView, r: Option<usize>) -> bool {
    &&& (r is Some) <==> (!view_done(v) && exists|a: int| action_legal(v, a))
    &&& (r matches Some(a) ==> {
        &&& action_legal(v, a as int)
        &&& forall|b: int| action_legal(v, b) ==> succ_score(v, b) <= succ_score(v, a as int)
        &&& forall|b: int|
            action_legal(v, b) && b < a ==> succ_score(v, b) < succ_score(v, a as int)
    })
}

/// At most one answer satisfies the greedy promise: the engine's choice is
/// fully determined by the position.
pub proof fn lemma_greedy_unique(v: StateView, r1: Option<usize>, r2: Option<usize>)
    requires
        greedy_pick(v, r1),
        greedy_pick(v, r2),
    ensures
        r1 == r2,
{
    if r1 is Some && r2 is Some {
        let a1 = r1->Some_0;
        let a2 = r2->Some_0;
        if a1 < a2 {
            assert(succ_score(v, a1 as int) < succ_score(v, a2 as int));
            assert(succ_score(v, a2 as int) <= succ_score(v, a1 as int));
        } else if a2 < a1 {
            assert(succ_score(v, a2 as int) < succ_score(v, a1 as int));
            assert(succ_score(v, a1 as int) <= succ_score(v, a2 as int));
        }
    }
}

/// Chooses the action whose successor position evaluates best, cloning and
/// advancing an independent copy per candidate.  Returns `None` exactly on a
/// terminal position or when no action is legal.
pub fn greedy_action(state: &MazeState) -> (r: Option<usize>)
    requires
        state.wf(),
    ensures
        greedy_pick(state@, r),
{
    if state.is_done() {
        return None;
    }
    let mut best: Option<usize> = None;
    let mut best_score: u64 = 0;
    let mut a: usize = 0;
    while a < 4
        invariant
            a <= 4,
            state.wf(),
            !view_done(state@),
            best is None ==> forall|b: int| 0 <= b < a ==> !action_legal(state@, b),
            best matches Some(ba) ==> {
                &&& ba < a
                &&& action_legal(state@, ba as int)
                &&& best_score as nat == succ_score(state@, ba as int)
                &&& forall|b: int|
                    0 <= b < a && action_legal(state@, b) ==> succ_score(state@, b) <= succ_score(
                        state@,
                        ba as int,
                    )
                &&& forall|b: int|
                    0 <= b < ba && action_legal(state@, b) ==> succ_score(state@, b) < succ_score(
                        state@,
                        ba as int,
                    )
            },
        decreases 4 - a,
    {
        if state.action_is_legal(a) {
            let mut succ = state.duplicate();
            succ.advance(a);
            let sc = succ.evaluate();
            match best {
                Option::None => {
                    best = Some(a);
                    best_score = sc;
                },
                Option::Some(_) => {
                    if sc > best_score {
                        best = Some(a);
                        best_score = sc;
                    }
                },
            }
        }
        a = a + 1;
    }
    best
}

} // verus!
