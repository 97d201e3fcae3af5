//! Stochastic hill-climbing over whole agent placements: start from a
//! random placement, repeatedly relocate one randomly chosen agent to a
//! random cell, keep the mutation only when the full playout of the mutated
//! placement scores strictly better, and return the best placement found
//! after the iteration budget is spent.

use vstd::prelude::*;
use crate::auto::{playout_score, AutoMazeState, AutoView};

verus! {

/// Relies on rand's `thread_rng` and `Rng::gen_range`, which returns a
/// value of the given non-empty range; it panics only on an empty range,
/// which the bound below rules out.  Nothing more is promised of a random
/// draw.
#[verifier::external_body]
fn random_below(n: usize) -> (r: usize)
    requires
        n >= 1,
    ensures
        r < n,
{
    rand::Rng::gen_range(&mut rand::thread_rng(), 0..n)
}

/// The best playout score reached from a starting score after considering
/// a stream of candidate scores in order, keeping only strict improvements.
pub open spec fn best_of(start: nat, cands: Seq<nat>) -> nat
    decreases cands.len(),
{
    if cands.len() == 0 {
        start
    } else {
        let rest = best_of(start, cands.drop_last());
        if cands.last() > rest {
            cands.last()
        } else {
            rest
        }
    }
}

/// The best score never falls below the starting score.
pub proof fn lemma_best_of_ge_start(start: nat, cands: Seq<nat>)
    ensures
        best_of(start, cands) >= start,
    decreases cands.len(),
{
    if cands.len() > 0 {
        lemma_best_of_ge_start(start, cands.drop_last());
    }
}

/// Considering more candidates never lowers the best score: with the same
/// starting placement and the same stream of mutations, a larger iteration
/// budget yields a best playout score at least as high as a smaller one.
pub proof fn lemma_best_of_monotone(start: nat, shorter: Seq<nat>, longer: Seq<nat>)
    requires
        shorter.len() <= longer.len(),
        shorter == longer.take(shorter.len() as int),
    ensures
        best_of(start, shorter) <= best_of(start, longer),
    decreases longer.len(),
{
    if longer.len() > shorter.len() {
        let prev = longer.drop_last();
        assert(prev.take(shorter.len() as int) =~= longer.take(shorter.len() as int));
        lemma_best_of_monotone(start, shorter, prev);
    } else {
        assert(longer.take(shorter.len() as int) =~= longer);
    }
}

/// The placement fields a mutation may touch: two placements agree on
/// everything but where the agents stand.
pub open spec fn same_board(a: AutoView, b: AutoView) -> bool {
    &&& a.h == b.h
    &&& a.w == b.w
    &&& a.horizon == b.horizon
    &&& a.points == b.points
    &&& a.turn == b.turn
    &&& a.score == b.score
    &&& a.chars.len() == b.chars.len()
}

impl AutoMazeState {
    /// Places every agent on an independently drawn random cell.
    pub fn init(&mut self)
        requires
            old(self).wf(),
        ensures
            final(self).wf(),
            same_board(old(self)@, final(self)@),
    {
        let n = self.characters.len();
        let mut i: usize = 0;
        while i < n
            invariant
                i <= n,
                self.wf(),
                n == self@.chars.len(),
                same_board(old(self)@, self@),
            decreases n - i,
        {
            let y = random_below(self.h);
            let x = random_below(self.w);
            self.set_character(i, y, x);
            i = i + 1;
        }
    }

    /// Relocates one randomly chosen agent to a random cell: the local
    /// mutation of the hill climb.  Exactly one agent moves; every other
    /// agent, the board, the turn and the score are untouched.
    pub fn transition(&mut self)
        requires
            old(self).wf(),
            old(self)@.chars.len() >= 1,
        ensures
            final(self).wf(),
            same_board(old(self)@, final(self)@),
            exists|id: int, y: nat, x: nat|
                0 <= id < old(self)@.chars.len() && y < old(self)@.h && x < old(self)@.w
                    && final(self)@.chars == #[trigger] old(self)@.chars.update(id, (y, x)),
    {
        let id = random_below(self.characters.len());
        let y = random_below(self.h);
        let x = random_below(self.w);
        self.set_character(id, y, x);
        proof {
            assert(self@.chars == old(self)@.chars.update(id as int, (y as nat, x as nat)));
        }
    }
}

/// Hill-climbs from a given starting placement: `number` times, mutate an
/// independent copy of the current placement, play both out, and keep the
/// mutation only when its playout scores strictly better.  The result plays
/// out at least as well as the start, and its best score is the maximum of
/// the start's score and every candidate's, so a larger budget never
/// regresses on the same mutation stream.
pub fn hill_climb_from(start: &AutoMazeState, number: usize) -> (r: AutoMazeState)
    requires
        start.wf(),
        start@.chars.len() >= 1,
    ensures
        r.wf(),
        same_board(start@, r@),
        playout_score(r@) >= playout_score(start@),
        exists|cands: Seq<nat>|
            cands.len() == number && playout_score(r@) == best_of(playout_score(start@), cands),
{
    let mut now = start.duplicate();
    let mut best_score = now.get_score();
    let ghost start_score = playout_score(start@);
    let ghost mut cands: Seq<nat> = Seq::empty();
    let mut i: usize = 0;
    while i < number
        invariant
            i <= number,
            now.wf(),
            now@.chars.len() >= 1,
            same_board(start@, now@),
            cands.len() == i,
            best_score as nat == best_of(start_score, cands),
            playout_score(now@) == best_score as nat,
            start_score == playout_score(start@),
        decreases number - i,
    {
        let mut next = now.duplicate();
        next.transition();
        let next_score = next.get_score();
        proof {
            assert(cands.push(next_score as nat).drop_last() =~= cands);
        }
        if next_score > best_score {
            best_score = next_score;
            now = next;
        }
        proof {
            cands = cands.push(next_score as nat);
        }
        i = i + 1;
    }
    proof {
        lemma_best_of_ge_start(start_score, cands);
    }
    now
}

/// The hill-climbing engine as the play harness calls it: draw a random
/// starting placement, then climb for the given number of iterations.  The board, the turn and the agent count come through
/// unchanged; where the agents stand is the engine's answer.
pub fn hill_climb(state: &AutoMazeState, number: usize) -> (r: AutoMazeState)
    requires
        state.wf(),
        state@.chars.len() >= 1,
    ensures
        r.wf(),
        same_board(state@, r@),
{
    let mut now = state.duplicate();
    now.init();
    hill_climb_from(&now, number)
}

} // verus!
