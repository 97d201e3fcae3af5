//! Width-bounded beam search: keep a frontier of the best-scoring candidate
//! states, expand it level by level for a bounded depth, and report which
//! root action led to the best state found.

use vstd::prelude::*;
use crate::state::{eval_view, view_done, MazeState, StateView};
use crate::frontier::{best_idx, lemma_best_exists, Frontier, ScoredState, ScoredView};
use crate::expand::{all_wf, drained};

verus! {

/// The frontier entry wrapping the root position: its own evaluation, no
/// first-action tag yet.
pub open spec fn root_view(v: StateView) -> ScoredView {
    ScoredView { state: v, score: eval_view(v), first: None }
}

/// The frontier after the remaining `depth` beam levels.  A level replaces
/// the frontier with the successors of its up-to-`width` best entries; the
/// search stops early when the depth budget runs out, when the best entry is
/// already terminal, or when a level produces nothing (then the previous
/// frontier keeps the answer).  Tags are attached on the first level only.
pub open spec fn beam_levels(f: Seq<ScoredView>, width: nat, depth: nat, first_level: bool) -> Seq<
    ScoredView,
>
    decreases depth,
{
    if depth == 0 || f.len() == 0 {
        f
    } else if view_done(f[best_idx(f)].state) {
        f
    } else {
        let next = drained(f, width, first_level);
        if next.len() == 0 {
            f
        } else {
            beam_levels(next, width, (depth - 1) as nat, false)
        }
    }
}

/// The beam search decision on a position: the first-action tag of the best
/// entry of the final frontier; `None` when the search never left the root
/// (terminal root, no legal action, or a zero budget).
pub open spec fn beam_choice(v: StateView, width: nat, depth: nat) -> Option<usize> {
    let ff = beam_levels(seq![root_view(v)], width, depth, true);
    if ff.len() == 0 {
        None
    } else {
        ff[best_idx(ff)].first
    }
}

/// Runs beam search with the given width and depth budgets and returns the
/// root action that led to the best state found, `None` when the search
/// never left the root.
pub fn beam_search_action(state: &MazeState, width: usize, depth: usize) -> (r: Option<usize>)
    requires
        state.wf(),
    ensures
        r == beam_choice(state@, width as nat, depth as nat),
{
    let score = state.evaluate();
    let root = ScoredState { state: state.duplicate(), score, first_action: None };
    let mut cur = Frontier::new();
    proof {
        assert(root@ == root_view(state@));
    }
    cur.push(root);
    proof {
        assert(cur@ =~= seq![root_view(state@)]);
    }
    let ghost target = beam_levels(seq![root_view(state@)], width as nat, depth as nat, true);
    let mut t: usize = 0;
    while t < depth
        invariant
            t <= depth,
            cur@.len() > 0,
            all_wf(cur@),
            t > 0 ==> beam_levels(cur@, width as nat, (depth - t) as nat, false) == target,
            t == 0 ==> beam_levels(cur@, width as nat, (depth - t) as nat, true) == target,
        ensures
            cur@.len() > 0,
            cur@ == target,
        decreases depth - t,
    {
        let ghost fl = t == 0;
        let ghost cur_pre = cur@;
        let ghost dleft = (depth - t) as nat;
        proof {
            lemma_best_exists(cur@);
        }
        let mut work = cur.duplicate();
        let mut next = Frontier::new();
        proof {
            assert(next@ =~= Seq::<ScoredView>::empty());
        }
        crate::expand::expand_best(&mut work, &mut next, width, t == 0);
        proof {
            assert(next@ == Seq::<ScoredView>::empty() + drained(cur_pre, width as nat, fl));
            assert(Seq::<ScoredView>::empty() + drained(cur_pre, width as nat, fl) =~= drained(
                cur_pre,
                width as nat,
                fl,
            ));
        }
        if next.is_empty() {
            proof {
                assert(beam_levels(cur_pre, width as nat, dleft, fl) == cur_pre);
            }
            break;
        }
        cur = next;
        proof {
            assert(beam_levels(cur_pre, width as nat, dleft, fl) == beam_levels(
                cur@,
                width as nat,
                (dleft - 1) as nat,
                false,
            ));
        }
        t = t + 1;
    }
    proof {
        lemma_best_exists(cur@);
    }
    let best = cur.peek_best();
    best.first_action
}

} // verus!
