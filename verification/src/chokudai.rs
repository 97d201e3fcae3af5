//! Iterative per-depth ("chokudai") search: one persistent frontier per
//! depth level, filled over several rounds of shallow width-bounded passes.
//! Each round walks the levels in increasing order, drains up to `width`
//! best entries from a private copy of the level (the canonical level keeps
//! its entries for later rounds) and appends their successors to the next
//! level.  The decision is read from the deepest non-empty level below the
//! depth bound.

use vstd::prelude::*;
use crate::state::{MazeState, StateView};
use crate::frontier::{best_idx, lemma_best_exists, Frontier, ScoredState, ScoredView};
use crate::expand::{all_wf, drained};
use crate::beam::root_view;

verus! {

/// The view of a stack of per-depth frontiers.
pub open spec fn levels_view(beams: Seq<Frontier>) -> Seq<Seq<ScoredView>> {
    beams.map_values(|f: Frontier| f@)
}

/// Every entry of every level is well-formed.
pub open spec fn levels_wf(fs: Seq<Seq<ScoredView>>) -> bool {
    forall|i: int| 0 <= i < fs.len() ==> all_wf(#[trigger] fs[i])
}

/// The initial stack: `depth + 1` levels, the shallowest holding the root.
pub open spec fn seeded_levels(v: StateView, depth: nat) -> Seq<Seq<ScoredView>> {
    Seq::new(
        depth + 1,
        |i: int|
            if i == 0 {
                seq![root_view(v)]
            } else {
                Seq::empty()
            },
    )
}

/// One round's pass over the levels from `t` up: each level's drained
/// successors are appended to the level above it, tagging at level zero.
pub open spec fn round_pass(fs: Seq<Seq<ScoredView>>, width: nat, t: nat, depth: nat) -> Seq<
    Seq<ScoredView>,
>
    decreases depth - t,
{
    if t >= depth {
        fs
    } else {
        round_pass(
            fs.update(t + 1 as int, fs[t + 1 as int] + drained(fs[t as int], width, t == 0)),
            width,
            t + 1,
            depth,
        )
    }
}

/// The stack after the given number of rounds.
pub open spec fn after_rounds(fs: Seq<Seq<ScoredView>>, width: nat, depth: nat, rounds: nat) -> Seq<
    Seq<ScoredView>,
>
    decreases rounds,
{
    if rounds == 0 {
        fs
    } else {
        after_rounds(round_pass(fs, width, 0, depth), width, depth, (rounds - 1) as nat)
    }
}

/// The decision read from the levels below `k`, deepest first: the
/// first-action tag of the best entry of the first non-empty level.
pub open spec fn levels_scan(fs: Seq<Seq<ScoredView>>, k: nat) -> Option<usize>
    decreases k,
{
    if k == 0 {
        None
    } else if fs[k - 1].len() > 0 {
        fs[k - 1][best_idx(fs[k - 1])].first
    } else {
        levels_scan(fs, (k - 1) as nat)
    }
}

/// The chokudai search decision on a position: run the rounds over the
/// seeded stack, then scan the levels strictly below the depth bound,
/// deepest first.  `None` when the answer would be read from an entry that
/// never left the root.
pub open spec fn chokudai_choice(v: StateView, width: nat, depth: nat, rounds: nat) -> Option<
    usize,
> {
    levels_scan(after_rounds(seeded_levels(v, depth), width, depth, rounds), depth)
}

/// Runs the iterative search with the given width, depth and round budgets
/// and returns the root action recorded on the deepest non-empty level's
/// best entry; `None` when the search never left the root.
pub fn chokudai_search_action(state: &MazeState, width: usize, depth: usize, rounds: usize) -> (r:
    Option<usize>)
    requires
        state.wf(),
        depth < usize::MAX,
    ensures
        r == chokudai_choice(state@, width as nat, depth as nat, rounds as nat),
{
    let mut beams: Vec<Frontier> = Vec::new();
    let mut i: usize = 0;
    while i < depth + 1
        invariant
            depth < usize::MAX,
            i <= depth + 1,
            beams@.len() == i,
            forall|j: int| 0 <= j < i ==> (#[trigger] beams@[j])@.len() == 0,
        decreases depth + 1 - i,
    {
        beams.push(Frontier::new());
        i = i + 1;
    }
    let score = state.evaluate();
    let root = ScoredState { state: state.duplicate(), score, first_action: None };
    proof {
        assert(root@ == root_view(state@));
    }
    let seed_target = &mut beams[0];
    seed_target.push(root);
    proof {
        assert(levels_view(beams@) =~~= seeded_levels(state@, depth as nat));
        assert(levels_wf(levels_view(beams@)));
    }
    let ghost target = after_rounds(
        seeded_levels(state@, depth as nat),
        width as nat,
        depth as nat,
        rounds as nat,
    );
    let mut round: usize = 0;
    while round < rounds
        invariant
            round <= rounds,
            beams@.len() == depth + 1,
            levels_wf(levels_view(beams@)),
            after_rounds(
                levels_view(beams@),
                width as nat,
                depth as nat,
                (rounds - round) as nat,
            ) == target,
        decreases rounds - round,
    {
        let mut t: usize = 0;
        while t < depth
            invariant
                t <= depth,
                round < rounds,
                beams@.len() == depth + 1,
                levels_wf(levels_view(beams@)),
                after_rounds(
                    round_pass(levels_view(beams@), width as nat, t as nat, depth as nat),
                    width as nat,
                    depth as nat,
                    (rounds - round - 1) as nat,
                ) == target,
            decreases depth - t,
        {
            let ghost fs_pre = levels_view(beams@);
            let mut work = beams[t].duplicate();
            let dest = &mut beams[t + 1];
            crate::expand::expand_best(&mut work, dest, width, t == 0);
            proof {
                assert(levels_view(beams@) =~= fs_pre.update(
                    t + 1,
                    fs_pre[t + 1] + drained(fs_pre[t as int], width as nat, t == 0),
                ));
            }
            t = t + 1;
        }
        proof {
            assert(round_pass(
                levels_view(beams@),
                width as nat,
                depth as nat,
                depth as nat,
            ) == levels_view(beams@));
        }
        round = round + 1;
    }
    let ghost fs_final = levels_view(beams@);
    proof {
        assert(fs_final == target);
    }
    let mut k: usize = depth;
    let mut chosen: Option<usize> = None;
    while k > 0
        invariant_except_break
            chosen is None,
        invariant
            k <= depth,
            beams@.len() == depth + 1,
            levels_view(beams@) == fs_final,
            levels_scan(fs_final, depth as nat) == levels_scan(fs_final, k as nat),
        ensures
            chosen == levels_scan(fs_final, depth as nat),
        decreases k,
    {
        let idx = k - 1;
        if !beams[idx].is_empty() {
            proof {
                lemma_best_exists(levels_view(beams@)[idx as int]);
            }
            let fr = &beams[idx];
            proof {
                lemma_best_exists(fr@);
            }
            chosen = fr.peek_best().first_action;
            proof {
                assert(levels_scan(fs_final, k as nat) == fs_final[idx as int][best_idx(
                    fs_final[idx as int],
                )].first);
            }
            break;
        }
        k = k - 1;
    }
    chosen
}

} // verus!
