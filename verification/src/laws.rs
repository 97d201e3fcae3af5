//! Relations between the engines, proved once and for all: beam search at
//! depth one agrees with the greedy engine, a single round of the iterative
//! search agrees with beam search one level shallower at any width, and
//! every deterministic engine gives the same answer on equal positions.

use vstd::prelude::*;
use crate::state::{
    action_legal, legal_upto, lemma_legal_upto, succ_score, view_done, wf_view, StateView,
};
use crate::frontier::{best_at, best_idx, lemma_best_exists, lemma_best_unique, ScoredView};
use crate::expand::{child_view, drained, successors, successors_upto};
use crate::greedy::greedy_pick;
use crate::beam::{beam_choice, beam_levels, root_view};
use crate::chokudai::{
    after_rounds, chokudai_choice, levels_scan, round_pass, seeded_levels,
};

verus! {

/// The successor list of an entry lines up with its legal-action list: the
/// `k`-th successor is the child of the `k`-th legal action.
pub proof fn lemma_successors_align(sc: ScoredView, tag: bool, a: int)
    requires
        0 <= a <= 4,
    ensures
        successors_upto(sc, tag, a).len() == legal_upto(sc.state, a).len(),
        forall|k: int|
            0 <= k < successors_upto(sc, tag, a).len() ==> successors_upto(sc, tag, a)[k]
                == child_view(sc, #[trigger] legal_upto(sc.state, a)[k] as int, tag),
    decreases a,
{
    if a > 0 {
        lemma_successors_align(sc, tag, a - 1);
    }
}

/// Beam search at depth one makes the greedy choice, whatever its width:
/// with one level of lookahead the best successor of the root is exactly
/// the greedy optimum, ties and all.
pub proof fn lemma_beam_depth_one_greedy(v: StateView, width: nat)
    requires
        wf_view(v),
        width >= 1,
    ensures
        greedy_pick(v, beam_choice(v, width, 1)),
{
    let root = root_view(v);
    let f0 = seq![root];
    assert(best_at(f0, 0));
    lemma_best_unique(f0, 0);
    lemma_legal_upto(v, 4);
    lemma_successors_align(root, true, 4);
    if view_done(v) {
        assert(beam_levels(f0, width, 1, true) == f0);
        assert(beam_choice(v, width, 1) == root.first);
    } else {
        let succs = successors(root, true);
        assert(f0.remove(0) =~= Seq::<ScoredView>::empty());
        assert(drained(f0.remove(0), (width - 1) as nat, true) =~= Seq::<ScoredView>::empty());
        assert(drained(f0, width, true) =~= succs);
        if succs.len() == 0 {
            assert(beam_levels(f0, width, 1, true) == f0);
            assert(beam_choice(v, width, 1) == root.first);
            assert forall|a: int| !action_legal(v, a) by {
                if action_legal(v, a) {
                    assert(legal_upto(v, 4).contains(a as usize));
                }
            }
        } else {
            assert(beam_levels(succs, width, 0, false) == succs);
            assert(beam_levels(f0, width, 1, true) == succs);
            lemma_best_exists(succs);
            let b = best_idx(succs);
            let a = legal_upto(v, 4)[b];
            assert(succs[b] == child_view(root, a as int, true));
            assert(beam_choice(v, width, 1) == Some(a));
            assert(action_legal(v, a as int));
            assert forall|c: int| action_legal(v, c) implies succ_score(v, c) <= succ_score(
                v,
                a as int,
            ) by {
                assert(legal_upto(v, 4).contains(c as usize));
                let j = choose|j: int|
                    0 <= j < legal_upto(v, 4).len() && #[trigger] legal_upto(v, 4)[j]
                        == c as usize;
                assert(succs[j] == child_view(root, c, true));
                assert(succs[j].score <= succs[b].score);
            }
            assert forall|c: int| action_legal(v, c) && c < a implies succ_score(v, c)
                < succ_score(v, a as int) by {
                assert(legal_upto(v, 4).contains(c as usize));
                let j = choose|j: int|
                    0 <= j < legal_upto(v, 4).len() && #[trigger] legal_upto(v, 4)[j]
                        == c as usize;
                assert(succs[j] == child_view(root, c, true));
                if j > b {
                    assert(legal_upto(v, 4)[b] < legal_upto(v, 4)[j]);
                } else if j == b {
                    assert(c == a as int);
                }
                assert(j < b);
                assert(succs[j].score < succs[b].score);
            }
        }
    }
}

/// The chain of frontiers a single expansion pass produces from the root:
/// level zero holds the root alone, and each deeper level is the drained
/// expansion of the one before it, tagging at the first step.
pub open spec fn beam_chain(v: StateView, width: nat, j: nat) -> Seq<ScoredView>
    decreases j,
{
    if j == 0 {
        seq![root_view(v)]
    } else {
        drained(beam_chain(v, width, (j - 1) as nat), width, j == 1)
    }
}

/// The deepest non-empty chain level at or below `t`.
pub open spec fn scan_chain(v: StateView, width: nat, t: nat) -> Seq<ScoredView>
    decreases t,
{
    if beam_chain(v, width, t).len() > 0 || t == 0 {
        beam_chain(v, width, t)
    } else {
        scan_chain(v, width, (t - 1) as nat)
    }
}

/// Once a chain level is empty every deeper level is empty, and the scan
/// from any deeper level falls through to the levels below.
proof fn lemma_scan_chain_skip(v: StateView, width: nat, lo: nat, k: nat)
    requires
        beam_chain(v, width, (lo + 1) as nat).len() == 0,
    ensures
        k >= 1 ==> beam_chain(v, width, (lo + k) as nat).len() == 0,
        scan_chain(v, width, (lo + k) as nat) == scan_chain(v, width, lo),
    decreases k,
{
    if k >= 2 {
        lemma_scan_chain_skip(v, width, lo, (k - 1) as nat);
        assert(beam_chain(v, width, (lo + k) as nat) == drained(
            beam_chain(v, width, (lo + k - 1) as nat),
            width,
            lo + k == 1,
        ));
    }
}

/// Beam search from any chain level stops exactly where the chain runs dry:
/// its final frontier is the deepest non-empty chain level it can reach.
proof fn lemma_beam_on_chain(v: StateView, width: nat, lo: nat, d: nat)
    requires
        beam_chain(v, width, lo).len() > 0,
    ensures
        beam_levels(beam_chain(v, width, lo), width, d, lo == 0) == scan_chain(
            v,
            width,
            (lo + d) as nat,
        ),
    decreases d,
{
    let g = beam_chain(v, width, lo);
    if d == 0 {
        assert(scan_chain(v, width, lo) == g);
    } else {
        lemma_best_exists(g);
        let next = drained(g, width, lo == 0);
        assert(next == beam_chain(v, width, (lo + 1) as nat));
        if view_done(g[best_idx(g)].state) {
            assert(beam_levels(g, width, d, lo == 0) == g);
            assert(next.len() == 0);
            lemma_scan_chain_skip(v, width, lo, d);
        } else if next.len() == 0 {
            assert(beam_levels(g, width, d, lo == 0) == g);
            lemma_scan_chain_skip(v, width, lo, d);
        } else {
            assert(beam_levels(g, width, d, lo == 0) == beam_levels(
                next,
                width,
                (d - 1) as nat,
                false,
            ));
            lemma_beam_on_chain(v, width, (lo + 1) as nat, (d - 1) as nat);
        }
    }
}

/// One expansion pass over the seeded per-depth stack fills each level with
/// exactly the corresponding chain frontier.
proof fn lemma_pass_builds_chain(
    v: StateView,
    width: nat,
    fs: Seq<Seq<ScoredView>>,
    t: nat,
    depth: nat,
)
    requires
        fs.len() == depth + 1,
        t <= depth,
        forall|j: int| 0 <= j <= t ==> fs[j] == beam_chain(v, width, j as nat),
        forall|j: int| t < j <= depth ==> (#[trigger] fs[j]).len() == 0,
    ensures
        round_pass(fs, width, t, depth).len() == depth + 1,
        forall|j: int|
            0 <= j <= depth ==> #[trigger] round_pass(fs, width, t, depth)[j] == beam_chain(
                v,
                width,
                j as nat,
            ),
    decreases depth - t,
{
    if t < depth {
        let level = drained(fs[t as int], width, t == 0);
        let fs2 = fs.update(t + 1 as int, fs[t + 1 as int] + level);
        assert(fs[t + 1 as int] + level =~= level);
        assert(fs2[t + 1 as int] == beam_chain(v, width, (t + 1) as nat));
        assert(forall|j: int| 0 <= j <= t + 1 ==> fs2[j] == beam_chain(v, width, j as nat));
        assert(forall|j: int| t + 1 < j <= depth ==> (#[trigger] fs2[j]).len() == 0);
        lemma_pass_builds_chain(v, width, fs2, (t + 1) as nat, depth);
        assert(round_pass(fs, width, t, depth) == round_pass(fs2, width, (t + 1) as nat, depth));
    }
}

/// The per-depth scan over chain-valued levels answers from the deepest
/// non-empty chain level.
proof fn lemma_scan_matches_chain(v: StateView, width: nat, fs: Seq<Seq<ScoredView>>, k: nat)
    requires
        1 <= k <= fs.len(),
        forall|j: int| 0 <= j < fs.len() ==> #[trigger] fs[j] == beam_chain(v, width, j as nat),
    ensures
        levels_scan(fs, k) == ({
            let g = scan_chain(v, width, (k - 1) as nat);
            if g.len() == 0 {
                None
            } else {
                g[best_idx(g)].first
            }
        }),
    decreases k,
{
    if k == 1 {
        assert(fs[0] == beam_chain(v, width, 0));
        assert(beam_chain(v, width, 0).len() == 1);
    } else {
        if fs[k - 1].len() > 0 {
            assert(scan_chain(v, width, (k - 1) as nat) == beam_chain(v, width, (k - 1) as nat));
        } else {
            assert(scan_chain(v, width, (k - 1) as nat) == scan_chain(v, width, (k - 2) as nat));
            lemma_scan_matches_chain(v, width, fs, (k - 1) as nat);
        }
    }
}

/// A single round of the iterative search, at any width, decides exactly as
/// beam search one level shallower: the round fills each level with the
/// beam chain, and the deepest-first answer scan stops at the same frontier
/// beam search stops at.
pub proof fn lemma_single_round_matches_beam(v: StateView, width: nat, depth: nat)
    requires
        depth >= 1,
    ensures
        chokudai_choice(v, width, depth, 1) == beam_choice(v, width, (depth - 1) as nat),
{
    let fs0 = seeded_levels(v, depth);
    assert(fs0[0] =~= beam_chain(v, width, 0));
    assert(forall|j: int| 0 < j <= depth ==> (#[trigger] fs0[j]).len() == 0);
    lemma_pass_builds_chain(v, width, fs0, 0, depth);
    let fs_final = round_pass(fs0, width, 0, depth);
    assert(after_rounds(fs0, width, depth, 1) == after_rounds(fs_final, width, depth, 0));
    assert(after_rounds(fs_final, width, depth, 0) == fs_final);
    lemma_scan_matches_chain(v, width, fs_final, depth);
    assert(beam_chain(v, width, 0).len() > 0);
    lemma_beam_on_chain(v, width, 0, (depth - 1) as nat);
}

/// Idempotence of the deterministic engines: the beam and iterative
/// decisions are functions of the position alone, so two runs on
/// structurally equal, independently cloned positions choose the same
/// action.  (The greedy engine's counterpart is `lemma_greedy_unique`; the
/// hill climb draws fresh randomness on every run and makes no such
/// promise.)
pub proof fn lemma_engines_deterministic(
    a: StateView,
    b: StateView,
    width: nat,
    depth: nat,
    rounds: nat,
)
    requires
        a == b,
    ensures
        beam_choice(a, width, depth) == beam_choice(b, width, depth),
        chokudai_choice(a, width, depth, rounds) == chokudai_choice(b, width, depth, rounds),
{
}

} // verus!
