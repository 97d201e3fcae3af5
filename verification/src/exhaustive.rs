//! Convergence to brute force: with enough width to hold every candidate
//! at every level, the best score in beam search's final frontier is
//! exactly the optimum over all legal action sequences of the search depth,
//! the returned action begins such an optimal sequence, and through the
//! single-round law the same holds of the iterative search.

use vstd::prelude::*;
use crate::state::{
    action_legal, advance_view, eval_view, legal_upto, lemma_advance_wf, lemma_legal_upto,
    view_done, wf_view, StateView,
};
use crate::frontier::{best_at, best_idx, lemma_best_exists, ScoredView};
use crate::expand::{child_view, drained, successors};
use crate::beam::{beam_choice, beam_levels, root_view};
use crate::chokudai::chokudai_choice;
use crate::laws::lemma_successors_align;

verus! {

/// Four to the power `d`: an upper bound on how many candidates `d` levels
/// of full expansion can produce from one state.
pub open spec fn pow4(d: nat) -> nat
    decreases d,
{
    if d == 0 {
        1
    } else {
        4 * pow4((d - 1) as nat)
    }
}

/// The brute-force optimum: the best evaluation reachable from `v` by any
/// sequence of at most `d` legal actions, stopping at terminal positions.
pub open spec fn max_score(v: StateView, d: nat) -> nat
    decreases d, 5int,
{
    if d == 0 || view_done(v) {
        eval_view(v)
    } else {
        max_succ(v, 4, d)
    }
}

/// The running maximum of the brute-force optimum over the legal actions
/// below `a`, starting from the position's own evaluation.
pub open spec fn max_succ(v: StateView, a: int, d: nat) -> nat
    decreases d, a,
{
    if a <= 0 || d == 0 {
        eval_view(v)
    } else {
        let rest = max_succ(v, a - 1, d);
        if action_legal(v, a - 1) {
            let s = max_score(advance_view(v, a - 1), (d - 1) as nat);
            if s > rest {
                s
            } else {
                rest
            }
        } else {
            rest
        }
    }
}

/// The collective potential of a frontier: the best brute-force optimum of
/// its entries at the remaining depth.
pub open spec fn pot(f: Seq<ScoredView>, d: nat) -> nat
    decreases f.len(),
{
    if f.len() == 0 {
        0
    } else {
        let rest = pot(f.drop_last(), d);
        let s = max_score(f.last().state, d);
        if s > rest {
            s
        } else {
            rest
        }
    }
}

/// No entry's optimum exceeds the frontier's potential.
pub proof fn lemma_pot_bound(f: Seq<ScoredView>, d: nat, i: int)
    requires
        0 <= i < f.len(),
    ensures
        max_score(f[i].state, d) <= pot(f, d),
    decreases f.len(),
{
    if i < f.len() - 1 {
        lemma_pot_bound(f.drop_last(), d, i);
    }
}

/// A non-empty frontier's potential is attained by one of its entries.
pub proof fn lemma_pot_witness(f: Seq<ScoredView>, d: nat)
    requires
        f.len() > 0,
    ensures
        exists|i: int| 0 <= i < f.len() && pot(f, d) == max_score(#[trigger] f[i].state, d),
    decreases f.len(),
{
    if f.len() == 1 {
        assert(pot(f.drop_last(), d) == 0);
        assert(pot(f, d) == max_score(f[0].state, d));
    } else if pot(f, d) == max_score(f.last().state, d) {
        assert(pot(f, d) == max_score(f[f.len() - 1].state, d));
    } else {
        lemma_pot_witness(f.drop_last(), d);
        let j = choose|i: int|
            0 <= i < f.drop_last().len() && pot(f.drop_last(), d) == max_score(
                #[trigger] f.drop_last()[i].state,
                d,
            );
        assert(pot(f, d) == max_score(f[j].state, d));
    }
}

/// The brute-force running maximum is bounded below by the position's own
/// evaluation and above by no legal continuation.
pub proof fn lemma_max_succ_bounds(v: StateView, a: int, d: nat)
    requires
        0 <= a <= 4,
        d >= 1,
    ensures
        max_succ(v, a, d) >= eval_view(v),
        forall|b: int|
            0 <= b < a && action_legal(v, b) ==> max_score(
                advance_view(v, b),
                (d - 1) as nat,
            ) <= max_succ(v, a, d),
        max_succ(v, a, d) == eval_view(v) || exists|b: int|
            0 <= b < a && #[trigger] action_legal(v, b) && max_succ(v, a, d) == max_score(
                advance_view(v, b),
                (d - 1) as nat,
            ),
    decreases a,
{
    if a > 0 {
        lemma_max_succ_bounds(v, a - 1, d);
        let rest = max_succ(v, a - 1, d);
        if action_legal(v, a - 1) && max_score(advance_view(v, a - 1), (d - 1) as nat) > rest {
            assert(action_legal(v, a - 1) && max_succ(v, a, d) == max_score(
                advance_view(v, a - 1),
                (d - 1) as nat,
            ));
        } else {
            assert(max_succ(v, a, d) == rest);
            if rest != eval_view(v) {
                let b = choose|b: int|
                    0 <= b < a - 1 && #[trigger] action_legal(v, b) && rest == max_score(
                        advance_view(v, b),
                        (d - 1) as nat,
                    );
                assert(action_legal(v, b) && max_succ(v, a, d) == max_score(
                    advance_view(v, b),
                    (d - 1) as nat,
                ));
            }
        }
    }
}

/// The brute-force optimum never falls below the position's evaluation.
pub proof fn lemma_max_score_ge_eval(v: StateView, d: nat)
    ensures
        max_score(v, d) >= eval_view(v),
{
    if d >= 1 && !view_done(v) {
        lemma_max_succ_bounds(v, 4, d);
    }
}

/// The legal-action list never holds more entries than actions scanned.
proof fn lemma_legal_len(v: StateView, a: int)
    requires
        0 <= a,
    ensures
        legal_upto(v, a).len() <= a,
    decreases a,
{
    if a > 0 {
        lemma_legal_len(v, a - 1);
    }
}

/// On a board of at least two cells every position has a legal action.
pub proof fn lemma_legal_exists(v: StateView)
    requires
        wf_view(v),
        v.h >= 2 || v.w >= 2,
    ensures
        legal_upto(v, 4).len() >= 1,
        exists|a: int| action_legal(v, a),
{
    if v.w >= 2 {
        if v.x + 1 < v.w {
            assert(action_legal(v, 0));
        } else {
            assert(action_legal(v, 1));
        }
    } else {
        if v.y + 1 < v.h {
            assert(action_legal(v, 2));
        } else {
            assert(action_legal(v, 3));
        }
    }
    lemma_legal_upto(v, 4);
    let a = choose|a: int| action_legal(v, a);
    assert(legal_upto(v, 4).contains(a as usize));
}

/// The invariant a full-width search keeps of every frontier entry: a
/// well-formed state on a board of at least two cells, a score equal to its
/// evaluation, and the turn and horizon every entry of the level shares.
pub open spec fn entry_ok(e: ScoredView, turn: nat, hz: nat) -> bool {
    &&& wf_view(e.state)
    &&& e.state.h >= 2 || e.state.w >= 2
    &&& e.score == eval_view(e.state)
    &&& e.state.turn == turn
    &&& e.state.horizon == hz
}

/// Every entry of the frontier satisfies the level invariant.
pub open spec fn frontier_ok(f: Seq<ScoredView>, turn: nat, hz: nat) -> bool {
    forall|i: int| 0 <= i < f.len() ==> entry_ok(#[trigger] f[i], turn, hz)
}

/// The potential of a concatenation is the larger of the two potentials.
proof fn lemma_pot_concat(a: Seq<ScoredView>, b: Seq<ScoredView>, d: nat)
    ensures
        pot(a + b, d) == if pot(a, d) > pot(b, d) {
            pot(a, d)
        } else {
            pot(b, d)
        },
{
    if a.len() == 0 {
        assert(a + b =~= b);
    } else if b.len() == 0 {
        assert(a + b =~= a);
    } else {
        let m = if pot(a, d) > pot(b, d) {
            pot(a, d)
        } else {
            pot(b, d)
        };
        lemma_pot_witness(a + b, d);
        let i = choose|i: int|
            0 <= i < (a + b).len() && pot(a + b, d) == max_score(#[trigger] (a + b)[i].state, d);
        if i < a.len() {
            lemma_pot_bound(a, d, i);
        } else {
            lemma_pot_bound(b, d, i - a.len());
        }
        assert(pot(a + b, d) <= m);
        lemma_pot_witness(a, d);
        let j = choose|j: int| 0 <= j < a.len() && pot(a, d) == max_score(#[trigger] a[j].state, d);
        lemma_pot_bound(a + b, d, j);
        assert(pot(a, d) <= pot(a + b, d));
        lemma_pot_witness(b, d);
        let j2 = choose|j: int| 0 <= j < b.len() && pot(b, d) == max_score(#[trigger] b[j].state, d);
        lemma_pot_bound(a + b, d, j2 + a.len());
        assert(pot(b, d) <= pot(a + b, d));
    }
}

/// Removing one entry splits the potential: the whole frontier's potential
/// is the larger of the removed entry's optimum and the rest's potential.
proof fn lemma_pot_remove(f: Seq<ScoredView>, d: nat, b: int)
    requires
        0 <= b < f.len(),
    ensures
        pot(f, d) == if max_score(f[b].state, d) > pot(f.remove(b), d) {
            max_score(f[b].state, d)
        } else {
            pot(f.remove(b), d)
        },
{
    let rest = f.remove(b);
    let m = if max_score(f[b].state, d) > pot(rest, d) {
        max_score(f[b].state, d)
    } else {
        pot(rest, d)
    };
    lemma_pot_witness(f, d);
    let i = choose|i: int| 0 <= i < f.len() && pot(f, d) == max_score(#[trigger] f[i].state, d);
    if i < b {
        lemma_pot_bound(rest, d, i);
    } else if i > b {
        lemma_pot_bound(rest, d, i - 1);
    }
    assert(pot(f, d) <= m);
    lemma_pot_bound(f, d, b);
    if rest.len() > 0 {
        lemma_pot_witness(rest, d);
        let j = choose|j: int|
            0 <= j < rest.len() && pot(rest, d) == max_score(#[trigger] rest[j].state, d);
        if j < b {
            lemma_pot_bound(f, d, j);
        } else {
            lemma_pot_bound(f, d, j + 1);
        }
        assert(pot(rest, d) <= pot(f, d));
    }
}

/// The successors of a live entry carry its whole potential: their best
/// optimum at the remaining depth is the entry's optimum one level higher.
proof fn lemma_successors_pot(e: ScoredView, tag: bool, k: nat, turn: nat, hz: nat)
    requires
        entry_ok(e, turn, hz),
        turn < hz,
    ensures
        1 <= successors(e, tag).len() <= 4,
        frontier_ok(successors(e, tag), turn + 1, hz),
        pot(successors(e, tag), k) == max_score(e.state, (k + 1) as nat),
{
    let succs = successors(e, tag);
    lemma_successors_align(e, tag, 4);
    lemma_legal_upto(e.state, 4);
    lemma_legal_exists(e.state);
    lemma_legal_len(e.state, 4);
    lemma_max_succ_bounds(e.state, 4, (k + 1) as nat);
    assert forall|i: int| 0 <= i < succs.len() implies entry_ok(
        #[trigger] succs[i],
        turn + 1,
        hz,
    ) by {
        let a = legal_upto(e.state, 4)[i];
        assert(succs[i] == child_view(e, a as int, tag));
        crate::state::lemma_advance_wf(e.state, a as int);
    }
    lemma_pot_witness(succs, k);
    let i = choose|i: int|
        0 <= i < succs.len() && pot(succs, k) == max_score(#[trigger] succs[i].state, k);
    let ai = legal_upto(e.state, 4)[i];
    assert(succs[i] == child_view(e, ai as int, tag));
    assert(max_score(advance_view(e.state, ai as int), k) <= max_succ(e.state, 4, (k + 1) as nat));
    assert(pot(succs, k) <= max_score(e.state, (k + 1) as nat));
    if max_succ(e.state, 4, (k + 1) as nat) == eval_view(e.state) {
        let a0 = legal_upto(e.state, 4)[0];
        assert(succs[0] == child_view(e, a0 as int, tag));
        crate::state::lemma_advance_monotone(e.state, a0 as int);
        lemma_max_score_ge_eval(advance_view(e.state, a0 as int), k);
        lemma_pot_bound(succs, k, 0);
        assert(max_score(e.state, (k + 1) as nat) <= pot(succs, k));
    } else {
        let b = choose|b: int|
            0 <= b < 4 && #[trigger] action_legal(e.state, b) && max_succ(e.state, 4, (k + 1) as nat)
                == max_score(advance_view(e.state, b), k);
        assert(legal_upto(e.state, 4).contains(b as usize));
        let j = choose|j: int|
            0 <= j < legal_upto(e.state, 4).len() && #[trigger] legal_upto(e.state, 4)[j]
                == b as usize;
        assert(succs[j] == child_view(e, b, tag));
        lemma_pot_bound(succs, k, j);
        assert(max_score(e.state, (k + 1) as nat) <= pot(succs, k));
    }
}

/// A full-width drain expands every entry of a live frontier: the result
/// keeps the level invariant one turn later, grows by a factor of at most
/// four, loses no entry's line, and carries the frontier's whole potential
/// down one level.
proof fn lemma_drained_full(
    f: Seq<ScoredView>,
    width: nat,
    tag: bool,
    k: nat,
    turn: nat,
    hz: nat,
)
    requires
        frontier_ok(f, turn, hz),
        turn < hz,
        width >= f.len(),
    ensures
        f.len() <= drained(f, width, tag).len() <= 4 * f.len(),
        frontier_ok(drained(f, width, tag), turn + 1, hz),
        f.len() > 0 ==> pot(drained(f, width, tag), k) == pot(f, (k + 1) as nat),
    decreases f.len(),
{
    if f.len() > 0 {
        lemma_best_exists(f);
        let b = best_idx(f);
        assert(!view_done(f[b].state));
        let rest = f.remove(b);
        assert(frontier_ok(rest, turn, hz)) by {
            assert forall|i: int| 0 <= i < rest.len() implies entry_ok(
                #[trigger] rest[i],
                turn,
                hz,
            ) by {
                if i < b {
                    assert(rest[i] == f[i]);
                } else {
                    assert(rest[i] == f[i + 1]);
                }
            }
        }
        lemma_drained_full(rest, (width - 1) as nat, tag, k, turn, hz);
        lemma_successors_pot(f[b], tag, k, turn, hz);
        let succs = successors(f[b], tag);
        let dr = drained(rest, (width - 1) as nat, tag);
        assert(drained(f, width, tag) == succs + dr);
        assert((succs + dr).len() == succs.len() + dr.len());
        assert(frontier_ok(succs + dr, turn + 1, hz)) by {
            assert forall|i: int| 0 <= i < (succs + dr).len() implies entry_ok(
                #[trigger] (succs + dr)[i],
                turn + 1,
                hz,
            ) by {
                if i < succs.len() {
                    assert((succs + dr)[i] == succs[i]);
                } else {
                    assert((succs + dr)[i] == dr[i - succs.len()]);
                }
            }
        }
        lemma_pot_concat(succs, dr, k);
        lemma_pot_remove(f, (k + 1) as nat, b);
        if rest.len() == 0 {
            assert(dr =~= Seq::<ScoredView>::empty());
            assert(pot(dr, k) == 0);
        }
    }
}

/// Four to any power is positive.
proof fn lemma_pow4_pos(d: nat)
    ensures
        pow4(d) >= 1,
    decreases d,
{
    if d > 0 {
        lemma_pow4_pos((d - 1) as nat);
    }
}

/// A budget of `p * len` covers `len` when `p` is positive.
proof fn lemma_width_ge_len(width: nat, p: nat, len: nat)
    by (nonlinear_arith)
    requires
        width >= p * len,
        p >= 1,
    ensures
        width >= len,
{
}

/// A budget of `4 p len` covers the next level of at most `4 len` entries
/// with a factor `p` to spare.
proof fn lemma_width_step(width: nat, p: nat, len: nat, next_len: nat)
    by (nonlinear_arith)
    requires
        width >= (4 * p) * len,
        next_len <= 4 * len,
    ensures
        width >= p * next_len,
{
}

/// Beam search with a full-width budget loses nothing: the final frontier's
/// best optimum-at-depth-zero equals the starting frontier's potential.
proof fn lemma_beam_full_width(
    f: Seq<ScoredView>,
    width: nat,
    k: nat,
    fl: bool,
    turn: nat,
    hz: nat,
)
    requires
        f.len() >= 1,
        frontier_ok(f, turn, hz),
        width >= pow4(k) * f.len(),
    ensures
        ({
            let ff = beam_levels(f, width, k, fl);
            &&& ff.len() >= 1
            &&& forall|i: int|
                0 <= i < ff.len() ==> (#[trigger] ff[i]).score == eval_view(ff[i].state)
            &&& pot(ff, 0) == pot(f, k)
        }),
    decreases k,
{
    let ff = beam_levels(f, width, k, fl);
    if k == 0 {
        assert(ff == f);
    } else {
        lemma_best_exists(f);
        let b = best_idx(f);
        if view_done(f[b].state) {
            assert(turn == hz);
            assert(ff == f);
            lemma_pot_witness(f, k);
            let i1 = choose|i: int|
                0 <= i < f.len() && pot(f, k) == max_score(#[trigger] f[i].state, k);
            lemma_pot_bound(f, 0, i1);
            lemma_pot_witness(f, 0);
            let i0 = choose|i: int|
                0 <= i < f.len() && pot(f, 0) == max_score(#[trigger] f[i].state, 0);
            lemma_pot_bound(f, k, i0);
            assert(pot(f, k) == pot(f, 0));
        } else {
            assert(turn < hz);
            lemma_pow4_pos(k);
            lemma_width_ge_len(width, pow4(k), f.len());
            lemma_drained_full(f, width, fl, (k - 1) as nat, turn, hz);
            let next = drained(f, width, fl);
            assert(next.len() >= 1);
            assert(ff == beam_levels(next, width, (k - 1) as nat, false));
            lemma_width_step(width, pow4((k - 1) as nat), f.len(), next.len());
            lemma_beam_full_width(next, width, (k - 1) as nat, false, turn + 1, hz);
        }
    }
}

/// Convergence to brute force: on any board of at least two cells, beam
/// search whose width can hold every candidate of every level reaches, in
/// its final frontier's best entry, exactly the optimum score over all
/// legal action sequences of the search depth.
pub proof fn lemma_beam_converges_to_brute_force(v: StateView, width: nat, depth: nat)
    requires
        wf_view(v),
        v.h >= 2 || v.w >= 2,
        width >= pow4(depth),
    ensures
        ({
            let ff = beam_levels(seq![root_view(v)], width, depth, true);
            &&& ff.len() >= 1
            &&& ff[best_idx(ff)].score == max_score(v, depth)
        }),
{
    let f0 = seq![root_view(v)];
    assert(frontier_ok(f0, v.turn, v.horizon)) by {
        assert(entry_ok(f0[0], v.turn, v.horizon));
    }
    assert(pow4(depth) * f0.len() == pow4(depth));
    lemma_beam_full_width(f0, width, depth, true, v.turn, v.horizon);
    let ff = beam_levels(f0, width, depth, true);
    assert(pot(f0, depth) == max_score(v, depth)) by {
        assert(pot(f0.drop_last(), depth) == 0);
    }
    lemma_best_exists(ff);
    let b = best_idx(ff);
    lemma_pot_witness(ff, 0);
    let i = choose|i: int| 0 <= i < ff.len() && pot(ff, 0) == max_score(#[trigger] ff[i].state, 0);
    assert(pot(ff, 0) == ff[i].score);
    assert(ff[i].score <= ff[b].score);
    lemma_pot_bound(ff, 0, b);
    assert(ff[b].score == max_score(ff[b].state, 0));
    assert(ff[b].score == pot(ff, 0));
}

/// The brute-force optimum never shrinks when the depth budget grows.
pub proof fn lemma_max_score_monotone(v: StateView, d1: nat, d2: nat)
    requires
        wf_view(v),
        d1 <= d2,
    ensures
        max_score(v, d1) <= max_score(v, d2),
    decreases d2,
{
    if d1 == 0 {
        lemma_max_score_ge_eval(v, d2);
    } else if !view_done(v) {
        lemma_max_succ_bounds(v, 4, d1);
        lemma_max_succ_bounds(v, 4, d2);
        if max_succ(v, 4, d1) == eval_view(v) {
            lemma_max_score_ge_eval(v, d2);
        } else {
            let b = choose|b: int|
                0 <= b < 4 && #[trigger] action_legal(v, b) && max_succ(v, 4, d1) == max_score(
                    advance_view(v, b),
                    (d1 - 1) as nat,
                );
            lemma_advance_wf(v, b);
            lemma_max_score_monotone(advance_view(v, b), (d1 - 1) as nat, (d2 - 1) as nat);
        }
    }
}

/// The claim a first-action tag carries: the tag is set, legal at the root
/// position, and the entry's whole remaining-depth optimum fits under the
/// tagged action's subtree optimum.
pub open spec fn tag_ok(e: ScoredView, v0: StateView, dm1: nat, k: nat) -> bool {
    &&& e.first is Some
    &&& action_legal(v0, e.first->Some_0 as int)
    &&& max_score(e.state, k) <= max_score(advance_view(v0, e.first->Some_0 as int), dm1)
}

/// Every entry's tag carries its claim.
pub open spec fn tags_ok(f: Seq<ScoredView>, v0: StateView, dm1: nat, k: nat) -> bool {
    forall|i: int| 0 <= i < f.len() ==> tag_ok(#[trigger] f[i], v0, dm1, k)
}

/// Tag claims survive a propagating drain: every successor inherits its
/// parent's tag, and its optimum at one level less still fits under the
/// tagged subtree's optimum.
proof fn lemma_drained_tags(
    f: Seq<ScoredView>,
    width: nat,
    k: nat,
    v0: StateView,
    dm1: nat,
    turn: nat,
    hz: nat,
)
    requires
        frontier_ok(f, turn, hz),
        turn < hz,
        width >= f.len(),
        tags_ok(f, v0, dm1, (k + 1) as nat),
    ensures
        tags_ok(drained(f, width, false), v0, dm1, k),
    decreases f.len(),
{
    if f.len() > 0 {
        lemma_best_exists(f);
        let b = best_idx(f);
        assert(!view_done(f[b].state));
        let rest = f.remove(b);
        assert(frontier_ok(rest, turn, hz) && tags_ok(rest, v0, dm1, (k + 1) as nat)) by {
            assert forall|i: int| 0 <= i < rest.len() implies entry_ok(#[trigger] rest[i], turn, hz)
                && tag_ok(rest[i], v0, dm1, (k + 1) as nat) by {
                if i < b {
                    assert(rest[i] == f[i]);
                } else {
                    assert(rest[i] == f[i + 1]);
                }
            }
        }
        lemma_drained_tags(rest, (width - 1) as nat, k, v0, dm1, turn, hz);
        let succs = successors(f[b], false);
        let dr = drained(rest, (width - 1) as nat, false);
        assert(tags_ok(succs, v0, dm1, k)) by {
            lemma_successors_align(f[b], false, 4);
            lemma_legal_upto(f[b].state, 4);
            lemma_max_succ_bounds(f[b].state, 4, (k + 1) as nat);
            assert forall|i: int| 0 <= i < succs.len() implies tag_ok(
                #[trigger] succs[i],
                v0,
                dm1,
                k,
            ) by {
                let a = legal_upto(f[b].state, 4)[i];
                assert(succs[i] == child_view(f[b], a as int, false));
                assert(max_score(advance_view(f[b].state, a as int), k) <= max_succ(
                    f[b].state,
                    4,
                    (k + 1) as nat,
                ));
            }
        }
        assert(drained(f, width, false) == succs + dr);
        assert forall|i: int| 0 <= i < (succs + dr).len() implies tag_ok(
            #[trigger] (succs + dr)[i],
            v0,
            dm1,
            k,
        ) by {
            if i < succs.len() {
                assert((succs + dr)[i] == succs[i]);
            } else {
                assert((succs + dr)[i] == dr[i - succs.len()]);
            }
        }
    }
}

/// Tag claims survive the whole full-width search: every entry of the final
/// frontier still names a legal root action whose subtree optimum bounds
/// the entry's evaluation.
proof fn lemma_beam_tags(
    f: Seq<ScoredView>,
    width: nat,
    k: nat,
    turn: nat,
    hz: nat,
    v0: StateView,
    dm1: nat,
)
    requires
        f.len() >= 1,
        frontier_ok(f, turn, hz),
        width >= pow4(k) * f.len(),
        tags_ok(f, v0, dm1, k),
    ensures
        tags_ok(beam_levels(f, width, k, false), v0, dm1, 0),
    decreases k,
{
    let ff = beam_levels(f, width, k, false);
    if k == 0 {
        assert(ff == f);
    } else {
        lemma_best_exists(f);
        let b = best_idx(f);
        if view_done(f[b].state) {
            assert(turn == hz);
            assert(ff == f);
            assert forall|i: int| 0 <= i < f.len() implies tag_ok(#[trigger] f[i], v0, dm1, 0) by {
                assert(view_done(f[i].state));
                assert(max_score(f[i].state, k) == eval_view(f[i].state));
                assert(max_score(f[i].state, 0) == eval_view(f[i].state));
            }
        } else {
            assert(turn < hz);
            lemma_pow4_pos(k);
            lemma_width_ge_len(width, pow4(k), f.len());
            lemma_drained_full(f, width, false, (k - 1) as nat, turn, hz);
            lemma_drained_tags(f, width, (k - 1) as nat, v0, dm1, turn, hz);
            let next = drained(f, width, false);
            assert(next.len() >= 1);
            assert(ff == beam_levels(next, width, (k - 1) as nat, false));
            lemma_width_step(width, pow4((k - 1) as nat), f.len(), next.len());
            lemma_beam_tags(next, width, (k - 1) as nat, turn + 1, hz, v0, dm1);
        }
    }
}

/// The chosen action of a full-width beam search is optimal: on a
/// non-terminal position of a board with at least two cells, the search
/// returns an action, the action is legal, and its subtree's brute-force
/// optimum equals the position's — the choice begins an optimal action
/// sequence of the search depth.
pub proof fn lemma_wide_beam_action_optimal(v: StateView, width: nat, depth: nat)
    requires
        wf_view(v),
        v.h >= 2 || v.w >= 2,
        !view_done(v),
        depth >= 1,
        width >= pow4(depth),
    ensures
        ({
            let r = beam_choice(v, width, depth);
            &&& r is Some
            &&& action_legal(v, r->Some_0 as int)
            &&& max_score(advance_view(v, r->Some_0 as int), (depth - 1) as nat) == max_score(
                v,
                depth,
            )
        }),
{
    let root = root_view(v);
    let f0 = seq![root];
    assert(best_at(f0, 0));
    crate::frontier::lemma_best_unique(f0, 0);
    assert(entry_ok(root, v.turn, v.horizon));
    lemma_pow4_pos(depth);
    lemma_successors_pot(root, true, (depth - 1) as nat, v.turn, v.horizon);
    let succs = successors(root, true);
    assert(f0.remove(0) =~= Seq::<ScoredView>::empty());
    assert(drained(f0.remove(0), (width - 1) as nat, true) =~= Seq::<ScoredView>::empty());
    assert(drained(f0, width, true) =~= succs);
    let ff = beam_levels(f0, width, depth, true);
    assert(ff == beam_levels(succs, width, (depth - 1) as nat, false));
    assert(tags_ok(succs, v, (depth - 1) as nat, (depth - 1) as nat)) by {
        lemma_successors_align(root, true, 4);
        lemma_legal_upto(v, 4);
        assert forall|i: int| 0 <= i < succs.len() implies tag_ok(
            #[trigger] succs[i],
            v,
            (depth - 1) as nat,
            (depth - 1) as nat,
        ) by {
            let a = legal_upto(v, 4)[i];
            assert(succs[i] == child_view(root, a as int, true));
        }
    }
    assert((4 * pow4((depth - 1) as nat)) * 1 == pow4(depth));
    lemma_width_step(width, pow4((depth - 1) as nat), 1, succs.len());
    lemma_beam_tags(
        succs,
        width,
        (depth - 1) as nat,
        v.turn + 1,
        v.horizon,
        v,
        (depth - 1) as nat,
    );
    lemma_beam_full_width(succs, width, (depth - 1) as nat, false, v.turn + 1, v.horizon);
    lemma_beam_converges_to_brute_force(v, width, depth);
    lemma_best_exists(ff);
    let b = best_idx(ff);
    assert(tag_ok(ff[b], v, (depth - 1) as nat, 0));
    let a = ff[b].first->Some_0;
    assert(beam_choice(v, width, depth) == Some(a));
    lemma_max_succ_bounds(v, 4, depth);
    assert(max_score(advance_view(v, a as int), (depth - 1) as nat) <= max_score(v, depth));
    assert(ff[b].score == max_score(ff[b].state, 0));
    assert(max_score(v, depth) <= max_score(advance_view(v, a as int), (depth - 1) as nat));
}

/// The iterative search at full width is brute-force optimal too: with one
/// round, a depth bound of `depth` (so the answer is read from level
/// `depth - 1`) and width enough for every candidate of every level, the
/// returned action is legal and begins an optimal action sequence of length
/// `depth - 1`.
pub proof fn lemma_wide_chokudai_action_optimal(v: StateView, width: nat, depth: nat)
    requires
        wf_view(v),
        v.h >= 2 || v.w >= 2,
        !view_done(v),
        depth >= 2,
        width >= pow4((depth - 1) as nat),
    ensures
        ({
            let r = chokudai_choice(v, width, depth, 1);
            &&& r is Some
            &&& action_legal(v, r->Some_0 as int)
            &&& max_score(advance_view(v, r->Some_0 as int), (depth - 2) as nat) == max_score(
                v,
                (depth - 1) as nat,
            )
        }),
{
    crate::laws::lemma_single_round_matches_beam(v, width, depth);
    lemma_wide_beam_action_optimal(v, width, (depth - 1) as nat);
}

} // verus!
