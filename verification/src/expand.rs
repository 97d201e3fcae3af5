//! One level of search expansion, shared by the beam and the iterative
//! engine: pop up to `width` highest-scoring entries from a frontier
//! (stopping early when the frontier runs out or its best entry is already
//! terminal) and push every legal successor of each popped entry, in
//! increasing action order, into a target frontier.  On the first expansion
//! level each successor is tagged with the action that produced it; on
//! deeper levels the tag of the popped entry is propagated unchanged.

use vstd::prelude::*;
use crate::state::{action_legal, advance_view, eval_view, view_done, wf_view};
use crate::frontier::{best_idx, Frontier, ScoredState, ScoredView};

verus! {

/// Every entry's state is well-formed.
pub open spec fn all_wf(s: Seq<ScoredView>) -> bool {
    forall|i: int| 0 <= i < s.len() ==> wf_view(#[trigger] s[i].state)
}

/// The successor of an entry under one action: the advanced state, its
/// evaluation, and the first-action tag (the action itself on the first
/// level, the parent's tag otherwise).
pub open spec fn child_view(sc: ScoredView, a: int, tag: bool) -> ScoredView {
    ScoredView {
        state: advance_view(sc.state, a),
        score: eval_view(advance_view(sc.state, a)),
        first: if tag {
            Some(a as usize)
        } else {
            sc.first
        },
    }
}

/// Successors of an entry for the legal actions below `a`, in increasing
/// action order.
pub open spec fn successors_upto(sc: ScoredView, tag: bool, a: int) -> Seq<ScoredView>
    decreases a,
{
    if a <= 0 {
        Seq::empty()
    } else {
        successors_upto(sc, tag, a - 1) + if action_legal(sc.state, a - 1) {
            seq![child_view(sc, a - 1, tag)]
        } else {
            Seq::empty()
        }
    }
}

/// All successors of an entry, in increasing action order.
pub open spec fn successors(sc: ScoredView, tag: bool) -> Seq<ScoredView> {
    successors_upto(sc, tag, 4)
}

/// The entries produced by one expansion level of width `width` from
/// frontier `f`: the best entry is popped and expanded, then the level
/// continues on the rest with one unit of width less; the level ends when
/// the width budget or the frontier is exhausted, or when the best remaining
/// entry is already terminal.
pub open spec fn drained(f: Seq<ScoredView>, width: nat, tag: bool) -> Seq<ScoredView>
    decreases width,
{
    if width == 0 || f.len() == 0 {
        Seq::empty()
    } else {
        let b = best_idx(f);
        if view_done(f[b].state) {
            Seq::empty()
        } else {
            successors(f[b], tag) + drained(f.remove(b), (width - 1) as nat, tag)
        }
    }
}

/// What a level leaves behind in its source frontier: the entries still
/// there after the up-to-`width` best were popped, the drain stopping early
/// on an empty frontier or a terminal best entry.
pub open spec fn drain_rest(f: Seq<ScoredView>, width: nat) -> Seq<ScoredView>
    decreases width,
{
    if width == 0 || f.len() == 0 {
        f
    } else {
        let b = best_idx(f);
        if view_done(f[b].state) {
            f
        } else {
            drain_rest(f.remove(b), (width - 1) as nat)
        }
    }
}

/// Pops up to `width` best entries from `source` and pushes all their legal
/// successors into `out`, exactly as `drained` describes; what stays in
/// `source` is exactly `drain_rest`.
pub fn expand_best(source: &mut Frontier, out: &mut Frontier, width: usize, tag: bool)
    requires
        all_wf(old(source)@),
        all_wf(old(out)@),
    ensures
        final(out)@ == old(out)@ + drained(old(source)@, width as nat, tag),
        all_wf(final(out)@),
        final(source)@ == drain_rest(old(source)@, width as nat),
        all_wf(final(source)@),
{
    let ghost target = old(out)@ + drained(old(source)@, width as nat, tag);
    let mut popped: usize = 0;
    while popped < width
        invariant
            popped <= width,
            all_wf(source@),
            all_wf(out@),
            out@ + drained(source@, (width - popped) as nat, tag) == target,
            drain_rest(source@, (width - popped) as nat) == drain_rest(
                old(source)@,
                width as nat,
            ),
        ensures
            out@ == target,
            all_wf(out@),
            all_wf(source@),
            source@ == drain_rest(old(source)@, width as nat),
        decreases width - popped,
    {
        if source.is_empty() {
            proof {
                assert(out@ + drained(source@, (width - popped) as nat, tag) =~= out@);
                assert(out@ == target);
                assert(drain_rest(source@, (width - popped) as nat) == source@);
            }
            break;
        }
        proof {
            crate::frontier::lemma_best_exists(source@);
        }
        let done = source.peek_best().state.is_done();
        if done {
            proof {
                assert(out@ + drained(source@, (width - popped) as nat, tag) =~= out@);
                assert(out@ == target);
                assert(drain_rest(source@, (width - popped) as nat) == source@);
            }
            break;
        }
        let ghost src_pre = source@;
        let ghost wleft = (width - popped) as nat;
        let sc = source.pop_best();
        proof {
            assert(drained(src_pre, wleft, tag) == successors(src_pre[best_idx(src_pre)], tag)
                + drained(src_pre.remove(best_idx(src_pre)), (wleft - 1) as nat, tag));
            assert(drain_rest(src_pre, wleft) == drain_rest(
                src_pre.remove(best_idx(src_pre)),
                (wleft - 1) as nat,
            ));
            assert(source@ == src_pre.remove(best_idx(src_pre)));
        }
        let ghost out_mid = out@;
        let mut a: usize = 0;
        while a < 4
            invariant
                a <= 4,
                sc.state.wf(),
                !view_done(sc@.state),
                all_wf(out@),
                out@ == out_mid + successors_upto(sc@, tag, a as int),
            decreases 4 - a,
        {
            if sc.state.action_is_legal(a) {
                let mut child_state = sc.state.duplicate();
                child_state.advance(a);
                let score = child_state.evaluate();
                let first = if tag {
                    Some(a)
                } else {
                    sc.first_action
                };
                let child = ScoredState { state: child_state, score, first_action: first };
                proof {
                    assert(child@ == child_view(sc@, a as int, tag));
                }
                out.push(child);
                proof {
                    assert(out@ =~= out_mid + successors_upto(sc@, tag, a + 1));
                }
            } else {
                proof {
                    assert(out@ =~= out_mid + successors_upto(sc@, tag, a + 1));
                }
            }
            a = a + 1;
        }
        popped = popped + 1;
        proof {
            assert(out@ + drained(source@, (width - popped) as nat, tag) =~= out_mid + (
            successors(sc@, tag) + drained(source@, (width - popped) as nat, tag)));
            if popped == width {
                assert(out@ + drained(source@, 0, tag) =~= out@);
            }
        }
    }
}

} // verus!
