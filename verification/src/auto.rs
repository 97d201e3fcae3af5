//! The auto-play variant of the grid game used by the hill-climbing engine:
//! several agents stand on one board, and each turn every agent moves one
//! step toward its most valuable in-bounds neighbour cell (the smallest
//! action index winning ties), after which every agent collects the value of
//! the cell it stands on.  A whole placement of the agents is the search
//! variable: its worth is the score of a full deterministic playout.

use vstd::prelude::*;
use crate::state::{
    lemma_area_bound, lemma_dest_index_bound, lemma_points_sum_ge_elem, lemma_points_sum_le,
    lemma_points_sum_update, points_sum,
};

verus! {

/// Mathematical snapshot of an auto-play position.
pub ghost struct AutoView {
    pub h: nat,
    pub w: nat,
    pub horizon: nat,
    pub points: Seq<u8>,
    pub turn: nat,
    pub chars: Seq<(nat, nat)>,
    pub score: nat,
}

/// Row reached by an action from row `y`.
pub open spec fn step_y(y: nat, a: int) -> int {
    if a == 2 {
        y + 1 as int
    } else if a == 3 {
        y - 1
    } else {
        y as int
    }
}

/// Column reached by an action from column `x`.
pub open spec fn step_x(x: nat, a: int) -> int {
    if a == 0 {
        x + 1 as int
    } else if a == 1 {
        x - 1
    } else {
        x as int
    }
}

/// Whether an action from cell `(y, x)` stays on an `h` by `w` board.
pub open spec fn step_legal(h: nat, w: nat, y: nat, x: nat, a: int) -> bool {
    &&& 0 <= a < 4
    &&& 0 <= step_y(y, a) < h
    &&& 0 <= step_x(x, a) < w
}

/// The value of cell `(yy, xx)` on a flat board of width `w`.
pub open spec fn cell_at(points: Seq<u8>, w: nat, yy: int, xx: int) -> u8 {
    points[yy * w + xx]
}

/// The running maximum of the inner policy's scan of the actions below `a`:
/// the best neighbour value seen so far (a large negative sentinel before
/// any) and the action that reached it first.
pub open spec fn best_move_rec(
    points: Seq<u8>,
    h: nat,
    w: nat,
    y: nat,
    x: nat,
    a: int,
) -> (int, int)
    decreases a,
{
    if a <= 0 {
        (-100000000, 0)
    } else {
        let prev = best_move_rec(points, h, w, y, x, a - 1);
        if step_legal(h, w, y, x, a - 1) && cell_at(points, w, step_y(y, a - 1), step_x(x, a - 1))
            > prev.0 {
            (cell_at(points, w, step_y(y, a - 1), step_x(x, a - 1)) as int, a - 1)
        } else {
            prev
        }
    }
}

/// The action the inner policy chooses from cell `(y, x)`: the step to the
/// most valuable in-bounds neighbour, the smallest action winning ties.
pub open spec fn chosen_move(points: Seq<u8>, h: nat, w: nat, y: nat, x: nat) -> int {
    best_move_rec(points, h, w, y, x, 4).1
}

/// The cell an agent at `(y, x)` moves to under the inner policy.
pub open spec fn moved_pos(points: Seq<u8>, h: nat, w: nat, y: nat, x: nat) -> (nat, nat) {
    let a = chosen_move(points, h, w, y, x);
    (step_y(y, a) as nat, step_x(x, a) as nat)
}

/// All agents moved under the inner policy; each move depends only on the
/// board and the agent's own cell, so the agents move independently.
pub open spec fn moved_chars(v: AutoView) -> Seq<(nat, nat)> {
    Seq::new(
        v.chars.len(),
        |i: int| moved_pos(v.points, v.h, v.w, v.chars[i].0, v.chars[i].1),
    )
}

/// Sequential collection by the agents from `i` on: each agent adds the
/// value of its cell to the gain and zeroes the cell, so of two agents on
/// one cell only the first collects.  Returns the board afterwards and the
/// total gain.
pub open spec fn collect_from(points: Seq<u8>, chars: Seq<(nat, nat)>, w: nat, i: int) -> (
    Seq<u8>,
    nat,
)
    decreases chars.len() - i,
{
    if i < 0 || i >= chars.len() {
        (points, 0)
    } else {
        let idx = (chars[i].0 * w + chars[i].1) as int;
        let p = points[idx];
        let rest = collect_from(points.update(idx, 0), chars, w, i + 1);
        (rest.0, (p + rest.1) as nat)
    }
}

/// One auto-play turn: move every agent, collect under every agent, advance
/// the turn counter.
pub open spec fn advance_auto(v: AutoView) -> AutoView {
    let mchars = moved_chars(v);
    let col = collect_from(v.points, mchars, v.w, 0);
    AutoView {
        h: v.h,
        w: v.w,
        horizon: v.horizon,
        points: col.0,
        turn: v.turn + 1,
        chars: mchars,
        score: (v.score + col.1) as nat,
    }
}

/// The board with the cell under each agent from `i` on zeroed, nothing
/// collected.
pub open spec fn clear_from(points: Seq<u8>, chars: Seq<(nat, nat)>, w: nat, i: int) -> Seq<u8>
    decreases chars.len() - i,
{
    if i < 0 || i >= chars.len() {
        points
    } else {
        clear_from(points.update((chars[i].0 * w + chars[i].1) as int, 0), chars, w, i + 1)
    }
}

/// A well-formed auto-play position.  The board must extend at least two
/// cells in one direction so that every cell has an in-bounds neighbour and
/// the inner policy always has a move.
pub open spec fn wf_auto(v: AutoView) -> bool {
    &&& 1 <= v.h <= 10000
    &&& 1 <= v.w <= 10000
    &&& (v.h >= 2 || v.w >= 2)
    &&& v.points.len() == v.h * v.w
    &&& forall|i: int| 0 <= i < v.points.len() ==> v.points[i] <= 9
    &&& forall|i: int|
        0 <= i < v.chars.len() ==> (#[trigger] v.chars[i]).0 < v.h && v.chars[i].1 < v.w
    &&& v.turn <= v.horizon
    &&& v.score + points_sum(v.points) <= 9 * v.points.len()
}

/// A position is terminal exactly when the turn counter has reached the
/// horizon.
pub open spec fn auto_done(v: AutoView) -> bool {
    v.turn == v.horizon
}

/// The score of the deterministic playout of a position: auto-play turns
/// until the horizon.
pub open spec fn playout_view(v: AutoView) -> nat
    decreases v.horizon - v.turn,
{
    if v.turn >= v.horizon {
        v.score
    } else {
        playout_view(advance_auto(v))
    }
}

/// The position with the cell under each agent zeroed before the playout
/// begins, so standing on a cell does not count it.
pub open spec fn cleared_view(v: AutoView) -> AutoView {
    AutoView {
        h: v.h,
        w: v.w,
        horizon: v.horizon,
        points: clear_from(v.points, v.chars, v.w, 0),
        turn: v.turn,
        chars: v.chars,
        score: v.score,
    }
}

/// The worth of a placement: the score of the full playout from the cleared
/// position.
pub open spec fn playout_score(v: AutoView) -> nat {
    playout_view(cleared_view(v))
}

/// The inner policy's scan invariant: before any action was seen the
/// sentinel stands, afterwards the running best is a legal action whose
/// neighbour value is maximal among the actions seen, the earliest such
/// action winning.
pub proof fn lemma_best_move(points: Seq<u8>, h: nat, w: nat, y: nat, x: nat, a: int)
    requires
        0 <= a <= 4,
    ensures
        (best_move_rec(points, h, w, y, x, a).0 == -100000000 ==> forall|b: int|
            0 <= b < a ==> !step_legal(h, w, y, x, b)),
        (best_move_rec(points, h, w, y, x, a).0 != -100000000 ==> {
            let best = best_move_rec(points, h, w, y, x, a);
            &&& 0 <= best.1 < a
            &&& step_legal(h, w, y, x, best.1)
            &&& best.0 == cell_at(points, w, step_y(y, best.1), step_x(x, best.1)) as int
            &&& forall|b: int|
                0 <= b < a && step_legal(h, w, y, x, b) ==> cell_at(
                    points,
                    w,
                    step_y(y, b),
                    step_x(x, b),
                ) as int <= best.0
            &&& forall|b: int|
                0 <= b < best.1 && step_legal(h, w, y, x, b) ==> (cell_at(
                    points,
                    w,
                    step_y(y, b),
                    step_x(x, b),
                ) as int) < best.0
        }),
    decreases a,
{
    if a > 0 {
        lemma_best_move(points, h, w, y, x, a - 1);
    }
}

/// On a board with at least two cells in a row or column, every cell has an
/// in-bounds neighbour, so the inner policy's chosen move is legal.
pub proof fn lemma_chosen_move_legal(points: Seq<u8>, h: nat, w: nat, y: nat, x: nat)
    requires
        y < h,
        x < w,
        h >= 2 || w >= 2,
    ensures
        step_legal(h, w, y, x, chosen_move(points, h, w, y, x)),
{
    lemma_best_move(points, h, w, y, x, 4);
    if best_move_rec(points, h, w, y, x, 4).0 == -100000000 {
        if w >= 2 {
            if x + 1 < w {
                assert(step_legal(h, w, y, x, 0));
            } else {
                assert(step_legal(h, w, y, x, 1));
            }
        } else {
            if y + 1 < h {
                assert(step_legal(h, w, y, x, 2));
            } else {
                assert(step_legal(h, w, y, x, 3));
            }
        }
    }
}

/// Collection keeps the board's length, keeps every cell value bounded, and
/// moves value from the board into the gain without loss.
pub proof fn lemma_collect_from(points: Seq<u8>, chars: Seq<(nat, nat)>, w: nat, i: int, h: nat)
    requires
        points.len() == h * w,
        forall|j: int| 0 <= j < points.len() ==> points[j] <= 9,
        forall|j: int| 0 <= j < chars.len() ==> (#[trigger] chars[j]).0 < h && chars[j].1 < w,
    ensures
        collect_from(points, chars, w, i).0.len() == points.len(),
        forall|j: int|
            0 <= j < points.len() ==> collect_from(points, chars, w, i).0[j] <= 9,
        points_sum(collect_from(points, chars, w, i).0) + collect_from(points, chars, w, i).1
            == points_sum(points),
    decreases chars.len() - i,
{
    if 0 <= i < chars.len() {
        let idx = (chars[i].0 * w + chars[i].1) as int;
        lemma_dest_index_bound(chars[i].0 as int, chars[i].1 as int, h as int, w as int);
        lemma_points_sum_update(points, idx, 0);
        lemma_collect_from(points.update(idx, 0), chars, w, i + 1, h);
    }
}

/// Clearing keeps the board's length, keeps every cell value bounded, and
/// never increases the value on the board.
pub proof fn lemma_clear_from(points: Seq<u8>, chars: Seq<(nat, nat)>, w: nat, i: int, h: nat)
    requires
        points.len() == h * w,
        forall|j: int| 0 <= j < points.len() ==> points[j] <= 9,
        forall|j: int| 0 <= j < chars.len() ==> (#[trigger] chars[j]).0 < h && chars[j].1 < w,
    ensures
        clear_from(points, chars, w, i).len() == points.len(),
        forall|j: int| 0 <= j < points.len() ==> clear_from(points, chars, w, i)[j] <= 9,
        points_sum(clear_from(points, chars, w, i)) <= points_sum(points),
    decreases chars.len() - i,
{
    if 0 <= i < chars.len() {
        let idx = (chars[i].0 * w + chars[i].1) as int;
        lemma_dest_index_bound(chars[i].0 as int, chars[i].1 as int, h as int, w as int);
        lemma_points_sum_update(points, idx, 0);
        lemma_clear_from(points.update(idx, 0), chars, w, i + 1, h);
    }
}

/// One auto-play turn preserves well-formedness.
pub proof fn lemma_advance_auto_wf(v: AutoView)
    requires
        wf_auto(v),
        !auto_done(v),
    ensures
        wf_auto(advance_auto(v)),
{
    let mchars = moved_chars(v);
    assert forall|i: int| 0 <= i < mchars.len() implies (#[trigger] mchars[i]).0 < v.h
        && mchars[i].1 < v.w by {
        lemma_chosen_move_legal(v.points, v.h, v.w, v.chars[i].0, v.chars[i].1);
    }
    lemma_collect_from(v.points, mchars, v.w, 0, v.h);
}

/// Clearing the agents' cells preserves well-formedness.
pub proof fn lemma_cleared_wf(v: AutoView)
    requires
        wf_auto(v),
    ensures
        wf_auto(cleared_view(v)),
{
    lemma_clear_from(v.points, v.chars, v.w, 0, v.h);
}

/// An auto-play position: board dimensions, horizon, the flat board, the
/// turn counter, the agents' coordinates, and the accumulated score.
pub struct AutoMazeState {
    pub h: usize,
    pub w: usize,
    pub horizon: usize,
    pub points: Vec<u8>,
    pub turn: usize,
    pub characters: Vec<(usize, usize)>,
    pub game_score: u64,
}

impl View for AutoMazeState {
    type V = AutoView;

    open spec fn view(&self) -> AutoView {
        AutoView {
            h: self.h as nat,
            w: self.w as nat,
            horizon: self.horizon as nat,
            points: self.points@,
            turn: self.turn as nat,
            chars: self.characters@.map_values(|c: (usize, usize)| (c.0 as nat, c.1 as nat)),
            score: self.game_score as nat,
        }
    }
}

impl AutoMazeState {
    /// Whether the position satisfies the game invariant.
    pub open spec fn wf(&self) -> bool {
        wf_auto(self@)
    }

    /// Builds the initial position of an episode from plain values; all
    /// agents start in the top-left corner, as placements are chosen later.
    pub fn new(h: usize, w: usize, horizon: usize, points: Vec<u8>, n_chars: usize) -> (r: Self)
        requires
            1 <= h <= 10000,
            1 <= w <= 10000,
            h >= 2 || w >= 2,
            points@.len() == h * w,
            forall|i: int| 0 <= i < points@.len() ==> points@[i] <= 9,
        ensures
            r.wf(),
            r@ == (AutoView {
                h: h as nat,
                w: w as nat,
                horizon: horizon as nat,
                points: points@,
                turn: 0,
                chars: Seq::new(n_chars as nat, |i: int| (0 as nat, 0 as nat)),
                score: 0,
            }),
    {
        let mut characters: Vec<(usize, usize)> = Vec::new();
        let mut i: usize = 0;
        while i < n_chars
            invariant
                i <= n_chars,
                characters@.len() == i,
                forall|j: int| 0 <= j < i ==> characters@[j] == (0usize, 0usize),
            decreases n_chars - i,
        {
            characters.push((0, 0));
            i = i + 1;
        }
        let r = AutoMazeState { h, w, horizon, points, turn: 0, characters, game_score: 0 };
        proof {
            lemma_points_sum_le(r@.points, 0);
            assert(r@.chars =~= Seq::new(n_chars as nat, |i: int| (0 as nat, 0 as nat)));
        }
        r
    }

    /// An independent copy of the position.
    pub fn duplicate(&self) -> (r: Self)
        ensures
            r@ == self@,
    {
        let mut characters: Vec<(usize, usize)> = Vec::new();
        let mut i: usize = 0;
        while i < self.characters.len()
            invariant
                i <= self.characters.len(),
                characters@.len() == i,
                forall|j: int| 0 <= j < i ==> characters@[j] == #[trigger] self.characters@[j],
            decreases self.characters.len() - i,
        {
            characters.push(self.characters[i]);
            i = i + 1;
        }
        let r = AutoMazeState {
            h: self.h,
            w: self.w,
            horizon: self.horizon,
            points: crate::state::copy_bytes(&self.points),
            turn: self.turn,
            characters,
            game_score: self.game_score,
        };
        proof {
            assert(r@.chars =~= self@.chars);
        }
        r
    }

    /// Whether the episode is over: the turn counter reached the horizon.
    pub fn is_done(&self) -> (r: bool)
        ensures
            r == auto_done(self@),
    {
        self.turn == self.horizon
    }

    /// The scoring policy: evaluates the position by its accumulated score.
    pub fn evaluate(&self) -> (r: u64)
        ensures
            r as nat == self@.score,
    {
        self.game_score
    }

    /// Places one agent on a cell; part of choosing a placement policy.
    pub fn set_character(&mut self, id: usize, y: usize, x: usize)
        requires
            old(self).wf(),
            id < old(self)@.chars.len(),
            y < old(self)@.h,
            x < old(self)@.w,
        ensures
            final(self).wf(),
            final(self)@ == (AutoView {
                h: old(self)@.h,
                w: old(self)@.w,
                horizon: old(self)@.horizon,
                points: old(self)@.points,
                turn: old(self)@.turn,
                chars: old(self)@.chars.update(id as int, (y as nat, x as nat)),
                score: old(self)@.score,
            }),
    {
        self.characters[id] = (y, x);
        proof {
            assert(self@.chars =~= old(self)@.chars.update(id as int, (y as nat, x as nat)));
        }
    }

    /// Moves one agent a step toward its most valuable in-bounds neighbour
    /// cell, the smallest action index winning ties.
    pub fn move_player(&mut self, id: usize)
        requires
            old(self).wf(),
            id < old(self)@.chars.len(),
        ensures
            final(self).wf(),
            final(self)@ == (AutoView {
                h: old(self)@.h,
                w: old(self)@.w,
                horizon: old(self)@.horizon,
                points: old(self)@.points,
                turn: old(self)@.turn,
                chars: old(self)@.chars.update(
                    id as int,
                    moved_pos(
                        old(self)@.points,
                        old(self)@.h,
                        old(self)@.w,
                        old(self)@.chars[id as int].0,
                        old(self)@.chars[id as int].1,
                    ),
                ),
                score: old(self)@.score,
            }),
    {
        let y = self.characters[id].0;
        let x = self.characters[id].1;
        let mut best_point: i64 = -100000000;
        let mut best_action: usize = 0;
        let mut a: usize = 0;
        while a < 4
            invariant
                a <= 4,
                self.wf(),
                id < self@.chars.len(),
                y < self@.h,
                x < self@.w,
                y as nat == self@.chars[id as int].0,
                x as nat == self@.chars[id as int].1,
                best_point as int == best_move_rec(
                    self@.points,
                    self@.h,
                    self@.w,
                    y as nat,
                    x as nat,
                    a as int,
                ).0,
                best_action as int == best_move_rec(
                    self@.points,
                    self@.h,
                    self@.w,
                    y as nat,
                    x as nat,
                    a as int,
                ).1,
            decreases 4 - a,
        {
            let mut ok = false;
            let mut ty: usize = y;
            let mut tx: usize = x;
            if a == 0 {
                if x + 1 < self.w {
                    ok = true;
                    tx = x + 1;
                }
            } else if a == 1 {
                if x >= 1 {
                    ok = true;
                    tx = x - 1;
                }
            } else if a == 2 {
                if y + 1 < self.h {
                    ok = true;
                    ty = y + 1;
                }
            } else {
                if y >= 1 {
                    ok = true;
                    ty = y - 1;
                }
            }
            proof {
                assert(ok == step_legal(self@.h, self@.w, y as nat, x as nat, a as int));
            }
            if ok {
                proof {
                    lemma_dest_index_bound(ty as int, tx as int, self@.h as int, self@.w as int);
                    lemma_area_bound(self@.h as int, self@.w as int);
                }
                let idx = ty * self.w + tx;
                let p = self.points[idx];
                if (p as i64) > best_point {
                    best_point = p as i64;
                    best_action = a;
                }
            }
            a = a + 1;
        }
        proof {
            lemma_chosen_move_legal(self@.points, self@.h, self@.w, y as nat, x as nat);
        }
        let mut ny: usize = y;
        let mut nx: usize = x;
        if best_action == 0 {
            nx = x + 1;
        } else if best_action == 1 {
            nx = x - 1;
        } else if best_action == 2 {
            ny = y + 1;
        } else {
            ny = y - 1;
        }
        self.characters[id] = (ny, nx);
        proof {
            assert(self@.chars =~= old(self)@.chars.update(
                id as int,
                moved_pos(
                    old(self)@.points,
                    old(self)@.h,
                    old(self)@.w,
                    old(self)@.chars[id as int].0,
                    old(self)@.chars[id as int].1,
                ),
            ));
        }
    }
}

impl AutoMazeState {
    /// One auto-play turn: every agent moves under the inner policy, then
    /// every agent collects the value of the cell it stands on (of two
    /// agents on one cell only the first collects), and the turn advances.
    pub fn advance(&mut self)
        requires
            old(self).wf(),
            !auto_done(old(self)@),
        ensures
            final(self).wf(),
            final(self)@ == advance_auto(old(self)@),
    {
        let ghost orig = old(self)@;
        let n = self.characters.len();
        let mut id: usize = 0;
        while id < n
            invariant
                id <= n,
                self.wf(),
                n == self@.chars.len(),
                n == orig.chars.len(),
                wf_auto(orig),
                self@.h == orig.h,
                self@.w == orig.w,
                self@.horizon == orig.horizon,
                self@.points == orig.points,
                self@.turn == orig.turn,
                self@.score == orig.score,
                forall|i: int| 0 <= i < id ==> self@.chars[i] == moved_chars(orig)[i],
                forall|i: int| id <= i < n ==> self@.chars[i] == orig.chars[i],
            decreases n - id,
        {
            self.move_player(id);
            proof {
                assert(moved_chars(orig)[id as int] == moved_pos(
                    orig.points,
                    orig.h,
                    orig.w,
                    orig.chars[id as int].0,
                    orig.chars[id as int].1,
                ));
                assert(self@.chars[id as int] == moved_chars(orig)[id as int]);
            }
            id = id + 1;
        }
        proof {
            assert(self@.chars =~= moved_chars(orig));
        }
        let ghost mchars = moved_chars(orig);
        let ghost total = collect_from(orig.points, mchars, orig.w, 0);
        proof {
            assert forall|i: int| 0 <= i < mchars.len() implies (#[trigger] mchars[i]).0 < orig.h
                && mchars[i].1 < orig.w by {
                lemma_chosen_move_legal(orig.points, orig.h, orig.w, orig.chars[i].0, orig.chars[i].1);
            }
            lemma_collect_from(orig.points, mchars, orig.w, 0, orig.h);
            lemma_area_bound(orig.h as int, orig.w as int);
        }
        let mut i: usize = 0;
        while i < n
            invariant
                i <= n,
                n == self@.chars.len(),
                self@.h == orig.h,
                self@.w == orig.w,
                self@.horizon == orig.horizon,
                self@.turn == orig.turn,
                self@.chars == mchars,
                mchars == moved_chars(orig),
                total == collect_from(orig.points, mchars, orig.w, 0),
                orig.h * orig.w <= 100000000,
                forall|j: int| 0 <= j < mchars.len() ==> (#[trigger] mchars[j]).0 < orig.h
                    && mchars[j].1 < orig.w,
                self@.points.len() == orig.h * orig.w,
                forall|j: int| 0 <= j < self@.points.len() ==> self@.points[j] <= 9,
                self@.score + points_sum(self@.points) <= orig.score + points_sum(orig.points),
                orig.score + points_sum(orig.points) <= 9 * self@.points.len(),
                collect_from(self@.points, mchars, orig.w, i as int).0 == total.0,
                self@.score + collect_from(self@.points, mchars, orig.w, i as int).1 == orig.score
                    + total.1,
            decreases n - i,
        {
            let cy = self.characters[i].0;
            let cx = self.characters[i].1;
            proof {
                lemma_dest_index_bound(cy as int, cx as int, orig.h as int, orig.w as int);
                lemma_points_sum_ge_elem(self@.points, (cy as nat * orig.w + cx as nat) as int);
                lemma_points_sum_update(self@.points, (cy as nat * orig.w + cx as nat) as int, 0);
            }
            let idx = cy * self.w + cx;
            let p = self.points[idx];
            self.game_score = self.game_score + p as u64;
            self.points[idx] = 0;
            i = i + 1;
        }
        self.turn = self.turn + 1;
        proof {
            lemma_advance_auto_wf(orig);
        }
    }

    /// The worth of the current placement: clears the cell under each agent
    /// on a private copy, plays the copy out to the horizon, and returns the
    /// final score.  The position itself is untouched.
    pub fn get_score(&self) -> (r: u64)
        requires
            self.wf(),
        ensures
            r as nat == playout_score(self@),
    {
        let ghost orig = self@;
        let mut tmp = self.duplicate();
        let n = tmp.characters.len();
        proof {
            lemma_area_bound(orig.h as int, orig.w as int);
        }
        let mut i: usize = 0;
        while i < n
            invariant
                i <= n,
                n == tmp@.chars.len(),
                tmp@.h == orig.h,
                tmp@.w == orig.w,
                tmp@.horizon == orig.horizon,
                tmp@.turn == orig.turn,
                tmp@.score == orig.score,
                tmp@.chars == orig.chars,
                orig.h * orig.w <= 100000000,
                wf_auto(orig),
                tmp@.points.len() == orig.h * orig.w,
                forall|j: int| 0 <= j < tmp@.points.len() ==> tmp@.points[j] <= 9,
                tmp@.score + points_sum(tmp@.points) <= orig.score + points_sum(orig.points),
                clear_from(tmp@.points, orig.chars, orig.w, i as int) == clear_from(
                    orig.points,
                    orig.chars,
                    orig.w,
                    0,
                ),
            decreases n - i,
        {
            let cy = tmp.characters[i].0;
            let cx = tmp.characters[i].1;
            proof {
                lemma_dest_index_bound(cy as int, cx as int, orig.h as int, orig.w as int);
                lemma_points_sum_update(tmp@.points, (cy as nat * orig.w + cx as nat) as int, 0);
            }
            let idx = cy * tmp.w + cx;
            tmp.points[idx] = 0;
            i = i + 1;
        }
        proof {
            assert(tmp@ == cleared_view(orig));
            lemma_cleared_wf(orig);
        }
        while !(tmp.turn == tmp.horizon)
            invariant
                tmp.wf(),
                playout_view(tmp@) == playout_score(orig),
            decreases tmp@.horizon - tmp@.turn,
        {
            tmp.advance();
        }
        tmp.game_score
    }
}

} // verus!
