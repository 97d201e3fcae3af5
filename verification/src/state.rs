//! The single-agent grid game: a board of collectible cell values, an agent
//! position, a turn counter bounded by a horizon, and an accumulated score.
//!
//! The board is stored flat, row-major: cell `(y, x)` lives at index
//! `y * w + x`.  Every cell value is at most nine, and the accumulated score
//! plus the value still on the board never exceeds nine times the board area,
//! which keeps all score arithmetic far from overflow.

use vstd::prelude::*;

verus! {

/// Mathematical snapshot of a game position.
pub ghost struct StateView {
    pub h: nat,
    pub w: nat,
    pub horizon: nat,
    pub points: Seq<u8>,
    pub turn: nat,
    pub y: nat,
    pub x: nat,
    pub score: nat,
}

/// Sum of the collectible values still on a board.
pub open spec fn points_sum(s: Seq<u8>) -> nat
    decreases s.len(),
{
    if s.len() == 0 {
        0
    } else {
        (s[0] + points_sum(s.drop_first())) as nat
    }
}

/// A well-formed position: the board matches the declared dimensions, every
/// cell value is at most nine, the agent stands on the board, the turn has
/// not passed the horizon, and the score accounting stays within nine points
/// per cell of the board area.
pub open spec fn wf_view(v: StateView) -> bool {
    &&& 1 <= v.h <= 10000
    &&& 1 <= v.w <= 10000
    &&& v.points.len() == v.h * v.w
    &&& forall|i: int| 0 <= i < v.points.len() ==> v.points[i] <= 9
    &&& v.y < v.h
    &&& v.x < v.w
    &&& v.turn <= v.horizon
    &&& v.score + points_sum(v.points) <= 9 * v.points.len()
}

/// A position is terminal exactly when the turn counter has reached the
/// horizon.
pub open spec fn view_done(v: StateView) -> bool {
    v.turn == v.horizon
}

/// Row displacement of an action: action 2 steps down, action 3 steps up.
pub open spec fn dest_y(v: StateView, a: int) -> int {
    if a == 2 {
        v.y + 1 as int
    } else if a == 3 {
        v.y - 1
    } else {
        v.y as int
    }
}

/// Column displacement of an action: action 0 steps right, action 1 steps
/// left.
pub open spec fn dest_x(v: StateView, a: int) -> int {
    if a == 0 {
        v.x + 1 as int
    } else if a == 1 {
        v.x - 1
    } else {
        v.x as int
    }
}

/// An action is legal when it is one of the four moves and its destination
/// stays on the board.
pub open spec fn action_legal(v: StateView, a: int) -> bool {
    &&& 0 <= a < 4
    &&& 0 <= dest_y(v, a) < v.h
    &&& 0 <= dest_x(v, a) < v.w
}

/// Flat index of the destination cell of a legal action.
pub open spec fn dest_index(v: StateView, a: int) -> int {
    dest_y(v, a) * v.w + dest_x(v, a)
}

/// The deterministic transition: move the agent, collect the destination
/// cell's value into the score, zero that cell, and advance the turn.
pub open spec fn advance_view(v: StateView, a: int) -> StateView {
    let idx = dest_index(v, a);
    StateView {
        h: v.h,
        w: v.w,
        horizon: v.horizon,
        points: v.points.update(idx, 0),
        turn: v.turn + 1,
        y: dest_y(v, a) as nat,
        x: dest_x(v, a) as nat,
        score: (v.score + v.points[idx]) as nat,
    }
}

/// The scoring policy: the evaluation of a position is its accumulated
/// in-game score.
pub open spec fn eval_view(v: StateView) -> nat {
    v.score
}

/// Evaluation of the position a legal action leads to.
pub open spec fn succ_score(v: StateView, a: int) -> nat {
    eval_view(advance_view(v, a))
}

/// The legal actions of a position, in increasing action order, considering
/// only actions below `a`.
pub open spec fn legal_upto(v: StateView, a: int) -> Seq<usize>
    decreases a,
{
    if a <= 0 {
        Seq::empty()
    } else {
        legal_upto(v, a - 1) + if action_legal(v, a - 1) {
            seq![(a - 1) as usize]
        } else {
            Seq::empty()
        }
    }
}

/// All legal actions of a position, in increasing action order.
pub open spec fn legal_seq(v: StateView) -> Seq<usize> {
    legal_upto(v, 4)
}

pub proof fn lemma_points_sum_ge_elem(s: Seq<u8>, i: int)
    requires
        0 <= i < s.len(),
    ensures
        s[i] <= points_sum(s),
    decreases s.len(),
{
    if i > 0 {
        lemma_points_sum_ge_elem(s.drop_first(), i - 1);
    }
}

pub proof fn lemma_points_sum_update(s: Seq<u8>, i: int, val: u8)
    requires
        0 <= i < s.len(),
    ensures
        points_sum(s.update(i, val)) + s[i] == points_sum(s) + val,
    decreases s.len(),
{
    if i == 0 {
        assert(s.update(0, val).drop_first() =~= s.drop_first());
    } else {
        lemma_points_sum_update(s.drop_first(), i - 1, val);
        assert(s.update(i, val).drop_first() =~= s.drop_first().update(i - 1, val));
    }
}

/// A board within the accepted dimensions has at most a hundred million
/// cells, so nine points per cell stays far below the score type's range.
pub proof fn lemma_area_bound(h: int, w: int)
    by (nonlinear_arith)
    requires
        0 <= h <= 10000,
        0 <= w <= 10000,
    ensures
        h * w <= 100000000,
{
}

/// A cell of a board with rows of width `w` has a flat index below the area.
pub proof fn lemma_dest_index_bound(yy: int, xx: int, h: int, w: int)
    by (nonlinear_arith)
    requires
        0 <= yy < h,
        0 <= xx < w,
    ensures
        0 <= yy * w + xx < h * w,
{
}

/// The transition of a legal action preserves well-formedness: the agent
/// stays on the board, cell values stay bounded, and the score accounting is
/// unchanged because the collected value merely moves from the board into
/// the score.
pub proof fn lemma_advance_wf(v: StateView, a: int)
    requires
        wf_view(v),
        !view_done(v),
        action_legal(v, a),
    ensures
        wf_view(advance_view(v, a)),
{
    let idx = dest_index(v, a);
    lemma_dest_index_bound(dest_y(v, a), dest_x(v, a), v.h as int, v.w as int);
    lemma_points_sum_update(v.points, idx, 0);
}

/// The score is monotone across any legal transition: advancing never
/// decreases the evaluation.
pub proof fn lemma_advance_monotone(v: StateView, a: int)
    requires
        wf_view(v),
        action_legal(v, a),
    ensures
        eval_view(advance_view(v, a)) >= eval_view(v),
{
}

/// Membership in the legal-action list agrees with `action_legal`, and the
/// list is strictly increasing.
pub proof fn lemma_legal_upto(v: StateView, a: int)
    requires
        0 <= a <= 4,
    ensures
        forall|k: int|
            0 <= k < legal_upto(v, a).len() ==> action_legal(
                v,
                #[trigger] legal_upto(v, a)[k] as int,
            ) && legal_upto(v, a)[k] < a,
        forall|b: int| 0 <= b < a && action_legal(v, b) ==> legal_upto(v, a).contains(b as usize),
        forall|k1: int, k2: int|
            0 <= k1 < k2 < legal_upto(v, a).len() ==> legal_upto(v, a)[k1] < legal_upto(v, a)[k2],
    decreases a,
{
    if a > 0 {
        lemma_legal_upto(v, a - 1);
        assert forall|b: int| 0 <= b < a && action_legal(v, b) implies legal_upto(v, a).contains(
            b as usize,
        ) by {
            if b < a - 1 {
                let k = choose|k: int|
                    0 <= k < legal_upto(v, a - 1).len() && #[trigger] legal_upto(v, a - 1)[k]
                        == b as usize;
                assert(legal_upto(v, a)[k] == b as usize);
            } else {
                assert(legal_upto(v, a)[legal_upto(v, a).len() - 1] == b as usize);
            }
        }
    }
}

/// A game position: board dimensions, horizon, the flat board, the turn
/// counter, the agent's coordinates, and the accumulated score.
pub struct MazeState {
    pub h: usize,
    pub w: usize,
    pub horizon: usize,
    pub points: Vec<u8>,
    pub turn: usize,
    pub y: usize,
    pub x: usize,
    pub game_score: u64,
}

impl View for MazeState {
    type V = StateView;

    open spec fn view(&self) -> StateView {
        StateView {
            h: self.h as nat,
            w: self.w as nat,
            horizon: self.horizon as nat,
            points: self.points@,
            turn: self.turn as nat,
            y: self.y as nat,
            x: self.x as nat,
            score: self.game_score as nat,
        }
    }
}

/// Copies a byte vector element by element.
pub(crate) fn copy_bytes(v: &Vec<u8>) -> (r: Vec<u8>)
    ensures
        r@ == v@,
{
    let mut out: Vec<u8> = Vec::new();
    let mut i: usize = 0;
    while i < v.len()
        invariant
            i <= v.len(),
            out@ == v@.take(i as int),
        decreases v.len() - i,
    {
        out.push(v[i]);
        assert(out@ =~= v@.take(i + 1));
        i = i + 1;
    }
    assert(v@.take(v@.len() as int) =~= v@);
    out
}

impl MazeState {
    /// Whether the position satisfies the game invariant.
    pub open spec fn wf(&self) -> bool {
        wf_view(self@)
    }

    /// Builds the initial position of an episode from plain values: board
    /// dimensions, the horizon, the agent's starting cell, and the flat
    /// row-major board.  The starting cell must hold no points, so the
    /// initial score of zero accounts exactly for what was collected so far.
    pub fn new(h: usize, w: usize, horizon: usize, y: usize, x: usize, points: Vec<u8>) -> (r: Self)
        requires
            1 <= h <= 10000,
            1 <= w <= 10000,
            y < h,
            x < w,
            points@.len() == h * w,
            forall|i: int| 0 <= i < points@.len() ==> points@[i] <= 9,
            points@[y * w + x] == 0,
        ensures
            r.wf(),
            r@ == (StateView {
                h: h as nat,
                w: w as nat,
                horizon: horizon as nat,
                points: points@,
                turn: 0,
                y: y as nat,
                x: x as nat,
                score: 0,
            }),
    {
        let r = MazeState { h, w, horizon, points, turn: 0, y, x, game_score: 0 };
        proof {
            lemma_points_sum_le(r@.points, 0);
        }
        r
    }

    /// An independent copy of the position; search branches never alias.
    pub fn duplicate(&self) -> (r: Self)
        ensures
            r@ == self@,
    {
        MazeState {
            h: self.h,
            w: self.w,
            horizon: self.horizon,
            points: copy_bytes(&self.points),
            turn: self.turn,
            y: self.y,
            x: self.x,
            game_score: self.game_score,
        }
    }

    /// Whether the episode is over: the turn counter reached the horizon.
    pub fn is_done(&self) -> (r: bool)
        ensures
            r == view_done(self@),
    {
        self.turn == self.horizon
    }

    /// The scoring policy: evaluates the position by its accumulated score.
    pub fn evaluate(&self) -> (r: u64)
        ensures
            r as nat == eval_view(self@),
    {
        self.game_score
    }

    /// All actions that keep the agent on the board, in increasing order.
    pub fn legal_actions(&self) -> (r: Vec<usize>)
        requires
            self.wf(),
        ensures
            r@ == legal_seq(self@),
    {
        let mut out: Vec<usize> = Vec::new();
        let mut a: usize = 0;
        while a < 4
            invariant
                a <= 4,
                self.wf(),
                out@ == legal_upto(self@, a as int),
            decreases 4 - a,
        {
            if self.action_is_legal(a) {
                out.push(a);
                assert(out@ =~= legal_upto(self@, a + 1));
            } else {
                assert(out@ =~= legal_upto(self@, a + 1));
            }
            a = a + 1;
        }
        out
    }

    /// Whether one action keeps the agent on the board.
    pub fn action_is_legal(&self, a: usize) -> (r: bool)
        requires
            self.wf(),
        ensures
            r == action_legal(self@, a as int),
    {
        if a == 0 {
            self.x + 1 < self.w
        } else if a == 1 {
            self.x >= 1
        } else if a == 2 {
            self.y + 1 < self.h
        } else if a == 3 {
            self.y >= 1
        } else {
            false
        }
    }

    /// Applies a legal action to a non-terminal position: moves the agent,
    /// collects the destination cell into the score, zeroes that cell, and
    /// advances the turn.
    pub fn advance(&mut self, action: usize)
        requires
            old(self).wf(),
            !view_done(old(self)@),
            action_legal(old(self)@, action as int),
        ensures
            final(self).wf(),
            final(self)@ == advance_view(old(self)@, action as int),
    {
        proof {
            lemma_advance_wf(old(self)@, action as int);
            lemma_dest_index_bound(
                dest_y(old(self)@, action as int),
                dest_x(old(self)@, action as int),
                old(self)@.h as int,
                old(self)@.w as int,
            );
        }
        if action == 0 {
            self.x = self.x + 1;
        } else if action == 1 {
            self.x = self.x - 1;
        } else if action == 2 {
            self.y = self.y + 1;
        } else {
            self.y = self.y - 1;
        }
        proof {
            lemma_dest_index_bound(self.y as int, self.x as int, self.h as int, self.w as int);
            lemma_area_bound(self.h as int, self.w as int);
        }
        let idx = self.y * self.w + self.x;
        let p = self.points[idx];
        proof {
            lemma_points_sum_ge_elem(old(self)@.points, idx as int);
        }
        self.game_score = self.game_score + p as u64;
        self.points[idx] = 0;
        self.turn = self.turn + 1;
    }
}

/// A board whose cells are all at most nine carries at most nine points per
/// cell in total.
pub proof fn lemma_points_sum_le(s: Seq<u8>, i: int)
    requires
        0 <= i <= s.len(),
        forall|k: int| 0 <= k < s.len() ==> s[k] <= 9,
    ensures
        points_sum(s) <= 9 * s.len(),
    decreases s.len(),
{
    if s.len() > 0 {
        lemma_points_sum_le(s.drop_first(), 0);
    }
}

} // verus!
