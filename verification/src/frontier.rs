//! The frontier: an ordered container of scored candidate states supporting
//! insert, peek-maximum, pop-maximum and emptiness, used as a bounded beam
//! and as the per-depth levels of the iterative search.
//!
//! Entries are kept in insertion order and the maximum is extracted by scan.
//! Ties on the evaluated score are broken deterministically in favour of the
//! earliest-inserted entry.

use vstd::prelude::*;
use crate::state::{MazeState, StateView};

verus! {

/// Mathematical snapshot of a frontier entry.
pub ghost struct ScoredView {
    pub state: StateView,
    pub score: nat,
    pub first: Option<usize>,
}

/// A candidate state together with its cached evaluated score and the tag
/// recording which root-level action originated its search branch (`None`
/// until the branch leaves the root).
pub struct ScoredState {
    pub state: MazeState,
    pub score: u64,
    pub first_action: Option<usize>,
}

impl View for ScoredState {
    type V = ScoredView;

    open spec fn view(&self) -> ScoredView {
        ScoredView { state: self.state@, score: self.score as nat, first: self.first_action }
    }
}

impl ScoredState {
    /// An independent copy of the entry.
    pub fn duplicate(&self) -> (r: Self)
        ensures
            r@ == self@,
    {
        ScoredState {
            state: self.state.duplicate(),
            score: self.score,
            first_action: self.first_action,
        }
    }
}

/// `i` is the position of the maximum-score entry, earliest first on ties.
pub open spec fn best_at(s: Seq<ScoredView>, i: int) -> bool {
    &&& 0 <= i < s.len()
    &&& forall|j: int| 0 <= j < s.len() ==> s[j].score <= s[i].score
    &&& forall|j: int| 0 <= j < i ==> s[j].score < s[i].score
}

/// The position of the maximum-score entry, earliest first on ties.
pub open spec fn best_idx(s: Seq<ScoredView>) -> int {
    choose|i: int| best_at(s, i)
}

/// Every non-empty sequence of entries has a best position.
pub proof fn lemma_best_exists(s: Seq<ScoredView>)
    requires
        s.len() > 0,
    ensures
        best_at(s, best_idx(s)),
    decreases s.len(),
{
    if s.len() == 1 {
        assert(best_at(s, 0));
    } else {
        let t = s.drop_last();
        lemma_best_exists(t);
        let b = best_idx(t);
        assert(forall|j: int| 0 <= j < t.len() ==> t[j] == s[j]);
        if s.last().score > s[b].score {
            assert forall|j: int| 0 <= j < s.len() - 1 implies s[j].score < s.last().score by {
                assert(t[j].score <= t[b].score);
            }
            assert(best_at(s, s.len() - 1));
        } else {
            assert forall|j: int| 0 <= j < s.len() implies s[j].score <= s[b].score by {
                if j < s.len() - 1 {
                    assert(t[j].score <= t[b].score);
                }
            }
            assert(best_at(s, b));
        }
    }
}

/// The best position is unique, so any position satisfying `best_at` is the
/// best position.
pub proof fn lemma_best_unique(s: Seq<ScoredView>, i: int)
    requires
        best_at(s, i),
    ensures
        i == best_idx(s),
{
    lemma_best_exists(s);
    let b = best_idx(s);
    if i < b {
        assert(s[i].score < s[b].score);
        assert(s[b].score <= s[i].score);
    } else if b < i {
        assert(s[b].score < s[i].score);
        assert(s[i].score <= s[b].score);
    }
}

/// An ordered container of scored states; insertion order is kept and the
/// maximum-score entry (earliest on ties) can be inspected or removed.
pub struct Frontier {
    pub items: Vec<ScoredState>,
}

impl View for Frontier {
    type V = Seq<ScoredView>;

    open spec fn view(&self) -> Seq<ScoredView> {
        self.items@.map_values(|sc: ScoredState| sc@)
    }
}

impl Frontier {
    /// An empty frontier.
    pub fn new() -> (r: Self)
        ensures
            r@ =~= Seq::<ScoredView>::empty(),
    {
        Frontier { items: Vec::new() }
    }

    /// The number of entries.
    pub fn len(&self) -> (r: usize)
        ensures
            r == self@.len(),
    {
        self.items.len()
    }

    /// Whether the frontier holds no entry.
    pub fn is_empty(&self) -> (r: bool)
        ensures
            r == (self@.len() == 0),
    {
        self.items.len() == 0
    }

    /// Inserts an entry at the end of the insertion order.
    pub fn push(&mut self, sc: ScoredState)
        ensures
            final(self)@ =~= old(self)@.push(sc@),
    {
        self.items.push(sc);
    }

    /// Position of the maximum-score entry, earliest first on ties.
    fn best_position(&self) -> (r: usize)
        requires
            self@.len() > 0,
        ensures
            best_at(self@, r as int),
            r as int == best_idx(self@),
    {
        let mut best: usize = 0;
        let mut i: usize = 1;
        while i < self.items.len()
            invariant
                best < i <= self.items.len(),
                self.items.len() == self@.len(),
                forall|j: int| 0 <= j < i ==> self@[j].score <= self@[best as int].score,
                forall|j: int| 0 <= j < best ==> self@[j].score < self@[best as int].score,
            decreases self.items.len() - i,
        {
            if self.items[i].score > self.items[best].score {
                best = i;
            }
            i = i + 1;
        }
        proof {
            lemma_best_unique(self@, best as int);
        }
        best
    }

    /// The maximum-score entry, earliest first on ties, left in place.
    pub fn peek_best(&self) -> (r: &ScoredState)
        requires
            self@.len() > 0,
        ensures
            r@ == self@[best_idx(self@)],
    {
        let b = self.best_position();
        &self.items[b]
    }

    /// Removes and returns the maximum-score entry, earliest first on ties.
    pub fn pop_best(&mut self) -> (r: ScoredState)
        requires
            old(self)@.len() > 0,
        ensures
            r@ == old(self)@[best_idx(old(self)@)],
            final(self)@ =~= old(self)@.remove(best_idx(old(self)@)),
    {
        let b = self.best_position();
        let r = self.items.remove(b);
        proof {
            assert(final(self)@ =~= old(self)@.remove(b as int));
        }
        r
    }

    /// An independent copy of the frontier, entry by entry.
    pub fn duplicate(&self) -> (r: Self)
        ensures
            r@ =~= self@,
    {
        let mut items: Vec<ScoredState> = Vec::new();
        let mut i: usize = 0;
        while i < self.items.len()
            invariant
                i <= self.items.len(),
                items@.len() == i,
                forall|j: int| 0 <= j < i ==> items@[j]@ == #[trigger] self.items@[j]@,
            decreases self.items.len() - i,
        {
            items.push(self.items[i].duplicate());
            i = i + 1;
        }
        let r = Frontier { items };
        proof {
            assert(r@ =~= self@);
        }
        r
    }
}

} // verus!
