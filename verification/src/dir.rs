//! A directory entry and its score.

use vstd::prelude::*;

use crate::rank::{Rank, FOUR, HALF, QUARTER, TWO};
use crate::sort::Ordered;
use crate::text::{lemma_text_leq_order, text_leq, text_not_after};

verus! {

/// Seconds since the epoch.
pub type Epoch = u64;

pub const HOUR: Epoch = 3600;

pub const DAY: Epoch = 86400;

pub const WEEK: Epoch = 604800;

/// An entry of the database.
#[derive(Debug)]
pub struct Dir {
    pub path: String,
    pub rank: Rank,
    pub last_accessed: Epoch,
}

/// What an entry says.
pub struct DirView {
    pub path: Seq<char>,
    pub rank: Rank,
    pub last_accessed: Epoch,
}

impl View for Dir {
    type V = DirView;

    open spec fn view(&self) -> DirView {
        DirView { path: self.path@, rank: self.rank, last_accessed: self.last_accessed }
    }
}

impl DirView {
    /// The factor that an access `age` seconds ago gives the rank.
    pub open spec fn recency(age: int) -> Rank {
        Rank {
            bits: if age < HOUR {
                FOUR
            } else if age < DAY {
                TWO
            } else if age < WEEK {
                HALF
            } else {
                QUARTER
            },
        }
    }

    /// The rank, weighted by how recently the directory was accessed. An
    /// access in the future counts as one now.
    pub open spec fn score(self, now: Epoch) -> Rank {
        let age = if now >= self.last_accessed {
            now - self.last_accessed
        } else {
            0
        };
        self.rank.product(DirView::recency(age))
    }
}

impl Dir {
    /// The rank, weighted by how recently the directory was accessed.
    pub fn score(&self, now: Epoch) -> (score: Rank)
        ensures
            score == self@.score(now),
    {
        let age: Epoch = if now >= self.last_accessed {
            now - self.last_accessed
        } else {
            0
        };
        let recency = if age < HOUR {
            FOUR
        } else if age < DAY {
            TWO
        } else if age < WEEK {
            HALF
        } else {
            QUARTER
        };
        self.rank.times(Rank::from_bits(recency))
    }
}

/// Entries are sorted by path.
impl Ordered for Dir {
    open spec fn leq(a: DirView, b: DirView) -> bool {
        text_leq(a.path, b.path)
    }

    proof fn leq_is_total_preorder() {
        lemma_text_leq_order();
        assert forall|a: DirView, b: DirView| #[trigger] Self::leq(a, b) || Self::leq(b, a) by {
            assert(text_leq(a.path, b.path) || text_leq(b.path, a.path));
        }
    }

    fn not_after(&self, other: &Self) -> (leq: bool) {
        text_not_after(self.path.as_str(), other.path.as_str())
    }
}

/// An entry with its score.
pub(crate) struct Scored {
    pub score: Rank,
    pub dir: Dir,
}

impl View for Scored {
    type V = (Rank, DirView);

    open(crate) spec fn view(&self) -> (Rank, DirView) {
        (self.score, self.dir@)
    }
}

impl Ordered for Scored {
    open(crate) spec fn leq(a: (Rank, DirView), b: (Rank, DirView)) -> bool {
        a.0.total_position() <= b.0.total_position()
    }

    proof fn leq_is_total_preorder() {
    }

    fn not_after(&self, other: &Self) -> (leq: bool) {
        self.score.total_not_after(other.score)
    }
}

} // verus!
