//! Ordinal selection over one ephemeral result list. Ordinals are 1-indexed
//! positions in that list and have no relation to bookmark ids; anything
//! outside `1..=N` is an error, never silently skipped.
use crate::bookmark::Bookmark;
use vstd::prelude::*;

verus! {

/// Failure of ordinal resolution.
#[derive(Debug)]
pub enum SelectError {
    /// The ordinal lies outside `1..=N` for the current list of length N.
    OutOfRange,
}

/// One search result list, wrapped for ordinal resolution.
pub struct SelectionSession {
    /// The ordered result list this session resolves against.
    pub bms: Vec<Bookmark>,
}

impl SelectionSession {
    /// Wrap a result list.
    pub fn new(bms: Vec<Bookmark>) -> (r: SelectionSession)
        ensures
            r.bms@ == bms@,
    {
        SelectionSession { bms }
    }

    /// The number of results.
    pub fn len(&self) -> (n: usize)
        ensures
            n == self.bms@.len(),
    {
        self.bms.len()
    }

    /// Resolve one 1-indexed ordinal to its record: ordinal `k` yields the
    /// `k`-th element of this specific list, and anything outside `1..=N`
    /// is `OutOfRange`.
    pub fn resolve(&self, ordinal: u64) -> (r: Result<Bookmark, SelectError>)
        ensures
            match r {
                Ok(bm) => 1 <= ordinal <= self.bms@.len() && bm == self.bms@[ordinal - 1],
                Err(e) => e is OutOfRange && (ordinal < 1 || ordinal > self.bms@.len()),
            },
    {
        let n = self.bms.len();
        if ordinal < 1 || ordinal > n as u64 {
            return Err(SelectError::OutOfRange);
        }
        let i = (ordinal - 1) as usize;
        Ok(self.bms[i].duplicate())
    }

    /// Resolve a list of ordinals independently, left to right, returning
    /// the records in the order given; the first out-of-range ordinal aborts
    /// the remaining resolution and is reported.
    pub fn resolve_many(&self, ordinals: &Vec<u64>) -> (r: Result<Vec<Bookmark>, SelectError>)
        ensures
            match r {
                Ok(v) => {
                    &&& v@.len() == ordinals@.len()
                    &&& forall|k: int|
                        0 <= k < ordinals@.len() ==> 1 <= #[trigger] ordinals@[k]
                            <= self.bms@.len()
                    &&& forall|k: int|
                        0 <= k < ordinals@.len() ==> #[trigger] v@[k] == self.bms@[
                        ordinals@[k] - 1]
                },
                Err(e) => {
                    &&& e is OutOfRange
                    &&& exists|k: int|
                        {
                            &&& 0 <= k < ordinals@.len()
                            &&& ((#[trigger] ordinals@[k]) < 1 || ordinals@[k]
                                > self.bms@.len())
                            &&& forall|j: int|
                                0 <= j < k ==> 1 <= #[trigger] ordinals@[j]
                                    <= self.bms@.len()
                        }
                },
            },
    {
        let m = ordinals.len();
        let mut v: Vec<Bookmark> = Vec::new();
        let mut k: usize = 0;
        while k < m
            invariant
                k <= m,
                m == ordinals@.len(),
                v@.len() == k,
                forall|j: int| 0 <= j < k ==> 1 <= #[trigger] ordinals@[j] <= self.bms@.len(),
                forall|j: int| 0 <= j < k ==> #[trigger] v@[j] == self.bms@[ordinals@[j] - 1],
            decreases m - k,
        {
            match self.resolve(ordinals[k]) {
                Ok(bm) => {
                    v.push(bm);
                },
                Err(e) => {
                    return Err(e);
                },
            }
            k = k + 1;
        }
        Ok(v)
    }
}

} // verus!
