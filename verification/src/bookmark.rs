//! The bookmark record the core works on. Tags are carried as their rendered
//! text; the token set that text denotes is the record's tag set, so matching
//! is insensitive to the order or spelling the text happens to use.
use crate::tags::tag_tokens_of;
use vstd::prelude::*;

verus! {

/// One stored bookmark.
#[derive(Debug, Clone)]
pub struct Bookmark {
    /// Positive, unique, store-assigned, stable for the record's lifetime.
    pub id: i64,
    /// Non-empty.
    pub url: String,
    /// Free text, may be empty.
    pub title: String,
    /// Free text, may be empty.
    pub desc: String,
    /// Tag text, canonically rendered by the store on insert and update.
    pub tags: String,
    /// Set by the store on insert and update.
    pub last_update_ts: i64,
}

impl Bookmark {
    /// The set of tag tokens this record carries.
    pub open spec fn tag_set(&self) -> Set<Seq<char>> {
        tag_tokens_of(self.tags@)
    }

    /// Well-formed record: positive id and non-empty url.
    pub open spec fn wf(&self) -> bool {
        self.id >= 1 && self.url@.len() > 0
    }

    /// An exact copy of the record.
    pub fn duplicate(&self) -> (r: Bookmark)
        ensures
            r == *self,
    {
        Bookmark {
            id: self.id,
            url: self.url.clone(),
            title: self.title.clone(),
            desc: self.desc.clone(),
            tags: self.tags.clone(),
            last_update_ts: self.last_update_ts,
        }
    }
}

/// A record to be inserted: everything but the store-assigned fields.
#[derive(Debug)]
pub struct NewBookmark {
    pub url: String,
    pub title: String,
    pub desc: String,
    /// Raw tag text; the store normalizes it on insert.
    pub tags: String,
}

impl NewBookmark {
    pub open spec fn wf(&self) -> bool {
        self.url@.len() > 0
    }
}

/// All well-formed, as a whole result list must be.
pub open spec fn all_bm_wf(bms: Seq<Bookmark>) -> bool {
    forall|i: int| 0 <= i < bms.len() ==> (#[trigger] bms[i]).wf()
}

} // verus!
