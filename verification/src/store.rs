//! An in-memory bookmark store satisfying the store contract the core
//! consumes: lookup by id, full-text candidate queries, insert with duplicate
//! detection, update, and delete. Records keep unique positive ids and unique
//! urls; tag text is canonicalized on every write.
use crate::bookmark::{all_bm_wf, Bookmark, NewBookmark};
use crate::tags::{tag_tokens_of, TagSet};
use crate::text::{contains_seq, contains_sub, str_eq};
use vstd::prelude::*;

verus! {

/// The errors a store operation can report.
#[derive(Debug)]
pub enum StoreError {
    /// No record carries the requested id.
    NotFound,
    /// An insert or update would give two records the same url.
    DuplicateUrl,
}

/// Some record carries this id.
pub open spec fn has_id(s: Seq<Bookmark>, id: i64) -> bool {
    exists|i: int| 0 <= i < s.len() && (#[trigger] s[i]).id == id
}

/// Some record carries this url.
pub open spec fn has_url(s: Seq<Bookmark>, url: Seq<char>) -> bool {
    exists|i: int| 0 <= i < s.len() && (#[trigger] s[i]).url@ == url
}

/// The record text-matches the query when it occurs in title, description,
/// or url; the empty query matches everything.
pub open spec fn text_matches(bm: Bookmark, q: Seq<char>) -> bool {
    contains_seq(bm.title@, q) || contains_seq(bm.desc@, q) || contains_seq(bm.url@, q)
}

/// The subsequence of records that text-match the query, in store order.
pub open spec fn text_filtered(s: Seq<Bookmark>, q: Seq<char>) -> Seq<Bookmark>
    decreases s.len(),
{
    if s.len() == 0 {
        Seq::empty()
    } else {
        let rest = text_filtered(s.drop_last(), q);
        if text_matches(s.last(), q) {
            rest.push(s.last())
        } else {
            rest
        }
    }
}

/// The in-memory store.
#[derive(Debug)]
pub struct Store {
    /// The records, in insertion order.
    pub bms: Vec<Bookmark>,
    /// The id the next insert receives; ids are never reused.
    pub next_id: i64,
    /// A logical clock stamped onto every written record.
    pub clock: i64,
}

impl Store {
    /// Well-formed store: records well-formed, ids unique, positive and below
    /// `next_id`, urls unique.
    pub open spec fn wf(&self) -> bool {
        &&& all_bm_wf(self.bms@)
        &&& self.next_id >= 1
        &&& self.clock >= 0
        &&& forall|i: int|
            0 <= i < self.bms@.len() ==> (#[trigger] self.bms@[i]).id < self.next_id
        &&& forall|i: int, j: int|
            0 <= i < j < self.bms@.len() ==> (#[trigger] self.bms@[i]).id != (
            #[trigger] self.bms@[j]).id
        &&& forall|i: int, j: int|
            0 <= i < j < self.bms@.len() ==> (#[trigger] self.bms@[i]).url@ != (
            #[trigger] self.bms@[j]).url@
    }

    /// A fresh, empty store.
    pub fn new() -> (r: Store)
        ensures
            r.wf(),
            r.bms@.len() == 0,
            r.next_id == 1,
            r.clock == 0,
    {
        Store { bms: Vec::new(), next_id: 1, clock: 0 }
    }

    /// The index of the record with this id, if any.
    fn find_index(&self, id: i64) -> (r: Option<usize>)
        ensures
            match r {
                Some(i) => i < self.bms@.len() && self.bms@[i as int].id == id,
                None => !has_id(self.bms@, id),
            },
    {
        let n = self.bms.len();
        let mut i: usize = 0;
        while i < n
            invariant
                i <= n,
                n == self.bms@.len(),
                forall|k: int| 0 <= k < i ==> (#[trigger] self.bms@[k]).id != id,
            decreases n - i,
        {
            if self.bms[i].id == id {
                return Some(i);
            }
            i = i + 1;
        }
        None
    }

    /// The index of the record with this url, if any.
    fn find_url(&self, url: &str) -> (r: Option<usize>)
        ensures
            match r {
                Some(i) => i < self.bms@.len() && self.bms@[i as int].url@ == url@,
                None => !has_url(self.bms@, url@),
            },
    {
        let n = self.bms.len();
        let mut i: usize = 0;
        while i < n
            invariant
                i <= n,
                n == self.bms@.len(),
                forall|k: int| 0 <= k < i ==> (#[trigger] self.bms@[k]).url@ != url@,
            decreases n - i,
        {
            if str_eq(self.bms[i].url.as_str(), url) {
                return Some(i);
            }
            i = i + 1;
        }
        None
    }

    /// Look one record up by id; `NotFound` exactly when no record has it.
    pub fn get_by_id(&self, id: i64) -> (r: Result<Bookmark, StoreError>)
        ensures
            match r {
                Ok(bm) => has_id(self.bms@, id) && bm.id == id && self.bms@.contains(bm),
                Err(e) => e is NotFound && !has_id(self.bms@, id),
            },
    {
        match self.find_index(id) {
            Some(i) => {
                let bm = self.bms[i].duplicate();
                proof {
                    assert(self.bms@[i as int] == bm);
                }
                Ok(bm)
            },
            None => Err(StoreError::NotFound),
        }
    }

    /// The candidate list for a full-text query: every record whose title,
    /// description or url contains the query text, in store order.
    pub fn query(&self, fts: &str) -> (r: Vec<Bookmark>)
        ensures
            r@ == text_filtered(self.bms@, fts@),
    {
        let n = self.bms.len();
        let mut r: Vec<Bookmark> = Vec::new();
        let mut i: usize = 0;
        proof {
            assert(self.bms@.take(0) =~= Seq::<Bookmark>::empty());
            assert(r@ =~= text_filtered(self.bms@.take(0), fts@));
        }
        while i < n
            invariant
                i <= n,
                n == self.bms@.len(),
                r@ == text_filtered(self.bms@.take(i as int), fts@),
            decreases n - i,
        {
            let bm = &self.bms[i];
            let m = contains_sub(bm.title.as_str(), fts) || contains_sub(bm.desc.as_str(), fts)
                || contains_sub(bm.url.as_str(), fts);
            proof {
                assert(self.bms@.take(i + 1).drop_last() =~= self.bms@.take(i as int));
                assert(self.bms@.take(i + 1).last() == self.bms@[i as int]);
            }
            if m {
                let copy = self.bms[i].duplicate();
                r.push(copy);
            }
            i = i + 1;
        }
        proof {
            assert(self.bms@.take(n as int) =~= self.bms@);
        }
        r
    }

    /// Insert a new record: it receives the next id, the current clock stamp,
    /// and canonical tag text; rejected with `DuplicateUrl` exactly when a
    /// record with the same url is already stored.
    pub fn insert(&mut self, nb: NewBookmark) -> (r: Result<Bookmark, StoreError>)
        requires
            old(self).wf(),
            nb.wf(),
            old(self).next_id < i64::MAX,
            old(self).clock < i64::MAX,
        ensures
            final(self).wf(),
            match r {
                Ok(bm) => {
                    &&& !has_url(old(self).bms@, nb.url@)
                    &&& bm.id == old(self).next_id
                    &&& bm.url == nb.url
                    &&& bm.title == nb.title
                    &&& bm.desc == nb.desc
                    &&& bm.tag_set() == tag_tokens_of(nb.tags@)
                    &&& bm.last_update_ts == old(self).clock
                    &&& final(self).bms@ == old(self).bms@.push(bm)
                    &&& final(self).next_id == old(self).next_id + 1
                    &&& final(self).clock == old(self).clock + 1
                },
                Err(e) => {
                    &&& e is DuplicateUrl
                    &&& has_url(old(self).bms@, nb.url@)
                    &&& *final(self) == *old(self)
                },
            },
    {
        if self.find_url(nb.url.as_str()).is_some() {
            return Err(StoreError::DuplicateUrl);
        }
        let ts = TagSet::normalize(nb.tags.as_str());
        let canonical = ts.render();
        proof {
            crate::tags::lemma_render_round_trip(ts.toks());
        }
        let bm = Bookmark {
            id: self.next_id,
            url: nb.url,
            title: nb.title,
            desc: nb.desc,
            tags: canonical,
            last_update_ts: self.clock,
        };
        let copy = bm.duplicate();
        self.bms.push(bm);
        self.next_id = self.next_id + 1;
        self.clock = self.clock + 1;
        Ok(copy)
    }

    /// Replace the record with `bm.id`'s user-editable fields: url, title,
    /// description and tags (canonicalized); the store re-stamps the clock.
    /// `NotFound` exactly when the id is absent; `DuplicateUrl` when the new
    /// url belongs to a different record.
    pub fn update(&mut self, bm: Bookmark) -> (r: Result<(), StoreError>)
        requires
            old(self).wf(),
            bm.wf(),
            old(self).clock < i64::MAX,
        ensures
            final(self).wf(),
            match r {
                Ok(_) => {
                    &&& has_id(old(self).bms@, bm.id)
                    &&& exists|i: int|
                        {
                            &&& 0 <= i < old(self).bms@.len()
                            &&& (#[trigger] old(self).bms@[i]).id == bm.id
                            &&& final(self).bms@.len() == old(self).bms@.len()
                            &&& final(self).bms@[i].id == bm.id
                            &&& final(self).bms@[i].url == bm.url
                            &&& final(self).bms@[i].title == bm.title
                            &&& final(self).bms@[i].desc == bm.desc
                            &&& final(self).bms@[i].tag_set() == tag_tokens_of(bm.tags@)
                            &&& final(self).bms@[i].last_update_ts == old(self).clock
                            &&& forall|k: int|
                                0 <= k < old(self).bms@.len() && k != i
                                    ==> final(self).bms@[k] == old(self).bms@[k]
                        }
                    &&& final(self).clock == old(self).clock + 1
                },
                Err(e) => {
                    &&& *final(self) == *old(self)
                    &&& (e is NotFound ==> !has_id(old(self).bms@, bm.id))
                    &&& (e is DuplicateUrl ==> exists|k: int|
                        0 <= k < old(self).bms@.len() && (#[trigger] old(self).bms@[k]).url@
                            == bm.url@ && old(self).bms@[k].id != bm.id)
                },
            },
    {
        let idx = match self.find_index(bm.id) {
            Some(i) => i,
            None => {
                return Err(StoreError::NotFound);
            },
        };
        match self.find_url(bm.url.as_str()) {
            Some(k) => {
                if self.bms[k].id != bm.id {
                    return Err(StoreError::DuplicateUrl);
                }
            },
            None => {},
        }
        let ts = TagSet::normalize(bm.tags.as_str());
        let canonical = ts.render();
        proof {
            crate::tags::lemma_render_round_trip(ts.toks());
        }
        let updated = Bookmark {
            id: bm.id,
            url: bm.url,
            title: bm.title,
            desc: bm.desc,
            tags: canonical,
            last_update_ts: self.clock,
        };
        self.bms.set(idx, updated);
        self.clock = self.clock + 1;
        proof {
            let i = idx as int;
            assert(final(self).bms@[i].tag_set() == tag_tokens_of(bm.tags@));
            assert forall|i2: int, j2: int|
                0 <= i2 < j2 < self.bms@.len() implies (#[trigger] self.bms@[i2]).url@ != (
            #[trigger] self.bms@[j2]).url@ by {
                if i2 != i && j2 != i {
                    assert(self.bms@[i2] == old(self).bms@[i2]);
                }
            }
        }
        Ok(())
    }

    /// Remove the record with this id; the other records keep their order,
    /// identities and contents. `NotFound` exactly when the id is absent.
    pub fn delete(&mut self, id: i64) -> (r: Result<(), StoreError>)
        requires
            old(self).wf(),
        ensures
            final(self).wf(),
            match r {
                Ok(_) => {
                    &&& has_id(old(self).bms@, id)
                    &&& exists|i: int|
                        {
                            &&& 0 <= i < old(self).bms@.len()
                            &&& (#[trigger] old(self).bms@[i]).id == id
                            &&& final(self).bms@ == old(self).bms@.remove(i)
                        }
                    &&& final(self).next_id == old(self).next_id
                },
                Err(e) => {
                    &&& e is NotFound
                    &&& !has_id(old(self).bms@, id)
                    &&& *final(self) == *old(self)
                },
            },
    {
        match self.find_index(id) {
            Some(i) => {
                self.bms.remove(i);
                proof {
                    assert forall|i2: int, j2: int|
                        0 <= i2 < j2 < self.bms@.len() implies (#[trigger] self.bms@[i2]).id != (
                    #[trigger] self.bms@[j2]).id && self.bms@[i2].url@ != self.bms@[j2].url@ by {
                        let a = if i2 < i { i2 } else { i2 + 1 };
                        let b = if j2 < i { j2 } else { j2 + 1 };
                        assert(self.bms@[i2] == old(self).bms@[a]);
                        assert(self.bms@[j2] == old(self).bms@[b]);
                    }
                }
                Ok(())
            },
            None => Err(StoreError::NotFound),
        }
    }

    /// Every tag in use, with the number of records carrying it.
    pub fn all_tags(&self) -> (r: Vec<TagCount>)
        ensures
            tag_census(r@, self.bms@),
    {
        count_tags(&self.bms)
    }

    /// The tags co-occurring with the given tag, with the number of records
    /// carrying both; counted over exactly the records that carry the tag.
    pub fn related_tags(&self, tag: &str) -> (r: Vec<TagCount>)
        ensures
            tag_census(r@, with_tag(self.bms@, tag@)),
    {
        let n = self.bms.len();
        let mut kept: Vec<Bookmark> = Vec::new();
        let mut i: usize = 0;
        proof {
            assert(self.bms@.take(0) =~= Seq::<Bookmark>::empty());
            assert(kept@ =~= with_tag(self.bms@.take(0), tag@));
        }
        while i < n
            invariant
                i <= n,
                n == self.bms@.len(),
                kept@ == with_tag(self.bms@.take(i as int), tag@),
            decreases n - i,
        {
            let ts = TagSet::normalize(self.bms[i].tags.as_str());
            proof {
                assert(self.bms@.take(i + 1).drop_last() =~= self.bms@.take(i as int));
                assert(self.bms@.take(i + 1).last() == self.bms@[i as int]);
                assert(ts@ == self.bms@[i as int].tag_set());
            }
            if ts.has_tag(tag) {
                kept.push(self.bms[i].duplicate());
            }
            i = i + 1;
        }
        proof {
            assert(self.bms@.take(n as int) =~= self.bms@);
        }
        count_tags(&kept)
    }
}

/// One tag with the number of records carrying it.
#[derive(Debug)]
pub struct TagCount {
    pub tag: String,
    pub n: u64,
}

/// How many of the records carry this tag.
pub open spec fn tag_count(bms: Seq<Bookmark>, t: Seq<char>) -> int
    decreases bms.len(),
{
    if bms.len() == 0 {
        0
    } else {
        tag_count(bms.drop_last(), t) + if bms.last().tag_set().contains(t) {
            1int
        } else {
            0int
        }
    }
}

/// The records carrying this tag, in store order.
pub open spec fn with_tag(bms: Seq<Bookmark>, t: Seq<char>) -> Seq<Bookmark>
    decreases bms.len(),
{
    if bms.len() == 0 {
        Seq::empty()
    } else {
        let rest = with_tag(bms.drop_last(), t);
        if bms.last().tag_set().contains(t) {
            rest.push(bms.last())
        } else {
            rest
        }
    }
}

/// Some listed entry carries this tag name.
pub open spec fn has_key(r: Seq<TagCount>, t: Seq<char>) -> bool {
    exists|i: int| 0 <= i < r.len() && (#[trigger] r[i]).tag@ == t
}

/// An exact census: the listed tags are pairwise distinct, each carries its
/// true count, and every tag some record carries is listed.
pub open spec fn tag_census(r: Seq<TagCount>, bms: Seq<Bookmark>) -> bool {
    &&& forall|i: int, j: int| 0 <= i < j < r.len() ==> (#[trigger] r[i]).tag@ != (
    #[trigger] r[j]).tag@
    &&& forall|i: int| 0 <= i < r.len() ==> (#[trigger] r[i]).n == tag_count(bms, r[i].tag@)
    &&& forall|i: int| 0 <= i < r.len() ==> (#[trigger] r[i]).n > 0
    &&& forall|t: Seq<char>| tag_count(bms, t) > 0 ==> #[trigger] has_key(r, t)
}

proof fn lemma_tag_count_bound(bms: Seq<Bookmark>, t: Seq<char>)
    ensures
        0 <= tag_count(bms, t) <= bms.len(),
    decreases bms.len(),
{
    if bms.len() > 0 {
        lemma_tag_count_bound(bms.drop_last(), t);
    }
}

fn find_tag_index(counts: &Vec<TagCount>, t: &str) -> (r: Option<usize>)
    ensures
        match r {
            Some(i) => i < counts@.len() && counts@[i as int].tag@ == t@,
            None => forall|i: int| 0 <= i < counts@.len() ==> (#[trigger] counts@[i]).tag@ != t@,
        },
{
    let n = counts.len();
    let mut i: usize = 0;
    while i < n
        invariant
            i <= n,
            n == counts@.len(),
            forall|k: int| 0 <= k < i ==> (#[trigger] counts@[k]).tag@ != t@,
        decreases n - i,
    {
        if str_eq(counts[i].tag.as_str(), t) {
            return Some(i);
        }
        i = i + 1;
    }
    None
}

/// Count every tag over a record list.
fn count_tags(bms: &Vec<Bookmark>) -> (r: Vec<TagCount>)
    ensures
        tag_census(r@, bms@),
{
    let n = bms.len();
    let mut counts: Vec<TagCount> = Vec::new();
    let mut i: usize = 0;
    proof {
        assert(bms@.take(0) =~= Seq::<Bookmark>::empty());
    }
    while i < n
        invariant
            i <= n,
            n == bms@.len(),
            tag_census(counts@, bms@.take(i as int)),
        decreases n - i,
    {
        let ts = TagSet::normalize(bms[i].tags.as_str());
        let ghost prefix = bms@.take(i as int);
        let ghost full = bms@.take(i + 1);
        proof {
            assert(full.drop_last() =~= prefix);
            assert(full.last() == bms@[i as int]);
            assert(ts@ == bms@[i as int].tag_set());
        }
        let m = ts.tokens.len();
        let mut j: usize = 0;
        while j < m
            invariant
                j <= m,
                m == ts.tokens@.len(),
                ts.wf(),
                ts@ == bms@[i as int].tag_set(),
                i < n,
                n == bms@.len(),
                prefix == bms@.take(i as int),
                full == bms@.take(i + 1),
                full.drop_last() == prefix,
                full.last() == bms@[i as int],
                forall|a: int, b: int|
                    0 <= a < b < counts@.len() ==> (#[trigger] counts@[a]).tag@ != (
                    #[trigger] counts@[b]).tag@,
                forall|a: int|
                    0 <= a < counts@.len() ==> (#[trigger] counts@[a]).n == tag_count(
                        prefix,
                        counts@[a].tag@,
                    ) + (if ts.toks().take(j as int).contains(counts@[a].tag@) {
                        1int
                    } else {
                        0int
                    }),
                forall|a: int| 0 <= a < counts@.len() ==> (#[trigger] counts@[a]).n > 0,
                forall|t: Seq<char>|
                    tag_count(prefix, t) > 0 || ts.toks().take(j as int).contains(t)
                        ==> #[trigger] has_key(counts@, t),
            decreases m - j,
        {
            let tok = ts.tokens[j].as_str();
            proof {
                assert(ts.toks()[j as int] == ts.tokens@[j as int]@);
                assert(ts.toks().take(j + 1).drop_last() =~= ts.toks().take(j as int));
                assert(ts.toks().take(j + 1).last() == ts.toks()[j as int]);
                assert(forall|t: Seq<char>|
                    ts.toks().take(j + 1).contains(t) <==> ts.toks().take(j as int).contains(t)
                        || t == ts.toks()[j as int]) by {
                    assert forall|t: Seq<char>| ts.toks().take(j + 1).contains(t) implies ts.toks()
                        .take(j as int).contains(t) || t == ts.toks()[j as int] by {
                        let k = choose|k: int|
                            0 <= k < j + 1 && #[trigger] ts.toks().take(j + 1)[k] == t;
                        if k < j {
                            assert(ts.toks().take(j as int)[k] == t);
                        }
                    }
                    assert forall|t: Seq<char>|
                        ts.toks().take(j as int).contains(t) || t == ts.toks()[
                        j as int] implies ts.toks().take(j + 1).contains(t) by {
                        if ts.toks().take(j as int).contains(t) {
                            let k = choose|k: int|
                                0 <= k < j && #[trigger] ts.toks().take(j as int)[k] == t;
                            assert(ts.toks().take(j + 1)[k] == t);
                        } else {
                            assert(ts.toks().take(j + 1)[j as int] == t);
                        }
                    }
                }
                // The current token was not seen earlier in this record:
                // canonical tag sets hold each token once.
                assert(!ts.toks().take(j as int).contains(ts.toks()[j as int])) by {
                    if ts.toks().take(j as int).contains(ts.toks()[j as int]) {
                        let k = choose|k: int|
                            0 <= k < j && ts.toks().take(j as int)[k] == ts.toks()[j as int];
                        assert(crate::text::lex_lt(ts.toks()[k], ts.toks()[j as int]));
                        assert(false);
                    }
                }
            }
            match find_tag_index(&counts, tok) {
                Some(f) => {
                    let old_n = counts[f].n;
                    proof {
                        lemma_tag_count_bound(prefix, ts.toks()[j as int]);
                    }
                    let entry = TagCount { tag: counts[f].tag.clone(), n: old_n + 1 };
                    let ghost oldc = counts@;
                    counts.set(f, entry);
                    proof {
                        assert(counts@ == oldc.update(f as int, entry));
                        assert(forall|a: int|
                            0 <= a < oldc.len() ==> (#[trigger] counts@[a]).tag@
                                == oldc[a].tag@);
                        assert forall|t: Seq<char>|
                            tag_count(prefix, t) > 0 || ts.toks().take(j + 1).contains(
                                t,
                            ) implies #[trigger] has_key(counts@, t) by {
                            if t == ts.toks()[j as int] {
                                assert(counts@[f as int].tag@ == t);
                            } else {
                                assert(ts.toks().take(j + 1).contains(t) ==> ts.toks().take(
                                    j as int,
                                ).contains(t));
                                assert(has_key(oldc, t));
                                let a = choose|a: int|
                                    0 <= a < oldc.len() && (#[trigger] oldc[a]).tag@ == t;
                                assert(counts@[a].tag@ == t);
                            }
                        }
                    }
                },
                None => {
                    let entry = TagCount { tag: tok.to_owned(), n: 1 };
                    proof {
                        lemma_tag_count_bound(prefix, ts.toks()[j as int]);
                        assert(tag_count(prefix, ts.toks()[j as int]) == 0) by {
                            lemma_tag_count_bound(prefix, ts.toks()[j as int]);
                            if tag_count(prefix, ts.toks()[j as int]) > 0 {
                                assert(has_key(counts@, ts.toks()[j as int]));
                                let a = choose|a: int|
                                    0 <= a < counts@.len() && (#[trigger] counts@[a]).tag@
                                        == ts.toks()[j as int];
                                assert(false);
                            }
                        }
                    }
                    let ghost oldc = counts@;
                    counts.push(entry);
                    proof {
                        assert(counts@ == oldc.push(entry));
                        assert(forall|a: int|
                            0 <= a < oldc.len() ==> (#[trigger] counts@[a]).tag@
                                == oldc[a].tag@);
                        assert(counts@[oldc.len() as int].tag@ == ts.toks()[j as int]);
                        assert forall|t: Seq<char>|
                            tag_count(prefix, t) > 0 || ts.toks().take(j + 1).contains(
                                t,
                            ) implies #[trigger] has_key(counts@, t) by {
                            if t == ts.toks()[j as int] {
                                assert(counts@[oldc.len() as int].tag@ == t);
                            } else {
                                assert(ts.toks().take(j + 1).contains(t) ==> ts.toks().take(
                                    j as int,
                                ).contains(t));
                                assert(has_key(oldc, t));
                                let a = choose|a: int|
                                    0 <= a < oldc.len() && (#[trigger] oldc[a]).tag@ == t;
                                assert(counts@[a].tag@ == t);
                            }
                        }
                    }
                },
            }
            j = j + 1;
        }
        proof {
            assert(ts.toks().take(m as int) =~= ts.toks());
            assert(forall|t: Seq<char>| ts.toks().contains(t) <==> ts@.contains(t));
            assert forall|t: Seq<char>| #![auto] tag_count(full, t) == tag_count(prefix, t) + (
            if ts@.contains(t) {
                1int
            } else {
                0int
            }) by {
                assert(full.drop_last() == prefix && full.last() == bms@[i as int]);
            }
            assert forall|t: Seq<char>| tag_count(full, t) > 0 implies #[trigger] has_key(
                counts@,
                t,
            ) by {
                assert(tag_count(prefix, t) > 0 || ts.toks().take(m as int).contains(t));
            }
        }
        i = i + 1;
    }
    proof {
        assert(bms@.take(n as int) =~= bms@);
    }
    counts
}

} // verus!
