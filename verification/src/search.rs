//! The search engine: it asks the store for the full-text candidate list,
//! applies the tag predicate over it, and sorts under the selected policy.
//! A record is in the result exactly when it is stored, text-matches, and
//! passes the filter.
use crate::bookmark::Bookmark;
use crate::filter::{spec_matches, TagFilter};
use crate::sort::{sort_bookmarks, spec_sort, SortOrder};
use crate::store::{text_filtered, text_matches, Store};
use crate::tags::TagSet;
use vstd::prelude::*;
use vstd::seq_lib::group_to_multiset_ensures;

verus! {

/// The subsequence of candidates whose tag sets pass the filter, in order.
pub open spec fn tag_filtered(s: Seq<Bookmark>, f: TagFilter) -> Seq<Bookmark>
    decreases s.len(),
{
    if s.len() == 0 {
        Seq::empty()
    } else {
        let rest = tag_filtered(s.drop_last(), f);
        if spec_matches(s.last().tag_set(), f) {
            rest.push(s.last())
        } else {
            rest
        }
    }
}

/// The full result a search denotes: text match, then tag filter, then the
/// stable sort.
pub open spec fn search_result(
    bms: Seq<Bookmark>,
    q: Seq<char>,
    f: TagFilter,
    o: SortOrder,
) -> Seq<Bookmark> {
    spec_sort(o, tag_filtered(text_filtered(bms, q), f))
}

/// Run one query against the store: the result is exactly the stable sort of
/// the records that pass both the text match and the tag filter.
pub fn search(store: &Store, fts: &str, f: &TagFilter, o: &SortOrder) -> (r: Vec<Bookmark>)
    requires
        f.wf(),
    ensures
        r@ == search_result(store.bms@, fts@, *f, *o),
{
    let candidates = store.query(fts);
    let n = candidates.len();
    let mut kept: Vec<Bookmark> = Vec::new();
    let mut i: usize = 0;
    proof {
        assert(candidates@.take(0) =~= Seq::<Bookmark>::empty());
        assert(kept@ =~= tag_filtered(candidates@.take(0), *f));
    }
    while i < n
        invariant
            i <= n,
            n == candidates@.len(),
            f.wf(),
            kept@ == tag_filtered(candidates@.take(i as int), *f),
        decreases n - i,
    {
        let ts = TagSet::normalize(candidates[i].tags.as_str());
        proof {
            assert(candidates@.take(i + 1).drop_last() =~= candidates@.take(i as int));
            assert(candidates@.take(i + 1).last() == candidates@[i as int]);
            assert(ts@ == candidates@[i as int].tag_set());
        }
        if f.matches(&ts) {
            kept.push(candidates[i].duplicate());
        }
        i = i + 1;
    }
    proof {
        assert(candidates@.take(n as int) =~= candidates@);
    }
    sort_bookmarks(o, kept)
}

proof fn lemma_text_filtered_membership(s: Seq<Bookmark>, q: Seq<char>, b: Bookmark)
    ensures
        text_filtered(s, q).contains(b) <==> s.contains(b) && text_matches(b, q),
    decreases s.len(),
{
    if s.len() > 0 {
        lemma_text_filtered_membership(s.drop_last(), q, b);
        let rest = text_filtered(s.drop_last(), q);
        if text_matches(s.last(), q) {
            assert forall|k: int| 0 <= k < rest.len() implies #[trigger] rest.push(s.last())[k]
                == rest[k] by {}
            assert(rest.push(s.last())[rest.len() as int] == s.last());
            if rest.push(s.last()).contains(b) {
                let k = choose|k: int|
                    0 <= k < rest.len() + 1 && rest.push(s.last())[k] == b;
                if k < rest.len() {
                    assert(rest.contains(b));
                }
            }
            if rest.contains(b) {
                let k = choose|k: int| 0 <= k < rest.len() && rest[k] == b;
                assert(rest.push(s.last())[k] == b);
            }
        }
        if s.drop_last().contains(b) {
            let k = choose|k: int| 0 <= k < s.len() - 1 && s.drop_last()[k] == b;
            assert(s[k] == b);
        }
        if s.contains(b) && b != s.last() {
            let k = choose|k: int| 0 <= k < s.len() && s[k] == b;
            assert(s.drop_last()[k] == b);
        }
    }
}

proof fn lemma_tag_filtered_membership(s: Seq<Bookmark>, f: TagFilter, b: Bookmark)
    ensures
        tag_filtered(s, f).contains(b) <==> s.contains(b) && spec_matches(b.tag_set(), f),
    decreases s.len(),
{
    if s.len() > 0 {
        lemma_tag_filtered_membership(s.drop_last(), f, b);
        let rest = tag_filtered(s.drop_last(), f);
        if spec_matches(s.last().tag_set(), f) {
            assert(rest.push(s.last())[rest.len() as int] == s.last());
            if rest.push(s.last()).contains(b) {
                let k = choose|k: int|
                    0 <= k < rest.len() + 1 && rest.push(s.last())[k] == b;
                if k < rest.len() {
                    assert(rest.contains(b));
                }
            }
            if rest.contains(b) {
                let k = choose|k: int| 0 <= k < rest.len() && rest[k] == b;
                assert(rest.push(s.last())[k] == b);
            }
        }
        if s.drop_last().contains(b) {
            let k = choose|k: int| 0 <= k < s.len() - 1 && s.drop_last()[k] == b;
            assert(s[k] == b);
        }
        if s.contains(b) && b != s.last() {
            let k = choose|k: int| 0 <= k < s.len() && s[k] == b;
            assert(s.drop_last()[k] == b);
        }
    }
}

/// Law: a record appears in a search result if and only if it is stored,
/// its text matches the query, and its tag set passes the filter — the text
/// match and the tag predicate combine by logical AND.
pub proof fn lemma_search_membership(
    bms: Seq<Bookmark>,
    q: Seq<char>,
    f: TagFilter,
    o: SortOrder,
    b: Bookmark,
)
    ensures
        search_result(bms, q, f, o).contains(b) <==> (bms.contains(b) && text_matches(b, q)
            && spec_matches(b.tag_set(), f)),
{
    broadcast use group_to_multiset_ensures;

    let filtered = tag_filtered(text_filtered(bms, q), f);
    crate::sort::lemma_spec_sort_props(o, filtered);
    assert(search_result(bms, q, f, o).contains(b) <==> filtered.contains(b)) by {
        assert(search_result(bms, q, f, o).to_multiset() == filtered.to_multiset());
        assert(filtered.contains(b) <==> filtered.to_multiset().count(b) > 0);
        assert(search_result(bms, q, f, o).contains(b) <==> search_result(
            bms,
            q,
            f,
            o,
        ).to_multiset().count(b) > 0);
    }
    lemma_tag_filtered_membership(text_filtered(bms, q), f, b);
    lemma_text_filtered_membership(bms, q, b);
}

} // verus!
