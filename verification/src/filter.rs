//! The five-clause tag predicate. Each clause is optional; an absent clause
//! is vacuously satisfied, and the present clauses are conjoined literally.
use crate::tags::{tag_tokens_of, TagSet};
use vstd::prelude::*;

verus! {

/// The five optional clauses over a bookmark's tag set.
pub struct TagFilter {
    /// Included only if the bookmark's tags contain every tag here.
    pub all: Option<TagSet>,
    /// Included only if the bookmark's tags do not contain all of these.
    pub all_not: Option<TagSet>,
    /// Included only if the bookmark's tags share at least one tag.
    pub any: Option<TagSet>,
    /// Included only if the bookmark's tags share no tag.
    pub any_not: Option<TagSet>,
    /// Included only if the bookmark's tags equal exactly these.
    pub exact: Option<TagSet>,
}

impl TagFilter {
    pub open spec fn wf(&self) -> bool {
        &&& (match self.all {
            Some(ts) => ts.wf(),
            None => true,
        })
        &&& (match self.all_not {
            Some(ts) => ts.wf(),
            None => true,
        })
        &&& (match self.any {
            Some(ts) => ts.wf(),
            None => true,
        })
        &&& (match self.any_not {
            Some(ts) => ts.wf(),
            None => true,
        })
        &&& (match self.exact {
            Some(ts) => ts.wf(),
            None => true,
        })
    }

    /// The filter that accepts every bookmark.
    pub fn accept_all() -> (r: TagFilter)
        ensures
            r.wf(),
            r == (TagFilter {
                all: None,
                all_not: None,
                any: None,
                any_not: None,
                exact: None,
            }),
    {
        TagFilter { all: None, all_not: None, any: None, any_not: None, exact: None }
    }

    /// Whether a bookmark with tag set `tags` passes this filter.
    pub fn matches(&self, tags: &TagSet) -> (r: bool)
        requires
            self.wf(),
            tags.wf(),
        ensures
            r == spec_matches(tags@, *self),
    {
        let exact_ok = match &self.exact {
            Some(e) => tags.set_eq(e),
            None => true,
        };
        let all_ok = match &self.all {
            Some(a) => a.is_subset_of(tags),
            None => true,
        };
        let all_not_ok = match &self.all_not {
            Some(a) => !a.is_subset_of(tags),
            None => true,
        };
        let any_ok = match &self.any {
            Some(a) => tags.intersects_with(a),
            None => true,
        };
        let any_not_ok = match &self.any_not {
            Some(a) => !tags.intersects_with(a),
            None => true,
        };
        exact_ok && all_ok && all_not_ok && any_ok && any_not_ok
    }
}

/// The conjunction of all present clauses, per the inclusion table:
/// exact means equality, all means superset, allNot negates superset,
/// any means non-empty intersection, anyNot means empty intersection.
pub open spec fn spec_matches(tags: Set<Seq<char>>, f: TagFilter) -> bool {
    &&& (match f.exact {
        Some(e) => tags == e@,
        None => true,
    })
    &&& (match f.all {
        Some(a) => a@.subset_of(tags),
        None => true,
    })
    &&& (match f.all_not {
        Some(a) => !a@.subset_of(tags),
        None => true,
    })
    &&& (match f.any {
        Some(a) => exists|t: Seq<char>| tags.contains(t) && a@.contains(t),
        None => true,
    })
    &&& (match f.any_not {
        Some(a) => !(exists|t: Seq<char>| tags.contains(t) && a@.contains(t)),
        None => true,
    })
}

/// The clause that a raw option string denotes: absent stays absent, present
/// becomes the normalized tag set of the string.
pub open spec fn clause_from(raw: Option<&str>, clause: Option<TagSet>) -> bool {
    match raw {
        Some(s) => match clause {
            Some(ts) => ts.wf() && ts@ == tag_tokens_of(s@),
            None => false,
        },
        None => clause is None,
    }
}

/// The token set a raw option string denotes, empty when absent.
pub open spec fn opt_tokens(raw: Option<&str>) -> Set<Seq<char>> {
    match raw {
        Some(s) => tag_tokens_of(s@),
        None => Set::<Seq<char>>::empty(),
    }
}

fn normalize_opt(raw: Option<&str>) -> (r: Option<TagSet>)
    ensures
        clause_from(raw, r),
{
    match raw {
        Some(s) => Some(TagSet::normalize(s)),
        None => None,
    }
}

/// Build a filter from the raw option strings of a search request. The
/// `prefix` tags are unioned into `all` before evaluation; every other raw
/// string becomes its clause's normalized tag set, and an absent option
/// leaves its clause absent.
pub fn build_filter(
    all: Option<&str>,
    all_not: Option<&str>,
    any: Option<&str>,
    any_not: Option<&str>,
    exact: Option<&str>,
    prefix: Option<&str>,
) -> (r: TagFilter)
    ensures
        r.wf(),
        clause_from(all_not, r.all_not),
        clause_from(any, r.any),
        clause_from(any_not, r.any_not),
        clause_from(exact, r.exact),
        all is None && prefix is None ==> r.all is None,
        !(all is None && prefix is None) ==> match r.all {
            Some(ts) => ts.wf() && ts@ == opt_tokens(all).union(opt_tokens(prefix)),
            None => false,
        },
{
    let combined: Option<TagSet> = if all.is_none() && prefix.is_none() {
        None
    } else {
        let a = match all {
            Some(s) => TagSet::normalize(s),
            None => TagSet::empty(),
        };
        let p = match prefix {
            Some(s) => TagSet::normalize(s),
            None => TagSet::empty(),
        };
        let u = a.union_with(&p);
        proof {
            assert(u@ =~= opt_tokens(all).union(opt_tokens(prefix)));
        }
        Some(u)
    };
    TagFilter {
        all: combined,
        all_not: normalize_opt(all_not),
        any: normalize_opt(any),
        any_not: normalize_opt(any_not),
        exact: normalize_opt(exact),
    }
}

/// Law: a filter with only the `all` clause includes a bookmark exactly when
/// its tags contain every filter tag.
pub proof fn lemma_all_only(tags: Set<Seq<char>>, a: TagSet)
    ensures
        spec_matches(
            tags,
            (TagFilter { all: Some(a), all_not: None, any: None, any_not: None, exact: None }),
        ) <==> a@.subset_of(tags),
{
}

/// Law: a filter with only the `allNot` clause includes a bookmark exactly
/// when its tags do not contain every filter tag.
pub proof fn lemma_all_not_only(tags: Set<Seq<char>>, a: TagSet)
    ensures
        spec_matches(
            tags,
            (TagFilter { all: None, all_not: Some(a), any: None, any_not: None, exact: None }),
        ) <==> !a@.subset_of(tags),
{
}

/// Law: a filter with only the `any` clause includes a bookmark exactly when
/// it shares at least one tag with the filter.
pub proof fn lemma_any_only(tags: Set<Seq<char>>, a: TagSet)
    ensures
        spec_matches(
            tags,
            (TagFilter { all: None, all_not: None, any: Some(a), any_not: None, exact: None }),
        ) <==> exists|t: Seq<char>| tags.contains(t) && a@.contains(t),
{
}

/// Law: a filter with only the `anyNot` clause includes a bookmark exactly
/// when it shares no tag with the filter.
pub proof fn lemma_any_not_only(tags: Set<Seq<char>>, a: TagSet)
    ensures
        spec_matches(
            tags,
            (TagFilter { all: None, all_not: None, any: None, any_not: Some(a), exact: None }),
        ) <==> !(exists|t: Seq<char>| tags.contains(t) && a@.contains(t)),
{
}

/// Law: a filter with only the `exact` clause includes a bookmark exactly
/// when its tag set equals the filter's.
pub proof fn lemma_exact_only(tags: Set<Seq<char>>, e: TagSet)
    ensures
        spec_matches(
            tags,
            (TagFilter { all: None, all_not: None, any: None, any_not: None, exact: Some(e) }),
        ) <==> tags == e@,
{
}

/// Law: clauses conjoin literally, so a filter demanding a tag in `all` and
/// forbidding the same tag in `anyNot` rejects every bookmark.
pub proof fn lemma_irreconcilable(tags: Set<Seq<char>>, f: TagFilter, t: Seq<char>)
    requires
        match f.all {
            Some(a) => a@.contains(t),
            None => false,
        },
        match f.any_not {
            Some(a) => a@.contains(t),
            None => false,
        },
    ensures
        !spec_matches(tags, f),
{
    if spec_matches(tags, f) {
        assert(tags.contains(t));
        assert(false);
    }
}

} // verus!
