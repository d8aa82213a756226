//! The tag-update command: add tags to a record's tag list, remove tags from
//! it, or replace it outright, through the store.
use crate::store::{has_id, Store, StoreError};
use crate::tags::{tag_tokens_of, TagSet};
use vstd::prelude::*;

verus! {

/// A forced update must bring tags and must not bring removals; everything
/// else is accepted. A request failing this is fatal misuse, reported before
/// any store access.
pub fn validate_update_request(force: bool, has_tags: bool, has_tags_not: bool) -> (r: bool)
    ensures
        r == (!force || (has_tags && !has_tags_not)),
{
    !force || (has_tags && !has_tags_not)
}

/// The tag set an update leaves on a record: a forced update replaces the
/// set, otherwise the added tags are unioned in and the removed tags taken
/// out.
pub open spec fn updated_tags(
    current: Set<Seq<char>>,
    add: Set<Seq<char>>,
    remove: Set<Seq<char>>,
    force: bool,
) -> Set<Seq<char>> {
    if force {
        add
    } else {
        current.union(add).difference(remove)
    }
}

/// Apply one tag update to a tag set.
pub fn apply_tag_update(current: &TagSet, add: &TagSet, remove: &TagSet, force: bool) -> (r:
    TagSet)
    requires
        current.wf(),
        add.wf(),
        remove.wf(),
    ensures
        r.wf(),
        r@ == updated_tags(current@, add@, remove@, force),
{
    if force {
        add.duplicate()
    } else {
        let joined = current.union_with(add);
        joined.diff_with(remove)
    }
}

/// Update the tags of the record with this id: fetch it, compute its new tag
/// set, and write it back; the record's other fields stay as they were, and
/// an absent id is reported as `NotFound` exactly.
pub fn update_tags_for_id(
    store: &mut Store,
    id: i64,
    add: &TagSet,
    remove: &TagSet,
    force: bool,
) -> (r: Result<(), StoreError>)
    requires
        old(store).wf(),
        add.wf(),
        remove.wf(),
        old(store).clock < i64::MAX,
    ensures
        final(store).wf(),
        match r {
            Ok(_) => {
                &&& has_id(old(store).bms@, id)
                &&& exists|i: int|
                    {
                        &&& 0 <= i < old(store).bms@.len()
                        &&& (#[trigger] old(store).bms@[i]).id == id
                        &&& final(store).bms@.len() == old(store).bms@.len()
                        &&& final(store).bms@[i].id == id
                        &&& final(store).bms@[i].url == old(store).bms@[i].url
                        &&& final(store).bms@[i].title == old(store).bms@[i].title
                        &&& final(store).bms@[i].desc == old(store).bms@[i].desc
                        &&& final(store).bms@[i].tag_set() == updated_tags(
                            old(store).bms@[i].tag_set(),
                            add@,
                            remove@,
                            force,
                        )
                        &&& forall|k: int|
                            0 <= k < old(store).bms@.len() && k != i ==> final(store).bms@[k]
                                == old(store).bms@[k]
                    }
            },
            Err(e) => {
                &&& e is NotFound
                &&& !has_id(old(store).bms@, id)
                &&& *final(store) == *old(store)
            },
        },
{
    let current = match store.get_by_id(id) {
        Ok(bm) => bm,
        Err(_) => {
            return Err(StoreError::NotFound);
        },
    };
    let cur_tags = TagSet::normalize(current.tags.as_str());
    let new_tags = apply_tag_update(&cur_tags, add, remove, force);
    let rendered_tags = new_tags.render();
    proof {
        crate::tags::lemma_render_round_trip(new_tags.toks());
    }
    let updated = crate::bookmark::Bookmark {
        id: current.id,
        url: current.url,
        title: current.title,
        desc: current.desc,
        tags: rendered_tags,
        last_update_ts: current.last_update_ts,
    };
    proof {
        let j = choose|j: int|
            0 <= j < store.bms@.len() && #[trigger] store.bms@[j] == current && current.id == id;
        assert(updated.wf());
    }
    match store.update(updated) {
        Ok(_) => {
            proof {
                let i = choose|i: int|
                    {
                        &&& 0 <= i < old(store).bms@.len()
                        &&& (#[trigger] old(store).bms@[i]).id == updated.id
                        &&& final(store).bms@.len() == old(store).bms@.len()
                        &&& final(store).bms@[i].id == updated.id
                        &&& final(store).bms@[i].url == updated.url
                        &&& final(store).bms@[i].title == updated.title
                        &&& final(store).bms@[i].desc == updated.desc
                        &&& final(store).bms@[i].tag_set() == tag_tokens_of(updated.tags@)
                        &&& final(store).bms@[i].last_update_ts == old(store).clock
                        &&& forall|k: int|
                            0 <= k < old(store).bms@.len() && k != i ==> final(store).bms@[k]
                                == old(store).bms@[k]
                    };
                let j = choose|j: int|
                    0 <= j < old(store).bms@.len() && (#[trigger] old(store).bms@[j]).id == id
                        && old(store).bms@[j] == current;
                assert(old(store).bms@.contains(current));
                assert(i == j);
                assert(old(store).bms@[i].url == current.url);
                assert(tag_tokens_of(updated.tags@) == updated_tags(
                    old(store).bms@[i].tag_set(),
                    add@,
                    remove@,
                    force,
                ));
            }
            Ok(())
        },
        Err(e) => {
            proof {
                match e {
                    StoreError::DuplicateUrl => {
                        let k = choose|k: int|
                            0 <= k < old(store).bms@.len() && (#[trigger] old(
                                store,
                            ).bms@[k]).url@ == updated.url@ && old(store).bms@[k].id
                                != updated.id;
                        let j = choose|j: int|
                            0 <= j < old(store).bms@.len() && (#[trigger] old(
                                store,
                            ).bms@[j]).id == id && old(store).bms@[j] == current;
                        assert(old(store).bms@.contains(current));
                        assert(false);
                    },
                    StoreError::NotFound => {
                        assert(old(store).bms@.contains(current));
                        assert(has_id(old(store).bms@, id));
                        assert(false);
                    },
                }
            }
            Err(e)
        },
    }
}

} // verus!
