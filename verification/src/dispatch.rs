//! Batch action dispatch: a resolved selection is processed strictly in
//! sequence and the first failure aborts the remaining items, with no
//! rollback. Deletion additionally processes its id list in descending
//! numeric order before touching the store.
use crate::bookmark::Bookmark;
use crate::select::{SelectError, SelectionSession};
use crate::store::{has_id, Store, StoreError};
use vstd::prelude::*;
use vstd::seq_lib::group_to_multiset_ensures;

verus! {

/// Descending insertion of one id into a descending-sorted list; an equal id
/// goes after the ones already there.
pub open spec fn ins_desc(x: i64, l: Seq<i64>) -> Seq<i64>
    decreases l.len(),
{
    if l.len() == 0 {
        seq![x]
    } else if l[0] >= x {
        seq![l[0]] + ins_desc(x, l.drop_first())
    } else {
        seq![x] + l
    }
}

/// The id list sorted in descending numeric order.
pub open spec fn sort_desc(s: Seq<i64>) -> Seq<i64>
    decreases s.len(),
{
    if s.len() == 0 {
        Seq::empty()
    } else {
        ins_desc(s.last(), sort_desc(s.drop_last()))
    }
}

/// Descending-sorted.
pub open spec fn sorted_desc(s: Seq<i64>) -> bool {
    forall|i: int, j: int| 0 <= i < j < s.len() ==> s[i] >= s[j]
}

proof fn lemma_ins_desc_props(x: i64, l: Seq<i64>)
    requires
        sorted_desc(l),
    ensures
        sorted_desc(ins_desc(x, l)),
        ins_desc(x, l).to_multiset() == l.to_multiset().insert(x),
        ins_desc(x, l).len() == l.len() + 1,
    decreases l.len(),
{
    broadcast use group_to_multiset_ensures;

    let r = ins_desc(x, l);
    if l.len() == 0 {
        assert(seq![x] =~= l.push(x));
    } else if l[0] >= x {
        let l1 = l.drop_first();
        assert(sorted_desc(l1)) by {
            assert(forall|i: int| 0 <= i < l1.len() ==> l1[i] == l[i + 1]);
        }
        lemma_ins_desc_props(x, l1);
        let r1 = ins_desc(x, l1);
        assert(seq![l[0]] + l1 =~= l);
        lemma_cons_to_multiset_ids(l[0], r1);
        lemma_cons_to_multiset_ids(l[0], l1);
        assert(r.to_multiset() =~= l.to_multiset().insert(x));
        assert(sorted_desc(r)) by {
            assert forall|i: int, j: int| 0 <= i < j < r.len() implies r[i] >= r[j] by {
                if i == 0 {
                    assert(r[0] == l[0]);
                    assert(r[j] == r1[j - 1]);
                    assert(r1.to_multiset().count(r1[j - 1]) > 0) by {
                        assert(r1.contains(r1[j - 1]));
                    }
                    if r1[j - 1] != x {
                        assert(l1.to_multiset().count(r1[j - 1]) > 0);
                        assert(l1.contains(r1[j - 1]));
                        let k = choose|k: int| 0 <= k < l1.len() && l1[k] == r1[j - 1];
                        assert(l[k + 1] == r1[j - 1]);
                    }
                } else {
                    assert(r[i] == r1[i - 1] && r[j] == r1[j - 1]);
                }
            }
        }
    } else {
        lemma_cons_to_multiset_ids(x, l);
    }
}

proof fn lemma_cons_to_multiset_ids(a: i64, m: Seq<i64>)
    ensures
        (seq![a] + m).to_multiset() == m.to_multiset().insert(a),
{
    broadcast use group_to_multiset_ensures;

    let s = seq![a] + m;
    assert(s.remove(0) =~= m);
    assert(s.remove(0).to_multiset() =~= s.to_multiset().remove(s[0]));
    assert(s.contains(a)) by {
        assert(s[0] == a);
    }
    assert(s.to_multiset().count(a) > 0);
    assert(s.to_multiset() =~= m.to_multiset().insert(a));
}

/// The descending sort is sorted and a permutation of its input.
pub proof fn lemma_sort_desc_props(s: Seq<i64>)
    ensures
        sorted_desc(sort_desc(s)),
        sort_desc(s).to_multiset() == s.to_multiset(),
        sort_desc(s).len() == s.len(),
    decreases s.len(),
{
    broadcast use group_to_multiset_ensures;

    if s.len() > 0 {
        lemma_sort_desc_props(s.drop_last());
        lemma_ins_desc_props(s.last(), sort_desc(s.drop_last()));
        assert(s.drop_last().push(s.last()) =~= s);
        assert(s.drop_last().push(s.last()).to_multiset() == s.drop_last().to_multiset().insert(
            s.last(),
        ));
    }
}

proof fn lemma_ins_desc_eq_insert(x: i64, l: Seq<i64>, j: int)
    requires
        0 <= j <= l.len(),
        forall|k: int| 0 <= k < j ==> l[k] >= x,
        j < l.len() ==> !(l[j] >= x),
    ensures
        ins_desc(x, l) == l.insert(j, x),
    decreases l.len(),
{
    if l.len() == 0 {
        assert(ins_desc(x, l) =~= l.insert(0, x));
    } else if j == 0 {
        assert(seq![x] + l =~= l.insert(0, x));
    } else {
        let l1 = l.drop_first();
        assert(forall|i: int| 0 <= i < l1.len() ==> l1[i] == l[i + 1]);
        lemma_ins_desc_eq_insert(x, l1, j - 1);
        assert(seq![l[0]] + l1.insert(j - 1, x) =~= l.insert(j, x));
    }
}

/// Sort an id list in descending numeric order.
pub fn ids_descending(ids: &Vec<i64>) -> (r: Vec<i64>)
    ensures
        r@ == sort_desc(ids@),
{
    let n = ids.len();
    let mut r: Vec<i64> = Vec::new();
    let mut i: usize = 0;
    proof {
        assert(ids@.take(0) =~= Seq::<i64>::empty());
    }
    while i < n
        invariant
            i <= n,
            n == ids@.len(),
            r@ == sort_desc(ids@.take(i as int)),
        decreases n - i,
    {
        let x = ids[i];
        let ghost l = r@;
        let m = r.len();
        let mut j: usize = 0;
        while j < m && r[j] >= x
            invariant
                j <= m,
                m == r@.len(),
                r@ == l,
                forall|k: int| 0 <= k < j ==> l[k] >= x,
            decreases m - j,
        {
            j = j + 1;
        }
        r.insert(j, x);
        proof {
            lemma_ins_desc_eq_insert(x, l, j as int);
            assert(ids@.take(i + 1).drop_last() =~= ids@.take(i as int));
            assert(ids@.take(i + 1).last() == ids@[i as int]);
        }
        i = i + 1;
    }
    proof {
        assert(ids@.take(n as int) =~= ids@);
    }
    r
}

/// The ids the ordinals denote in the result list, in ordinal-list order.
pub open spec fn resolved_ids(list: Seq<Bookmark>, ords: Seq<u64>) -> Seq<i64> {
    ords.map_values(|o: u64| list[o - 1].id)
}

/// Resolve the delete selection and give back the id list in the order the
/// dispatcher must process it: descending numeric id order.
pub fn plan_delete(session: &SelectionSession, ordinals: &Vec<u64>) -> (r: Result<
    Vec<i64>,
    SelectError,
>)
    ensures
        match r {
            Ok(ids) => {
                &&& forall|k: int|
                    0 <= k < ordinals@.len() ==> 1 <= #[trigger] ordinals@[k]
                        <= session.bms@.len()
                &&& ids@ == sort_desc(resolved_ids(session.bms@, ordinals@))
            },
            Err(e) => e is OutOfRange && exists|k: int|
                0 <= k < ordinals@.len() && ((#[trigger] ordinals@[k]) < 1 || ordinals@[k]
                    > session.bms@.len()),
        },
{
    let resolved = match session.resolve_many(ordinals) {
        Ok(v) => v,
        Err(e) => {
            return Err(e);
        },
    };
    let n = resolved.len();
    let mut ids: Vec<i64> = Vec::new();
    let mut i: usize = 0;
    while i < n
        invariant
            i <= n,
            n == resolved@.len(),
            ids@ == resolved@.take(i as int).map_values(|b: Bookmark| b.id),
        decreases n - i,
    {
        ids.push(resolved[i].id);
        proof {
            assert(resolved@.take(i + 1).map_values(|b: Bookmark| b.id) =~= resolved@.take(
                i as int,
            ).map_values(|b: Bookmark| b.id).push(resolved@[i as int].id));
        }
        i = i + 1;
    }
    proof {
        assert(resolved@.take(n as int) =~= resolved@);
    }
    let sorted = ids_descending(&ids);
    proof {
        assert(ids@ =~= resolved_ids(session.bms@, ordinals@));
    }
    Ok(sorted)
}

/// The index of the record carrying this id.
pub open spec fn idx_of_id(s: Seq<Bookmark>, id: i64) -> int {
    choose|i: int| 0 <= i < s.len() && (#[trigger] s[i]).id == id
}

/// The store contents after running a delete batch: ids are processed left
/// to right, each removing its record, and the first absent id stops the
/// run with the store exactly as it stood at that point.
pub open spec fn delete_run(s: Seq<Bookmark>, ids: Seq<i64>) -> Seq<Bookmark>
    decreases ids.len(),
{
    if ids.len() == 0 {
        s
    } else if has_id(s, ids[0]) {
        delete_run(s.remove(idx_of_id(s, ids[0])), ids.drop_first())
    } else {
        s
    }
}

/// How many deletions a run performs before it finishes or fails.
pub open spec fn delete_run_len(s: Seq<Bookmark>, ids: Seq<i64>) -> int
    decreases ids.len(),
{
    if ids.len() == 0 {
        0
    } else if has_id(s, ids[0]) {
        1 + delete_run_len(s.remove(idx_of_id(s, ids[0])), ids.drop_first())
    } else {
        0
    }
}

/// Delete the listed ids from the store strictly in the order given,
/// stopping at the first id the store does not hold; deletions already made
/// stay made. The caller passes the list already in descending order.
pub fn delete_batch(store: &mut Store, ids: &Vec<i64>) -> (r: Result<(), StoreError>)
    requires
        old(store).wf(),
    ensures
        final(store).wf(),
        final(store).bms@ == delete_run(old(store).bms@, ids@),
        match r {
            Ok(_) => delete_run_len(old(store).bms@, ids@) == ids@.len(),
            Err(e) => e is NotFound && delete_run_len(old(store).bms@, ids@) < ids@.len(),
        },
{
    let n = ids.len();
    let mut i: usize = 0;
    proof {
        assert(ids@.skip(0) =~= ids@);
    }
    while i < n
        invariant
            i <= n,
            n == ids@.len(),
            store.wf(),
            delete_run(old(store).bms@, ids@) == delete_run(store.bms@, ids@.skip(i as int)),
            delete_run_len(old(store).bms@, ids@) == i + delete_run_len(
                store.bms@,
                ids@.skip(i as int),
            ),
        decreases n - i,
    {
        let ghost pre = store.bms@;
        let id = ids[i];
        proof {
            assert(ids@.skip(i as int)[0] == id);
        }
        match store.delete(id) {
            Ok(_) => {
                proof {
                    let w = choose|w: int|
                        0 <= w < pre.len() && (#[trigger] pre[w]).id == id && store.bms@
                            == pre.remove(w);
                    let c = idx_of_id(pre, id);
                    assert(0 <= c < pre.len() && pre[c].id == id);
                    assert(w == c);
                    assert(store.bms@ == pre.remove(idx_of_id(pre, id)));
                    assert(ids@.skip(i as int).drop_first() =~= ids@.skip(i + 1));
                }
            },
            Err(_) => {
                proof {
                    assert(!has_id(store.bms@, id));
                    assert(delete_run(store.bms@, ids@.skip(i as int)) == store.bms@);
                    assert(delete_run_len(store.bms@, ids@.skip(i as int)) == 0);
                }
                return Err(StoreError::NotFound);
            },
        }
        i = i + 1;
    }
    proof {
        assert(ids@.skip(n as int) =~= Seq::<i64>::empty());
    }
    Ok(())
}

/// Law: a batch aborts at its first failure. If the first `k` ids all
/// delete and the next id is then absent, the whole run equals the run of
/// the first `k` ids alone: the ids after the failure leave no trace.
pub proof fn lemma_batch_abort(s: Seq<Bookmark>, ids: Seq<i64>, k: int)
    requires
        0 <= k < ids.len(),
        delete_run_len(s, ids.take(k)) == k,
        !has_id(delete_run(s, ids.take(k)), ids[k]),
    ensures
        delete_run(s, ids) == delete_run(s, ids.take(k)),
        delete_run_len(s, ids) == k,
    decreases k,
{
    if k == 0 {
        assert(ids.take(0) =~= Seq::<i64>::empty());
        assert(delete_run(s, ids.take(0)) == s);
        assert(!has_id(s, ids[0]));
    } else {
        let t = ids.take(k);
        assert(t[0] == ids[0]);
        assert(has_id(s, ids[0])) by {
            if !has_id(s, t[0]) {
                assert(delete_run_len(s, t) == 0);
            }
        }
        let s1 = s.remove(idx_of_id(s, ids[0]));
        assert(t.drop_first() =~= ids.drop_first().take(k - 1));
        assert(ids.drop_first()[k - 1] == ids[k]);
        lemma_batch_abort(s1, ids.drop_first(), k - 1);
        assert(delete_run(s, ids) == delete_run(s1, ids.drop_first()));
        assert(delete_run(s, t) == delete_run(s1, t.drop_first()));
        assert(delete_run_len(s, ids) == 1 + delete_run_len(s1, ids.drop_first()));
    }
}

/// How a record is opened: a url carrying the shell-escape prefix runs as a
/// shell command and is waited for; any other url goes to the platform's
/// default open mechanism.
#[derive(Debug)]
pub enum OpenMethod {
    /// Run the remainder of the url as a shell command, with inherited
    /// standard streams, and wait for it.
    ShellCommand(String),
    /// Hand the url to the default handler, resolving it to an absolute path
    /// first when it names an existing relative path; do not wait.
    Browse(String),
}

/// The shell-escape marker is the url's first seven characters.
pub open spec fn has_shell_prefix(url: Seq<char>) -> bool {
    url.len() >= 7 && url.take(7) == "shell::"@
}

/// Classify how one record is to be opened: the shell-escape prefix selects
/// a shell command made of the remainder, everything else is browsed as is.
pub fn open_bm(bm: &Bookmark) -> (r: OpenMethod)
    ensures
        match r {
            OpenMethod::ShellCommand(cmd) => has_shell_prefix(bm.url@) && cmd@ == bm.url@.skip(7),
            OpenMethod::Browse(u) => !has_shell_prefix(bm.url@) && u@ == bm.url@,
        },
{
    let s = bm.url.as_str();
    let n = s.unicode_len();
    if n >= 7 {
        let head = s.substring_char(0, 7);
        proof {
            assert(bm.url@.take(7) =~= bm.url@.subrange(0, 7));
        }
        if crate::text::str_eq(head, "shell::") {
            let rest = s.substring_char(7, n);
            proof {
                assert(rest@ =~= bm.url@.skip(7));
            }
            return OpenMethod::ShellCommand(rest.to_owned());
        }
    }
    OpenMethod::Browse(bm.url.clone())
}

/// A batch of resolved records handed out one by one; after a reported
/// failure no further record is ever handed out.
pub struct Batch {
    /// The resolved records, in processing order.
    pub items: Vec<Bookmark>,
    /// The index of the next unattempted record.
    pub next: usize,
    /// Set once a failure is reported; never cleared.
    pub aborted: bool,
}

impl Batch {
    /// A fresh batch over a resolved selection.
    pub fn new(items: Vec<Bookmark>) -> (r: Batch)
        ensures
            r.items@ == items@,
            r.next == 0,
            r.aborted == false,
    {
        Batch { items, next: 0, aborted: false }
    }

    /// Hand out the next record, strictly in sequence; nothing is handed out
    /// after the end or after an abort.
    pub fn take_next(&mut self) -> (r: Option<Bookmark>)
        ensures
            final(self).items@ == old(self).items@,
            final(self).aborted == old(self).aborted,
            match r {
                Some(bm) => {
                    &&& !old(self).aborted
                    &&& old(self).next < old(self).items@.len()
                    &&& bm == old(self).items@[old(self).next as int]
                    &&& final(self).next == old(self).next + 1
                },
                None => {
                    &&& (old(self).aborted || old(self).next >= old(self).items@.len())
                    &&& final(self).next == old(self).next
                },
            },
    {
        if self.aborted || self.next >= self.items.len() {
            return None;
        }
        let bm = self.items[self.next].duplicate();
        self.next = self.next + 1;
        Some(bm)
    }

    /// Report that the action on the last handed-out record failed: the
    /// remaining records are abandoned, nothing already done is rolled back.
    pub fn report_failure(&mut self)
        ensures
            final(self).items@ == old(self).items@,
            final(self).next == old(self).next,
            final(self).aborted == true,
    {
        self.aborted = true;
    }
}

} // verus!
