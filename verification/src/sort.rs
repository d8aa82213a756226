//! Sorting of result lists. The sort is pinned down exactly: the executable
//! sort returns `spec_sort`, a stable insertion sort at the specification
//! level, so equal keys keep their store order and repeated identical queries
//! give identical output.
use crate::bookmark::Bookmark;
use crate::text::{lemma_lex_le_antisym, lemma_lex_le_total, lemma_lex_le_trans};
use crate::text::{lex_le, lower_seq, lower_str, str_le};
use vstd::prelude::*;
use vstd::seq_lib::group_to_multiset_ensures;

verus! {

/// The sort policy a caller selects: by title (case-insensitively, ascending,
/// the default), or by last update time, oldest or newest first.
#[derive(Debug)]
pub enum SortOrder {
    TitleAsc,
    TimeAsc,
    TimeDesc,
}

/// The total preorder each policy sorts by.
pub open spec fn key_le(o: SortOrder, a: Bookmark, b: Bookmark) -> bool {
    match o {
        SortOrder::TitleAsc => lex_le(lower_seq(a.title@), lower_seq(b.title@)),
        SortOrder::TimeAsc => a.last_update_ts <= b.last_update_ts,
        SortOrder::TimeDesc => a.last_update_ts >= b.last_update_ts,
    }
}

pub proof fn lemma_key_le_total(o: SortOrder, a: Bookmark, b: Bookmark)
    ensures
        key_le(o, a, b) || key_le(o, b, a),
{
    if o is TitleAsc {
        lemma_lex_le_total(lower_seq(a.title@), lower_seq(b.title@));
    }
}

pub proof fn lemma_key_le_trans(o: SortOrder, a: Bookmark, b: Bookmark, c: Bookmark)
    requires
        key_le(o, a, b),
        key_le(o, b, c),
    ensures
        key_le(o, a, c),
{
    if o is TitleAsc {
        lemma_lex_le_trans(lower_seq(a.title@), lower_seq(b.title@), lower_seq(c.title@));
    }
}

/// Sorted under the selected policy.
pub open spec fn sorted_by(o: SortOrder, s: Seq<Bookmark>) -> bool {
    forall|i: int, j: int| 0 <= i < j < s.len() ==> key_le(o, #[trigger] s[i], #[trigger] s[j])
}

/// Stable insertion of one element into a sorted sequence: the new element
/// goes after every element whose key is less than or equal to its own, so
/// an element with an equal key that was earlier in the input stays earlier.
pub open spec fn ins_sorted(o: SortOrder, x: Bookmark, l: Seq<Bookmark>) -> Seq<Bookmark>
    decreases l.len(),
{
    if l.len() == 0 {
        seq![x]
    } else if key_le(o, l[0], x) {
        seq![l[0]] + ins_sorted(o, x, l.drop_first())
    } else {
        seq![x] + l
    }
}

/// The stable sort of a sequence: elements are inserted first to last.
pub open spec fn spec_sort(o: SortOrder, s: Seq<Bookmark>) -> Seq<Bookmark>
    decreases s.len(),
{
    if s.len() == 0 {
        Seq::empty()
    } else {
        ins_sorted(o, s.last(), spec_sort(o, s.drop_last()))
    }
}

proof fn lemma_cons_to_multiset(a: Bookmark, m: Seq<Bookmark>)
    ensures
        (seq![a] + m).to_multiset() == m.to_multiset().insert(a),
{
    broadcast use group_to_multiset_ensures;

    let s = seq![a] + m;
    assert(s.remove(0) =~= m);
    assert(s.remove(0).to_multiset() =~= s.to_multiset().remove(s[0]));
    assert(s.contains(a)) by {
        assert(s[0] == a);
    }
    assert(s.to_multiset().count(a) > 0);
    assert(s.to_multiset() =~= m.to_multiset().insert(a));
}

proof fn lemma_ins_sorted_props(o: SortOrder, x: Bookmark, l: Seq<Bookmark>)
    requires
        sorted_by(o, l),
    ensures
        sorted_by(o, ins_sorted(o, x, l)),
        ins_sorted(o, x, l).to_multiset() == l.to_multiset().insert(x),
        ins_sorted(o, x, l).len() == l.len() + 1,
    decreases l.len(),
{
    broadcast use group_to_multiset_ensures;

    let r = ins_sorted(o, x, l);
    if l.len() == 0 {
        assert(seq![x] =~= l.push(x));
        assert(r.to_multiset() == l.to_multiset().insert(x));
    } else if key_le(o, l[0], x) {
        let l1 = l.drop_first();
        assert(sorted_by(o, l1)) by {
            assert(forall|i: int| 0 <= i < l1.len() ==> #[trigger] l1[i] == l[i + 1]);
        }
        lemma_ins_sorted_props(o, x, l1);
        let r1 = ins_sorted(o, x, l1);
        lemma_cons_to_multiset(l[0], r1);
        lemma_cons_to_multiset(l[0], l1);
        assert(seq![l[0]] + l1 =~= l);
        assert(r.to_multiset() =~= l.to_multiset().insert(x));
        // Sortedness: the head is below x and below every element of l1,
        // hence below everything in the inserted tail.
        assert(sorted_by(o, r)) by {
            assert forall|i: int, j: int| 0 <= i < j < r.len() implies key_le(
                o,
                #[trigger] r[i],
                #[trigger] r[j],
            ) by {
                if i == 0 {
                    assert(r[0] == l[0]);
                    assert(r[j] == r1[j - 1]);
                    // r1's elements are those of l1 plus x.
                    assert(r1.to_multiset().count(r1[j - 1]) > 0) by {
                        assert(r1.contains(r1[j - 1]));
                    }
                    if r1[j - 1] == x {
                        assert(key_le(o, l[0], x));
                    } else {
                        assert(l1.to_multiset().count(r1[j - 1]) > 0);
                        assert(l1.contains(r1[j - 1]));
                        let k = choose|k: int| 0 <= k < l1.len() && l1[k] == r1[j - 1];
                        assert(l[k + 1] == r1[j - 1]);
                        assert(key_le(o, l[0], l[k + 1]));
                    }
                } else {
                    assert(r[i] == r1[i - 1] && r[j] == r1[j - 1]);
                }
            }
        }
    } else {
        lemma_cons_to_multiset(x, l);
        lemma_key_le_total(o, l[0], x);
        assert(key_le(o, x, l[0]));
        assert(sorted_by(o, r)) by {
            assert forall|i: int, j: int| 0 <= i < j < r.len() implies key_le(
                o,
                #[trigger] r[i],
                #[trigger] r[j],
            ) by {
                if i == 0 {
                    assert(r[0] == x && r[j] == l[j - 1]);
                    if j > 1 {
                        lemma_key_le_trans(o, x, l[0], l[j - 1]);
                    }
                } else {
                    assert(r[i] == l[i - 1] && r[j] == l[j - 1]);
                }
            }
        }
    }
}

/// The sorted sequence is sorted and is a permutation of the input.
pub proof fn lemma_spec_sort_props(o: SortOrder, s: Seq<Bookmark>)
    ensures
        sorted_by(o, spec_sort(o, s)),
        spec_sort(o, s).to_multiset() == s.to_multiset(),
        spec_sort(o, s).len() == s.len(),
    decreases s.len(),
{
    broadcast use group_to_multiset_ensures;

    if s.len() > 0 {
        lemma_spec_sort_props(o, s.drop_last());
        lemma_ins_sorted_props(o, s.last(), spec_sort(o, s.drop_last()));
        assert(s.drop_last().push(s.last()) =~= s);
        assert(s.drop_last().push(s.last()).to_multiset() == s.drop_last().to_multiset().insert(
            s.last(),
        ));
    }
}

proof fn lemma_ins_at_end(o: SortOrder, x: Bookmark, l: Seq<Bookmark>)
    requires
        forall|i: int| 0 <= i < l.len() ==> key_le(o, #[trigger] l[i], x),
    ensures
        ins_sorted(o, x, l) == l.push(x),
    decreases l.len(),
{
    if l.len() == 0 {
        assert(ins_sorted(o, x, l) =~= l.push(x));
    } else {
        let l1 = l.drop_first();
        assert(forall|i: int| 0 <= i < l1.len() ==> #[trigger] l1[i] == l[i + 1]);
        lemma_ins_at_end(o, x, l1);
        assert(seq![l[0]] + l1.push(x) =~= l.push(x));
    }
}

/// Law: sorting is idempotent — a sequence that is already sorted is left
/// exactly as it is, so sorting twice equals sorting once.
pub proof fn lemma_sort_of_sorted_id(o: SortOrder, s: Seq<Bookmark>)
    requires
        sorted_by(o, s),
    ensures
        spec_sort(o, s) == s,
    decreases s.len(),
{
    if s.len() > 0 {
        let dl = s.drop_last();
        assert(sorted_by(o, dl)) by {
            assert(forall|i: int| 0 <= i < dl.len() ==> #[trigger] dl[i] == s[i]);
        }
        lemma_sort_of_sorted_id(o, dl);
        assert(forall|i: int| 0 <= i < dl.len() ==> key_le(o, #[trigger] dl[i], s.last()));
        lemma_ins_at_end(o, s.last(), dl);
        assert(dl.push(s.last()) =~= s);
    }
}

/// Law: sorting twice with identical input yields identical output.
pub proof fn lemma_sort_idempotent(o: SortOrder, s: Seq<Bookmark>)
    ensures
        spec_sort(o, spec_sort(o, s)) == spec_sort(o, s),
{
    lemma_spec_sort_props(o, s);
    lemma_sort_of_sorted_id(o, spec_sort(o, s));
}

/// No two elements share an update time.
pub open spec fn distinct_times(s: Seq<Bookmark>) -> bool {
    forall|i: int, j: int|
        0 <= i < j < s.len() ==> (#[trigger] s[i]).last_update_ts != (#[trigger] s[j]).last_update_ts
}

proof fn lemma_sorted_multiset_unique(o: SortOrder, a: Seq<Bookmark>, b: Seq<Bookmark>)
    requires
        o is TimeAsc || o is TimeDesc,
        sorted_by(o, a),
        sorted_by(o, b),
        distinct_times(a),
        a.to_multiset() == b.to_multiset(),
    ensures
        a == b,
    decreases a.len(),
{
    broadcast use group_to_multiset_ensures;

    assert(a.to_multiset().len() == a.len());
    assert(b.to_multiset().len() == b.len());
    if a.len() == 0 {
        assert(a =~= b);
    } else {
        assert(b.len() == a.len());
        // The two last elements agree: each occurs in the other sequence,
        // their keys bound each other, and times are pairwise distinct.
        let la = a.last();
        let lb = b.last();
        assert(a.contains(la) && b.contains(lb)) by {
            assert(a[a.len() - 1] == la && b[b.len() - 1] == lb);
        }
        assert(b.to_multiset().count(la) > 0);
        assert(b.contains(la));
        assert(a.to_multiset().count(lb) > 0);
        assert(a.contains(lb));
        let ka = choose|k: int| 0 <= k < a.len() && a[k] == lb;
        let kb = choose|k: int| 0 <= k < b.len() && b[k] == la;
        if ka < a.len() - 1 {
            assert(key_le(o, a[ka], la));
        }
        if kb < b.len() - 1 {
            assert(key_le(o, b[kb], lb));
        }
        assert(key_le(o, lb, la) && key_le(o, la, lb)) by {
            if ka == a.len() - 1 {
                assert(lb == la);
            }
            if kb == b.len() - 1 {
                assert(la == lb);
            }
        }
        assert(la.last_update_ts == lb.last_update_ts);
        if ka < a.len() - 1 {
            assert(a[ka].last_update_ts != a[a.len() - 1].last_update_ts);
            assert(false);
        }
        assert(la == lb);
        let a1 = a.drop_last();
        let b1 = b.drop_last();
        assert(a1.to_multiset() == b1.to_multiset()) by {
            assert(a.remove(a.len() - 1) =~= a1);
            assert(b.remove(b.len() - 1) =~= b1);
            assert(a.remove(a.len() - 1).to_multiset() =~= a.to_multiset().remove(la));
            assert(b.remove(b.len() - 1).to_multiset() =~= b.to_multiset().remove(lb));
        }
        assert(sorted_by(o, a1) && distinct_times(a1)) by {
            assert(forall|i: int| 0 <= i < a1.len() ==> #[trigger] a1[i] == a[i]);
        }
        assert(sorted_by(o, b1)) by {
            assert(forall|i: int| 0 <= i < b1.len() ==> #[trigger] b1[i] == b[i]);
        }
        lemma_sorted_multiset_unique(o, a1, b1);
        assert(a =~= a1.push(la));
        assert(b =~= b1.push(lb));
    }
}

/// Law: when all update times are distinct, sorting newest-first is exactly
/// the reverse of sorting oldest-first.
pub proof fn lemma_asc_desc_reverse(s: Seq<Bookmark>)
    requires
        distinct_times(s),
    ensures
        spec_sort(SortOrder::TimeDesc, s) == spec_sort(SortOrder::TimeAsc, s).reverse(),
{
    broadcast use group_to_multiset_ensures;

    let asc = spec_sort(SortOrder::TimeAsc, s);
    let desc = spec_sort(SortOrder::TimeDesc, s);
    lemma_spec_sort_props(SortOrder::TimeAsc, s);
    lemma_spec_sort_props(SortOrder::TimeDesc, s);
    let rev = asc.reverse();
    assert(sorted_by(SortOrder::TimeDesc, rev)) by {
        assert forall|i: int, j: int| 0 <= i < j < rev.len() implies key_le(
            SortOrder::TimeDesc,
            #[trigger] rev[i],
            #[trigger] rev[j],
        ) by {
            assert(rev[i] == asc[asc.len() - 1 - i] && rev[j] == asc[asc.len() - 1 - j]);
            assert(key_le(SortOrder::TimeAsc, asc[asc.len() - 1 - j], asc[asc.len() - 1 - i]));
        }
    }
    asc.lemma_reverse_to_multiset();
    assert(distinct_times(desc)) by {
        assert forall|i: int, j: int| 0 <= i < j < desc.len() implies (
        #[trigger] desc[i]).last_update_ts != (#[trigger] desc[j]).last_update_ts by {
            lemma_permutation_distinct(s, desc, i, j);
        }
    }
    lemma_sorted_multiset_unique(SortOrder::TimeDesc, desc, rev);
}

/// Two positions of a permutation of a distinct-time sequence carry distinct
/// times unless they carry the very same element, which cannot occupy two
/// positions more often than it occurs.
proof fn lemma_permutation_distinct(s: Seq<Bookmark>, p: Seq<Bookmark>, i: int, j: int)
    requires
        distinct_times(s),
        p.to_multiset() == s.to_multiset(),
        0 <= i < j < p.len(),
    ensures
        p[i].last_update_ts != p[j].last_update_ts,
{
    broadcast use group_to_multiset_ensures;

    if p[i].last_update_ts == p[j].last_update_ts {
        if p[i] == p[j] {
            // The element would occur at least twice in p, hence twice in s,
            // but distinct times allow each element only once in s.
            let x = p[i];
            assert(p.remove(i).to_multiset() =~= p.to_multiset().remove(x));
            let q = p.remove(i);
            assert(q[j - 1] == x);
            assert(q.contains(x));
            assert(q.to_multiset().count(x) > 0);
            assert(s.to_multiset().count(x) >= 2);
            assert(s.contains(x));
            let k1 = choose|k: int| 0 <= k < s.len() && s[k] == x;
            assert(s.remove(k1).to_multiset() =~= s.to_multiset().remove(x));
            let s1 = s.remove(k1);
            assert(s1.to_multiset().count(x) > 0);
            assert(s1.contains(x));
            let k2 = choose|k: int| 0 <= k < s1.len() && s1[k] == x;
            if k2 < k1 {
                assert(s[k2] == x);
                assert(s[k2].last_update_ts != s[k1].last_update_ts);
            } else {
                assert(s[k2 + 1] == x);
                assert(s[k1].last_update_ts != s[k2 + 1].last_update_ts);
            }
            assert(false);
        } else {
            // Two different elements with one time: both also occur in s.
            assert(p.contains(p[i]) && p.contains(p[j]));
            assert(s.to_multiset().count(p[i]) > 0 && s.to_multiset().count(p[j]) > 0);
            assert(s.contains(p[i]) && s.contains(p[j]));
            let k1 = choose|k: int| 0 <= k < s.len() && s[k] == p[i];
            let k2 = choose|k: int| 0 <= k < s.len() && s[k] == p[j];
            assert(k1 != k2);
            assert(s[k1].last_update_ts != s[k2].last_update_ts);
            assert(false);
        }
    }
}

/// One key comparison, executably.
fn key_le_exec(o: &SortOrder, a: &Bookmark, b: &Bookmark) -> (r: bool)
    ensures
        r == key_le(*o, *a, *b),
{
    match o {
        SortOrder::TitleAsc => {
            let la = lower_str(a.title.as_str());
            let lb = lower_str(b.title.as_str());
            str_le(la.as_str(), lb.as_str())
        },
        SortOrder::TimeAsc => a.last_update_ts <= b.last_update_ts,
        SortOrder::TimeDesc => a.last_update_ts >= b.last_update_ts,
    }
}

proof fn lemma_ins_eq_insert(o: SortOrder, x: Bookmark, l: Seq<Bookmark>, j: int)
    requires
        0 <= j <= l.len(),
        forall|k: int| 0 <= k < j ==> key_le(o, #[trigger] l[k], x),
        j < l.len() ==> !key_le(o, l[j], x),
    ensures
        ins_sorted(o, x, l) == l.insert(j, x),
    decreases l.len(),
{
    if l.len() == 0 {
        assert(ins_sorted(o, x, l) =~= l.insert(0, x));
    } else if j == 0 {
        assert(!key_le(o, l[0], x));
        assert(seq![x] + l =~= l.insert(0, x));
    } else {
        let l1 = l.drop_first();
        assert(forall|i: int| 0 <= i < l1.len() ==> #[trigger] l1[i] == l[i + 1]);
        lemma_ins_eq_insert(o, x, l1, j - 1);
        assert(seq![l[0]] + l1.insert(j - 1, x) =~= l.insert(j, x));
    }
}

fn insert_bm(o: &SortOrder, r: &mut Vec<Bookmark>, x: Bookmark)
    requires
        sorted_by(*o, old(r)@),
    ensures
        final(r)@ == ins_sorted(*o, x, old(r)@),
{
    let ghost l = r@;
    let n = r.len();
    let mut j: usize = 0;
    while j < n && key_le_exec(o, &r[j], &x)
        invariant
            j <= n,
            n == r@.len(),
            r@ == l,
            forall|k: int| 0 <= k < j ==> key_le(*o, #[trigger] l[k], x),
        decreases n - j,
    {
        j = j + 1;
    }
    r.insert(j, x);
    proof {
        lemma_ins_eq_insert(*o, x, l, j as int);
    }
}

/// Sort a result list under the selected policy. The output is exactly the
/// stable sort of the input: sorted, a permutation, and with equal keys in
/// input order.
pub fn sort_bookmarks(o: &SortOrder, bms: Vec<Bookmark>) -> (r: Vec<Bookmark>)
    ensures
        r@ == spec_sort(*o, bms@),
{
    let ghost orig = bms@;
    let mut src = bms;
    let total = src.len();
    let mut r: Vec<Bookmark> = Vec::new();
    let mut i: usize = 0;
    proof {
        assert(orig.take(0) =~= Seq::<Bookmark>::empty());
        assert(orig.skip(0) =~= orig);
    }
    while src.len() > 0
        invariant
            total == orig.len(),
            i + src@.len() == orig.len(),
            src@ == orig.skip(i as int),
            r@ == spec_sort(*o, orig.take(i as int)),
        decreases src@.len(),
    {
        let x = src.remove(0);
        proof {
            assert(x == orig[i as int]);
            lemma_spec_sort_props(*o, orig.take(i as int));
        }
        insert_bm(o, &mut r, x);
        proof {
            let t = orig.take(i + 1);
            assert(t.drop_last() =~= orig.take(i as int));
            assert(t.last() == orig[i as int]);
            assert(orig.skip(i as int).remove(0) =~= orig.skip(i + 1));
        }
        i = i + 1;
    }
    proof {
        assert(orig.take(orig.len() as int) =~= orig);
    }
    r
}

} // verus!
