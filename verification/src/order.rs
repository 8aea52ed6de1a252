//! Stable descending insertion sort, specified once over any key.
//!
//! The index and the label table are both presented sorted by a
//! numeric key, descending, with ties kept in the order they arrived.
//! The sort is specified as the classic insertion sort: each element
//! goes after every earlier element whose key is at least its own,
//! which is exactly stability.

use vstd::prelude::*;

use crate::model::EntryV;
use crate::model::MailEntry;
use crate::model::entry_v;

verus! {

/// Insert `e` into `s` after every element whose key is at least
/// `key(e)`.
pub open spec fn insert_by_key<T>(key: spec_fn(T) -> int, e: T, s: Seq<T>) -> Seq<T>
    decreases s.len(),
{
    if s.len() > 0 && key(s[0]) >= key(e) {
        seq![s[0]] + insert_by_key(key, e, s.drop_first())
    } else {
        seq![e] + s
    }
}

/// Stable insertion sort, descending by `key`.
pub open spec fn sort_by_key_desc<T>(key: spec_fn(T) -> int, s: Seq<T>) -> Seq<T>
    decreases s.len(),
{
    if s.len() == 0 {
        s
    } else {
        insert_by_key(key, s.last(), sort_by_key_desc(key, s.drop_last()))
    }
}

/// Keys never increase along the sequence.
pub open spec fn sorted_desc_by<T>(key: spec_fn(T) -> int, s: Seq<T>) -> bool {
    forall|i: int, j: int| 0 <= i < j < s.len() ==> key(s[i]) >= key(s[j])
}

/// Where the insertion lands: after the first `p` elements.
pub proof fn lemma_insert_by_key_at<T>(key: spec_fn(T) -> int, e: T, s: Seq<T>, p: int)
    requires
        0 <= p <= s.len(),
        forall|j: int| 0 <= j < p ==> key(#[trigger] s[j]) >= key(e),
        p == s.len() || key(s[p]) < key(e),
    ensures
        insert_by_key(key, e, s) == s.take(p) + seq![e] + s.skip(p),
    decreases p,
{
    if p == 0 {
        assert(s.take(0) + seq![e] + s.skip(0) =~= seq![e] + s);
    } else {
        let t = s.drop_first();
        assert(forall|j: int| 0 <= j < p - 1 ==> key(#[trigger] t[j]) >= key(e));
        lemma_insert_by_key_at(key, e, t, p - 1);
        assert(seq![s[0]] + (t.take(p - 1) + seq![e] + t.skip(p - 1)) =~= s.take(p) + seq![e]
            + s.skip(p));
    }
}

/// Inserting adds exactly one copy of the element.
pub proof fn lemma_insert_by_key_multiset<T>(key: spec_fn(T) -> int, e: T, s: Seq<T>)
    ensures
        insert_by_key(key, e, s).to_multiset() == s.to_multiset().insert(e),
    decreases s.len(),
{
    broadcast use vstd::seq_lib::group_to_multiset_ensures;

    if s.len() > 0 && key(s[0]) >= key(e) {
        let t = s.drop_first();
        lemma_insert_by_key_multiset(key, e, t);
        assert(seq![s[0]] + insert_by_key(key, e, t) =~= insert_by_key(key, e, t).insert(
            0,
            s[0],
        ));
        vstd::seq_lib::lemma_multiset_commutative(seq![s[0]], insert_by_key(key, e, t));
        assert(seq![s[0]] =~= Seq::<T>::empty().push(s[0]));
        assert(s =~= seq![s[0]] + t);
        vstd::seq_lib::lemma_multiset_commutative(seq![s[0]], t);
        assert(insert_by_key(key, e, s).to_multiset() =~= s.to_multiset().insert(e));
    } else {
        assert(seq![e] + s =~= s.insert(0, e));
        vstd::seq_lib::lemma_multiset_commutative(seq![e], s);
        assert(seq![e] =~= Seq::<T>::empty().push(e));
        assert(insert_by_key(key, e, s).to_multiset() =~= s.to_multiset().insert(e));
    }
}

/// Sorting permutes the sequence.
pub proof fn lemma_sort_by_key_multiset<T>(key: spec_fn(T) -> int, s: Seq<T>)
    ensures
        sort_by_key_desc(key, s).to_multiset() == s.to_multiset(),
    decreases s.len(),
{
    broadcast use vstd::seq_lib::group_to_multiset_ensures;

    if s.len() > 0 {
        lemma_sort_by_key_multiset(key, s.drop_last());
        lemma_insert_by_key_multiset(key, s.last(), sort_by_key_desc(key, s.drop_last()));
        assert(s =~= s.drop_last().push(s.last()));
    }
}

/// Every element of the sorted result comes from the input.
pub proof fn lemma_sort_by_key_contains<T>(key: spec_fn(T) -> int, s: Seq<T>, i: int)
    requires
        0 <= i < sort_by_key_desc(key, s).len(),
    ensures
        s.contains(sort_by_key_desc(key, s)[i]),
{
    broadcast use vstd::seq_lib::group_to_multiset_ensures;

    lemma_sort_by_key_multiset(key, s);
    let x = sort_by_key_desc(key, s)[i];
    assert(sort_by_key_desc(key, s).to_multiset().count(x) > 0);
}

/// Inserting into a sorted sequence keeps it sorted.
pub proof fn lemma_insert_by_key_sorted<T>(key: spec_fn(T) -> int, e: T, s: Seq<T>)
    requires
        sorted_desc_by(key, s),
    ensures
        sorted_desc_by(key, insert_by_key(key, e, s)),
    decreases s.len(),
{
    broadcast use vstd::seq_lib::group_to_multiset_ensures;

    if s.len() > 0 && key(s[0]) >= key(e) {
        let t = s.drop_first();
        assert(sorted_desc_by(key, t));
        lemma_insert_by_key_sorted(key, e, t);
        lemma_insert_by_key_multiset(key, e, t);
        let r = insert_by_key(key, e, s);
        let rt = insert_by_key(key, e, t);
        assert forall|i: int, j: int| 0 <= i < j < r.len() implies key(r[i]) >= key(r[j]) by {
            if i == 0 {
                let x = rt[j - 1];
                assert(rt.to_multiset().count(x) > 0);
                if x == e {
                    assert(key(r[0]) >= key(x));
                } else {
                    assert(t.to_multiset().count(x) > 0);
                    assert(t.contains(x));
                    let w = choose|w: int| 0 <= w < t.len() && t[w] == x;
                    assert(key(s[0]) >= key(t[w]));
                }
            } else {
                assert(key(rt[i - 1]) >= key(rt[j - 1]));
            }
        }
    } else {
        let r = seq![e] + s;
        assert forall|i: int, j: int| 0 <= i < j < r.len() implies key(r[i]) >= key(r[j]) by {
            if i == 0 {
                if s.len() > 0 {
                    assert(key(e) > key(s[0]));
                    assert(key(s[0]) >= key(r[j]) || j == 1);
                }
            } else {
                assert(key(s[i - 1]) >= key(s[j - 1]));
            }
        }
    }
}

/// The sort's result is sorted.
pub proof fn lemma_sort_by_key_sorted<T>(key: spec_fn(T) -> int, s: Seq<T>)
    ensures
        sorted_desc_by(key, sort_by_key_desc(key, s)),
    decreases s.len(),
{
    if s.len() > 0 {
        lemma_sort_by_key_sorted(key, s.drop_last());
        lemma_insert_by_key_sorted(key, s.last(), sort_by_key_desc(key, s.drop_last()));
    }
}

/// The entry order: epoch seconds of the message date.
pub open spec fn entry_key() -> spec_fn(EntryV) -> int {
    |e: EntryV| e.date.epoch_spec()
}

/// Insert one entry into a date-sorted vector, after every entry of
/// the same or a newer date.
pub fn insert_entry_desc(out: &mut Vec<MailEntry>, e: MailEntry)
    requires
        e.date.wf(),
        forall|k: int| 0 <= k < old(out)@.len() ==> (#[trigger] old(out)@[k]).date.wf(),
    ensures
        final(out)@.map_values(|x: MailEntry| entry_v(x)) == insert_by_key(
            entry_key(),
            entry_v(e),
            old(out)@.map_values(|x: MailEntry| entry_v(x)),
        ),
        forall|k: int| 0 <= k < final(out)@.len() ==> (#[trigger] final(out)@[k]).date.wf(),
{
    let ghost m = out@.map_values(|x: MailEntry| entry_v(x));
    let keyv: i64 = e.date.epoch_seconds();
    let n: usize = out.len();
    let mut p: usize = 0;
    while p < n && out[p].date.epoch_seconds() >= keyv
        invariant
            0 <= p <= n == out@.len(),
            keyv == entry_v(e).date.epoch_spec(),
            m == out@.map_values(|x: MailEntry| entry_v(x)),
            forall|k: int| 0 <= k < out@.len() ==> (#[trigger] out@[k]).date.wf(),
            forall|j: int| 0 <= j < p ==> entry_key()(#[trigger] m[j]) >= entry_key()(entry_v(e)),
        decreases n - p,
    {
        proof {
            assert(m[p as int] == entry_v(out@[p as int]));
        }
        p += 1;
    }
    proof {
        if p < n {
            assert(entry_key()(m[p as int]) < entry_key()(entry_v(e)));
        }
        lemma_insert_by_key_at(entry_key(), entry_v(e), m, p as int);
    }
    out.insert(p, e);
    proof {
        assert(final(out)@.map_values(|x: MailEntry| entry_v(x)) =~= m.take(p as int) + seq![
            entry_v(e),
        ] + m.skip(p as int));
    }
}

/// Sort the built index by date, newest first, keeping the build order
/// among equal dates.
pub fn sort_entries_desc(v: Vec<MailEntry>) -> (r: Vec<MailEntry>)
    requires
        forall|k: int| 0 <= k < v@.len() ==> (#[trigger] v@[k]).date.wf(),
    ensures
        r@.map_values(|x: MailEntry| entry_v(x)) == sort_by_key_desc(
            entry_key(),
            v@.map_values(|x: MailEntry| entry_v(x)),
        ),
        forall|k: int| 0 <= k < r@.len() ==> (#[trigger] r@[k]).date.wf(),
{
    let ghost orig = v@.map_values(|x: MailEntry| entry_v(x));
    let total: usize = v.len();
    let mut rest = v;
    let mut out: Vec<MailEntry> = Vec::new();
    proof {
        assert(orig.take(0) =~= Seq::<EntryV>::empty());
        assert(out@.map_values(|x: MailEntry| entry_v(x)) =~= sort_by_key_desc(
            entry_key(),
            orig.take(0),
        ));
    }
    let mut i: usize = 0;
    while rest.len() > 0
        invariant
            i + rest@.len() == total == orig.len(),
            forall|j: int| 0 <= j < rest@.len() ==> entry_v(#[trigger] rest@[j]) == orig[i + j],
            forall|k: int| 0 <= k < rest@.len() ==> (#[trigger] rest@[k]).date.wf(),
            forall|k: int| 0 <= k < out@.len() ==> (#[trigger] out@[k]).date.wf(),
            out@.map_values(|x: MailEntry| entry_v(x)) == sort_by_key_desc(
                entry_key(),
                orig.take(i as int),
            ),
        decreases rest@.len(),
    {
        let ghost prev = rest@;
        let e = rest.remove(0);
        proof {
            assert(entry_v(e) == orig[i as int]);
            assert(rest@ =~= prev.drop_first());
            assert(orig.take(i as int + 1).drop_last() =~= orig.take(i as int));
            assert(orig.take(i as int + 1).last() == orig[i as int]);
        }
        insert_entry_desc(&mut out, e);
        i += 1;
    }
    proof {
        assert(orig.take(total as int) =~= orig);
    }
    out
}

} // verus!
