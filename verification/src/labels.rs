//! Label aggregation: how many entries carry each label.
//!
//! Labels are gathered in index order, first occurrence first, counted
//! by exact byte equality, and presented sorted by count descending
//! with ties left in first-occurrence order.

use vstd::prelude::*;

use crate::model::EntryV;
use crate::model::LabelCount;
use crate::model::MailEntry;
use crate::model::entry_v;
use crate::order::sort_by_key_desc;
use crate::order::insert_by_key;
use crate::order::lemma_insert_by_key_at;
use crate::text::bytes_to_string;
use crate::text::eq_bytes;
use crate::text::lossy_utf8;

verus! {

/// Every label of every entry, in index order.
pub open spec fn labels_cat(es: Seq<EntryV>) -> Seq<Seq<u8>>
    decreases es.len(),
{
    if es.len() == 0 {
        Seq::<Seq<u8>>::empty()
    } else {
        labels_cat(es.drop_last()) + es.last().labels
    }
}

/// How often a label occurs.
pub open spec fn occurrences(ls: Seq<Seq<u8>>, l: Seq<u8>) -> int
    decreases ls.len(),
{
    if ls.len() == 0 {
        0
    } else {
        occurrences(ls.drop_last(), l) + if ls.last() == l {
            1int
        } else {
            0int
        }
    }
}

/// The count is bounded by the length, and zero exactly for absent
/// labels.
pub proof fn lemma_occ_bounds(ls: Seq<Seq<u8>>, l: Seq<u8>)
    ensures
        0 <= occurrences(ls, l) <= ls.len(),
        !ls.contains(l) ==> occurrences(ls, l) == 0,
    decreases ls.len(),
{
    if ls.len() > 0 {
        lemma_occ_bounds(ls.drop_last(), l);
        if !ls.contains(l) {
            assert(!ls.drop_last().contains(l)) by {
                if ls.drop_last().contains(l) {
                    let w = choose|w: int| 0 <= w < ls.len() - 1 && ls.drop_last()[w] == l;
                    assert(ls[w] == l);
                }
            }
            assert(ls.last() != l) by {
                if ls.last() == l {
                    assert(ls[ls.len() - 1] == l);
                }
            }
        }
    }
}

/// One step of the count along a growing prefix.
pub proof fn lemma_occ_step(all: Seq<Seq<u8>>, i: int, l: Seq<u8>)
    requires
        0 <= i < all.len(),
    ensures
        occurrences(all.take(i + 1), l) == occurrences(all.take(i), l) + if all[i] == l {
            1int
        } else {
            0int
        },
{
    assert(all.take(i + 1).drop_last() =~= all.take(i));
    assert(all.take(i + 1).last() == all[i]);
}

/// The distinct labels in order of first occurrence.
pub open spec fn distinct_firsts(ls: Seq<Seq<u8>>) -> Seq<Seq<u8>>
    decreases ls.len(),
{
    if ls.len() == 0 {
        Seq::<Seq<u8>>::empty()
    } else {
        let d = distinct_firsts(ls.drop_last());
        if ls.drop_last().contains(ls.last()) {
            d
        } else {
            d.push(ls.last())
        }
    }
}

/// The distinct labels carry exactly the members of the sequence, each
/// once.
pub proof fn lemma_distinct_firsts_props(ls: Seq<Seq<u8>>)
    ensures
        forall|x: Seq<u8>| distinct_firsts(ls).contains(x) <==> ls.contains(x),
        distinct_firsts(ls).no_duplicates(),
    decreases ls.len(),
{
    if ls.len() > 0 {
        let t = ls.drop_last();
        lemma_distinct_firsts_props(t);
        let d = distinct_firsts(t);
        let dl = distinct_firsts(ls);
        assert forall|x: Seq<u8>| ls.contains(x) implies dl.contains(x) by {
            let w = choose|w: int| 0 <= w < ls.len() && ls[w] == x;
            if w < ls.len() - 1 {
                assert(t[w] == x);
                assert(t.contains(x));
                let u = choose|u: int| 0 <= u < d.len() && d[u] == x;
                assert(dl[u] == x);
                assert(dl.contains(x));
            } else {
                if t.contains(x) {
                    let u = choose|u: int| 0 <= u < d.len() && d[u] == x;
                    assert(dl[u] == x);
                    assert(dl.contains(x));
                } else {
                    assert(dl == d.push(ls.last()));
                    assert(dl[dl.len() - 1] == x);
                    assert(dl.contains(x));
                }
            }
        }
        assert forall|x: Seq<u8>| dl.contains(x) implies ls.contains(x) by {
            let w = choose|w: int| 0 <= w < dl.len() && dl[w] == x;
            if w < d.len() {
                assert(d[w] == x);
                assert(d.contains(x));
                assert(t.contains(x));
                let u = choose|u: int| 0 <= u < t.len() && t[u] == x;
                assert(ls[u] == x);
                assert(ls.contains(x));
            } else {
                assert(x == ls.last());
                assert(ls[ls.len() - 1] == x);
                assert(ls.contains(x));
            }
        }
        assert forall|i: int, j: int|
            0 <= i < dl.len() && 0 <= j < dl.len() && i != j implies dl[i] != dl[j] by {
            if t.contains(ls.last()) {
                assert(dl == d);
            } else {
                assert(dl == d.push(ls.last()));
                assert(!d.contains(ls.last()));
                if i < d.len() && j < d.len() {
                    assert(dl[i] == d[i] && dl[j] == d[j]);
                } else if i < d.len() {
                    assert(dl[j] == ls.last());
                    if dl[i] == dl[j] {
                        assert(d.contains(ls.last()));
                    }
                } else {
                    assert(dl[i] == ls.last());
                    if dl[i] == dl[j] {
                        assert(d.contains(ls.last()));
                    }
                }
            }
        }
    }
}

/// The label table before sorting: each distinct label with its count.
pub open spec fn label_pairs(es: Seq<EntryV>) -> Seq<(Seq<u8>, int)> {
    let all = labels_cat(es);
    distinct_firsts(all).map_values(|l: Seq<u8>| (l, occurrences(all, l)))
}

/// The pair order: the count.
pub open spec fn pair_key() -> spec_fn((Seq<u8>, int)) -> int {
    |p: (Seq<u8>, int)| p.1
}

/// The finished label table: pairs sorted by count descending, ties in
/// first-occurrence order.
pub open spec fn spec_label_counts(es: Seq<EntryV>) -> Seq<(Seq<u8>, int)> {
    sort_by_key_desc(pair_key(), label_pairs(es))
}

/// Gather every label of every entry, in order, as owned bytes.
fn flatten_labels(entries: &Vec<MailEntry>) -> (r: Vec<Vec<u8>>)
    ensures
        r@.map_values(|v: Vec<u8>| v@) == labels_cat(
            entries@.map_values(|e: MailEntry| entry_v(e)),
        ),
{
    let ghost evs = entries@.map_values(|e: MailEntry| entry_v(e));
    let n: usize = entries.len();
    let mut flat: Vec<Vec<u8>> = Vec::new();
    let mut k: usize = 0;
    proof {
        assert(evs.take(0) =~= Seq::<EntryV>::empty());
        assert(flat@.map_values(|v: Vec<u8>| v@) =~= labels_cat(evs.take(0)));
    }
    while k < n
        invariant
            0 <= k <= n == entries@.len(),
            evs == entries@.map_values(|e: MailEntry| entry_v(e)),
            flat@.map_values(|v: Vec<u8>| v@) == labels_cat(evs.take(k as int)),
        decreases n - k,
    {
        let m: usize = entries[k].labels.len();
        let mut j: usize = 0;
        proof {
            assert(entry_v(entries@[k as int]).labels == entries@[k as int].labels@.map_values(
                |l: Vec<u8>| l@,
            ));
        }
        while j < m
            invariant
                0 <= j <= m == entries@[k as int].labels@.len(),
                0 <= k < n == entries@.len(),
                evs == entries@.map_values(|e: MailEntry| entry_v(e)),
                evs[k as int].labels == entries@[k as int].labels@.map_values(|l: Vec<u8>| l@),
                flat@.map_values(|v: Vec<u8>| v@) == labels_cat(evs.take(k as int))
                    + evs[k as int].labels.take(j as int),
            decreases m - j,
        {
            let ghost prevmap = flat@.map_values(|v: Vec<u8>| v@);
            let item = vstd::slice::slice_to_vec(entries[k].labels[j].as_slice());
            let ghost itemv = item@;
            flat.push(item);
            proof {
                assert(flat@.map_values(|v: Vec<u8>| v@) =~= prevmap.push(itemv));
                assert(itemv == evs[k as int].labels[j as int]);
                assert(evs[k as int].labels.take(j as int + 1) =~= evs[k as int].labels.take(
                    j as int,
                ).push(evs[k as int].labels[j as int]));
                assert(flat@.map_values(|v: Vec<u8>| v@) =~= labels_cat(evs.take(k as int))
                    + evs[k as int].labels.take(j as int + 1));
            }
            j += 1;
        }
        proof {
            assert(evs[k as int].labels.take(m as int) =~= evs[k as int].labels);
            assert(evs.take(k as int + 1).drop_last() =~= evs.take(k as int));
            assert(evs.take(k as int + 1).last() == evs[k as int]);
            assert(flat@.map_values(|v: Vec<u8>| v@) =~= labels_cat(evs.take(k as int + 1)));
        }
        k += 1;
    }
    proof {
        assert(evs.take(n as int) =~= evs);
    }
    flat
}

/// Count the flattened labels, first occurrence first.
fn count_flat(flat: &Vec<Vec<u8>>) -> (r: Vec<(Vec<u8>, usize)>)
    ensures
        ({
            let all = flat@.map_values(|v: Vec<u8>| v@);
            let d = distinct_firsts(all);
            &&& r@.len() == d.len()
            &&& forall|q: int|
                0 <= q < d.len() ==> (#[trigger] r@[q]).0@ == d[q] && r@[q].1 == occurrences(
                    all,
                    d[q],
                )
        }),
{
    let ghost all = flat@.map_values(|v: Vec<u8>| v@);
    let n: usize = flat.len();
    let mut acc: Vec<(Vec<u8>, usize)> = Vec::new();
    let mut i: usize = 0;
    proof {
        assert(all.take(0) =~= Seq::<Seq<u8>>::empty());
    }
    while i < n
        invariant
            0 <= i <= n == flat@.len(),
            all == flat@.map_values(|v: Vec<u8>| v@),
            acc@.len() == distinct_firsts(all.take(i as int)).len(),
            forall|q: int|
                0 <= q < acc@.len() ==> (#[trigger] acc@[q]).0@ == distinct_firsts(
                    all.take(i as int),
                )[q] && acc@[q].1 == occurrences(all.take(i as int), distinct_firsts(
                    all.take(i as int),
                )[q]),
        decreases n - i,
    {
        let ghost pre = all.take(i as int);
        let ghost d = distinct_firsts(pre);
        let cur = &flat[i];
        proof {
            assert(cur@ == all[i as int]);
            lemma_distinct_firsts_props(pre);
            assert(all.take(i as int + 1).drop_last() =~= pre);
            assert(all.take(i as int + 1).last() == all[i as int]);
        }
        let m: usize = acc.len();
        let mut p: usize = 0;
        while p < m && !eq_bytes(acc[p].0.as_slice(), cur.as_slice())
            invariant
                0 <= p <= m == acc@.len(),
                cur@ == all[i as int],
                forall|q: int| 0 <= q < p ==> (#[trigger] acc@[q]).0@ != cur@,
            decreases m - p,
        {
            p += 1;
        }
        if p < m {
            proof {
                assert(acc@[p as int].0@ == cur@);
                assert(d[p as int] == cur@);
                assert(d.contains(cur@));
                assert(pre.contains(cur@));
                assert(distinct_firsts(all.take(i as int + 1)) == d);
            }
            let ghost prev_acc = acc@;
            let pr = acc.remove(p);
            let count = pr.1;
            proof {
                assert(prev_acc[p as int] == pr);
                assert(count == occurrences(pre, cur@));
                lemma_occ_bounds(pre, cur@);
            }
            acc.insert(p, (pr.0, count + 1));
            proof {
                assert(acc@ =~= prev_acc.update(p as int, (prev_acc[p as int].0, (count
                    + 1) as usize)));
                lemma_occ_step(all, i as int, cur@);
                assert forall|q: int|
                    0 <= q < d.len() && q != p implies occurrences(
                    all.take(i as int + 1),
                    #[trigger] d[q],
                ) == occurrences(pre, d[q]) by {
                    assert(d[q] != cur@) by {
                        if d[q] == cur@ {
                            assert(d[p as int] == d[q]);
                        }
                    }
                    lemma_occ_step(all, i as int, d[q]);
                }
            }
        } else {
            proof {
                assert(forall|q: int| 0 <= q < d.len() ==> (#[trigger] acc@[q]).0@ != cur@);
                assert(!d.contains(cur@)) by {
                    if d.contains(cur@) {
                        let w = choose|w: int| 0 <= w < d.len() && d[w] == cur@;
                        assert(acc@[w].0@ == d[w]);
                    }
                }
                assert(!pre.contains(cur@));
                assert(distinct_firsts(all.take(i as int + 1)) == d.push(cur@));
                lemma_occ_bounds(pre, cur@);
            }
            let copy = vstd::slice::slice_to_vec(cur.as_slice());
            acc.push((copy, 1));
            proof {
                lemma_occ_step(all, i as int, cur@);
                assert forall|q: int| 0 <= q < d.len() implies occurrences(
                    all.take(i as int + 1),
                    #[trigger] d[q],
                ) == occurrences(pre, d[q]) by {
                    assert(d[q] != cur@) by {
                        if d[q] == cur@ {
                            assert(d.contains(cur@));
                        }
                    }
                    lemma_occ_step(all, i as int, d[q]);
                }
            }
        }
        i += 1;
    }
    proof {
        assert(all.take(n as int) =~= all);
    }
    acc
}

/// Insert one pair into a count-sorted table, after every pair with
/// the same or a greater count.
fn insert_pair_desc(out: &mut Vec<(Vec<u8>, usize)>, pr: (Vec<u8>, usize))
    ensures
        final(out)@.map_values(|p: (Vec<u8>, usize)| (p.0@, p.1 as int)) == insert_by_key(
            pair_key(),
            (pr.0@, pr.1 as int),
            old(out)@.map_values(|p: (Vec<u8>, usize)| (p.0@, p.1 as int)),
        ),
{
    let ghost m = out@.map_values(|p: (Vec<u8>, usize)| (p.0@, p.1 as int));
    let keyv: usize = pr.1;
    let n: usize = out.len();
    let mut p: usize = 0;
    while p < n && out[p].1 >= keyv
        invariant
            0 <= p <= n == out@.len(),
            m == out@.map_values(|p: (Vec<u8>, usize)| (p.0@, p.1 as int)),
            forall|j: int| 0 <= j < p ==> pair_key()(#[trigger] m[j]) >= keyv,
        decreases n - p,
    {
        proof {
            assert(m[p as int] == (out@[p as int].0@, out@[p as int].1 as int));
        }
        p += 1;
    }
    proof {
        if p < n {
            assert(m[p as int] == (out@[p as int].0@, out@[p as int].1 as int));
            assert(pair_key()(m[p as int]) < keyv);
        }
        lemma_insert_by_key_at(pair_key(), (pr.0@, pr.1 as int), m, p as int);
    }
    out.insert(p, pr);
    proof {
        assert(final(out)@.map_values(|p: (Vec<u8>, usize)| (p.0@, p.1 as int)) =~= m.take(
            p as int,
        ) + seq![(pr.0@, pr.1 as int)] + m.skip(p as int));
    }
}

/// The finished label table of an index, as boundary records.
pub fn label_counts_of(entries: &Vec<MailEntry>) -> (r: Vec<LabelCount>)
    ensures
        r@.map_values(|lc: LabelCount| (lc.label@, lc.count as int)) == spec_label_counts(
            entries@.map_values(|e: MailEntry| entry_v(e)),
        ).map_values(|p: (Seq<u8>, int)| (lossy_utf8(p.0), p.1)),
{
    let ghost evs = entries@.map_values(|e: MailEntry| entry_v(e));
    let flat = flatten_labels(entries);
    let pairs = count_flat(&flat);
    let ghost pv = pairs@.map_values(|p: (Vec<u8>, usize)| (p.0@, p.1 as int));
    proof {
        assert(pv =~= label_pairs(evs));
    }
    let total: usize = pairs.len();
    let mut rest = pairs;
    let mut sorted: Vec<(Vec<u8>, usize)> = Vec::new();
    proof {
        assert(pv.take(0) =~= Seq::<(Seq<u8>, int)>::empty());
        assert(sorted@.map_values(|p: (Vec<u8>, usize)| (p.0@, p.1 as int))
            =~= sort_by_key_desc(pair_key(), pv.take(0)));
    }
    let mut i: usize = 0;
    while rest.len() > 0
        invariant
            i + rest@.len() == total == pv.len(),
            forall|j: int|
                0 <= j < rest@.len() ==> ((#[trigger] rest@[j]).0@, rest@[j].1 as int) == pv[i
                    + j],
            sorted@.map_values(|p: (Vec<u8>, usize)| (p.0@, p.1 as int)) == sort_by_key_desc(
                pair_key(),
                pv.take(i as int),
            ),
        decreases rest@.len(),
    {
        let ghost prev = rest@;
        let pr = rest.remove(0);
        proof {
            assert((pr.0@, pr.1 as int) == pv[i as int]);
            assert(rest@ =~= prev.drop_first());
            assert(pv.take(i as int + 1).drop_last() =~= pv.take(i as int));
            assert(pv.take(i as int + 1).last() == pv[i as int]);
        }
        insert_pair_desc(&mut sorted, pr);
        i += 1;
    }
    proof {
        assert(pv.take(total as int) =~= pv);
    }
    let n: usize = sorted.len();
    let mut r: Vec<LabelCount> = Vec::new();
    let mut k: usize = 0;
    let ghost sv = sorted@.map_values(|p: (Vec<u8>, usize)| (p.0@, p.1 as int));
    while k < n
        invariant
            0 <= k <= n == sorted@.len(),
            sv == sorted@.map_values(|p: (Vec<u8>, usize)| (p.0@, p.1 as int)),
            r@.len() == k,
            forall|j: int|
                0 <= j < k ==> (#[trigger] r@[j]).label@ == lossy_utf8(sv[j].0) && r@[j].count
                    == sv[j].1,
        decreases n - k,
    {
        proof {
            assert(sv[k as int] == (sorted@[k as int].0@, sorted@[k as int].1 as int));
        }
        let label = bytes_to_string(sorted[k].0.as_slice());
        let count = sorted[k].1;
        r.push(LabelCount { label, count });
        k += 1;
    }
    proof {
        assert(r@.map_values(|lc: LabelCount| (lc.label@, lc.count as int)) =~= sv.map_values(
            |p: (Seq<u8>, int)| (lossy_utf8(p.0), p.1),
        ));
    }
    r
}

} // verus!
