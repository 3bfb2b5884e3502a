//! The mathematical model of the index: a sequence of keyed buckets without
//! repeated keys, in the order in which the keys first came in, with the
//! facts about it that the executable index is proved from.

use crate::calc::{NameDigestView, SumView};
use crate::extension::Extension;
use crate::sorting::{
    lemma_sort_len, lemma_sort_permutes, lemma_sort_sorted, sort_by_name, sorted_by_name,
};
use vstd::multiset::Multiset;
use vstd::prelude::*;

verus! {

/// A bucket with its key.
pub type Keyed = (Seq<char>, SumView);

/// Position of the bucket with the given key, or -1 where there is none.
pub open spec fn key_index(s: Seq<Keyed>, key: Seq<char>) -> int
    decreases s.len(),
{
    if s.len() == 0 {
        -1
    } else if s.last().0 == key {
        s.len() - 1
    } else {
        key_index(s.drop_last(), key)
    }
}

/// No key occurs twice.
pub open spec fn distinct_keys(s: Seq<Keyed>) -> bool {
    forall|i: int, j: int| 0 <= i < j < s.len() ==> (#[trigger] s[i]).0 != (#[trigger] s[j]).0
}

/// The number of records in all buckets together.
pub open spec fn total_count(s: Seq<Keyed>) -> nat
    decreases s.len(),
{
    if s.len() == 0 {
        0
    } else {
        total_count(s.drop_last()) + s.last().1.sum
    }
}

/// What every index satisfies: keys are unique, every bucket counts its
/// own records, and the number of records fits the counter.
pub open spec fn valid_buckets(s: Seq<Keyed>) -> bool {
    &&& distinct_keys(s)
    &&& forall|i: int| 0 <= i < s.len() ==> (#[trigger] s[i]).1.wf()
    &&& total_count(s) <= u32::MAX
}

/// The buckets as a map from key to bucket, forgetting their order.
pub open spec fn as_map(s: Seq<Keyed>) -> Map<Seq<char>, SumView> {
    Map::new(|k: Seq<char>| key_index(s, k) >= 0, |k: Seq<char>| s[key_index(s, k)].1)
}

/// The buckets after one file of the given category came in under `key`:
/// it joins the bucket of that key, or opens a new bucket at the end.
/// A file of an ignored category changes nothing.
pub open spec fn with_file(
    s: Seq<Keyed>,
    key: Seq<char>,
    ext: Extension,
    rec: NameDigestView,
) -> Seq<Keyed> {
    let i = key_index(s, key);
    if ext == Extension::Other {
        s
    } else if i >= 0 {
        s.update(i, (key, s[i].1.with_record(ext, rec)))
    } else {
        s.push((key, SumView::empty().with_record(ext, rec)))
    }
}

/// The buckets after a whole bucket came in: it is combined with the bucket
/// of the same key, or put at the end.
pub open spec fn merge_bucket(s: Seq<Keyed>, b: Keyed) -> Seq<Keyed> {
    let i = key_index(s, b.0);
    if i >= 0 {
        s.update(i, (b.0, s[i].1.combine(b.1)))
    } else {
        s.push(b)
    }
}

/// The buckets of `a` after those of `b` came in one by one, in order.
pub open spec fn merge_buckets(a: Seq<Keyed>, b: Seq<Keyed>) -> Seq<Keyed>
    decreases b.len(),
{
    if b.len() == 0 {
        a
    } else {
        merge_bucket(merge_buckets(a, b.drop_last()), b.last())
    }
}

/// `key_index` finds the key where it occurs, and only there when keys are
/// unique.
pub proof fn lemma_key_index(s: Seq<Keyed>, key: Seq<char>)
    ensures
        -1 <= key_index(s, key) < s.len(),
        key_index(s, key) >= 0 ==> s[key_index(s, key)].0 == key,
        key_index(s, key) == -1 ==> forall|i: int| 0 <= i < s.len() ==> (#[trigger] s[i]).0 != key,
        distinct_keys(s) ==> forall|i: int|
            0 <= i < s.len() && (#[trigger] s[i]).0 == key ==> key_index(s, key) == i,
    decreases s.len(),
{
    if s.len() > 0 {
        let t = s.drop_last();
        lemma_key_index(t, key);
        if s.last().0 != key {
            assert forall|i: int| 0 <= i < s.len() && (#[trigger] s[i]).0 == key
                && distinct_keys(s) implies key_index(s, key) == i by {
                assert(t[i] == s[i]);
            }
            if key_index(s, key) == -1 {
                assert forall|i: int| 0 <= i < s.len() implies (#[trigger] s[i]).0 != key by {
                    if i < t.len() {
                        assert(t[i] == s[i]);
                    }
                }
            }
        }
    }
}

/// Replacing one bucket changes the total by the difference of the counts.
pub proof fn lemma_total_update(s: Seq<Keyed>, i: int, b: Keyed)
    requires
        0 <= i < s.len(),
    ensures
        total_count(s.update(i, b)) == total_count(s) - s[i].1.sum + b.1.sum,
    decreases s.len(),
{
    let u = s.update(i, b);
    if i == s.len() - 1 {
        assert(u.drop_last() =~= s.drop_last());
    } else {
        lemma_total_update(s.drop_last(), i, b);
        assert(u.drop_last() =~= s.drop_last().update(i, b));
    }
}

/// No bucket holds more records than the whole index.
pub proof fn lemma_total_bounds_entry(s: Seq<Keyed>, i: int)
    requires
        0 <= i < s.len(),
    ensures
        s[i].1.sum <= total_count(s),
    decreases s.len(),
{
    if i < s.len() - 1 {
        lemma_total_bounds_entry(s.drop_last(), i);
    }
}

/// A new bucket at the end adds its count to the total.
pub proof fn lemma_total_push(s: Seq<Keyed>, b: Keyed)
    ensures
        total_count(s.push(b)) == total_count(s) + b.1.sum,
{
    assert(s.push(b).drop_last() =~= s);
}

/// A prefix holds no more records than the whole.
pub proof fn lemma_total_take(s: Seq<Keyed>, n: int)
    requires
        0 <= n <= s.len(),
    ensures
        total_count(s.take(n)) <= total_count(s),
    decreases s.len(),
{
    if n < s.len() {
        lemma_total_take(s.drop_last(), n);
        assert(s.drop_last().take(n) =~= s.take(n));
    } else {
        assert(s.take(n) =~= s);
    }
}

/// One more file keeps the buckets valid and adds one to the total, unless
/// its category is ignored.
pub proof fn lemma_with_file(s: Seq<Keyed>, key: Seq<char>, ext: Extension, rec: NameDigestView)
    requires
        valid_buckets(s),
        total_count(s) < u32::MAX,
    ensures
        valid_buckets(with_file(s, key, ext, rec)),
        total_count(with_file(s, key, ext, rec)) == total_count(s) + if ext == Extension::Other {
            0nat
        } else {
            1nat
        },
{
    let i = key_index(s, key);
    lemma_key_index(s, key);
    if ext != Extension::Other {
        if i >= 0 {
            lemma_total_update(s, i, (key, s[i].1.with_record(ext, rec)));
        } else {
            lemma_total_push(s, (key, SumView::empty().with_record(ext, rec)));
        }
    }
}

/// One more bucket keeps the buckets valid and adds its count to the total.
pub proof fn lemma_merge_bucket(s: Seq<Keyed>, b: Keyed)
    requires
        valid_buckets(s),
        b.1.wf(),
        total_count(s) + b.1.sum <= u32::MAX,
    ensures
        valid_buckets(merge_bucket(s, b)),
        total_count(merge_bucket(s, b)) == total_count(s) + b.1.sum,
{
    let i = key_index(s, b.0);
    lemma_key_index(s, b.0);
    if i >= 0 {
        lemma_total_update(s, i, (b.0, s[i].1.combine(b.1)));
    } else {
        lemma_total_push(s, b);
    }
}

/// Merging keeps the buckets valid, and the totals add up.
pub proof fn lemma_merge_buckets(a: Seq<Keyed>, b: Seq<Keyed>)
    requires
        valid_buckets(a),
        forall|i: int| 0 <= i < b.len() ==> (#[trigger] b[i]).1.wf(),
        total_count(a) + total_count(b) <= u32::MAX,
    ensures
        valid_buckets(merge_buckets(a, b)),
        total_count(merge_buckets(a, b)) == total_count(a) + total_count(b),
    decreases b.len(),
{
    if b.len() > 0 {
        let t = b.drop_last();
        lemma_merge_buckets(a, t);
        lemma_merge_bucket(merge_buckets(a, t), b.last());
    }
}

/// The bucket with its pictures and its movies each in the order of their
/// names.
pub open spec fn sorted_entry(e: SumView) -> SumView {
    SumView { pic: sort_by_name(e.pic), mov: sort_by_name(e.mov), sum: e.sum }
}

/// The buckets, each sorted within.
pub open spec fn sorted_buckets(s: Seq<Keyed>) -> Seq<Keyed> {
    s.map_values(|b: Keyed| (b.0, sorted_entry(b.1)))
}

/// Buckets with the same keys have the same positions.
pub proof fn lemma_key_index_same_keys(s: Seq<Keyed>, t: Seq<Keyed>, key: Seq<char>)
    requires
        s.len() == t.len(),
        forall|i: int| 0 <= i < s.len() ==> (#[trigger] s[i]).0 == t[i].0,
    ensures
        key_index(s, key) == key_index(t, key),
    decreases s.len(),
{
    if s.len() > 0 {
        lemma_key_index_same_keys(s.drop_last(), t.drop_last(), key);
    }
}

/// Buckets with the same counts have the same total.
pub proof fn lemma_total_same_sums(s: Seq<Keyed>, t: Seq<Keyed>)
    requires
        s.len() == t.len(),
        forall|i: int| 0 <= i < s.len() ==> (#[trigger] s[i]).1.sum == t[i].1.sum,
    ensures
        total_count(s) == total_count(t),
    decreases s.len(),
{
    if s.len() > 0 {
        lemma_total_same_sums(s.drop_last(), t.drop_last());
    }
}

/// Sorting within the buckets keeps them valid, keeps the total and leaves
/// every bucket sorted, with the records that it had.
pub proof fn lemma_sorted_buckets(s: Seq<Keyed>)
    requires
        valid_buckets(s),
    ensures
        valid_buckets(sorted_buckets(s)),
        total_count(sorted_buckets(s)) == total_count(s),
        forall|i: int|
            0 <= i < s.len() ==> {
                let b = #[trigger] sorted_buckets(s)[i];
                &&& b.0 == s[i].0
                &&& sorted_by_name(b.1.pic)
                &&& sorted_by_name(b.1.mov)
                &&& b.1.pic.to_multiset() == s[i].1.pic.to_multiset()
                &&& b.1.mov.to_multiset() == s[i].1.mov.to_multiset()
                &&& b.1.sum == s[i].1.sum
            },
{
    let t = sorted_buckets(s);
    assert forall|i: int| 0 <= i < s.len() implies {
        let b = #[trigger] t[i];
        &&& b.0 == s[i].0
        &&& b.1.wf()
        &&& sorted_by_name(b.1.pic)
        &&& sorted_by_name(b.1.mov)
        &&& b.1.pic.to_multiset() == s[i].1.pic.to_multiset()
        &&& b.1.mov.to_multiset() == s[i].1.mov.to_multiset()
        &&& b.1.sum == s[i].1.sum
    } by {
        lemma_sort_len(s[i].1.pic);
        lemma_sort_len(s[i].1.mov);
        lemma_sort_sorted(s[i].1.pic);
        lemma_sort_sorted(s[i].1.mov);
        lemma_sort_permutes(s[i].1.pic);
        lemma_sort_permutes(s[i].1.mov);
    }
    lemma_total_same_sums(t, s);
    assert(distinct_keys(t)) by {
        assert forall|i: int, j: int| 0 <= i < j < t.len() implies (#[trigger] t[i]).0 != (
        #[trigger] t[j]).0 by {
            assert(s[i].0 != s[j].0);
        }
    }
}

/// Two maps of buckets put together: a key of both gets the records of
/// both, those of the first map in front.
pub open spec fn combined(
    x: Map<Seq<char>, SumView>,
    y: Map<Seq<char>, SumView>,
) -> Map<Seq<char>, SumView> {
    Map::new(
        |k: Seq<char>| x.contains_key(k) || y.contains_key(k),
        |k: Seq<char>|
            if x.contains_key(k) && y.contains_key(k) {
                x[k].combine(y[k])
            } else if x.contains_key(k) {
                x[k]
            } else {
                y[k]
            },
    )
}

/// A bucket without the order of its records: which pictures and which
/// movies it holds, each with the number of times, and its count.
pub type Unordered = (Multiset<NameDigestView>, Multiset<NameDigestView>, nat);

/// The map of buckets without the order of the records in them.
pub open spec fn unordered(m: Map<Seq<char>, SumView>) -> Map<Seq<char>, Unordered> {
    m.map_values(|e: SumView| (e.pic.to_multiset(), e.mov.to_multiset(), e.sum))
}

/// A new key at the end is a new key in the map.
pub proof fn lemma_as_map_push(s: Seq<Keyed>, b: Keyed)
    requires
        key_index(s, b.0) == -1,
    ensures
        as_map(s.push(b)) == as_map(s).insert(b.0, b.1),
{
    let t = s.push(b);
    assert(t.drop_last() =~= s);
    assert forall|k: Seq<char>| key_index(t, k) == (if k == b.0 {
        s.len() as int
    } else {
        key_index(s, k)
    }) by {}
    assert forall|k: Seq<char>| #[trigger] as_map(t).contains_key(k) implies as_map(t)[k]
        == as_map(s).insert(b.0, b.1)[k] by {
        lemma_key_index(s, k);
    }
}

/// A new bucket under a key that is there takes that key's place in the map.
pub proof fn lemma_as_map_update(s: Seq<Keyed>, i: int, e: SumView)
    requires
        distinct_keys(s),
        0 <= i < s.len(),
    ensures
        as_map(s.update(i, (s[i].0, e))) == as_map(s).insert(s[i].0, e),
{
    let t = s.update(i, (s[i].0, e));
    assert forall|k: Seq<char>| key_index(t, k) == key_index(s, k) by {
        lemma_key_index_same_keys(t, s, k);
    }
    assert forall|k: Seq<char>| #[trigger] as_map(t).contains_key(k) implies as_map(t)[k]
        == as_map(s).insert(s[i].0, e)[k] by {
        lemma_key_index(s, k);
        lemma_key_index(s, s[i].0);
    }
    lemma_key_index(s, s[i].0);
}

/// One more bucket keeps the keys unique.
pub proof fn lemma_merge_bucket_distinct(s: Seq<Keyed>, b: Keyed)
    requires
        distinct_keys(s),
    ensures
        distinct_keys(merge_bucket(s, b)),
{
    lemma_key_index(s, b.0);
}

/// Merging keeps the keys unique.
pub proof fn lemma_merge_buckets_distinct(a: Seq<Keyed>, b: Seq<Keyed>)
    requires
        distinct_keys(a),
    ensures
        distinct_keys(merge_buckets(a, b)),
    decreases b.len(),
{
    if b.len() > 0 {
        lemma_merge_buckets_distinct(a, b.drop_last());
        lemma_merge_bucket_distinct(merge_buckets(a, b.drop_last()), b.last());
    }
}

/// In the map, one more bucket is put under its key, combined with what
/// was there.
pub proof fn lemma_merge_bucket_map(s: Seq<Keyed>, b: Keyed)
    requires
        distinct_keys(s),
    ensures
        as_map(merge_bucket(s, b)) == as_map(s).insert(
            b.0,
            if as_map(s).contains_key(b.0) {
                as_map(s)[b.0].combine(b.1)
            } else {
                b.1
            },
        ),
{
    let i = key_index(s, b.0);
    lemma_key_index(s, b.0);
    if i >= 0 {
        lemma_as_map_update(s, i, s[i].1.combine(b.1));
    } else {
        lemma_as_map_push(s, b);
    }
}

/// As maps, merging is putting the two maps together.
pub proof fn lemma_merge_map(a: Seq<Keyed>, b: Seq<Keyed>)
    requires
        distinct_keys(a),
        distinct_keys(b),
    ensures
        as_map(merge_buckets(a, b)) == combined(as_map(a), as_map(b)),
    decreases b.len(),
{
    if b.len() == 0 {
        assert(as_map(b) =~= Map::<Seq<char>, SumView>::empty()) by {
            assert forall|k: Seq<char>| !as_map(b).contains_key(k) by {}
        }
    } else {
        let t = b.drop_last();
        let last = b.last();
        let m = merge_buckets(a, t);
        lemma_merge_map(a, t);
        lemma_merge_buckets_distinct(a, t);
        lemma_merge_bucket_map(m, last);
        lemma_key_index(t, last.0);
        assert(key_index(t, last.0) == -1);
        assert(t.push(last) =~= b);
        lemma_as_map_push(t, last);
    }
}

/// Merging three indexes gives the same index whichever two are merged
/// first: the same keys with the same records in the same order.
pub proof fn lemma_merge_associative(a: Seq<Keyed>, b: Seq<Keyed>, c: Seq<Keyed>)
    requires
        distinct_keys(a),
        distinct_keys(b),
        distinct_keys(c),
    ensures
        as_map(merge_buckets(merge_buckets(a, b), c)) == as_map(
            merge_buckets(a, merge_buckets(b, c)),
        ),
{
    lemma_merge_buckets_distinct(a, b);
    lemma_merge_buckets_distinct(b, c);
    lemma_merge_map(a, b);
    lemma_merge_map(merge_buckets(a, b), c);
    lemma_merge_map(b, c);
    lemma_merge_map(a, merge_buckets(b, c));
    let x = as_map(a);
    let y = as_map(b);
    let z = as_map(c);
    let left = combined(combined(x, y), z);
    let right = combined(x, combined(y, z));
    assert forall|k: Seq<char>| #[trigger] left.contains_key(k) implies left[k] == right[k] by {
        if x.contains_key(k) && y.contains_key(k) && z.contains_key(k) {
            assert(x[k].combine(y[k]).combine(z[k]) =~= x[k].combine(y[k].combine(z[k])));
        }
    }
}

/// Merging two indexes in either order gives the same keys, and under
/// every key the same pictures and the same movies, each as often, and the
/// same count. Only the order of the records in a bucket depends on the
/// order of merging.
pub proof fn lemma_merge_commutative(a: Seq<Keyed>, b: Seq<Keyed>)
    requires
        distinct_keys(a),
        distinct_keys(b),
    ensures
        unordered(as_map(merge_buckets(a, b))) == unordered(as_map(merge_buckets(b, a))),
{
    lemma_merge_map(a, b);
    lemma_merge_map(b, a);
    let x = as_map(a);
    let y = as_map(b);
    let left = unordered(combined(x, y));
    let right = unordered(combined(y, x));
    assert forall|k: Seq<char>| #[trigger] left.contains_key(k) implies left[k] == right[k] by {
        if x.contains_key(k) && y.contains_key(k) {
            vstd::seq_lib::lemma_seq_union_to_multiset_commutative(x[k].pic, y[k].pic);
            vstd::seq_lib::lemma_seq_union_to_multiset_commutative(x[k].mov, y[k].mov);
        }
    }
}

/// One more file keeps the keys unique.
pub proof fn lemma_with_file_distinct(
    s: Seq<Keyed>,
    key: Seq<char>,
    ext: Extension,
    rec: NameDigestView,
)
    requires
        distinct_keys(s),
    ensures
        distinct_keys(with_file(s, key, ext, rec)),
{
    lemma_key_index(s, key);
}

/// A key of either index is a key of the merged index.
pub proof fn lemma_merge_keeps_keys(a: Seq<Keyed>, b: Seq<Keyed>, key: Seq<char>)
    requires
        distinct_keys(a),
        distinct_keys(b),
        key_index(a, key) >= 0 || key_index(b, key) >= 0,
    ensures
        key_index(merge_buckets(a, b), key) >= 0,
{
    lemma_merge_map(a, b);
    assert(as_map(merge_buckets(a, b)).contains_key(key));
}

/// Filing a file under a key that is there, and taking in a bucket of
/// another key, can be done in either order.
pub proof fn lemma_file_then_bucket(
    m: Seq<Keyed>,
    b: Keyed,
    key: Seq<char>,
    ext: Extension,
    rec: NameDigestView,
)
    requires
        distinct_keys(m),
        b.0 != key,
        key_index(m, key) >= 0,
    ensures
        merge_bucket(with_file(m, key, ext, rec), b) == with_file(
            merge_bucket(m, b),
            key,
            ext,
            rec,
        ),
{
    if ext != Extension::Other {
        let i = key_index(m, key);
        let filed = with_file(m, key, ext, rec);
        let taken = merge_bucket(m, b);
        lemma_key_index(m, key);
        lemma_key_index(m, b.0);
        lemma_key_index_same_keys(filed, m, b.0);
        lemma_merge_bucket_distinct(m, b);
        lemma_key_index(taken, key);
        assert(taken[i].0 == key);
    }
}

/// Merging an index into which one more file was filed gives what filing
/// the file into the merged index gives.
pub proof fn lemma_merge_with_file(
    x: Seq<Keyed>,
    y: Seq<Keyed>,
    key: Seq<char>,
    ext: Extension,
    rec: NameDigestView,
)
    requires
        distinct_keys(x),
        distinct_keys(y),
    ensures
        merge_buckets(x, with_file(y, key, ext, rec)) == with_file(
            merge_buckets(x, y),
            key,
            ext,
            rec,
        ),
    decreases y.len(),
{
    if ext != Extension::Other {
        let i = key_index(y, key);
        let filed = with_file(y, key, ext, rec);
        let single = SumView::empty().with_record(ext, rec);
        lemma_key_index(y, key);
        if i == -1 {
            let m = merge_buckets(x, y);
            assert(filed.drop_last() =~= y);
            lemma_merge_buckets_distinct(x, y);
            lemma_key_index(m, key);
            let j = key_index(m, key);
            if j >= 0 {
                assert(m[j].1.combine(single) =~= m[j].1.with_record(ext, rec));
            }
        } else {
            let init = y.drop_last();
            let last = y.last();
            let m = merge_buckets(x, init);
            lemma_merge_buckets_distinct(x, init);
            if i == y.len() - 1 {
                assert(filed.drop_last() =~= init);
                lemma_key_index(m, key);
                let j = key_index(m, key);
                lemma_merge_bucket_distinct(m, last);
                lemma_key_index(merge_bucket(m, last), key);
                if j >= 0 {
                    assert(merge_bucket(m, last)[j].0 == key);
                } else {
                    assert(merge_bucket(m, last)[m.len() as int].0 == key);
                }
            } else {
                assert(last.0 != key) by {
                    assert(y[i].0 != y[y.len() - 1].0);
                }
                assert(filed.drop_last() =~= with_file(init, key, ext, rec));
                lemma_merge_with_file(x, init, key, ext, rec);
                lemma_merge_keeps_keys(x, init, key);
                lemma_file_then_bucket(m, last, key, ext, rec);
            }
        }
    }
}

/// The buckets of several indexes merged into one, in order.
pub open spec fn merged(parts: Seq<Seq<Keyed>>) -> Seq<Keyed>
    decreases parts.len(),
{
    if parts.len() == 0 {
        Seq::empty()
    } else {
        merge_buckets(merged(parts.drop_last()), parts.last())
    }
}

/// The number of records in several indexes together.
pub open spec fn totals(parts: Seq<Seq<Keyed>>) -> nat
    decreases parts.len(),
{
    if parts.len() == 0 {
        0
    } else {
        totals(parts.drop_last()) + total_count(parts.last())
    }
}

/// Merging valid indexes gives a valid index with the records of all.
pub proof fn lemma_merged(parts: Seq<Seq<Keyed>>)
    requires
        forall|i: int| 0 <= i < parts.len() ==> valid_buckets(#[trigger] parts[i]),
        totals(parts) <= u32::MAX,
    ensures
        valid_buckets(merged(parts)),
        total_count(merged(parts)) == totals(parts),
    decreases parts.len(),
{
    if parts.len() > 0 {
        let init = parts.drop_last();
        lemma_merged(init);
        lemma_merge_buckets(merged(init), parts.last());
    }
}

/// The indexes before the `n`-th hold no more records than all together.
pub proof fn lemma_totals_take(parts: Seq<Seq<Keyed>>, n: int)
    requires
        0 <= n <= parts.len(),
    ensures
        totals(parts.take(n)) <= totals(parts),
    decreases parts.len(),
{
    if n < parts.len() {
        assert(parts.drop_last().take(n) =~= parts.take(n));
        lemma_totals_take(parts.drop_last(), n);
    } else {
        assert(parts.take(n) =~= parts);
    }
}

/// Two maps of unordered buckets put together: a key of both gets the
/// records of both.
pub open spec fn joined(
    x: Map<Seq<char>, Unordered>,
    y: Map<Seq<char>, Unordered>,
) -> Map<Seq<char>, Unordered> {
    Map::new(
        |k: Seq<char>| x.contains_key(k) || y.contains_key(k),
        |k: Seq<char>|
            if x.contains_key(k) && y.contains_key(k) {
                (x[k].0.add(y[k].0), x[k].1.add(y[k].1), x[k].2 + y[k].2)
            } else if x.contains_key(k) {
                x[k]
            } else {
                y[k]
            },
    )
}

/// What several indexes hold together once they are merged, without the
/// order of the records in the buckets.
pub open spec fn gathered(parts: Seq<Seq<Keyed>>) -> Map<Seq<char>, Unordered> {
    unordered(as_map(merged(parts)))
}

/// Every one of the indexes has unique keys.
pub open spec fn all_distinct(parts: Seq<Seq<Keyed>>) -> bool {
    forall|i: int| 0 <= i < parts.len() ==> distinct_keys(#[trigger] parts[i])
}

/// Without the order of the records, putting two maps together is joining
/// them.
pub proof fn lemma_unordered_combined(x: Map<Seq<char>, SumView>, y: Map<Seq<char>, SumView>)
    ensures
        unordered(combined(x, y)) == joined(unordered(x), unordered(y)),
{
    let left = unordered(combined(x, y));
    let right = joined(unordered(x), unordered(y));
    assert forall|k: Seq<char>| #[trigger] left.contains_key(k) implies left[k] == right[k] by {
        if x.contains_key(k) && y.contains_key(k) {
            vstd::seq_lib::lemma_multiset_commutative(x[k].pic, y[k].pic);
            vstd::seq_lib::lemma_multiset_commutative(x[k].mov, y[k].mov);
        }
    }
}

/// Joining is commutative and associative.
pub proof fn lemma_joined_laws(
    x: Map<Seq<char>, Unordered>,
    y: Map<Seq<char>, Unordered>,
    z: Map<Seq<char>, Unordered>,
)
    ensures
        joined(x, y) == joined(y, x),
        joined(joined(x, y), z) == joined(x, joined(y, z)),
{
    assert forall|k: Seq<char>| #[trigger] joined(x, y).contains_key(k) implies joined(x, y)[k]
        == joined(y, x)[k] by {
        if x.contains_key(k) && y.contains_key(k) {
            assert(x[k].1.add(y[k].1) =~= y[k].1.add(x[k].1));
        }
    }
    let left = joined(joined(x, y), z);
    let right = joined(x, joined(y, z));
    assert forall|k: Seq<char>| #[trigger] left.contains_key(k) implies left[k] == right[k] by {
        if x.contains_key(k) && y.contains_key(k) && z.contains_key(k) {
            assert(x[k].1.add(y[k].1).add(z[k].1) =~= x[k].1.add(y[k].1.add(z[k].1)));
        }
    }
}

/// Merging indexes with unique keys gives an index with unique keys.
pub proof fn lemma_merged_distinct(parts: Seq<Seq<Keyed>>)
    requires
        all_distinct(parts),
    ensures
        distinct_keys(merged(parts)),
    decreases parts.len(),
{
    if parts.len() > 0 {
        let init = parts.drop_last();
        lemma_merged_distinct(init);
        lemma_merge_buckets_distinct(merged(init), parts.last());
    }
}

/// One more index at the end joins what it holds to what the others hold.
pub proof fn lemma_gathered_push(parts: Seq<Seq<Keyed>>, b: Seq<Keyed>)
    requires
        all_distinct(parts),
        distinct_keys(b),
    ensures
        gathered(parts.push(b)) == joined(gathered(parts), unordered(as_map(b))),
{
    assert(parts.push(b).drop_last() =~= parts);
    lemma_merged_distinct(parts);
    lemma_merge_map(merged(parts), b);
    lemma_unordered_combined(as_map(merged(parts)), as_map(b));
}

/// What the indexes hold together is what all but one hold, joined with
/// what that one holds.
pub proof fn lemma_gathered_remove(parts: Seq<Seq<Keyed>>, i: int)
    requires
        all_distinct(parts),
        0 <= i < parts.len(),
    ensures
        gathered(parts) == joined(gathered(parts.remove(i)), unordered(as_map(parts[i]))),
    decreases parts.len(),
{
    let init = parts.drop_last();
    let last = parts.last();
    assert(init.push(last) =~= parts);
    lemma_gathered_push(init, last);
    if i == parts.len() - 1 {
        assert(parts.remove(i) =~= init);
    } else {
        let rest = init.remove(i);
        lemma_gathered_remove(init, i);
        assert(rest.push(last) =~= parts.remove(i));
        lemma_gathered_push(rest, last);
        let g = gathered(rest);
        let u = unordered(as_map(parts[i]));
        let v = unordered(as_map(last));
        lemma_joined_laws(g, u, v);
        lemma_joined_laws(u, v, g);
        lemma_joined_laws(g, v, u);
    }
}

/// Merging the same indexes in any order gives the same keys, and under
/// every key the same pictures and the same movies, each as often, and the
/// same count.
pub proof fn lemma_merge_order_is_free(p: Seq<Seq<Keyed>>, q: Seq<Seq<Keyed>>)
    requires
        all_distinct(p),
        all_distinct(q),
        p.to_multiset() == q.to_multiset(),
    ensures
        gathered(p) == gathered(q),
    decreases q.len(),
{
    vstd::seq_lib::to_multiset_len(p);
    vstd::seq_lib::to_multiset_len(q);
    if q.len() == 0 {
        assert(p =~= q);
    } else {
        let x = q.last();
        let rest = q.drop_last();
        assert(rest.push(x) =~= q);
        vstd::seq_lib::to_multiset_build(rest, x);
        vstd::seq_lib::to_multiset_contains(p, x);
        let i = choose|i: int| 0 <= i < p.len() && p[i] == x;
        let others = p.remove(i);
        vstd::seq_lib::to_multiset_remove(p, i);
        assert(others.to_multiset() =~= rest.to_multiset());
        lemma_merge_order_is_free(others, rest);
        lemma_gathered_remove(p, i);
        lemma_gathered_push(rest, x);
    }
}

} // verus!
