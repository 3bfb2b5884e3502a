//! Which files are sent, under which names and in which batches.

use crate::calc::{records, DatetimeExtnameDigests, NameDigest, NameDigestView};
use crate::index::Keyed;
use crate::sqlite::{row_views, FileData, Store};
use crate::text::{decimal, decimal_string, lemma_decimal_injective};
use vstd::prelude::*;

verus! {

/// A file to send: where it lies, and the name that it gets.
pub type Item = (Seq<char>, Seq<char>);

/// The extension in the names of pictures.
pub open spec fn picture_ext() -> Seq<char> {
    seq!['J', 'P', 'G']
}

/// The extension in the names of movies.
pub open spec fn movie_ext() -> Seq<char> {
    seq!['M', 'P', '4']
}

/// The name of the `n`-th file to send of one bucket and category, counted
/// from 0: the key and the extension, with `_` and the number between them
/// for all but the first.
pub open spec fn dest_name(key: Seq<char>, n: nat, ext: Seq<char>) -> Seq<char> {
    if n == 0 {
        key + seq!['.'] + ext
    } else {
        key + seq!['_'] + decimal(n) + seq!['.'] + ext
    }
}

/// The records whose digest is not known, in order.
pub open spec fn unseen(recs: Seq<NameDigestView>, known: Set<Seq<char>>) -> Seq<NameDigestView>
    decreases recs.len(),
{
    if recs.len() == 0 {
        Seq::empty()
    } else {
        let rest = unseen(recs.drop_last(), known);
        if known.contains(recs.last().digest) {
            rest
        } else {
            rest.push(recs.last())
        }
    }
}

/// The records with the names that they get, numbered in order.
pub open spec fn named(key: Seq<char>, recs: Seq<NameDigestView>, ext: Seq<char>) -> Seq<Item> {
    Seq::new(recs.len(), |i: int| (recs[i].path, dest_name(key, i as nat, ext)))
}

/// What one bucket sends: its unknown pictures, then its unknown movies.
pub open spec fn bucket_items(b: Keyed, known: Set<Seq<char>>) -> Seq<Item> {
    named(b.0, unseen(b.1.pic, known), picture_ext()) + named(
        b.0,
        unseen(b.1.mov, known),
        movie_ext(),
    )
}

/// What the whole index sends, bucket after bucket.
pub open spec fn all_items(s: Seq<Keyed>, known: Set<Seq<char>>) -> Seq<Item>
    decreases s.len(),
{
    if s.len() == 0 {
        Seq::empty()
    } else {
        all_items(s.drop_last(), known) + bucket_items(s.last(), known)
    }
}

/// The items cut into batches of `max`, the last one possibly shorter.
/// Nothing is cut from no items, and no batch is empty. Batches that hold
/// nothing cannot be cut: for a `max` of 0 there are none.
pub open spec fn chunks<T>(items: Seq<T>, max: nat) -> Seq<Seq<T>>
    decreases items.len(),
{
    if items.len() == 0 || max == 0 {
        Seq::empty()
    } else if items.len() <= max {
        seq![items]
    } else {
        seq![items.take(max as int)] + chunks(items.skip(max as int), max)
    }
}

/// The texts of a list of files to send.
pub open spec fn item_views(v: Seq<(String, String)>) -> Seq<Item> {
    v.map_values(|p: (String, String)| (p.0@, p.1@))
}

/// The contents of a list of batches.
pub open spec fn batch_seqs<T>(v: Seq<Vec<T>>) -> Seq<Seq<T>> {
    v.map_values(|b: Vec<T>| b@)
}

/// The texts of a list of batches of files to send.
pub open spec fn batch_views(v: Seq<Vec<(String, String)>>) -> Seq<Seq<Item>> {
    v.map_values(|b: Vec<(String, String)>| item_views(b@))
}

/// Builds the name of the `n`-th file to send of one bucket and category.
pub fn destination_name(key: &str, n: usize, ext: &str) -> (r: String)
    ensures
        r@ == dest_name(key@, n as nat, ext@),
{
    proof {
        reveal_strlit(".");
        reveal_strlit("_");
    }
    let mut out = key.to_owned();
    if n != 0 {
        out.append("_");
        let number = decimal_string(n);
        out.append(number.as_str());
    }
    out.append(".");
    out.append(ext);
    out
}

/// Within one bucket and category no two files get the same name.
pub proof fn lemma_dest_names_distinct(key: Seq<char>, ext: Seq<char>, i: nat, j: nat)
    requires
        i != j,
    ensures
        dest_name(key, i, ext) != dest_name(key, j, ext),
{
    let a = dest_name(key, i, ext);
    let b = dest_name(key, j, ext);
    let k = key.len() as int;
    if i == 0 || j == 0 {
        assert(a[k] != b[k]);
    } else if a == b {
        let x = decimal(i);
        let y = decimal(j);
        assert(b.len() == k + 1 + y.len() + 1 + ext.len());
        assert forall|p: int| 0 <= p < x.len() implies x[p] == y[p] by {
            assert(b[k + 1 + p] == y[p]);
        }
        assert(x =~= y);
        lemma_decimal_injective(i, j);
    }
}

/// Cutting into batches loses nothing, repeats nothing and keeps the order;
/// no batch is empty or longer than `max`, and all but the last are full.
pub proof fn lemma_chunks<T>(items: Seq<T>, max: nat)
    requires
        max > 0,
    ensures
        chunks(items, max).flatten() == items,
        forall|k: int|
            0 <= k < chunks(items, max).len() ==> 1 <= (#[trigger] chunks(items, max)[k]).len()
                <= max,
        forall|k: int|
            0 <= k < chunks(items, max).len() - 1 ==> (#[trigger] chunks(items, max)[k]).len()
                == max,
    decreases items.len(),
{
    let c = chunks(items, max);
    if items.len() == 0 {
        assert(c.flatten() =~= items);
    } else if items.len() <= max {
        seq![items].lemma_flatten_one_element();
    } else {
        let head = items.take(max as int);
        let rest = chunks(items.skip(max as int), max);
        lemma_chunks(items.skip(max as int), max);
        vstd::seq_lib::lemma_flatten_concat(seq![head], rest);
        seq![head].lemma_flatten_one_element();
        assert forall|k: int| 0 <= k < c.len() implies 1 <= (#[trigger] c[k]).len() <= max by {
            if k > 0 {
                assert(c[k] == rest[k - 1]);
            }
        }
        assert forall|k: int| 0 <= k < c.len() - 1 implies (#[trigger] c[k]).len() == max by {
            if k > 0 {
                assert(c[k] == rest[k - 1]);
            }
        }
    }
}

/// Cuts the items into batches of `max`, which must hold at least one
/// item; the last batch is possibly shorter.
pub fn split_batches<T>(items: Vec<T>, max: usize) -> (r: Vec<Vec<T>>)
    requires
        max > 0,
    ensures
        batch_seqs(r@) == chunks(items@, max as nat),
{
    let ghost all = items@;
    let mut batches: Vec<Vec<T>> = Vec::new();
    let mut current: Vec<T> = Vec::new();
    assert(current@ + all.skip(0) =~= all);
    for item in it: items
        invariant
            max > 0,
            it.seq() == all,
            current.len() <= max,
            chunks(all, max as nat) == batch_seqs(batches@) + chunks(
                current@ + all.skip(it.index() as int),
                max as nat,
            ),
    {
        let ghost n = it.index() as int;
        let ghost rest = all.skip(n);
        if current.len() == max {
            proof {
                let whole = current@ + rest;
                assert(whole.take(max as int) =~= current@);
                assert(whole.skip(max as int) =~= rest);
            }
            let mut full: Vec<T> = Vec::new();
            core::mem::swap(&mut current, &mut full);
            batches.push(full);
        }
        let ghost held = current@;
        current.push(item);
        assert(current@ + all.skip(n + 1) =~= held + rest);
    }
    proof {
        assert(current@ + Seq::<T>::empty() =~= current@);
    }
    if current.len() > 0 {
        batches.push(current);
    } else {
        assert(batch_seqs(batches@) + Seq::<Seq<T>>::empty() =~= batch_seqs(batches@));
    }
    batches
}

/// Cutting into batches and reading each item through `f` can be done in
/// either order.
pub proof fn lemma_chunks_map<A, B>(items: Seq<A>, f: spec_fn(A) -> B, max: nat)
    ensures
        chunks(items.map_values(f), max) == chunks(items, max).map_values(
            |c: Seq<A>| c.map_values(f),
        ),
    decreases items.len(),
{
    let g = |c: Seq<A>| c.map_values(f);
    let mapped = items.map_values(f);
    if items.len() == 0 || max == 0 {
        assert(chunks(mapped, max) =~= chunks(items, max).map_values(g));
    } else if items.len() <= max {
        assert(chunks(mapped, max) =~= chunks(items, max).map_values(g));
    } else {
        lemma_chunks_map(items.skip(max as int), f, max);
        assert(mapped.take(max as int) =~= items.take(max as int).map_values(f));
        assert(mapped.skip(max as int) =~= items.skip(max as int).map_values(f));
    }
}

fn push_category(
    key: &str,
    recs: &Vec<NameDigest>,
    ext: &str,
    known: &Store,
    out: &mut Vec<(String, String)>,
)
    ensures
        item_views(final(out)@) == item_views(old(out)@) + named(
            key@,
            unseen(records(recs@), known@.hashes),
            ext@,
        ),
{
    let ghost start = item_views(out@);
    let ghost all = records(recs@);
    let ghost seen = known@.hashes;
    let mut count: usize = 0;
    let mut j: usize = 0;
    while j < recs.len()
        invariant
            j <= recs.len(),
            all == records(recs@),
            seen == known@.hashes,
            count == unseen(all.take(j as int), seen).len(),
            count <= j,
            item_views(out@) == start + named(key@, unseen(all.take(j as int), seen), ext@),
        decreases recs.len() - j,
    {
        proof {
            assert(all.take(j + 1).drop_last() =~= all.take(j as int));
        }
        if !known.exist(recs[j].digest.as_str()) {
            let name = destination_name(key, count, ext);
            let ghost held = item_views(out@);
            out.push((recs[j].path.clone(), name));
            proof {
                let p = (recs[j as int]@.path, dest_name(key@, count as nat, ext@));
                assert(item_views(out@) =~= held.push(p));
            }
            count = count + 1;
        }
        j = j + 1;
    }
    assert(all.take(recs.len() as int) =~= all);
}

/// Lists the files to send with the names that they get: for every bucket
/// in order, its pictures and then its movies, leaving out every file whose
/// digest the record knows.
pub fn plan_items(files: &DatetimeExtnameDigests, known: &Store) -> (r: Vec<(String, String)>)
    ensures
        item_views(r@) == all_items(files.buckets(), known@.hashes),
{
    let ghost all = files.buckets();
    let ghost seen = known@.hashes;
    let mut out: Vec<(String, String)> = Vec::new();
    let n = files.len();
    let mut i: usize = 0;
    proof {
        reveal_strlit("JPG");
        reveal_strlit("MP4");
    }
    while i < n
        invariant
            i <= n,
            n == all.len(),
            all == files.buckets(),
            seen == known@.hashes,
            "JPG"@ == picture_ext(),
            "MP4"@ == movie_ext(),
            item_views(out@) == all_items(all.take(i as int), seen),
        decreases n - i,
    {
        proof {
            assert(all.take(i + 1).drop_last() =~= all.take(i as int));
        }
        match (files.key_at(i), files.entry_at(i)) {
            (Some(key), Some(entry)) => {
                push_category(key.as_str(), &entry.pic, "JPG", known, &mut out);
                push_category(key.as_str(), &entry.mov, "MP4", known, &mut out);
            },
            _ => {},
        }
        i = i + 1;
    }
    assert(all.take(n as int) =~= all);
    out
}

/// The records with the rows that the record of transferred files gets
/// for them: the name that each gets, and its digest.
pub open spec fn named_rows(
    key: Seq<char>,
    recs: Seq<NameDigestView>,
    ext: Seq<char>,
) -> Seq<(Seq<char>, Seq<char>)> {
    Seq::new(recs.len(), |i: int| (dest_name(key, i as nat, ext), recs[i].digest))
}

/// The rows for what one bucket sends: its unknown pictures, then its
/// unknown movies.
pub open spec fn bucket_rows(b: Keyed, known: Set<Seq<char>>) -> Seq<(Seq<char>, Seq<char>)> {
    named_rows(b.0, unseen(b.1.pic, known), picture_ext()) + named_rows(
        b.0,
        unseen(b.1.mov, known),
        movie_ext(),
    )
}

/// The rows for what the whole index sends, bucket after bucket.
pub open spec fn all_rows(s: Seq<Keyed>, known: Set<Seq<char>>) -> Seq<(Seq<char>, Seq<char>)>
    decreases s.len(),
{
    if s.len() == 0 {
        Seq::empty()
    } else {
        all_rows(s.drop_last(), known) + bucket_rows(s.last(), known)
    }
}

/// Every file to send has its row, at its place and under its name.
pub proof fn lemma_rows_follow_items(s: Seq<Keyed>, known: Set<Seq<char>>)
    ensures
        all_rows(s, known).len() == all_items(s, known).len(),
        forall|i: int|
            0 <= i < all_rows(s, known).len() ==> (#[trigger] all_rows(s, known)[i]).0
                == all_items(s, known)[i].1,
    decreases s.len(),
{
    if s.len() > 0 {
        lemma_rows_follow_items(s.drop_last(), known);
    }
}

fn push_rows(
    key: &str,
    recs: &Vec<NameDigest>,
    ext: &str,
    known: &Store,
    out: &mut Vec<FileData>,
)
    ensures
        row_views(final(out)@) == row_views(old(out)@) + named_rows(
            key@,
            unseen(records(recs@), known@.hashes),
            ext@,
        ),
{
    let ghost start = row_views(out@);
    let ghost all = records(recs@);
    let ghost seen = known@.hashes;
    let mut count: usize = 0;
    let mut j: usize = 0;
    while j < recs.len()
        invariant
            j <= recs.len(),
            all == records(recs@),
            seen == known@.hashes,
            count == unseen(all.take(j as int), seen).len(),
            count <= j,
            row_views(out@) == start + named_rows(key@, unseen(all.take(j as int), seen), ext@),
        decreases recs.len() - j,
    {
        proof {
            assert(all.take(j + 1).drop_last() =~= all.take(j as int));
        }
        if !known.exist(recs[j].digest.as_str()) {
            let name = destination_name(key, count, ext);
            let ghost held = row_views(out@);
            out.push(FileData::new(name, recs[j].digest.clone()));
            proof {
                let p = (dest_name(key@, count as nat, ext@), recs[j as int]@.digest);
                assert(row_views(out@) =~= held.push(p));
            }
            count = count + 1;
        }
        j = j + 1;
    }
    assert(all.take(recs.len() as int) =~= all);
}

/// Lists, for the files to send, the rows that the record gets once they
/// are up: the name that the file gets, and its digest. The rows stand in
/// the order of the files to send.
pub fn plan_rows(files: &DatetimeExtnameDigests, known: &Store) -> (r: Vec<FileData>)
    ensures
        row_views(r@) == all_rows(files.buckets(), known@.hashes),
{
    let ghost all = files.buckets();
    let ghost seen = known@.hashes;
    let mut out: Vec<FileData> = Vec::new();
    let n = files.len();
    let mut i: usize = 0;
    proof {
        reveal_strlit("JPG");
        reveal_strlit("MP4");
    }
    while i < n
        invariant
            i <= n,
            n == all.len(),
            all == files.buckets(),
            seen == known@.hashes,
            "JPG"@ == picture_ext(),
            "MP4"@ == movie_ext(),
            row_views(out@) == all_rows(all.take(i as int), seen),
        decreases n - i,
    {
        proof {
            assert(all.take(i + 1).drop_last() =~= all.take(i as int));
        }
        match (files.key_at(i), files.entry_at(i)) {
            (Some(key), Some(entry)) => {
                push_rows(key.as_str(), &entry.pic, "JPG", known, &mut out);
                push_rows(key.as_str(), &entry.mov, "MP4", known, &mut out);
            },
            _ => {},
        }
        i = i + 1;
    }
    assert(all.take(n as int) =~= all);
    out
}

/// The digest of every record of every bucket is in `known`.
pub open spec fn all_known(s: Seq<Keyed>, known: Set<Seq<char>>) -> bool {
    forall|i: int|
        0 <= i < s.len() ==> {
            &&& forall|j: int|
                0 <= j < (#[trigger] s[i]).1.pic.len() ==> known.contains(
                    (#[trigger] s[i].1.pic[j]).digest,
                )
            &&& forall|j: int|
                0 <= j < s[i].1.mov.len() ==> known.contains((#[trigger] s[i].1.mov[j]).digest)
        }
}

/// Of records whose digests are all known none is left to send.
pub proof fn lemma_unseen_none(recs: Seq<NameDigestView>, known: Set<Seq<char>>)
    requires
        forall|j: int| 0 <= j < recs.len() ==> known.contains((#[trigger] recs[j]).digest),
    ensures
        unseen(recs, known).len() == 0,
    decreases recs.len(),
{
    if recs.len() > 0 {
        let t = recs.drop_last();
        lemma_unseen_none(t, known);
    }
}

/// Once the record knows the digest of every file of the index, nothing is
/// sent: a second run over an unchanged tree uploads no file.
pub proof fn lemma_second_run_sends_nothing(s: Seq<Keyed>, known: Set<Seq<char>>, max: nat)
    requires
        all_known(s, known),
    ensures
        all_items(s, known).len() == 0,
        chunks(all_items(s, known), max).len() == 0,
    decreases s.len(),
{
    if s.len() > 0 {
        let t = s.drop_last();
        lemma_second_run_sends_nothing(t, known, max);
        let b = s[s.len() - 1];
        lemma_unseen_none(b.1.pic, known);
        lemma_unseen_none(b.1.mov, known);
    }
}

/// Every record whose digest is not known is among those to send.
pub proof fn lemma_unseen_holds(recs: Seq<NameDigestView>, known: Set<Seq<char>>, j: int)
    requires
        0 <= j < recs.len(),
        !known.contains(recs[j].digest),
    ensures
        exists|k: int| 0 <= k < unseen(recs, known).len() && unseen(recs, known)[k] == recs[j],
    decreases recs.len(),
{
    let t = recs.drop_last();
    if j == recs.len() - 1 {
        let k = unseen(t, known).len() as int;
        assert(unseen(recs, known)[k] == recs[j]);
    } else {
        lemma_unseen_holds(t, known, j);
        let k = choose|k: int| 0 <= k < unseen(t, known).len() && unseen(t, known)[k] == t[j];
        assert(unseen(recs, known)[k] == recs[j]);
    }
}

/// Idempotence. When the record, after a run, knows what it knew before
/// and the digest of every file that the run sent, a second run over the
/// same index sends nothing.
pub proof fn lemma_rerun_sends_nothing(
    s: Seq<Keyed>,
    known: Set<Seq<char>>,
    after: Set<Seq<char>>,
    max: nat,
)
    requires
        forall|d: Seq<char>| known.contains(d) ==> after.contains(d),
        forall|i: int, j: int|
            0 <= i < s.len() && 0 <= j < unseen(s[i].1.pic, known).len() ==> after.contains(
                (#[trigger] unseen(s[i].1.pic, known)[j]).digest,
            ),
        forall|i: int, j: int|
            0 <= i < s.len() && 0 <= j < unseen(s[i].1.mov, known).len() ==> after.contains(
                (#[trigger] unseen(s[i].1.mov, known)[j]).digest,
            ),
    ensures
        all_items(s, after).len() == 0,
        chunks(all_items(s, after), max).len() == 0,
{
    assert forall|i: int| 0 <= i < s.len() implies {
        &&& forall|j: int|
            0 <= j < (#[trigger] s[i]).1.pic.len() ==> after.contains(
                (#[trigger] s[i].1.pic[j]).digest,
            )
        &&& forall|j: int|
            0 <= j < s[i].1.mov.len() ==> after.contains((#[trigger] s[i].1.mov[j]).digest)
    } by {
        assert forall|j: int| 0 <= j < s[i].1.pic.len() implies after.contains(
            (#[trigger] s[i].1.pic[j]).digest,
        ) by {
            if !known.contains(s[i].1.pic[j].digest) {
                lemma_unseen_holds(s[i].1.pic, known, j);
                let k = choose|k: int|
                    0 <= k < unseen(s[i].1.pic, known).len() && unseen(s[i].1.pic, known)[k]
                        == s[i].1.pic[j];
            }
        }
        assert forall|j: int| 0 <= j < s[i].1.mov.len() implies after.contains(
            (#[trigger] s[i].1.mov[j]).digest,
        ) by {
            if !known.contains(s[i].1.mov[j].digest) {
                lemma_unseen_holds(s[i].1.mov, known, j);
                let k = choose|k: int|
                    0 <= k < unseen(s[i].1.mov, known).len() && unseen(s[i].1.mov, known)[k]
                        == s[i].1.mov[j];
            }
        }
    }
    lemma_second_run_sends_nothing(s, after, max);
}

/// The files to send of one bucket and category get names that differ from
/// one another: as many names as files, built by the naming scheme.
pub proof fn lemma_named_distinct(
    key: Seq<char>,
    recs: Seq<NameDigestView>,
    ext: Seq<char>,
    i: int,
    j: int,
)
    requires
        0 <= i < recs.len(),
        0 <= j < recs.len(),
        i != j,
    ensures
        named(key, recs, ext).len() == recs.len(),
        named(key, recs, ext)[i].1 == dest_name(key, i as nat, ext),
        named(key, recs, ext)[i].1 != named(key, recs, ext)[j].1,
{
    lemma_dest_names_distinct(key, ext, i as nat, j as nat);
}

/// What `upload_files` hands out: batches that are neither empty nor
/// longer than `max`, all full but the last, and that hold, taken together
/// and in order, every file to send exactly once.
pub proof fn lemma_batches_partition(s: Seq<Keyed>, known: Set<Seq<char>>, max: nat)
    requires
        max > 0,
    ensures
        ({
            let batches = chunks(all_items(s, known), max);
            &&& batches.flatten() == all_items(s, known)
            &&& forall|k: int| 0 <= k < batches.len() ==> 1 <= (#[trigger] batches[k]).len() <= max
            &&& forall|k: int| 0 <= k < batches.len() - 1 ==> (#[trigger] batches[k]).len() == max
        }),
{
    lemma_chunks(all_items(s, known), max);
}

} // verus!
