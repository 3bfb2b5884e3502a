//! The index of scanned files, grouped by the time at which they were taken,
//! and the operations that build, merge and finish it.

use crate::controller::{controller, path_batches};
use crate::extension::Extension;
use crate::index::{
    all_distinct, as_map, distinct_keys, key_index, lemma_key_index, lemma_key_index_same_keys,
    lemma_merge_order_is_free, unordered, lemma_merge_bucket, lemma_merge_buckets,
    lemma_merged, lemma_sorted_buckets, lemma_total_bounds_entry, lemma_total_take,
    lemma_totals_take, lemma_with_file, merge_bucket, merge_buckets, merged, sorted_buckets,
    sorted_entry, total_count, totals, valid_buckets, with_file, Keyed,
};
use crate::sorting::{lemma_sort_permutes, sort_records, sorted_by_name};
use crate::walker::{
    accm, entry_views, lemma_walk_then_control, walk_files, WalkEntry, WalkEntryView,
};
use crate::worker::{
    indexed, lemma_indexed, lemma_indexed_concat, lemma_indexed_distinct, lemma_indexed_is_merge,
    lemma_media_of, lemma_scan_concat, lemma_scanned_count, media_count, media_of, scan_source,
    scanned_count, skipped_of, skipped_views, source_views, Skipped, SourceFile, SourceFileView,
};
use vstd::hash_map::StringHashMap;
use vstd::prelude::*;

verus! {

/// One scanned file: its content digest, its file name and its full path.
#[derive(Debug)]
pub struct NameDigest {
    pub digest: String,
    pub name: String,
    pub path: String,
}

/// The text of a `NameDigest`.
#[verifier::ext_equal]
pub struct NameDigestView {
    pub digest: Seq<char>,
    pub name: Seq<char>,
    pub path: Seq<char>,
}

impl View for NameDigest {
    type V = NameDigestView;

    open spec fn view(&self) -> NameDigestView {
        NameDigestView { digest: self.digest@, name: self.name@, path: self.path@ }
    }
}

/// The texts of a list of records, in order.
pub open spec fn records(v: Seq<NameDigest>) -> Seq<NameDigestView> {
    v.map_values(|r: NameDigest| r@)
}

/// The files of one bucket: pictures, movies, and how many there are in all.
#[derive(Debug)]
pub struct SumNameDigests {
    pub pic: Vec<NameDigest>,
    pub mov: Vec<NameDigest>,
    pub sum: u32,
}

/// The contents of a bucket as plain sequences.
#[verifier::ext_equal]
pub struct SumView {
    pub pic: Seq<NameDigestView>,
    pub mov: Seq<NameDigestView>,
    pub sum: nat,
}

impl SumView {
    /// The count is the number of records held.
    pub open spec fn wf(self) -> bool {
        self.sum == self.pic.len() + self.mov.len()
    }

    /// The bucket without any record.
    pub open spec fn empty() -> SumView {
        SumView { pic: Seq::empty(), mov: Seq::empty(), sum: 0 }
    }

    /// Both buckets together: the other's records follow this one's.
    pub open spec fn combine(self, other: SumView) -> SumView {
        SumView {
            pic: self.pic + other.pic,
            mov: self.mov + other.mov,
            sum: self.sum + other.sum,
        }
    }

    /// The bucket with one more record of the given category at the end.
    /// A record of an ignored category changes nothing.
    pub open spec fn with_record(self, ext: Extension, rec: NameDigestView) -> SumView {
        match ext {
            Extension::Jpeg => SumView { pic: self.pic.push(rec), mov: self.mov, sum: self.sum + 1 },
            Extension::Mp4 => SumView { pic: self.pic, mov: self.mov.push(rec), sum: self.sum + 1 },
            Extension::Other => self,
        }
    }
}

impl View for SumNameDigests {
    type V = SumView;

    open spec fn view(&self) -> SumView {
        SumView { pic: records(self.pic@), mov: records(self.mov@), sum: self.sum as nat }
    }
}

impl Default for SumNameDigests {
    fn default() -> (r: SumNameDigests)
        ensures
            r@ == SumView::empty(),
    {
        SumNameDigests { pic: Vec::new(), mov: Vec::new(), sum: 0 }
    }
}

impl SumNameDigests {
    /// The count is the number of records held.
    pub open spec fn wf(&self) -> bool {
        self@.wf()
    }

    /// Takes over the records of `other`, after its own, and adds the counts.
    pub fn merge(&mut self, other: SumNameDigests)
        requires
            old(self).sum + other.sum <= u32::MAX,
        ensures
            final(self)@ == old(self)@.combine(other@),
            old(self).wf() && other.wf() ==> final(self).wf(),
    {
        let mut other = other;
        self.pic.append(&mut other.pic);
        self.mov.append(&mut other.mov);
        self.sum = self.sum + other.sum;
    }

    /// The bucket that holds the records of both, those of `self` first.
    pub fn add(self, other: SumNameDigests) -> (r: SumNameDigests)
        requires
            self.sum + other.sum <= u32::MAX,
        ensures
            r@ == self@.combine(other@),
            self.wf() && other.wf() ==> r.wf(),
    {
        let mut other = other;
        let mut pic = self.pic;
        pic.append(&mut other.pic);
        let mut mov = self.mov;
        mov.append(&mut other.mov);
        SumNameDigests { pic, mov, sum: self.sum + other.sum }
    }

    /// Puts one record at the end of the list of its category and counts it.
    /// A record of an ignored category is dropped.
    pub fn push(&mut self, ext: Extension, rec: NameDigest)
        requires
            old(self).sum < u32::MAX,
        ensures
            final(self)@ == old(self)@.with_record(ext, rec@),
            old(self).wf() ==> final(self).wf(),
    {
        match ext {
            Extension::Jpeg => {
                self.pic.push(rec);
                self.sum = self.sum + 1;
            },
            Extension::Mp4 => {
                self.mov.push(rec);
                self.sum = self.sum + 1;
            },
            Extension::Other => {},
        }
    }
}

struct Bucket {
    key: String,
    entry: SumNameDigests,
}

/// The index: buckets of scanned files, found by their key.
pub struct DatetimeExtnameDigests {
    buckets: Vec<Bucket>,
    positions: StringHashMap<usize>,
}

impl View for DatetimeExtnameDigests {
    type V = Map<Seq<char>, SumView>;

    open spec fn view(&self) -> Map<Seq<char>, SumView> {
        as_map(self.buckets())
    }
}

impl DatetimeExtnameDigests {
    /// The buckets with their keys, in the order in which the keys came in.
    pub closed spec fn buckets(&self) -> Seq<Keyed> {
        Seq::new(self.buckets.len() as nat, |i: int| (self.buckets[i].key@, self.buckets[i].entry@))
    }

    /// The table of positions agrees with the list of buckets.
    pub closed spec fn positions_agree(&self) -> bool {
        &&& forall|i: int|
            0 <= i < self.buckets.len() ==> self.positions@.contains_key(
                (#[trigger] self.buckets[i]).key@,
            ) && self.positions@[self.buckets[i].key@] == i
        &&& forall|k: Seq<char>| #[trigger]
            self.positions@.contains_key(k) ==> self.positions@[k] < self.buckets.len()
                && self.buckets[self.positions@[k] as int].key@ == k
    }

    /// The index is well formed.
    pub open spec fn wf(&self) -> bool {
        &&& self.positions_agree()
        &&& valid_buckets(self.buckets())
    }

    /// The number of records in the index.
    pub open spec fn total(&self) -> nat {
        total_count(self.buckets())
    }

    proof fn lemma_position(&self, key: Seq<char>)
        requires
            self.wf(),
        ensures
            self.positions@.contains_key(key) ==> key_index(self.buckets(), key)
                == self.positions@[key],
            !self.positions@.contains_key(key) ==> key_index(self.buckets(), key) == -1,
    {
        let s = self.buckets();
        lemma_key_index(s, key);
        if self.positions@.contains_key(key) {
            let i = self.positions@[key] as int;
            assert(s[i].0 == key);
        } else {
            let j = key_index(s, key);
            if j >= 0 {
                assert(self.buckets[j].key@ == key);
            }
        }
    }

    proof fn lemma_positions_kept(&self, before: &DatetimeExtnameDigests)
        requires
            before.positions_agree(),
            self.positions@ == before.positions@,
            self.buckets.len() == before.buckets.len(),
            forall|j: int|
                0 <= j < self.buckets.len() ==> (#[trigger] self.buckets[j]).key@
                    == before.buckets[j].key@,
        ensures
            self.positions_agree(),
    {
        assert forall|j: int| 0 <= j < self.buckets.len() implies self.positions@.contains_key(
            (#[trigger] self.buckets[j]).key@,
        ) && self.positions@[self.buckets[j].key@] == j by {
            assert(before.positions@.contains_key(before.buckets[j].key@));
        }
        assert forall|k: Seq<char>| #[trigger] self.positions@.contains_key(k) implies
            self.positions@[k] < self.buckets.len() && self.buckets[self.positions@[k] as int].key@
            == k by {
            assert(before.positions@.contains_key(k));
        }
    }

    proof fn lemma_positions_grown(&self, before: &DatetimeExtnameDigests, key: Seq<char>)
        requires
            before.positions_agree(),
            !before.positions@.contains_key(key),
            self.positions@ == before.positions@.insert(key, before.buckets.len()),
            self.buckets.len() == before.buckets.len() + 1,
            self.buckets[before.buckets.len() as int].key@ == key,
            forall|j: int|
                0 <= j < before.buckets.len() ==> (#[trigger] self.buckets[j]).key@
                    == before.buckets[j].key@,
        ensures
            self.positions_agree(),
    {
        let n = before.buckets.len() as int;
        assert forall|j: int| 0 <= j < self.buckets.len() implies self.positions@.contains_key(
            (#[trigger] self.buckets[j]).key@,
        ) && self.positions@[self.buckets[j].key@] == j by {
            if j < n {
                assert(before.positions@.contains_key(before.buckets[j].key@));
            }
        }
        assert forall|k: Seq<char>| #[trigger] self.positions@.contains_key(k) implies
            self.positions@[k] < self.buckets.len() && self.buckets[self.positions@[k] as int].key@
            == k by {
            if k != key {
                assert(before.positions@.contains_key(k));
            }
        }
    }

    /// An index without buckets.
    pub fn new() -> (r: DatetimeExtnameDigests)
        ensures
            r.wf(),
            r.buckets() == Seq::<Keyed>::empty(),
    {
        let r = DatetimeExtnameDigests { buckets: Vec::new(), positions: StringHashMap::new() };
        r
    }

    /// The number of buckets.
    pub fn len(&self) -> (r: usize)
        ensures
            r == self.buckets().len(),
    {
        self.buckets.len()
    }

    /// The key of the bucket at position `i`, if there are so many buckets.
    pub fn key_at(&self, i: usize) -> (r: Option<&String>)
        ensures
            match r {
                Some(k) => i < self.buckets().len() && k@ == self.buckets()[i as int].0,
                None => i >= self.buckets().len(),
            },
    {
        if i < self.buckets.len() {
            Some(&self.buckets[i].key)
        } else {
            None
        }
    }

    /// The bucket at position `i`, if there are so many buckets.
    pub fn entry_at(&self, i: usize) -> (r: Option<&SumNameDigests>)
        ensures
            match r {
                Some(e) => i < self.buckets().len() && e@ == self.buckets()[i as int].1,
                None => i >= self.buckets().len(),
            },
    {
        if i < self.buckets.len() {
            Some(&self.buckets[i].entry)
        } else {
            None
        }
    }

    /// The position of the bucket with the given key.
    pub fn position(&self, key: &str) -> (r: Option<usize>)
        requires
            self.wf(),
        ensures
            match r {
                Some(i) => i == key_index(self.buckets(), key@),
                None => key_index(self.buckets(), key@) == -1,
            },
    {
        proof {
            self.lemma_position(key@);
        }
        match self.positions.get(key) {
            Some(i) => Some(*i),
            None => None,
        }
    }

    /// The bucket with the given key.
    pub fn get(&self, key: &str) -> (r: Option<&SumNameDigests>)
        requires
            self.wf(),
        ensures
            match r {
                Some(e) => self@.contains_key(key@) && e@ == self@[key@],
                None => !self@.contains_key(key@),
            },
    {
        proof {
            lemma_key_index(self.buckets(), key@);
        }
        match self.position(key) {
            Some(i) => Some(&self.buckets[i].entry),
            None => None,
        }
    }

    /// Files one record under `key`: into the bucket of that key, or into a
    /// new bucket at the end. A record of an ignored category is dropped.
    pub fn insert(&mut self, key: String, ext: Extension, rec: NameDigest)
        requires
            old(self).wf(),
            old(self).total() < u32::MAX,
        ensures
            final(self).wf(),
            final(self).buckets() == with_file(old(self).buckets(), key@, ext, rec@),
    {
        let ghost start = *self;
        let ghost before = self.buckets();
        proof {
            lemma_with_file(before, key@, ext, rec@);
            lemma_key_index(before, key@);
            self.lemma_position(key@);
        }
        if ext == Extension::Other {
            return ;
        }
        match self.position(key.as_str()) {
            Some(i) => {
                proof {
                    lemma_total_bounds_entry(before, i as int);
                }
                self.buckets[i].entry.push(ext, rec);
                proof {
                    self.lemma_positions_kept(&start);
                    assert(self.buckets() =~= with_file(before, key@, ext, rec@));
                }
            },
            None => {
                let mut entry = SumNameDigests::default();
                entry.push(ext, rec);
                let n = self.buckets.len();
                self.positions.insert(key.clone(), n);
                self.buckets.push(Bucket { key, entry });
                proof {
                    self.lemma_positions_grown(&start, key@);
                    assert(self.buckets() =~= with_file(before, key@, ext, rec@));
                }
            },
        }
    }

    /// Takes in one whole bucket under `key`: its records join the bucket of
    /// that key, or it becomes a new bucket at the end.
    pub fn merge_entry(&mut self, key: String, entry: SumNameDigests)
        requires
            old(self).wf(),
            entry.wf(),
            old(self).total() + entry.sum <= u32::MAX,
        ensures
            final(self).wf(),
            final(self).buckets() == merge_bucket(old(self).buckets(), (key@, entry@)),
    {
        let ghost start = *self;
        let ghost before = self.buckets();
        proof {
            lemma_merge_bucket(before, (key@, entry@));
            lemma_key_index(before, key@);
            self.lemma_position(key@);
        }
        match self.position(key.as_str()) {
            Some(i) => {
                proof {
                    lemma_total_bounds_entry(before, i as int);
                }
                self.buckets[i].entry.merge(entry);
                proof {
                    self.lemma_positions_kept(&start);
                    assert(self.buckets() =~= merge_bucket(before, (key@, entry@)));
                }
            },
            None => {
                let n = self.buckets.len();
                self.positions.insert(key.clone(), n);
                self.buckets.push(Bucket { key, entry });
                proof {
                    self.lemma_positions_grown(&start, key@);
                    assert(self.buckets() =~= merge_bucket(before, (key@, entry@)));
                }
            },
        }
    }

    /// Takes in every bucket of `other`, in order.
    pub fn merge(&mut self, other: DatetimeExtnameDigests)
        requires
            old(self).wf(),
            other.wf(),
            old(self).total() + other.total() <= u32::MAX,
        ensures
            final(self).wf(),
            final(self).buckets() == merge_buckets(old(self).buckets(), other.buckets()),
    {
        let ghost a = self.buckets();
        let ghost b = other.buckets();
        let DatetimeExtnameDigests { buckets, positions: _ } = other;
        for bucket in it: buckets
            invariant
                self.wf(),
                valid_buckets(a),
                valid_buckets(b),
                total_count(a) + total_count(b) <= u32::MAX,
                b.len() == it.seq().len(),
                forall|i: int| 0 <= i < b.len() ==> b[i] == ((#[trigger] it.seq()[i]).key@, it.seq()[i].entry@),
                self.buckets() == merge_buckets(a, b.take(it.index() as int)),
        {
            let ghost n = it.index() as int;
            proof {
                lemma_total_take(b, n + 1);
                assert(b.take(n + 1).drop_last() =~= b.take(n));
                lemma_merge_buckets(a, b.take(n));
                lemma_merge_buckets(a, b.take(n + 1));
            }
            let Bucket { key, entry } = bucket;
            self.merge_entry(key, entry);
        }
        assert(b.take(b.len() as int) =~= b);
    }
}

/// Finishes the index: within every bucket, pictures and movies are put in
/// the order of their names. Records of one name keep their order.
pub fn sort_calc(hashmap: &mut DatetimeExtnameDigests)
    requires
        old(hashmap).wf(),
    ensures
        final(hashmap).wf(),
        final(hashmap).buckets() == sorted_buckets(old(hashmap).buckets()),
        final(hashmap).total() == old(hashmap).total(),
        forall|i: int|
            0 <= i < final(hashmap).buckets().len() ==> sorted_by_name(
                (#[trigger] final(hashmap).buckets()[i]).1.pic,
            ) && sorted_by_name(final(hashmap).buckets()[i].1.mov),
{
    let ghost start = *hashmap;
    let ghost before = hashmap.buckets();
    let n = hashmap.buckets.len();
    let mut i: usize = 0;
    while i < n
        invariant
            i <= n,
            n == hashmap.buckets.len(),
            n == start.buckets.len(),
            before == start.buckets(),
            hashmap.positions@ == start.positions@,
            forall|j: int|
                0 <= j < n ==> (#[trigger] hashmap.buckets[j]).key@ == start.buckets[j].key@,
            forall|j: int|
                0 <= j < i ==> (#[trigger] hashmap.buckets[j]).entry@ == sorted_entry(
                    start.buckets[j].entry@,
                ),
            forall|j: int|
                i <= j < n ==> (#[trigger] hashmap.buckets[j]).entry@ == start.buckets[j].entry@,
        decreases n - i,
    {
        sort_records(&mut hashmap.buckets[i].entry.pic);
        sort_records(&mut hashmap.buckets[i].entry.mov);
        i = i + 1;
    }
    proof {
        hashmap.lemma_positions_kept(&start);
        lemma_sorted_buckets(before);
        assert(hashmap.buckets() =~= sorted_buckets(before));
    }
}

/// The number of records in the index.
pub fn sum_calc(hashmap: &DatetimeExtnameDigests) -> (r: u32)
    requires
        hashmap.wf(),
    ensures
        r == hashmap.total(),
{
    let ghost all = hashmap.buckets();
    let n = hashmap.buckets.len();
    let mut acc: u32 = 0;
    let mut i: usize = 0;
    while i < n
        invariant
            i <= n,
            n == hashmap.buckets.len(),
            all == hashmap.buckets(),
            total_count(all) <= u32::MAX,
            acc == total_count(all.take(i as int)),
        decreases n - i,
    {
        proof {
            lemma_total_take(all, i + 1);
            assert(all.take(i + 1).drop_last() =~= all.take(i as int));
        }
        acc = acc + hashmap.buckets[i].entry.sum;
        i = i + 1;
    }
    assert(all.take(n as int) =~= all);
    acc
}

/// What the walker sends to the controller.
#[derive(Debug)]
pub enum CalcMessage {
    /// The walk is over; so many `File` messages were sent in all.
    Finish(i32),
    /// One file to scan, by its path.
    File(String),
}

/// The text of a `CalcMessage`.
pub enum CalcMessageView {
    Finish(int),
    File(Seq<char>),
}

impl View for CalcMessage {
    type V = CalcMessageView;

    open spec fn view(&self) -> CalcMessageView {
        match self {
            CalcMessage::Finish(t) => CalcMessageView::Finish(*t as int),
            CalcMessage::File(p) => CalcMessageView::File(p@),
        }
    }
}

/// The texts of a list of messages, in order.
pub open spec fn calc_message_views(v: Seq<CalcMessage>) -> Seq<CalcMessageView> {
    v.map_values(|m: CalcMessage| m@)
}

/// What scanning a list of files gives: the index of those that were
/// scanned, and those that were skipped, each with the reason.
pub struct Scan {
    pub index: DatetimeExtnameDigests,
    pub skipped: Vec<Skipped>,
}

/// Builds the index of one batch of files. A picture or a movie for which
/// the scan fails is left out and noted with the reason, and the batch goes
/// on; other files are dropped without a word.
pub fn calc2(files: Vec<SourceFile>) -> (r: Scan)
    requires
        files.len() <= u32::MAX,
    ensures
        r.index.wf(),
        r.index.buckets() == indexed(Seq::empty(), source_views(files@)),
        r.index.total() == scanned_count(source_views(files@)),
        skipped_views(r.skipped@) == skipped_of(source_views(files@)),
        r.index.total() + r.skipped.len() == media_count(source_views(files@)),
{
    let ghost all = source_views(files@);
    let mut index = DatetimeExtnameDigests::new();
    let mut skipped: Vec<Skipped> = Vec::new();
    proof {
        assert(skipped_views(skipped@) =~= skipped_of(all.take(0)));
    }
    for file in it: files
        invariant
            it.seq() == files@,
            all == source_views(files@),
            all.len() <= u32::MAX,
            index.wf(),
            index.buckets() == indexed(Seq::empty(), all.take(it.index() as int)),
            skipped_views(skipped@) == skipped_of(all.take(it.index() as int)),
    {
        let ghost n = it.index() as int;
        proof {
            assert(all.take(n + 1).drop_last() =~= all.take(n));
            lemma_indexed(Seq::empty(), all.take(n));
            lemma_scanned_count(all.take(n));
        }
        match scan_source(&file) {
            Ok(s) => {
                index.insert(s.key, s.ext, s.record);
            },
            Err(reason) => {
                match Extension::of_path(file.path.as_str()) {
                    Extension::Other => {},
                    _ => {
                        skipped.push(Skipped { path: file.path, reason });
                    },
                }
            },
        }
    }
    proof {
        assert(all.take(all.len() as int) =~= all);
        lemma_indexed(Seq::empty(), all);
        lemma_scanned_count(all);
    }
    Scan { index, skipped }
}

/// The buckets of each of several indexes.
pub open spec fn bucket_lists(v: Seq<DatetimeExtnameDigests>) -> Seq<Seq<Keyed>> {
    v.map_values(|x: DatetimeExtnameDigests| x.buckets())
}

/// Folds the indexes of the batches into one, in the order given.
pub fn merge_all(results: Vec<DatetimeExtnameDigests>) -> (r: DatetimeExtnameDigests)
    requires
        forall|i: int| 0 <= i < results.len() ==> (#[trigger] results[i]).wf(),
        totals(bucket_lists(results@)) <= u32::MAX,
    ensures
        r.wf(),
        r.buckets() == merged(bucket_lists(results@)),
        r.total() == totals(bucket_lists(results@)),
{
    let ghost parts = bucket_lists(results@);
    let mut index = DatetimeExtnameDigests::new();
    proof {
        assert(parts.take(0) =~= Seq::<Seq<Keyed>>::empty());
    }
    for part in it: results
        invariant
            it.seq() == results@,
            parts == bucket_lists(results@),
            forall|i: int| 0 <= i < results.len() ==> (#[trigger] results[i]).wf(),
            totals(parts) <= u32::MAX,
            index.wf(),
            index.buckets() == merged(parts.take(it.index() as int)),
    {
        let ghost n = it.index() as int;
        proof {
            assert(parts.take(n + 1).drop_last() =~= parts.take(n));
            lemma_totals_take(parts, n + 1);
            assert forall|i: int| 0 <= i < parts.take(n).len() implies valid_buckets(
                #[trigger] parts.take(n)[i],
            ) by {
                assert(results[i].wf());
            }
            lemma_merged(parts.take(n));
        }
        index.merge(part);
    }
    proof {
        assert(parts.take(parts.len() as int) =~= parts);
        assert forall|i: int| 0 <= i < parts.len() implies valid_buckets(#[trigger] parts[i]) by {
            assert(results[i].wf());
        }
        lemma_merged(parts);
    }
    index
}

/// Builds the index of one directory: the files that lie in it are scanned
/// and filed, and then the indexes of its subdirectories are merged in.
/// The files of the directory that were skipped are noted.
pub fn calc(files: Vec<SourceFile>, dirs: Vec<DatetimeExtnameDigests>) -> (r: Scan)
    requires
        forall|i: int| 0 <= i < dirs.len() ==> (#[trigger] dirs[i]).wf(),
        files.len() + totals(bucket_lists(dirs@)) <= u32::MAX,
    ensures
        r.index.wf(),
        r.index.buckets() == merge_buckets(
            indexed(Seq::empty(), source_views(files@)),
            merged(bucket_lists(dirs@)),
        ),
        r.index.total() == scanned_count(source_views(files@)) + totals(bucket_lists(dirs@)),
        skipped_views(r.skipped@) == skipped_of(source_views(files@)),
{
    proof {
        lemma_scanned_count(source_views(files@));
    }
    let Scan { index, skipped } = calc2(files);
    let mut index = index;
    let below = merge_all(dirs);
    proof {
        lemma_merge_buckets(index.buckets(), below.buckets());
    }
    index.merge(below);
    Scan { index, skipped }
}

/// Builds the index of the directory at which a scan starts, from its own
/// files and the indexes of its subdirectories.
pub fn calc_starter(files: Vec<SourceFile>, dirs: Vec<DatetimeExtnameDigests>) -> (r: Scan)
    requires
        forall|i: int| 0 <= i < dirs.len() ==> (#[trigger] dirs[i]).wf(),
        files.len() + totals(bucket_lists(dirs@)) <= u32::MAX,
    ensures
        r.index.wf(),
        r.index.buckets() == merge_buckets(
            indexed(Seq::empty(), source_views(files@)),
            merged(bucket_lists(dirs@)),
        ),
        r.index.total() == scanned_count(source_views(files@)) + totals(bucket_lists(dirs@)),
        skipped_views(r.skipped@) == skipped_of(source_views(files@)),
{
    calc(files, dirs)
}

/// The files of several batches, each batch as its list.
pub open spec fn batch_sources(v: Seq<Vec<SourceFile>>) -> Seq<Seq<SourceFileView>> {
    v.map_values(|b: Vec<SourceFile>| source_views(b@))
}

/// The indexes that the batches give, each batch by itself.
pub open spec fn batch_indexes(batches: Seq<Seq<SourceFileView>>) -> Seq<Seq<Keyed>> {
    batches.map_values(|b: Seq<SourceFileView>| indexed(Seq::empty(), b))
}

/// The indexes of the batches hold one record for every scanned file of
/// any batch.
pub proof fn lemma_batch_indexes(batches: Seq<Seq<SourceFileView>>)
    requires
        batches.flatten().len() <= u32::MAX,
    ensures
        totals(batch_indexes(batches)) == scanned_count(batches.flatten()),
        forall|i: int|
            0 <= i < batches.len() ==> valid_buckets(#[trigger] batch_indexes(batches)[i]),
    decreases batches.len(),
{
    if batches.len() == 0 {
        assert(batches.flatten() =~= Seq::<SourceFileView>::empty());
    } else {
        let init = batches.drop_last();
        init.lemma_flatten_push(batches.last());
        assert(init.push(batches.last()) =~= batches);
        lemma_batch_indexes(init);
        lemma_scan_concat(init.flatten(), batches.last());
        lemma_indexed(Seq::empty(), batches.last());
        assert(batch_indexes(batches).drop_last() =~= batch_indexes(init));
        assert forall|i: int| 0 <= i < batches.len() implies valid_buckets(
            #[trigger] batch_indexes(batches)[i],
        ) by {
            if i < init.len() {
                assert(batch_indexes(init)[i] == batch_indexes(batches)[i]);
            }
        }
    }
}

/// Batching changes nothing: merging the indexes of the batches gives the
/// index that scanning all files in one run gives, with the same keys in
/// the same order and the same records in every bucket.
pub proof fn lemma_batches_are_one_scan(batches: Seq<Seq<SourceFileView>>)
    ensures
        merged(batch_indexes(batches)) == indexed(Seq::empty(), batches.flatten()),
    decreases batches.len(),
{
    if batches.len() == 0 {
        assert(batches.flatten() =~= Seq::<SourceFileView>::empty());
    } else {
        let init = batches.drop_last();
        init.lemma_flatten_push(batches.last());
        assert(init.push(batches.last()) =~= batches);
        lemma_batches_are_one_scan(init);
        assert(batch_indexes(batches).drop_last() =~= batch_indexes(init));
        lemma_indexed_concat(Seq::empty(), init.flatten(), batches.last());
        lemma_indexed_distinct(Seq::empty(), init.flatten());
        lemma_indexed_is_merge(indexed(Seq::empty(), init.flatten()), batches.last());
    }
}

/// The files of the first batches are among the files of all.
pub proof fn lemma_flatten_take(batches: Seq<Seq<SourceFileView>>, n: int)
    requires
        0 <= n < batches.len(),
    ensures
        batches.take(n + 1).flatten() == batches.take(n).flatten() + batches[n],
        batches.take(n + 1).flatten().len() <= batches.flatten().len(),
    decreases batches.len() - n,
{
    batches.take(n).lemma_flatten_push(batches[n]);
    assert(batches.take(n).push(batches[n]) =~= batches.take(n + 1));
    if n + 1 < batches.len() {
        lemma_flatten_take(batches, n + 1);
    } else {
        assert(batches.take(n + 1) =~= batches);
    }
}

/// Builds the index of a whole scan from its batches: every batch is
/// indexed by itself, and the indexes are merged in the order of the
/// batches. The result is the index of all files scanned in one run: how
/// the files were cut into batches makes no difference. It holds one record
/// for every picture and movie that was not skipped; those that were
/// skipped are noted with the reason.
pub fn aggregate(batches: Vec<Vec<SourceFile>>) -> (r: Scan)
    requires
        batch_sources(batches@).flatten().len() <= u32::MAX,
    ensures
        r.index.wf(),
        r.index.buckets() == indexed(Seq::empty(), batch_sources(batches@).flatten()),
        r.index.total() == scanned_count(batch_sources(batches@).flatten()),
        skipped_views(r.skipped@) == skipped_of(batch_sources(batches@).flatten()),
        r.index.total() + r.skipped.len() == media_count(batch_sources(batches@).flatten()),
{
    let ghost all = batch_sources(batches@);
    let mut parts: Vec<DatetimeExtnameDigests> = Vec::new();
    let mut skipped: Vec<Skipped> = Vec::new();
    proof {
        assert(skipped_views(skipped@) =~= skipped_of(all.take(0).flatten()));
    }
    for batch in it: batches
        invariant
            it.seq() == batches@,
            all == batch_sources(batches@),
            all.flatten().len() <= u32::MAX,
            bucket_lists(parts@) == batch_indexes(all.take(it.index() as int)),
            skipped_views(skipped@) == skipped_of(all.take(it.index() as int).flatten()),
            forall|i: int| 0 <= i < parts.len() ==> (#[trigger] parts[i]).wf(),
    {
        let ghost n = it.index() as int;
        proof {
            lemma_flatten_take(all, n);
        }
        let Scan { index, skipped: mut more } = calc2(batch);
        parts.push(index);
        skipped.append(&mut more);
        proof {
            assert(batch_indexes(all.take(n + 1)) =~= batch_indexes(all.take(n)).push(
                indexed(Seq::empty(), all[n]),
            ));
            lemma_scan_concat(all.take(n).flatten(), all[n]);
        }
    }
    proof {
        assert(all.take(all.len() as int) =~= all);
        lemma_batch_indexes(all);
        lemma_batches_are_one_scan(all);
        lemma_scanned_count(all.flatten());
    }
    Scan { index: merge_all(parts), skipped }
}

/// The files as the entries of a tree walk: none of them is a directory.
pub open spec fn as_entries(files: Seq<SourceFileView>) -> Seq<WalkEntryView> {
    files.map_values(|f: SourceFileView| WalkEntryView { path: f.path, is_dir: false })
}

/// The paths of the files, in order.
pub open spec fn paths_of_files(files: Seq<SourceFileView>) -> Seq<Seq<char>> {
    files.map_values(|f: SourceFileView| f.path)
}

/// The walk sends on the pictures and movies among the files.
pub proof fn lemma_walk_sends_media(files: Seq<SourceFileView>)
    ensures
        walk_files(as_entries(files)) == paths_of_files(media_of(files)),
    decreases files.len(),
{
    if files.len() == 0 {
        assert(walk_files(as_entries(files)) =~= paths_of_files(media_of(files)));
    } else {
        lemma_walk_sends_media(files.drop_last());
        assert(as_entries(files).drop_last() =~= as_entries(files.drop_last()));
    }
}

/// The pictures and movies among the files, in order.
fn keep_media(files: Vec<SourceFile>) -> (r: Vec<SourceFile>)
    ensures
        source_views(r@) == media_of(source_views(files@)),
{
    let ghost all = source_views(files@);
    let mut media: Vec<SourceFile> = Vec::new();
    proof {
        assert(source_views(media@) =~= media_of(all.take(0)));
    }
    for file in it: files
        invariant
            it.seq() == files@,
            all == source_views(files@),
            source_views(media@) == media_of(all.take(it.index() as int)),
    {
        let ghost n = it.index() as int;
        proof {
            assert(all.take(n + 1).drop_last() =~= all.take(n));
        }
        match Extension::of_path(file.path.as_str()) {
            Extension::Other => {},
            _ => {
                media.push(file);
            },
        }
    }
    assert(all.take(all.len() as int) =~= all);
    media
}

/// Cuts the files into groups as long as the batches of paths, in order.
fn group_by_batches(media: Vec<SourceFile>, batches: &Vec<Vec<String>>) -> (r: Vec<
    Vec<SourceFile>,
>)
    requires
        paths_of_files(source_views(media@)) == path_batches(batches@).flatten(),
    ensures
        batch_sources(r@).flatten() == source_views(media@),
        r.len() == batches.len(),
        forall|j: int|
            0 <= j < r.len() ==> paths_of_files(#[trigger] batch_sources(r@)[j]) == path_batches(
                batches@,
            )[j],
{
    let ghost all = source_views(media@);
    let ghost paths = path_batches(batches@);
    let mut rest = media;
    let mut groups: Vec<Vec<SourceFile>> = Vec::new();
    let mut j: usize = 0;
    proof {
        assert(paths.skip(0) =~= paths);
    }
    while j < batches.len()
        invariant
            j <= batches.len(),
            groups.len() == j,
            paths == path_batches(batches@),
            paths_of_files(source_views(rest@)) == paths.skip(j as int).flatten(),
            batch_sources(groups@).flatten() + source_views(rest@) == all,
            forall|k: int|
                0 <= k < j ==> paths_of_files(#[trigger] batch_sources(groups@)[k]) == paths[k],
        decreases batches.len() - j,
    {
        let ghost before = source_views(rest@);
        let ghost done = batch_sources(groups@);
        proof {
            let left = paths.skip(j as int);
            assert(left.drop_first() =~= paths.skip(j + 1));
            assert(paths_of_files(before).len() == before.len());
        }
        let len = batches[j].len();
        let tail = rest.split_off(len);
        let ghost group = source_views(rest@);
        groups.push(rest);
        rest = tail;
        proof {
            assert(batch_sources(groups@) =~= done.push(group));
            done.lemma_flatten_push(group);
            let here = paths[j as int];
            let behind = paths.skip(j + 1).flatten();
            assert(paths_of_files(group) =~= here) by {
                assert(paths_of_files(group) =~= paths_of_files(before).subrange(0, len as int));
            }
            assert(paths_of_files(source_views(rest@)) =~= behind) by {
                assert(paths_of_files(source_views(rest@)) =~= paths_of_files(before).subrange(
                    len as int,
                    before.len() as int,
                ));
            }
        }
        j = j + 1;
    }
    proof {
        assert(batch_sources(groups@).flatten() + source_views(rest@) =~= batch_sources(
            groups@,
        ).flatten());
    }
    groups
}

/// Scans a whole tree whose files are given. The walk sends the paths of
/// the pictures and movies to the controller, the controller cuts them
/// into batches of `limit` paths, every batch is scanned by itself, and the
/// indexes of the batches are merged. The result is the index of all files
/// scanned in order; it holds one record for every picture and movie that
/// was not skipped.
pub fn runner(files: Vec<SourceFile>, limit: usize) -> (r: Scan)
    requires
        files.len() <= i32::MAX,
    ensures
        r.index.wf(),
        r.index.buckets() == indexed(Seq::empty(), source_views(files@)),
        r.index.total() == scanned_count(source_views(files@)),
        skipped_views(r.skipped@) == skipped_of(source_views(files@)),
        r.index.total() + r.skipped.len() == media_count(source_views(files@)),
{
    let ghost all = source_views(files@);
    let mut entries: Vec<WalkEntry> = Vec::new();
    let mut i: usize = 0;
    while i < files.len()
        invariant
            i <= files.len(),
            all == source_views(files@),
            entry_views(entries@) == as_entries(all).take(i as int),
        decreases files.len() - i,
    {
        let entry = WalkEntry { path: files[i].path.clone(), is_dir: false };
        entries.push(entry);
        proof {
            assert(as_entries(all).take(i + 1) =~= as_entries(all).take(i as int).push(
                as_entries(all)[i as int],
            ));
        }
        i = i + 1;
    }
    proof {
        assert(as_entries(all).take(files.len() as int) =~= as_entries(all));
        lemma_walk_sends_media(all);
        lemma_walk_then_control(walk_files(as_entries(all)), limit as nat);
        lemma_media_of(Seq::empty(), all);
        lemma_scanned_count(all);
    }
    let (messages, _count) = accm(&entries, false);
    let batches = match controller(messages, limit) {
        Ok(batches) => batches,
        Err(_) => Vec::new(),
    };
    let media = keep_media(files);
    let groups = group_by_batches(media, &batches);
    aggregate(groups)
}

/// Every file as a batch of its own.
pub open spec fn one_by_one(files: Seq<SourceFileView>) -> Seq<Seq<SourceFileView>> {
    files.map_values(|f: SourceFileView| seq![f])
}

/// The index of every file scanned by itself.
pub open spec fn single_indexes(files: Seq<SourceFileView>) -> Seq<Seq<Keyed>> {
    files.map_values(|f: SourceFileView| indexed(Seq::empty(), seq![f]))
}

/// The batches of one file each hold the files, in order.
pub proof fn lemma_one_by_one(files: Seq<SourceFileView>)
    ensures
        one_by_one(files).flatten() == files,
        batch_indexes(one_by_one(files)) == single_indexes(files),
        all_distinct(single_indexes(files)),
    decreases files.len(),
{
    if files.len() == 0 {
        assert(one_by_one(files).flatten() =~= files);
    } else {
        let init = files.drop_last();
        lemma_one_by_one(init);
        assert(one_by_one(files) =~= one_by_one(init).push(seq![files.last()]));
        one_by_one(init).lemma_flatten_push(seq![files.last()]);
        assert(init + seq![files.last()] =~= files);
    }
    assert(batch_indexes(one_by_one(files)) =~= single_indexes(files));
    assert forall|i: int| 0 <= i < files.len() implies distinct_keys(
        #[trigger] single_indexes(files)[i],
    ) by {
        lemma_indexed_distinct(Seq::empty(), seq![files[i]]);
    }
}

/// The same values in any order give, read through `f`, the same values
/// in some order.
pub proof fn lemma_map_keeps_multiset<A, B>(p: Seq<A>, q: Seq<A>, f: spec_fn(A) -> B)
    requires
        p.to_multiset() == q.to_multiset(),
    ensures
        p.map_values(f).to_multiset() == q.map_values(f).to_multiset(),
    decreases q.len(),
{
    vstd::seq_lib::to_multiset_len(p);
    vstd::seq_lib::to_multiset_len(q);
    if q.len() == 0 {
        assert(p.map_values(f) =~= q.map_values(f));
    } else {
        let x = q.last();
        let rest = q.drop_last();
        assert(rest.push(x) =~= q);
        vstd::seq_lib::to_multiset_build(rest, x);
        vstd::seq_lib::to_multiset_contains(p, x);
        assert(q.to_multiset().count(x) > 0);
        let i = choose|i: int| 0 <= i < p.len() && p[i] == x;
        let others = p.remove(i);
        vstd::seq_lib::to_multiset_remove(p, i);
        assert(others.to_multiset() =~= rest.to_multiset());
        lemma_map_keeps_multiset(others, rest, f);
        assert(others.map_values(f).insert(i, f(x)) =~= p.map_values(f));
        vstd::seq_lib::to_multiset_insert(others.map_values(f), i, f(x));
        assert(rest.map_values(f).push(f(x)) =~= q.map_values(f));
        vstd::seq_lib::to_multiset_build(rest.map_values(f), f(x));
    }
}

/// The order in which the files arrive is free: the same files, scanned
/// in any order, give an index with the same keys, and under every key the
/// same pictures and the same movies, each as often, and the same count.
pub proof fn lemma_arrival_order_is_free(p: Seq<SourceFileView>, q: Seq<SourceFileView>)
    requires
        p.to_multiset() == q.to_multiset(),
    ensures
        unordered(as_map(indexed(Seq::empty(), p))) == unordered(
            as_map(indexed(Seq::empty(), q)),
        ),
{
    lemma_one_by_one(p);
    lemma_one_by_one(q);
    lemma_batches_are_one_scan(one_by_one(p));
    lemma_batches_are_one_scan(one_by_one(q));
    lemma_map_keeps_multiset(p, q, |f: SourceFileView| indexed(Seq::empty(), seq![f]));
    lemma_merge_order_is_free(single_indexes(p), single_indexes(q));
}

/// Sorting within the buckets changes neither the keys nor what the
/// buckets hold.
pub proof fn lemma_sorting_keeps_contents(s: Seq<Keyed>)
    ensures
        unordered(as_map(sorted_buckets(s))) == unordered(as_map(s)),
{
    let t = sorted_buckets(s);
    assert forall|k: Seq<char>| key_index(t, k) == key_index(s, k) by {
        lemma_key_index_same_keys(t, s, k);
    }
    assert forall|k: Seq<char>| #[trigger] as_map(s).contains_key(k) implies unordered(as_map(t))[k]
        == unordered(as_map(s))[k] by {
        lemma_key_index(s, k);
        let i = key_index(s, k);
        lemma_sort_permutes(s[i].1.pic);
        lemma_sort_permutes(s[i].1.mov);
    }
    assert(unordered(as_map(t)) =~= unordered(as_map(s)));
}

/// The same files, arriving in any order, give after the sorting of the
/// buckets indexes that hold the same: the same keys, the same count under
/// every key, and the same pictures and movies.
pub proof fn lemma_finished_index_is_free_of_order(p: Seq<SourceFileView>, q: Seq<SourceFileView>)
    requires
        p.to_multiset() == q.to_multiset(),
    ensures
        unordered(as_map(sorted_buckets(indexed(Seq::empty(), p)))) == unordered(
            as_map(sorted_buckets(indexed(Seq::empty(), q))),
        ),
{
    lemma_arrival_order_is_free(p, q);
    lemma_sorting_keeps_contents(indexed(Seq::empty(), p));
    lemma_sorting_keeps_contents(indexed(Seq::empty(), q));
}

} // verus!
