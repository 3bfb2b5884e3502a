//! Scanning one file: its category, the key of its bucket, its digest and
//! its record; and what a list of files gives when each is scanned.

use crate::calc::{NameDigest, NameDigestView};
use crate::digest::{content_hash_hex, dpx_digest, DigestError};
use crate::extension::{category_of, file_name, file_name_of, Extension};
use crate::index::{
    distinct_keys, lemma_merge_with_file, lemma_with_file, lemma_with_file_distinct,
    merge_buckets, total_count, valid_buckets, with_file, Keyed,
};
use crate::meta::{datetime, key_of, MetaError};
use vstd::prelude::*;

verus! {

/// A file as the tree walk found it: its path, and its bytes where it could
/// be opened and read.
pub struct SourceFile {
    pub path: String,
    pub content: Option<Vec<u8>>,
}

/// The contents of a `SourceFile`.
pub struct SourceFileView {
    pub path: Seq<char>,
    pub content: Option<Seq<u8>>,
}

impl View for SourceFile {
    type V = SourceFileView;

    open spec fn view(&self) -> SourceFileView {
        SourceFileView {
            path: self.path@,
            content: match self.content {
                Some(data) => Some(data@),
                None => None,
            },
        }
    }
}

/// The contents of a list of files, in order.
pub open spec fn source_views(v: Seq<SourceFile>) -> Seq<SourceFileView> {
    v.map_values(|f: SourceFile| f@)
}

/// Why a file was left out of the index. The scan goes on without it.
#[derive(PartialEq, Eq, Debug, Clone, Copy, Structural)]
pub enum FileSkipError {
    /// The file could not be opened or read.
    Unreadable,
    /// The file gave no bucket key.
    Meta(MetaError),
    /// The file gave no digest.
    Digest(DigestError),
}

/// A scanned file: its bucket key, its category and its record.
pub struct Scanned {
    pub key: String,
    pub ext: Extension,
    pub record: NameDigest,
}

/// The contents of a `Scanned`.
pub struct ScannedView {
    pub key: Seq<char>,
    pub ext: Extension,
    pub record: NameDigestView,
}

impl View for Scanned {
    type V = ScannedView;

    open spec fn view(&self) -> ScannedView {
        ScannedView { key: self.key@, ext: self.ext, record: self.record@ }
    }
}

/// The view of the outcome of a scan.
pub open spec fn scan_view(r: Result<Scanned, FileSkipError>) -> Result<
    ScannedView,
    FileSkipError,
> {
    match r {
        Ok(s) => Ok(s@),
        Err(e) => Err(e),
    }
}

/// A file that was left out, and why.
pub struct Skipped {
    pub path: String,
    pub reason: FileSkipError,
}

impl View for Skipped {
    type V = (Seq<char>, FileSkipError);

    open spec fn view(&self) -> (Seq<char>, FileSkipError) {
        (self.path@, self.reason)
    }
}

/// The contents of a list of skipped files, in order.
pub open spec fn skipped_views(v: Seq<Skipped>) -> Seq<(Seq<char>, FileSkipError)> {
    v.map_values(|s: Skipped| s@)
}

/// What a file gives once its bucket key and its digest are known, or have
/// failed: a record under the key, with the file name taken from the path.
/// A failure of either skips the file; that of the key counts first.
pub open spec fn record_from(
    path: Seq<char>,
    ext: Extension,
    key: Result<Seq<char>, MetaError>,
    digest: Result<Seq<char>, DigestError>,
) -> Result<ScannedView, FileSkipError> {
    match key {
        Err(e) => Err(FileSkipError::Meta(e)),
        Ok(k) => match digest {
            Err(e) => Err(FileSkipError::Digest(e)),
            Ok(d) => Ok(
                ScannedView {
                    key: k,
                    ext,
                    record: NameDigestView { digest: d, name: file_name(path), path },
                },
            ),
        },
    }
}

/// The digest of a file with the given bytes, or why there is none.
pub open spec fn digest_of(data: Seq<u8>) -> Result<Seq<char>, DigestError> {
    match content_hash_hex(data) {
        Some(d) => Ok(d),
        None => Err(DigestError::Unreadable),
    }
}

/// What scanning a file with the given path and bytes gives. Files that are
/// neither pictures nor movies, files without a time in their metadata and
/// files that the hasher fails on are skipped.
pub open spec fn scanned(path: Seq<char>, data: Seq<u8>) -> Result<ScannedView, FileSkipError> {
    let ext = category_of(path);
    record_from(path, ext, key_of(data, ext), digest_of(data))
}

/// What scanning a file gives; one that could not be read is skipped.
pub open spec fn source_scanned(f: SourceFileView) -> Result<ScannedView, FileSkipError> {
    match f.content {
        Some(data) => scanned(f.path, data),
        None => Err(FileSkipError::Unreadable),
    }
}

/// A picture or a movie, going by the path.
pub open spec fn is_media(path: Seq<char>) -> bool {
    category_of(path) != Extension::Other
}

/// The buckets after the scanned ones among the files were filed, in order.
pub open spec fn indexed(start: Seq<Keyed>, files: Seq<SourceFileView>) -> Seq<Keyed>
    decreases files.len(),
{
    if files.len() == 0 {
        start
    } else {
        let before = indexed(start, files.drop_last());
        match source_scanned(files.last()) {
            Ok(s) => with_file(before, s.key, s.ext, s.record),
            Err(_) => before,
        }
    }
}

/// The pictures and movies among the files that were skipped, each with
/// the reason, in order. Other files are dropped without a word.
pub open spec fn skipped_of(files: Seq<SourceFileView>) -> Seq<(Seq<char>, FileSkipError)>
    decreases files.len(),
{
    if files.len() == 0 {
        Seq::empty()
    } else {
        let before = skipped_of(files.drop_last());
        match source_scanned(files.last()) {
            Err(e) => if is_media(files.last().path) {
                before.push((files.last().path, e))
            } else {
                before
            },
            Ok(_) => before,
        }
    }
}

/// How many of the files are scanned and not skipped.
pub open spec fn scanned_count(files: Seq<SourceFileView>) -> nat
    decreases files.len(),
{
    if files.len() == 0 {
        0
    } else {
        scanned_count(files.drop_last()) + if source_scanned(files.last()) is Ok {
            1nat
        } else {
            0nat
        }
    }
}

/// How many of the files are pictures or movies, going by their paths.
pub open spec fn media_count(files: Seq<SourceFileView>) -> nat
    decreases files.len(),
{
    if files.len() == 0 {
        0
    } else {
        media_count(files.drop_last()) + if is_media(files.last().path) {
            1nat
        } else {
            0nat
        }
    }
}

/// The scanned files are the pictures and movies without those that were
/// skipped, and there are not more of them than files.
pub proof fn lemma_scanned_count(files: Seq<SourceFileView>)
    ensures
        scanned_count(files) + skipped_of(files).len() == media_count(files),
        media_count(files) <= files.len(),
    decreases files.len(),
{
    if files.len() > 0 {
        lemma_scanned_count(files.drop_last());
    }
}

/// Filing the scanned files keeps the buckets valid and adds one record
/// for every scanned file.
pub proof fn lemma_indexed(start: Seq<Keyed>, files: Seq<SourceFileView>)
    requires
        valid_buckets(start),
        total_count(start) + files.len() <= u32::MAX,
    ensures
        valid_buckets(indexed(start, files)),
        total_count(indexed(start, files)) == total_count(start) + scanned_count(files),
    decreases files.len(),
{
    if files.len() > 0 {
        lemma_indexed(start, files.drop_last());
        lemma_scanned_count(files.drop_last());
        match source_scanned(files.last()) {
            Ok(s) => {
                lemma_with_file(indexed(start, files.drop_last()), s.key, s.ext, s.record);
            },
            Err(_) => {},
        }
    }
}

/// Puts together what is known of one file. Where the key or the digest
/// failed the file is skipped, for the reason of the key first.
pub fn build_record(
    path: &str,
    ext: Extension,
    key: Result<String, MetaError>,
    digest: Result<String, DigestError>,
) -> (r: Result<Scanned, FileSkipError>)
    ensures
        scan_view(r) == record_from(
            path@,
            ext,
            match key {
                Ok(k) => Ok(k@),
                Err(e) => Err(e),
            },
            match digest {
                Ok(d) => Ok(d@),
                Err(e) => Err(e),
            },
        ),
{
    match key {
        Err(e) => Err(FileSkipError::Meta(e)),
        Ok(k) => match digest {
            Err(e) => Err(FileSkipError::Digest(e)),
            Ok(d) => Ok(
                Scanned {
                    key: k,
                    ext,
                    record: NameDigest {
                        digest: d,
                        name: file_name_of(path),
                        path: path.to_owned(),
                    },
                },
            ),
        },
    }
}

/// Scans one file: classifies it by its path, reads the time at which it
/// was taken from its bytes, and hashes the bytes. A file for which any of
/// this fails is skipped with the reason; the bytes of a file without a
/// key are not hashed.
pub fn scan_file(path: &str, data: &[u8]) -> (r: Result<Scanned, FileSkipError>)
    ensures
        scan_view(r) == scanned(path@, data@),
{
    let ext = Extension::of_path(path);
    match datetime(data, &ext) {
        Err(e) => Err(FileSkipError::Meta(e)),
        Ok(key) => build_record(path, ext, Ok(key), dpx_digest(data)),
    }
}

/// Scans one file as the tree walk found it. A file that could not be read
/// is skipped.
pub fn scan_source(file: &SourceFile) -> (r: Result<Scanned, FileSkipError>)
    ensures
        scan_view(r) == source_scanned(file@),
{
    match &file.content {
        Some(data) => scan_file(file.path.as_str(), data.as_slice()),
        None => Err(FileSkipError::Unreadable),
    }
}

/// What two lists of files give one after the other is what the joined
/// list gives.
pub proof fn lemma_scan_concat(a: Seq<SourceFileView>, b: Seq<SourceFileView>)
    ensures
        scanned_count(a + b) == scanned_count(a) + scanned_count(b),
        media_count(a + b) == media_count(a) + media_count(b),
        skipped_of(a + b) == skipped_of(a) + skipped_of(b),
    decreases b.len(),
{
    if b.len() == 0 {
        assert(skipped_of(a) + skipped_of(b) =~= skipped_of(a));
    } else {
        lemma_scan_concat(a, b.drop_last());
        assert((a + b).drop_last() =~= a + b.drop_last());
    }
}

/// Filing files keeps the keys unique.
pub proof fn lemma_indexed_distinct(start: Seq<Keyed>, files: Seq<SourceFileView>)
    requires
        distinct_keys(start),
    ensures
        distinct_keys(indexed(start, files)),
    decreases files.len(),
{
    if files.len() > 0 {
        lemma_indexed_distinct(start, files.drop_last());
        match source_scanned(files.last()) {
            Ok(s) => {
                lemma_with_file_distinct(indexed(start, files.drop_last()), s.key, s.ext, s.record);
            },
            Err(_) => {},
        }
    }
}

/// Filing two lists of files one after the other is filing the joined list.
pub proof fn lemma_indexed_concat(
    start: Seq<Keyed>,
    a: Seq<SourceFileView>,
    b: Seq<SourceFileView>,
)
    ensures
        indexed(start, a + b) == indexed(indexed(start, a), b),
    decreases b.len(),
{
    if b.len() == 0 {
        assert(a + b =~= a);
    } else {
        lemma_indexed_concat(start, a, b.drop_last());
        assert((a + b).drop_last() =~= a + b.drop_last());
    }
}

/// Filing files into an index gives what merging the index of the files
/// into it gives.
pub proof fn lemma_indexed_is_merge(start: Seq<Keyed>, files: Seq<SourceFileView>)
    requires
        distinct_keys(start),
    ensures
        indexed(start, files) == merge_buckets(start, indexed(Seq::empty(), files)),
    decreases files.len(),
{
    if files.len() > 0 {
        let init = files.drop_last();
        lemma_indexed_is_merge(start, init);
        lemma_indexed_distinct(Seq::empty(), init);
        match source_scanned(files.last()) {
            Ok(s) => {
                lemma_merge_with_file(start, indexed(Seq::empty(), init), s.key, s.ext, s.record);
            },
            Err(_) => {},
        }
    }
}

/// Files that are neither pictures nor movies change nothing: what the
/// pictures and movies among the files give is what all files give.
pub open spec fn media_of(files: Seq<SourceFileView>) -> Seq<SourceFileView>
    decreases files.len(),
{
    if files.len() == 0 {
        Seq::empty()
    } else if is_media(files.last().path) {
        media_of(files.drop_last()).push(files.last())
    } else {
        media_of(files.drop_last())
    }
}

/// Leaving out what is neither picture nor movie changes neither the index
/// nor the counts nor what is noted as skipped.
pub proof fn lemma_media_of(start: Seq<Keyed>, files: Seq<SourceFileView>)
    ensures
        indexed(start, media_of(files)) == indexed(start, files),
        scanned_count(media_of(files)) == scanned_count(files),
        skipped_of(media_of(files)) == skipped_of(files),
        media_count(media_of(files)) == media_count(files),
        media_of(files).len() == media_count(files),
    decreases files.len(),
{
    if files.len() > 0 {
        lemma_media_of(start, files.drop_last());
        if is_media(files.last().path) {
            assert(media_of(files).drop_last() =~= media_of(files.drop_last()));
        }
    }
}

} // verus!
