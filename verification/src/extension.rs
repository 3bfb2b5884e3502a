//! Classification of files by the extension of their path.

use crate::text::{chars_of, last_index_of, rfind_from};
use vstd::prelude::*;

verus! {

/// What a file is taken to be, judged by its extension alone.
#[derive(PartialEq, Eq, Hash, Debug, Clone, Copy, Structural)]
pub enum Extension {
    /// A picture.
    Jpeg,
    /// A movie.
    Mp4,
    /// Anything else; such files are ignored.
    Other,
}

/// The error of a classification. Every text and every path has a
/// category, so no function of this module returns it; it stands in their
/// results for callers that match on them.
#[derive(Debug)]
pub enum ExtensionError {
    /// An extension that is not known, kept here.
    UnknownExtensionError(String),
}

impl ExtensionError {
    /// The extension that the error is about.
    pub open spec fn extension(self) -> Seq<char> {
        match self {
            ExtensionError::UnknownExtensionError(e) => e@,
        }
    }

    /// A line of text for the error.
    pub fn message(&self) -> (r: String)
        ensures
            r@ == "UnknownExtensionError: "@ + self.extension(),
    {
        match self {
            ExtensionError::UnknownExtensionError(e) => {
                let mut out = "UnknownExtensionError: ".to_owned();
                out.append(e.as_str());
                out
            },
        }
    }
}

/// The category that an extension, written without its dot, stands for.
pub open spec fn classify(ext: Seq<char>) -> Extension {
    if ext == seq!['j', 'p', 'e', 'g'] || ext == seq!['J', 'P', 'E', 'G'] || ext == seq![
        'j',
        'p',
        'g',
    ] || ext == seq!['J', 'P', 'G'] {
        Extension::Jpeg
    } else if ext == seq!['m', 'p', '4'] || ext == seq!['M', 'P', '4'] {
        Extension::Mp4
    } else {
        Extension::Other
    }
}

/// The last component of a path: what follows its last `/`.
pub open spec fn file_name(path: Seq<char>) -> Seq<char> {
    path.skip(last_index_of(path, '/') + 1)
}

/// The extension of a path: what follows the last `.` of its file name,
/// unless the file name has no `.` or only a leading one.
pub open spec fn extension_of(path: Seq<char>) -> Option<Seq<char>> {
    let name = file_name(path);
    let dot = last_index_of(name, '.');
    if dot <= 0 {
        None
    } else {
        Some(name.skip(dot + 1))
    }
}

/// The category of a whole path; paths without an extension are ignored.
pub open spec fn category_of(path: Seq<char>) -> Extension {
    match extension_of(path) {
        Some(ext) => classify(ext),
        None => Extension::Other,
    }
}

fn matches3(cs: &Vec<char>, from: usize, a: char, b: char, c: char) -> (r: bool)
    requires
        from <= cs.len(),
    ensures
        r == (cs@.skip(from as int) == seq![a, b, c]),
{
    let n = cs.len() - from;
    let r = n == 3 && cs[from] == a && cs[from + 1] == b && cs[from + 2] == c;
    proof {
        let s = cs@.skip(from as int);
        if r {
            assert(s =~= seq![a, b, c]);
        } else if s == seq![a, b, c] {
            assert(s.len() == 3);
            assert(s[0] == a && s[1] == b && s[2] == c);
        }
    }
    r
}

fn matches4(cs: &Vec<char>, from: usize, a: char, b: char, c: char, d: char) -> (r: bool)
    requires
        from <= cs.len(),
    ensures
        r == (cs@.skip(from as int) == seq![a, b, c, d]),
{
    let n = cs.len() - from;
    let r = n == 4 && cs[from] == a && cs[from + 1] == b && cs[from + 2] == c && cs[from + 3]
        == d;
    proof {
        let s = cs@.skip(from as int);
        if r {
            assert(s =~= seq![a, b, c, d]);
        } else if s == seq![a, b, c, d] {
            assert(s.len() == 4);
            assert(s[0] == a && s[1] == b && s[2] == c && s[3] == d);
        }
    }
    r
}

fn classify_from(cs: &Vec<char>, from: usize) -> (r: Extension)
    requires
        from <= cs.len(),
    ensures
        r == classify(cs@.skip(from as int)),
{
    if matches4(cs, from, 'j', 'p', 'e', 'g') || matches4(cs, from, 'J', 'P', 'E', 'G')
        || matches3(cs, from, 'j', 'p', 'g') || matches3(cs, from, 'J', 'P', 'G') {
        Extension::Jpeg
    } else if matches3(cs, from, 'm', 'p', '4') || matches3(cs, from, 'M', 'P', '4') {
        Extension::Mp4
    } else {
        Extension::Other
    }
}

/// Where the file name of a path starts.
pub fn file_name_start(cs: &Vec<char>) -> (r: usize)
    ensures
        r == last_index_of(cs@, '/') + 1,
        r <= cs.len(),
        cs@.skip(r as int) == file_name(cs@),
{
    assert(cs@.skip(0) =~= cs@);
    match rfind_from(cs, 0, '/') {
        Some(i) => i + 1,
        None => 0,
    }
}

impl Extension {
    /// Classifies an extension written without its dot. Every text has a
    /// category, so the result is always `Ok`.
    pub fn from_str(s: &str) -> (r: Result<Extension, ExtensionError>)
        ensures
            r matches Ok(e) && e == classify(s@),
    {
        let cs = chars_of(s);
        assert(cs@.skip(0) =~= cs@);
        Ok(classify_from(&cs, 0))
    }

    /// Classifies a path by its extension. Every path has a category, so
    /// the result is always `Ok`; a path without an extension is `Other`.
    pub fn from_path(path: &str) -> (r: Result<Extension, ExtensionError>)
        ensures
            r matches Ok(e) && e == category_of(path@),
    {
        Ok(Extension::of_path(path))
    }

    /// The category of a path, with `Other` for a path without an extension.
    pub fn of_path(path: &str) -> (r: Extension)
        ensures
            r == category_of(path@),
    {
        let cs = chars_of(path);
        let start = file_name_start(&cs);
        match rfind_from(&cs, start, '.') {
            Some(dot) => {
                if dot == start {
                    Extension::Other
                } else {
                    assert(cs@.skip(start as int).skip(dot - start + 1) =~= cs@.skip(dot + 1));
                    classify_from(&cs, dot + 1)
                }
            },
            None => Extension::Other,
        }
    }
}

/// The last component of a path.
pub fn file_name_of(path: &str) -> (r: String)
    ensures
        r@ == file_name(path@),
{
    let cs = chars_of(path);
    let start = file_name_start(&cs);
    let name = path.substring_char(start, cs.len());
    name.to_owned()
}

} // verus!
