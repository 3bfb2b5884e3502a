//! Finding the movie header in the bytes of an MP4 file. The file is a run
//! of boxes; the movie box is looked for among them, and the movie header
//! among the boxes in the movie box. Box headers and the movie header
//! itself are decoded by the container crate.

use vstd::prelude::*;

verus! {

/// The type of the box that states what kind of file this is.
pub const FTYP: u32 = 0x66747970;

/// The type of the movie box.
pub const MOOV: u32 = 0x6d6f6f76;

/// The type of the movie header box.
pub const MVHD: u32 = 0x6d766864;

/// The number that four bytes from position `at` on write, the most
/// significant byte first.
pub open spec fn be32(b: Seq<u8>, at: int) -> int {
    b[at] * 16777216 + b[at + 1] * 65536 + b[at + 2] * 256 + b[at + 3]
}

/// The number that eight bytes from position `at` on write, the most
/// significant byte first.
pub open spec fn be64(b: Seq<u8>, at: int) -> int {
    be32(b, at) * 4294967296 + be32(b, at + 4)
}

/// How many bytes the header of a box takes: 8, or 16 where the size is
/// written in 64 bits, which a size field of 1 says.
pub open spec fn header_len(w: Seq<u8>) -> int {
    if w.len() >= 4 && be32(w, 0) == 1 {
        16
    } else {
        8
    }
}

/// The type and the size of the box whose header starts the bytes `w`. The
/// size counts from eight bytes before the contents of the box; 0 stands
/// for a box that runs to the end of the file. There is no header where
/// the bytes run out, and none with a 64-bit size from 1 to 15.
pub open spec fn box_header(w: Seq<u8>) -> Option<(u32, u64)> {
    if w.len() < 8 {
        None
    } else if be32(w, 0) != 1 {
        Some((be32(w, 4) as u32, be32(w, 0) as u64))
    } else if w.len() < 16 {
        None
    } else if be64(w, 8) == 0 {
        Some((be32(w, 4) as u32, 0u64))
    } else if be64(w, 8) < 16 {
        None
    } else {
        Some((be32(w, 4) as u32, (be64(w, 8) - 8) as u64))
    }
}

/// The modification time that the contents of a movie header box state:
/// 32 bits in version 0 and 64 bits in version 1, behind the creation
/// time. There is none in other versions, and none where the contents are
/// shorter than the fields of the header.
pub open spec fn movie_header_modified(payload: Seq<u8>) -> Option<int> {
    if payload.len() < 4 {
        None
    } else if payload[0] == 1 {
        if payload.len() >= 112 {
            Some(be64(payload, 12))
        } else {
            None
        }
    } else if payload[0] == 0 {
        if payload.len() >= 100 {
            Some(be32(payload, 8))
        } else {
            None
        }
    } else {
        None
    }
}

/// A movie box that holds a movie header box and nothing else, both with
/// their sizes written in 32 bits.
pub open spec fn framed_movie_header(moov: Seq<u8>) -> bool {
    &&& 16 <= moov.len() <= u32::MAX
    &&& be32(moov, 0) == moov.len()
    &&& be32(moov, 4) == MOOV
    &&& be32(moov, 8) == moov.len() - 8
    &&& be32(moov, 12) == MVHD
}

/// Calls `mp4::BoxHeader::read` on a cursor over the bytes and returns the
/// type, as its number, and the size of the box. The crate reads a 32-bit
/// size and a 32-bit type; where the size is 1 it reads a 64-bit size
/// behind them, refuses 1 to 15, and takes 8 off any other but 0.
#[verifier::external_body]
fn read_box_header(w: &[u8]) -> (r: Option<(u32, u64)>)
    ensures
        r == box_header(w@),
{
    match mp4::BoxHeader::read(&mut std::io::Cursor::new(w)) {
        Ok(header) => Some((u32::from(header.name), header.size)),
        Err(_) => None,
    }
}

/// Calls `mp4::MoovBox::read_box`, through `mp4::ReadBox`, on a cursor that
/// stands behind the header of the movie box, and returns the modification
/// time of the movie header that the crate read. The movie box must hold
/// one movie header box and nothing else, so that the crate reads no other
/// kind of box. A header that the crate refuses gives `None`.
#[verifier::external_body]
fn read_movie_header(moov: &[u8]) -> (r: Option<u64>)
    requires
        framed_movie_header(moov@),
    ensures
        match r {
            Some(t) => movie_header_modified(moov@.skip(16)) == Some(t as int),
            None => movie_header_modified(moov@.skip(16)) is None,
        },
{
    let mut cursor = std::io::Cursor::new(moov);
    cursor.set_position(mp4::HEADER_SIZE);
    let parsed: mp4::Result<mp4::MoovBox> = mp4::ReadBox::read_box(&mut cursor, moov.len() as u64);
    match parsed {
        Ok(movie) => Some(movie.mvhd.modification_time),
        Err(_) => None,
    }
}

/// The bytes in which the header of the box at `pos` is looked for: up to
/// sixteen, as far as the file goes.
pub open spec fn window(data: Seq<u8>, pos: int) -> Seq<u8> {
    data.subrange(pos, if pos + 16 <= data.len() {
        pos + 16
    } else {
        data.len() as int
    })
}

/// A box found in a file: its type, where its contents start, and where it
/// ends.
pub struct FoundBox {
    pub kind: u32,
    pub start: usize,
    pub end: usize,
}

/// What stands at a position of a file.
pub enum BoxAt {
    /// No header can be read there.
    Broken,
    /// A box that runs to the end of the file or past it.
    Open,
    /// A box that ends within the file.
    Whole(FoundBox),
}

/// What stands at position `pos` of the file. A box whose size is larger
/// than the file is taken as broken.
pub open spec fn box_at(data: Seq<u8>, pos: int) -> BoxAt {
    match box_header(window(data, pos)) {
        None => BoxAt::Broken,
        Some((kind, size)) => {
            let len = header_len(window(data, pos));
            if size > data.len() {
                BoxAt::Broken
            } else if size == 0 || len - 8 + size > data.len() - pos {
                BoxAt::Open
            } else {
                BoxAt::Whole(
                    FoundBox {
                        kind,
                        start: (pos + len) as usize,
                        end: (pos + len - 8 + size) as usize,
                    },
                )
            }
        },
    }
}

/// Where the contents of the movie box lie, looking at the boxes of the
/// file from `pos` on: the last movie box counts, a box that states the
/// kind of the file must stand among the boxes, and a header that cannot
/// be read spoils the file. `ftyp` and `moov` say what was found before
/// `pos`.
pub open spec fn movie_box(
    data: Seq<u8>,
    pos: int,
    ftyp: bool,
    moov: Option<(int, int)>,
) -> Option<(int, int)>
    decreases data.len() - pos,
{
    if pos >= data.len() {
        if ftyp {
            moov
        } else {
            None
        }
    } else {
        match box_at(data, pos) {
            BoxAt::Broken => None,
            BoxAt::Open => if ftyp {
                moov
            } else {
                None
            },
            BoxAt::Whole(b) => if b.end <= pos || b.end > data.len() {
                None
            } else {
                movie_box(
                    data,
                    b.end as int,
                    ftyp || b.kind == FTYP,
                    if b.kind == MOOV {
                        if b.start <= b.end {
                            Some((b.start as int, b.end as int))
                        } else {
                            None
                        }
                    } else {
                        moov
                    },
                )
            },
        }
    }
}

/// Where the contents of the first movie header box lie among the boxes
/// from `pos` to `end`. A box that cannot be read, that runs past `end` or
/// that is shorter than its own header spoils the search.
pub open spec fn movie_header(data: Seq<u8>, pos: int, end: int) -> Option<(int, int)>
    decreases end - pos,
{
    if pos >= end {
        None
    } else {
        match box_at(data, pos) {
            BoxAt::Whole(b) => if b.end > end || b.start > b.end || b.end <= pos {
                None
            } else if b.kind == MVHD {
                Some((b.start as int, b.end as int))
            } else {
                movie_header(data, b.end as int, end)
            },
            _ => None,
        }
    }
}

/// The modification time of the movie that the bytes of an MP4 file state,
/// in the seconds of the file's own epoch.
pub open spec fn movie_modification_time(data: Seq<u8>) -> Option<int> {
    match movie_box(data, 0, false, None) {
        None => None,
        Some((start, end)) => match movie_header(data, start, end) {
            None => None,
            Some((from, to)) => if to - from + 16 > u32::MAX {
                None
            } else {
                movie_header_modified(data.subrange(from, to))
            },
        },
    }
}

/// Looks at what stands at position `pos` of the file.
fn look_at(data: &[u8], pos: usize) -> (r: BoxAt)
    requires
        pos < data@.len(),
    ensures
        r == box_at(data@, pos as int),
{
    let len = data.len();
    let upto = if len - pos >= 16 {
        pos + 16
    } else {
        len
    };
    let w = &data[pos..upto];
    assert(w@ == window(data@, pos as int));
    match read_box_header(w) {
        None => BoxAt::Broken,
        Some((kind, size)) => {
            let large = w[0] == 0 && w[1] == 0 && w[2] == 0 && w[3] == 1;
            assert(large == (be32(w@, 0) == 1));
            let head: usize = if large {
                16
            } else {
                8
            };
            let extra: usize = head - 8;
            let room: usize = len - pos;
            if size > len as u64 {
                BoxAt::Broken
            } else if size == 0 || room < extra || size as usize > room - extra {
                BoxAt::Open
            } else {
                BoxAt::Whole(FoundBox { kind, start: pos + head, end: pos + (head - 8) + size as usize })
            }
        },
    }
}

/// Finds the contents of the movie box of the file.
fn find_movie_box(data: &[u8]) -> (r: Option<(usize, usize)>)
    ensures
        match r {
            Some((start, end)) => start <= end <= data@.len() && movie_box(data@, 0, false, None)
                == Some((start as int, end as int)),
            None => movie_box(data@, 0, false, None) is None,
        },
{
    let len = data.len();
    let mut pos: usize = 0;
    let mut ftyp = false;
    let mut moov: Option<(usize, usize)> = None;
    while pos < len
        invariant
            pos <= len,
            len == data@.len(),
            moov matches Some((s, e)) ==> s <= e <= len,
            movie_box(data@, 0, false, None) == movie_box(
                data@,
                pos as int,
                ftyp,
                match moov {
                    Some((s, e)) => Some((s as int, e as int)),
                    None => None,
                },
            ),
        decreases len - pos,
    {
        match look_at(data, pos) {
            BoxAt::Broken => {
                return None;
            },
            BoxAt::Open => {
                return if ftyp {
                    moov
                } else {
                    None
                };
            },
            BoxAt::Whole(b) => {
                if b.end <= pos {
                    return None;
                }
                if b.kind == FTYP {
                    ftyp = true;
                }
                if b.kind == MOOV {
                    moov = if b.start <= b.end {
                        Some((b.start, b.end))
                    } else {
                        None
                    };
                }
                pos = b.end;
            },
        }
    }
    if ftyp {
        moov
    } else {
        None
    }
}

/// Finds the contents of the movie header box among the boxes from `start`
/// to `end`.
fn find_movie_header(data: &[u8], start: usize, end: usize) -> (r: Option<(usize, usize)>)
    requires
        start <= end <= data@.len(),
    ensures
        match r {
            Some((from, to)) => from <= to <= data@.len() && movie_header(
                data@,
                start as int,
                end as int,
            ) == Some((from as int, to as int)),
            None => movie_header(data@, start as int, end as int) is None,
        },
{
    let mut pos: usize = start;
    while pos < end
        invariant
            pos <= end <= data@.len(),
            movie_header(data@, start as int, end as int) == movie_header(
                data@,
                pos as int,
                end as int,
            ),
        decreases end - pos,
    {
        match look_at(data, pos) {
            BoxAt::Whole(b) => {
                if b.end > end || b.start > b.end || b.end <= pos {
                    return None;
                }
                if b.kind == MVHD {
                    return Some((b.start, b.end));
                }
                pos = b.end;
            },
            _ => {
                return None;
            },
        }
    }
    None
}

/// Puts the four bytes of `n` behind `out`, the most significant first.
fn push_be32(out: &mut Vec<u8>, n: u32)
    ensures
        final(out)@.len() == old(out)@.len() + 4,
        final(out)@.subrange(0, old(out)@.len() as int) == old(out)@,
        be32(final(out)@, old(out)@.len() as int) == n,
{
    let ghost before = out@;
    out.push((n / 16777216) as u8);
    out.push(((n / 65536) % 256) as u8);
    out.push(((n / 256) % 256) as u8);
    out.push((n % 256) as u8);
    assert(out@.subrange(0, before.len() as int) =~= before);
}

/// The modification time of the movie that the bytes of an MP4 file state.
pub fn modification_time(data: &[u8]) -> (r: Option<u64>)
    ensures
        match r {
            Some(t) => movie_modification_time(data@) == Some(t as int),
            None => movie_modification_time(data@) is None,
        },
{
    let (start, end) = match find_movie_box(data) {
        Some(found) => found,
        None => {
            return None;
        },
    };
    let (from, to) = match find_movie_header(data, start, end) {
        Some(found) => found,
        None => {
            return None;
        },
    };
    if to - from > 0xffff_ffef {
        return None;
    }
    let total: u32 = (to - from + 16) as u32;
    let mut framed: Vec<u8> = Vec::new();
    push_be32(&mut framed, total);
    push_be32(&mut framed, MOOV);
    push_be32(&mut framed, total - 8);
    push_be32(&mut framed, MVHD);
    let mut i: usize = from;
    while i < to
        invariant
            from <= i <= to <= data@.len(),
            framed@.len() == 16 + (i - from),
            be32(framed@, 0) == total,
            be32(framed@, 4) == MOOV,
            be32(framed@, 8) == total - 8,
            be32(framed@, 12) == MVHD,
            framed@.skip(16) == data@.subrange(from as int, i as int),
        decreases to - i,
    {
        let ghost held = framed@;
        framed.push(data[i]);
        i = i + 1;
        assert(framed@.skip(16) =~= data@.subrange(from as int, i as int));
        assert(forall|k: int| 0 <= k < 16 ==> framed@[k] == held[k]);
    }
    read_movie_header(framed.as_slice())
}

} // verus!
