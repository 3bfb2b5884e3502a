//! The time at which a picture or a movie was taken, read from the file's
//! own metadata and written as the key of its bucket.

use crate::extension::Extension;
use crate::movie::{modification_time, movie_modification_time};
use crate::text::{padded, padded_string};
use vstd::prelude::*;

verus! {

/// Date and time of day as the metadata of a picture states them.
#[derive(PartialEq, Eq, Debug, Clone, Copy, Structural)]
pub struct CaptureTime {
    pub year: u16,
    pub month: u8,
    pub day: u8,
    pub hour: u8,
    pub minute: u8,
    pub second: u8,
}

/// Why a file has no bucket key.
#[derive(PartialEq, Eq, Debug, Clone, Copy, Structural)]
pub enum MetaError {
    /// The file is neither a picture nor a movie.
    NotMedia,
    /// The container could not be read.
    Unreadable,
    /// The metadata holds no time.
    NoTimestamp,
    /// The metadata holds a time that cannot be understood.
    ParseDateTimeError,
}

/// The time field of a picture, as found in its metadata.
pub enum DateField {
    /// The container could not be read.
    Unreadable,
    /// There is no such field.
    Missing,
    /// The field holds something other than text.
    NotAscii,
    /// The field holds these texts.
    Ascii(Vec<Vec<u8>>),
}

/// The contents of a `DateField`.
pub enum DateFieldView {
    Unreadable,
    Missing,
    NotAscii,
    Ascii(Seq<Seq<u8>>),
}

impl View for DateField {
    type V = DateFieldView;

    open spec fn view(&self) -> DateFieldView {
        match self {
            DateField::Unreadable => DateFieldView::Unreadable,
            DateField::Missing => DateFieldView::Missing,
            DateField::NotAscii => DateFieldView::NotAscii,
            DateField::Ascii(parts) => DateFieldView::Ascii(parts@.map_values(|p: Vec<u8>| p@)),
        }
    }
}

/// What the metadata reader finds as the primary `DateTime` field in the
/// bytes of an image file.
pub uninterp spec fn exif_date_field(data: Seq<u8>) -> DateFieldView;

/// The instant, in seconds since 1970-01-01 00:00:00 UTC, that the date and
/// time library reads from a text of the form `%Y-%m-%d %H:%M:%S %z`.
pub uninterp spec fn parsed_instant(text: Seq<char>) -> Option<int>;

/// Date and time of day in Tokyo at the given instant, written as
/// `%Y-%m-%d %H:%M:%S` by the date and time library with the time zone
/// table of the time zone crate.
pub uninterp spec fn tokyo_time_text(secs: int) -> Option<Seq<char>>;

/// A byte that is an ASCII digit.
pub open spec fn is_digit(b: u8) -> bool {
    0x30 <= b <= 0x39
}

/// The bytes are ASCII digits, every one.
pub open spec fn all_digits(s: Seq<u8>) -> bool {
    forall|i: int| 0 <= i < s.len() ==> is_digit(#[trigger] s[i])
}

/// The number that a run of ASCII digits writes.
pub open spec fn number(s: Seq<u8>) -> nat
    decreases s.len(),
{
    if s.len() == 0 {
        0
    } else {
        (number(s.drop_last()) * 10 + (s.last() - 0x30)) as nat
    }
}

/// A time field that was left blank.
pub open spec fn blank_datetime(data: Seq<u8>) -> bool {
    ||| data == seq![
        0x20u8, 0x20, 0x20, 0x20, 0x3a, 0x20, 0x20, 0x3a, 0x20, 0x20, 0x20, 0x20, 0x20, 0x3a,
        0x20, 0x20, 0x3a, 0x20, 0x20,
    ]
    ||| data == Seq::new(19, |i: int| 0x20u8)
}

/// The time that a metadata text of the form `YYYY:MM:DD HH:MM:SS` states.
/// Blank texts, short texts, texts with other delimiters and texts with
/// anything but digits in the six numbers state none. The numbers are not
/// held to any range, and what follows the nineteenth byte is not read.
pub open spec fn ascii_datetime(data: Seq<u8>) -> Option<CaptureTime> {
    if blank_datetime(data) || data.len() < 19 {
        None
    } else if !(data[4] == 0x3a && data[7] == 0x3a && data[10] == 0x20 && data[13] == 0x3a
        && data[16] == 0x3a) {
        None
    } else if !(all_digits(data.subrange(0, 4)) && all_digits(data.subrange(5, 7)) && all_digits(
        data.subrange(8, 10),
    ) && all_digits(data.subrange(11, 13)) && all_digits(data.subrange(14, 16)) && all_digits(
        data.subrange(17, 19),
    )) {
        None
    } else {
        Some(
            CaptureTime {
                year: number(data.subrange(0, 4)) as u16,
                month: number(data.subrange(5, 7)) as u8,
                day: number(data.subrange(8, 10)) as u8,
                hour: number(data.subrange(11, 13)) as u8,
                minute: number(data.subrange(14, 16)) as u8,
                second: number(data.subrange(17, 19)) as u8,
            },
        )
    }
}

/// The time as `YYYY-MM-DD HH:MM:SS`, every number with zeros in front up
/// to its width.
pub open spec fn capture_text(t: CaptureTime) -> Seq<char> {
    padded(t.year as nat, 4) + seq!['-'] + padded(t.month as nat, 2) + seq!['-'] + padded(
        t.day as nat,
        2,
    ) + seq![' '] + padded(t.hour as nat, 2) + seq![':'] + padded(t.minute as nat, 2) + seq![':']
        + padded(t.second as nat, 2)
}

/// The offset from UTC that the times of pictures are read with.
pub open spec fn picture_offset() -> Seq<char> {
    seq![' ', '+', '0', '9', ':', '0', '0']
}

/// The seconds between 1904-01-01 and 1970-01-01, by which a time counted
/// from the earlier date is moved.
pub const MP4_EPOCH_SECONDS: u64 = 2082844800;

/// A time read from a movie header as seconds since 1970: times at or
/// past the distance between the two epochs are taken as counted from 1904.
pub open spec fn unix_seconds(t: int) -> int {
    if t >= MP4_EPOCH_SECONDS {
        t - MP4_EPOCH_SECONDS
    } else {
        t
    }
}

/// `mp4::creation_time` moves a time from the epoch of 1904 to that of
/// 1970 by subtracting their distance, and leaves smaller values as they
/// are.
pub assume_specification[ mp4::creation_time ](creation_time: u64) -> (r: u64)
    ensures
        r == unix_seconds(creation_time as int),
;

/// Reads the container with `exif::Reader::read_from_container` from a
/// cursor over the bytes and looks up the primary `DateTime` field with
/// `Exif::get_field`. The four outcomes are told apart here; the texts of
/// an ASCII field are copied out. The reader works on the bytes alone.
#[verifier::external_body]
fn exif_read_date_field(data: &[u8]) -> (r: DateField)
    ensures
        r@ == exif_date_field(data@),
{
    let mut cursor = std::io::Cursor::new(data);
    let parsed = match exif::Reader::new().read_from_container(&mut cursor) {
        Ok(parsed) => parsed,
        Err(_) => return DateField::Unreadable,
    };
    match parsed.get_field(exif::Tag::DateTime, exif::In::PRIMARY) {
        None => DateField::Missing,
        Some(field) => match &field.value {
            exif::Value::Ascii(parts) => DateField::Ascii(parts.clone()),
            _ => DateField::NotAscii,
        },
    }
}

/// Calls `exif::DateTime::from_ascii` and copies the six numbers out. The
/// crate refuses blank and short texts, wrong delimiters and non-digits,
/// and reads each number from its digits without holding it to a range.
#[verifier::external_body]
fn exif_from_ascii(data: &[u8]) -> (r: Option<CaptureTime>)
    ensures
        r == ascii_datetime(data@),
{
    match exif::DateTime::from_ascii(data) {
        Ok(d) => Some(
            CaptureTime {
                year: d.year,
                month: d.month,
                day: d.day,
                hour: d.hour,
                minute: d.minute,
                second: d.second,
            },
        ),
        Err(_) => None,
    }
}

/// Parses the text with `chrono::DateTime::parse_from_str` and the format
/// `%Y-%m-%d %H:%M:%S %z`, and returns the instant as seconds since 1970.
/// A text that the library refuses gives `None`.
#[verifier::external_body]
fn chrono_parse_instant(text: &str) -> (r: Option<i64>)
    ensures
        match r {
            Some(secs) => parsed_instant(text@) == Some(secs as int),
            None => parsed_instant(text@) is None,
        },
{
    match chrono::DateTime::parse_from_str(text, "%Y-%m-%d %H:%M:%S %z") {
        Ok(instant) => Some(instant.timestamp()),
        Err(_) => None,
    }
}

/// Makes the instant with `TimeZone::timestamp_opt` of `chrono::Utc`, moves
/// it to `chrono_tz::Asia::Tokyo` with `DateTime::with_timezone`, and
/// writes it with the format `%Y-%m-%d %H:%M:%S`. An instant out of the
/// library's range gives `None`.
#[verifier::external_body]
fn chrono_tokyo_text(secs: i64) -> (r: Option<String>)
    ensures
        match r {
            Some(s) => tokyo_time_text(secs as int) == Some(s@),
            None => tokyo_time_text(secs as int) is None,
        },
{
    match chrono::TimeZone::timestamp_opt(&chrono::Utc, secs, 0) {
        chrono::LocalResult::Single(instant) => Some(
            instant.with_timezone(&chrono_tz::Asia::Tokyo).format("%Y-%m-%d %H:%M:%S").to_string(),
        ),
        _ => None,
    }
}

/// Writes a time as `YYYY-MM-DD HH:MM:SS`.
pub fn capture_time_text(t: &CaptureTime) -> (r: String)
    ensures
        r@ == capture_text(*t),
{
    proof {
        reveal_strlit("-");
        reveal_strlit(" ");
        reveal_strlit(":");
    }
    let mut out = padded_string(t.year as usize, 4);
    out.append("-");
    out.append(padded_string(t.month as usize, 2).as_str());
    out.append("-");
    out.append(padded_string(t.day as usize, 2).as_str());
    out.append(" ");
    out.append(padded_string(t.hour as usize, 2).as_str());
    out.append(":");
    out.append(padded_string(t.minute as usize, 2).as_str());
    out.append(":");
    out.append(padded_string(t.second as usize, 2).as_str());
    assert(out@ =~= capture_text(*t));
    out
}

/// The bucket key that follows from the time field of a picture: the first
/// text of the field is read as a time at nine hours east of UTC, and the
/// key is that instant's date and time of day in Tokyo.
pub open spec fn picture_key(field: DateFieldView) -> Result<Seq<char>, MetaError> {
    match field {
        DateFieldView::Unreadable => Err(MetaError::Unreadable),
        DateFieldView::Missing => Err(MetaError::NoTimestamp),
        DateFieldView::NotAscii => Err(MetaError::ParseDateTimeError),
        DateFieldView::Ascii(parts) => if parts.len() == 0 {
            Err(MetaError::ParseDateTimeError)
        } else {
            match ascii_datetime(parts[0]) {
                None => Err(MetaError::ParseDateTimeError),
                Some(t) => match parsed_instant(capture_text(t) + picture_offset()) {
                    None => Err(MetaError::ParseDateTimeError),
                    Some(secs) => match tokyo_time_text(secs) {
                        None => Err(MetaError::ParseDateTimeError),
                        Some(key) => Ok(key),
                    },
                },
            }
        },
    }
}

/// The bucket key that follows from the modification time of a movie: the
/// time is moved to the epoch of 1970, and the key is that instant's date
/// and time of day in Tokyo.
pub open spec fn movie_key(modified: Option<int>) -> Result<Seq<char>, MetaError> {
    match modified {
        None => Err(MetaError::Unreadable),
        Some(t) => if unix_seconds(t) > i64::MAX {
            Err(MetaError::NoTimestamp)
        } else {
            match tokyo_time_text(unix_seconds(t)) {
                None => Err(MetaError::NoTimestamp),
                Some(key) => Ok(key),
            }
        },
    }
}

/// Compares a result that holds a text with the text's model.
pub open spec fn key_is(r: Result<String, MetaError>, model: Result<Seq<char>, MetaError>) -> bool {
    match r {
        Ok(s) => model == Ok::<Seq<char>, MetaError>(s@),
        Err(e) => model == Err::<Seq<char>, MetaError>(e),
    }
}

/// The bucket key of a picture whose time field is given.
pub fn key_from_date_field(field: &DateField) -> (r: Result<String, MetaError>)
    ensures
        key_is(r, picture_key(field@)),
{
    match field {
        DateField::Unreadable => Err(MetaError::Unreadable),
        DateField::Missing => Err(MetaError::NoTimestamp),
        DateField::NotAscii => Err(MetaError::ParseDateTimeError),
        DateField::Ascii(parts) => {
            if parts.len() == 0 {
                return Err(MetaError::ParseDateTimeError);
            }
            let t = match exif_from_ascii(parts[0].as_slice()) {
                Some(t) => t,
                None => {
                    return Err(MetaError::ParseDateTimeError);
                },
            };
            proof {
                reveal_strlit(" +09:00");
                assert(" +09:00"@ =~= picture_offset());
            }
            let mut text = capture_time_text(&t);
            text.append(" +09:00");
            let secs = match chrono_parse_instant(text.as_str()) {
                Some(secs) => secs,
                None => {
                    return Err(MetaError::ParseDateTimeError);
                },
            };
            match chrono_tokyo_text(secs) {
                Some(key) => Ok(key),
                None => Err(MetaError::ParseDateTimeError),
            }
        },
    }
}

/// The bucket key of a movie whose modification time is given.
pub fn key_from_modification_time(modified: Option<u64>) -> (r: Result<String, MetaError>)
    ensures
        key_is(
            r,
            movie_key(
                match modified {
                    Some(t) => Some(t as int),
                    None => None,
                },
            ),
        ),
{
    let t = match modified {
        Some(t) => t,
        None => {
            return Err(MetaError::Unreadable);
        },
    };
    let secs = mp4::creation_time(t);
    if secs > i64::MAX as u64 {
        return Err(MetaError::NoTimestamp);
    }
    match chrono_tokyo_text(secs as i64) {
        Some(key) => Ok(key),
        None => Err(MetaError::NoTimestamp),
    }
}

/// The bucket key of a picture, from the bytes of its file.
pub fn get_datetime(data: &[u8]) -> (r: Result<String, MetaError>)
    ensures
        key_is(r, picture_key(exif_date_field(data@))),
{
    let field = exif_read_date_field(data);
    key_from_date_field(&field)
}

/// The bucket key of a movie, from the bytes of its file.
pub fn get_mp4_datetime(data: &[u8]) -> (r: Result<String, MetaError>)
    ensures
        key_is(r, movie_key(movie_modification_time(data@))),
{
    let modified = modification_time(data);
    key_from_modification_time(modified)
}

/// The bucket key that the bytes of a file give for its category.
pub open spec fn key_of(data: Seq<u8>, ext: Extension) -> Result<Seq<char>, MetaError> {
    match ext {
        Extension::Jpeg => picture_key(exif_date_field(data)),
        Extension::Mp4 => movie_key(movie_modification_time(data)),
        Extension::Other => Err(MetaError::NotMedia),
    }
}

/// The bucket key of a file of the given category, from its bytes.
pub fn datetime(data: &[u8], ext: &Extension) -> (r: Result<String, MetaError>)
    ensures
        key_is(r, key_of(data@, *ext)),
{
    match ext {
        Extension::Jpeg => get_datetime(data),
        Extension::Mp4 => get_mp4_datetime(data),
        Extension::Other => Err(MetaError::NotMedia),
    }
}

} // verus!
