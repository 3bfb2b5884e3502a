use my_dropbox_controller::digest::{dpx_digest, sha_256_digest};
use my_dropbox_controller::extension::Extension;
use my_dropbox_controller::meta::{
    capture_time_text, datetime, get_datetime, get_mp4_datetime, key_from_date_field,
    key_from_modification_time, CaptureTime, DateField, MetaError,
};

fn tiff_with_datetime(text: &[u8]) -> Vec<u8> {
    let mut value = text.to_vec();
    value.push(0);
    let mut out = Vec::new();
    out.extend_from_slice(b"II*\0");
    out.extend_from_slice(&8u32.to_le_bytes());
    out.extend_from_slice(&1u16.to_le_bytes());
    out.extend_from_slice(&0x0132u16.to_le_bytes());
    out.extend_from_slice(&2u16.to_le_bytes());
    out.extend_from_slice(&(value.len() as u32).to_le_bytes());
    out.extend_from_slice(&26u32.to_le_bytes());
    out.extend_from_slice(&0u32.to_le_bytes());
    out.extend_from_slice(&value);
    out
}

fn tiff_without_datetime() -> Vec<u8> {
    let mut out = Vec::new();
    out.extend_from_slice(b"II*\0");
    out.extend_from_slice(&8u32.to_le_bytes());
    out.extend_from_slice(&1u16.to_le_bytes());
    out.extend_from_slice(&0x0112u16.to_le_bytes());
    out.extend_from_slice(&3u16.to_le_bytes());
    out.extend_from_slice(&1u32.to_le_bytes());
    out.extend_from_slice(&1u32.to_le_bytes());
    out.extend_from_slice(&0u32.to_le_bytes());
    out
}

fn mp4_modified_at(modified: u64) -> Vec<u8> {
    let mut out = Vec::new();
    let ftyp = mp4::FtypBox::default();
    mp4::WriteBox::write_box(&ftyp, &mut out).unwrap();
    let mut moov = mp4::MoovBox::default();
    moov.mvhd.modification_time = modified;
    mp4::WriteBox::write_box(&moov, &mut out).unwrap();
    out
}

#[test]
fn sha_256_of_abc() {
    let digest = sha_256_digest(b"abc").unwrap();
    assert_eq!(
        data_encoding::HEXLOWER.encode(&digest),
        "ba7816bf8f01cfea414140de5dae2223b00361a396177a9cb410ff61f20015ad"
    );
}

#[test]
fn sha_256_of_nothing() {
    let digest = sha_256_digest(b"").unwrap();
    assert_eq!(
        data_encoding::HEXUPPER.encode(&digest),
        "E3B0C44298FC1C149AFBF4C8996FB92427AE41E4649B934CA495991B7852B855"
    );
}

#[test]
fn content_hash_of_abc_hashes_the_block_digest() {
    assert_eq!(
        dpx_digest(b"abc").unwrap(),
        "4f8b42c22dd3729b519ba6f68d2da7cc5b2d606d05daed5ad5128cc03e6c6358"
    );
}

#[test]
fn content_hash_is_written_in_64_lower_case_hex_digits() {
    for data in [&b""[..], b"abc", &[0xffu8; 1000]] {
        let text = dpx_digest(data).unwrap();
        assert_eq!(text.len(), 64);
        assert!(text.chars().all(|c| c.is_ascii_digit() || ('a'..='f').contains(&c)));
    }
}

#[test]
fn content_hash_of_nothing() {
    assert_eq!(
        dpx_digest(b"").unwrap(),
        "e3b0c44298fc1c149afbf4c8996fb92427ae41e4649b934ca495991b7852b855"
    );
}

#[test]
fn content_hash_of_more_than_one_block() {
    let block = 4 * 1024 * 1024;
    let data = vec![7u8; block + 5];
    let first = ring::digest::digest(&ring::digest::SHA256, &data[..block]);
    let second = ring::digest::digest(&ring::digest::SHA256, &data[block..]);
    let mut joined = first.as_ref().to_vec();
    joined.extend_from_slice(second.as_ref());
    let whole = ring::digest::digest(&ring::digest::SHA256, &joined);
    assert_eq!(dpx_digest(&data).unwrap(), data_encoding::HEXLOWER.encode(whole.as_ref()));
}

#[test]
fn capture_time_is_written_with_zeros() {
    let t = CaptureTime { year: 2020, month: 1, day: 2, hour: 3, minute: 4, second: 5 };
    assert_eq!(capture_time_text(&t), "2020-01-02 03:04:05");
    let t = CaptureTime { year: 7, month: 12, day: 31, hour: 23, minute: 59, second: 59 };
    assert_eq!(capture_time_text(&t), "0007-12-31 23:59:59");
}

#[test]
fn picture_key_is_the_time_of_the_field() {
    let data = tiff_with_datetime(b"2020:01:02 03:04:05");
    assert_eq!(get_datetime(&data).unwrap(), "2020-01-02 03:04:05");
    assert_eq!(datetime(&data, &Extension::Jpeg).unwrap(), "2020-01-02 03:04:05");
}

#[test]
fn picture_key_follows_the_clock_of_tokyo() {
    // In the summer of 1950 clocks in Tokyo stood one hour ahead of +09:00.
    let data = tiff_with_datetime(b"1950:07:01 12:00:00");
    assert_eq!(get_datetime(&data).unwrap(), "1950-07-01 13:00:00");
}

#[test]
fn picture_without_time_field_has_no_key() {
    assert_eq!(get_datetime(&tiff_without_datetime()), Err(MetaError::NoTimestamp));
}

#[test]
fn picture_that_cannot_be_read_has_no_key() {
    assert_eq!(get_datetime(b"this is no picture"), Err(MetaError::Unreadable));
    assert_eq!(get_datetime(b""), Err(MetaError::Unreadable));
}

#[test]
fn picture_with_a_time_that_is_none_has_no_key() {
    for text in [
        &b"2020:13:02 03:04:05"[..],
        b"2020:02:30 03:04:05",
        b"2020:01:02 25:04:05",
        b"2020-01-02 03:04:05",
        b"2020:01:02",
        b"    :  :     :  :  ",
        b"20x0:01:02 03:04:05",
    ] {
        let data = tiff_with_datetime(text);
        assert_eq!(get_datetime(&data), Err(MetaError::ParseDateTimeError), "{:?}", text);
    }
}

#[test]
fn date_field_outcomes() {
    assert_eq!(key_from_date_field(&DateField::Unreadable), Err(MetaError::Unreadable));
    assert_eq!(key_from_date_field(&DateField::Missing), Err(MetaError::NoTimestamp));
    assert_eq!(key_from_date_field(&DateField::NotAscii), Err(MetaError::ParseDateTimeError));
    assert_eq!(
        key_from_date_field(&DateField::Ascii(Vec::new())),
        Err(MetaError::ParseDateTimeError)
    );
    let field = DateField::Ascii(vec![b"2021:12:31 23:59:59 and more".to_vec()]);
    assert_eq!(key_from_date_field(&field).unwrap(), "2021-12-31 23:59:59");
}

#[test]
fn movie_key_is_the_time_in_tokyo() {
    assert_eq!(
        key_from_modification_time(Some(1577934245)).unwrap(),
        "2020-01-02 12:04:05"
    );
    assert_eq!(key_from_modification_time(Some(0)).unwrap(), "1970-01-01 09:00:00");
}

#[test]
fn movie_time_counted_from_1904_is_moved() {
    assert_eq!(
        key_from_modification_time(Some(2082844800 + 1577934245)).unwrap(),
        "2020-01-02 12:04:05"
    );
    assert_eq!(key_from_modification_time(Some(2082844800)).unwrap(), "1970-01-01 09:00:00");
    assert_eq!(
        key_from_modification_time(Some(2082844799)).unwrap(),
        "2036-01-02 08:59:59"
    );
}

#[test]
fn movie_time_out_of_range_has_no_key() {
    assert_eq!(key_from_modification_time(Some(u64::MAX)), Err(MetaError::NoTimestamp));
    assert_eq!(key_from_modification_time(Some(1 << 62)), Err(MetaError::NoTimestamp));
    assert_eq!(key_from_modification_time(None), Err(MetaError::Unreadable));
}

#[test]
fn movie_key_from_the_bytes_of_a_file() {
    let data = mp4_modified_at(1577934245);
    assert_eq!(get_mp4_datetime(&data).unwrap(), "2020-01-02 12:04:05");
    assert_eq!(datetime(&data, &Extension::Mp4).unwrap(), "2020-01-02 12:04:05");
    let data = mp4_modified_at(2082844800 + 1577934245);
    assert_eq!(get_mp4_datetime(&data).unwrap(), "2020-01-02 12:04:05");
}

#[test]
fn movie_that_cannot_be_read_has_no_key() {
    assert_eq!(get_mp4_datetime(b"no movie"), Err(MetaError::Unreadable));
    assert_eq!(get_mp4_datetime(b""), Err(MetaError::Unreadable));
}

#[test]
fn other_files_have_no_key() {
    let data = tiff_with_datetime(b"2020:01:02 03:04:05");
    assert_eq!(datetime(&data, &Extension::Other), Err(MetaError::NotMedia));
}

fn boxed(kind: &[u8; 4], content: &[u8]) -> Vec<u8> {
    let mut out = ((content.len() + 8) as u32).to_be_bytes().to_vec();
    out.extend_from_slice(kind);
    out.extend_from_slice(content);
    out
}

fn boxed_large(kind: &[u8; 4], content: &[u8]) -> Vec<u8> {
    let mut out = 1u32.to_be_bytes().to_vec();
    out.extend_from_slice(kind);
    out.extend_from_slice(&((content.len() + 16) as u64).to_be_bytes());
    out.extend_from_slice(content);
    out
}

fn movie_header_v0(modified: u32) -> Vec<u8> {
    let mut out = vec![0u8; 100];
    out[8..12].copy_from_slice(&modified.to_be_bytes());
    out
}

fn movie_header_v1(modified: u64) -> Vec<u8> {
    let mut out = vec![0u8; 112];
    out[0] = 1;
    out[12..20].copy_from_slice(&modified.to_be_bytes());
    out
}

fn joined(parts: &[Vec<u8>]) -> Vec<u8> {
    parts.concat()
}

#[test]
fn an_event_box_with_a_wrong_size_does_not_stop_the_scan() {
    let mut data = vec![0x00, 0x00, 0x00, 0x0C, 0x65, 0x6D, 0x73, 0x67];
    data.extend_from_slice(&[0u8; 22]);
    assert_eq!(data.len(), 30);
    assert_eq!(get_mp4_datetime(&data), Err(MetaError::Unreadable));
    assert_eq!(datetime(&data, &Extension::Mp4), Err(MetaError::Unreadable));
    assert_eq!(my_dropbox_controller::movie::modification_time(&data), None);
}

#[test]
fn movie_header_is_found_among_other_boxes() {
    let moov = joined(&[
        boxed(b"trak", b"this is no track at all"),
        boxed(b"udta", &[]),
        boxed(b"mvhd", &movie_header_v0(1577934245)),
        boxed(b"trak", &[0xff; 40]),
    ]);
    let data = joined(&[
        boxed(b"ftyp", b"isom\0\0\0\0"),
        boxed(b"emsg", &[0u8; 4]),
        boxed(b"free", &[1, 2, 3]),
        boxed_large(b"mdat", &[9u8; 50]),
        boxed(b"moov", &moov),
        boxed(b"moof", &[0u8; 3]),
    ]);
    assert_eq!(my_dropbox_controller::movie::modification_time(&data), Some(1577934245));
    assert_eq!(get_mp4_datetime(&data).unwrap(), "2020-01-02 12:04:05");
}

#[test]
fn movie_header_of_version_one_holds_a_long_time() {
    let time = 2082844800u64 + 1577934245;
    let data = joined(&[
        boxed(b"ftyp", b"isom"),
        boxed_large(b"moov", &boxed_large(b"mvhd", &movie_header_v1(time))),
    ]);
    assert_eq!(my_dropbox_controller::movie::modification_time(&data), Some(time));
    assert_eq!(get_mp4_datetime(&data).unwrap(), "2020-01-02 12:04:05");
    let data = joined(&[
        boxed(b"ftyp", b"isom"),
        boxed(b"moov", &boxed(b"mvhd", &movie_header_v1(u64::MAX))),
    ]);
    assert_eq!(my_dropbox_controller::movie::modification_time(&data), Some(u64::MAX));
    assert_eq!(get_mp4_datetime(&data), Err(MetaError::NoTimestamp));
}

#[test]
fn the_last_movie_box_and_the_first_movie_header_count() {
    let first = joined(&[
        boxed(b"mvhd", &movie_header_v0(1)),
        boxed(b"mvhd", &movie_header_v0(2)),
    ]);
    let second = joined(&[
        boxed(b"mvhd", &movie_header_v0(3)),
        boxed(b"mvhd", &movie_header_v0(4)),
    ]);
    let data = joined(&[boxed(b"moov", &first), boxed(b"ftyp", b"isom"), boxed(b"moov", &second)]);
    assert_eq!(my_dropbox_controller::movie::modification_time(&data), Some(3));
}

#[test]
fn a_box_that_runs_to_the_end_of_the_file_ends_the_search() {
    let mut open = 0u32.to_be_bytes().to_vec();
    open.extend_from_slice(b"mdat");
    open.extend_from_slice(&[7u8; 20]);
    let movie = boxed(b"moov", &boxed(b"mvhd", &movie_header_v0(5)));
    let data = joined(&[boxed(b"ftyp", b"isom"), movie.clone(), open.clone(), movie.clone()]);
    assert_eq!(my_dropbox_controller::movie::modification_time(&data), Some(5));
    let data = joined(&[boxed(b"ftyp", b"isom"), open, movie]);
    assert_eq!(my_dropbox_controller::movie::modification_time(&data), None);
    let mut cut = boxed(b"mdat", &[7u8; 20]);
    cut.truncate(15);
    let data = joined(&[
        boxed(b"ftyp", b"isom"),
        boxed(b"moov", &boxed(b"mvhd", &movie_header_v0(6))),
        cut,
    ]);
    assert_eq!(my_dropbox_controller::movie::modification_time(&data), Some(6));
}

#[test]
fn files_without_a_readable_movie_header_have_no_time() {
    let header = boxed(b"mvhd", &movie_header_v0(7));
    let cases: Vec<Vec<u8>> = vec![
        Vec::new(),
        vec![0u8; 7],
        boxed(b"moov", &header),
        boxed(b"ftyp", b"isom"),
        joined(&[boxed(b"ftyp", b"isom"), boxed(b"moov", &[])]),
        joined(&[boxed(b"ftyp", b"isom"), boxed(b"moov", &boxed(b"trak", &[0u8; 9]))]),
        joined(&[boxed(b"ftyp", b"isom"), boxed(b"moov", &boxed(b"mvhd", &[0u8; 99]))]),
        joined(&[boxed(b"ftyp", b"isom"), boxed(b"moov", &boxed(b"mvhd", &[2u8; 120]))]),
        joined(&[boxed(b"ftyp", b"isom"), boxed(b"moov", &boxed(b"mvhd", &movie_header_v1(1)[..111]))]),
        joined(&[boxed(b"ftyp", b"isom"), boxed(b"moov", &header[..header.len() - 1])]),
        joined(&[boxed(b"ftyp", b"isom"), boxed(b"moov", &[0, 0, 0, 4, b'f', b'r', b'e', b'e'])]),
        joined(&[boxed(b"ftyp", b"isom"), vec![0, 0, 0, 1, b'm', b'o', b'o', b'v', 0, 0, 0, 0, 0, 0, 0, 9]]),
        joined(&[boxed(b"ftyp", b"isom"), vec![0xff, 0xff, 0xff, 0xff, b'm', b'o', b'o', b'v'], header.clone()]),
        joined(&[boxed(b"ftyp", b"isom"), boxed(b"moov", &header), vec![0, 0, 0]]),
    ];
    for (i, data) in cases.iter().enumerate() {
        assert_eq!(my_dropbox_controller::movie::modification_time(data), None, "case {}", i);
        assert_eq!(get_mp4_datetime(data), Err(MetaError::Unreadable), "case {}", i);
    }
}

#[test]
fn a_box_shorter_than_its_header_spoils_what_follows() {
    let data = joined(&[
        vec![0, 0, 0, 4, b'f', b'r', b'e', b'e'],
        boxed(b"ftyp", b"isom"),
        boxed(b"moov", &boxed(b"mvhd", &movie_header_v0(8))),
    ]);
    assert_eq!(my_dropbox_controller::movie::modification_time(&data), None);
}
