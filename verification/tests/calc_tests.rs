use my_dropbox_controller::calc::{
    aggregate, calc2, calc_starter, merge_all, sort_calc, sum_calc, CalcMessage,
    DatetimeExtnameDigests, NameDigest, SumNameDigests,
};
use my_dropbox_controller::controller::{controller, Controller, ControllerError};
use my_dropbox_controller::digest::DigestError;
use my_dropbox_controller::meta::MetaError;
use my_dropbox_controller::walker::{accm, WalkEntry};
use my_dropbox_controller::worker::{
    build_record, scan_file, scan_source, FileSkipError, SourceFile,
};
use my_dropbox_controller::extension::Extension;
use my_dropbox_controller::sorting::sort_records;

fn record(digest: &str, name: &str, path: &str) -> NameDigest {
    NameDigest { digest: digest.to_string(), name: name.to_string(), path: path.to_string() }
}

fn names(v: &Vec<NameDigest>) -> Vec<String> {
    v.iter().map(|r| r.name.clone()).collect()
}

fn keys(index: &DatetimeExtnameDigests) -> Vec<String> {
    (0..index.len()).map(|i| index.key_at(i).unwrap().clone()).collect()
}

fn picture_taken_at(text: &[u8], filler: u8) -> Vec<u8> {
    let mut value = text.to_vec();
    value.push(0);
    let mut out = Vec::new();
    out.extend_from_slice(b"II*\0");
    out.extend_from_slice(&8u32.to_le_bytes());
    out.extend_from_slice(&1u16.to_le_bytes());
    out.extend_from_slice(&0x0132u16.to_le_bytes());
    out.extend_from_slice(&2u16.to_le_bytes());
    out.extend_from_slice(&(value.len() as u32).to_le_bytes());
    out.extend_from_slice(&26u32.to_le_bytes());
    out.extend_from_slice(&0u32.to_le_bytes());
    out.extend_from_slice(&value);
    out.push(filler);
    out
}

fn movie_modified_at(modified: u64) -> Vec<u8> {
    let mut out = Vec::new();
    let ftyp = mp4::FtypBox::default();
    mp4::WriteBox::write_box(&ftyp, &mut out).unwrap();
    let mut moov = mp4::MoovBox::default();
    moov.mvhd.modification_time = modified;
    mp4::WriteBox::write_box(&moov, &mut out).unwrap();
    out
}

fn source(path: &str, content: Option<Vec<u8>>) -> SourceFile {
    SourceFile { path: path.to_string(), content }
}

fn file(path: &str) -> CalcMessage {
    CalcMessage::File(path.to_string())
}

#[test]
fn bucket_push_counts_pictures_and_movies() {
    let mut bucket = SumNameDigests::default();
    assert_eq!((bucket.pic.len(), bucket.mov.len(), bucket.sum), (0, 0, 0));
    bucket.push(Extension::Jpeg, record("d1", "a.jpg", "/x/a.jpg"));
    bucket.push(Extension::Mp4, record("d2", "b.mp4", "/x/b.mp4"));
    bucket.push(Extension::Other, record("d3", "c.txt", "/x/c.txt"));
    bucket.push(Extension::Jpeg, record("d4", "d.jpg", "/x/d.jpg"));
    assert_eq!(names(&bucket.pic), ["a.jpg", "d.jpg"]);
    assert_eq!(names(&bucket.mov), ["b.mp4"]);
    assert_eq!(bucket.sum, 3);
}

#[test]
fn bucket_merge_appends_and_adds() {
    let mut a = SumNameDigests::default();
    a.push(Extension::Jpeg, record("1", "a.jpg", "a.jpg"));
    a.push(Extension::Mp4, record("2", "a.mp4", "a.mp4"));
    let mut b = SumNameDigests::default();
    b.push(Extension::Jpeg, record("3", "b.jpg", "b.jpg"));
    b.push(Extension::Jpeg, record("4", "c.jpg", "c.jpg"));
    a.merge(b);
    assert_eq!(names(&a.pic), ["a.jpg", "b.jpg", "c.jpg"]);
    assert_eq!(names(&a.mov), ["a.mp4"]);
    assert_eq!(a.sum, 4);
}

#[test]
fn bucket_add_keeps_the_left_records_first() {
    let mut a = SumNameDigests::default();
    a.push(Extension::Mp4, record("1", "z.mp4", "z.mp4"));
    let mut b = SumNameDigests::default();
    b.push(Extension::Mp4, record("2", "a.mp4", "a.mp4"));
    b.push(Extension::Jpeg, record("3", "a.jpg", "a.jpg"));
    let sum = a.add(b);
    assert_eq!(names(&sum.mov), ["z.mp4", "a.mp4"]);
    assert_eq!(names(&sum.pic), ["a.jpg"]);
    assert_eq!(sum.sum, 3);
}

#[test]
fn index_insert_groups_by_key() {
    let mut index = DatetimeExtnameDigests::new();
    assert_eq!(index.len(), 0);
    index.insert("k1".to_string(), Extension::Jpeg, record("1", "a.jpg", "a.jpg"));
    index.insert("k2".to_string(), Extension::Mp4, record("2", "b.mp4", "b.mp4"));
    index.insert("k1".to_string(), Extension::Mp4, record("3", "c.mp4", "c.mp4"));
    index.insert("k3".to_string(), Extension::Other, record("4", "d.txt", "d.txt"));
    assert_eq!(keys(&index), ["k1", "k2"]);
    assert_eq!(index.position("k2"), Some(1));
    assert_eq!(index.position("k3"), None);
    assert!(index.key_at(2).is_none() && index.entry_at(2).is_none());
    let k1 = index.get("k1").unwrap();
    assert_eq!((names(&k1.pic), names(&k1.mov), k1.sum), (vec!["a.jpg".to_string()], vec!["c.mp4".to_string()], 2));
    assert_eq!(index.entry_at(1).unwrap().sum, 1);
    assert!(index.get("k3").is_none());
    assert_eq!(sum_calc(&index), 3);
}

#[test]
fn index_merge_combines_equal_keys_and_appends_new_ones() {
    let mut a = DatetimeExtnameDigests::new();
    a.insert("k1".to_string(), Extension::Jpeg, record("1", "a.jpg", "a.jpg"));
    a.insert("k2".to_string(), Extension::Jpeg, record("2", "b.jpg", "b.jpg"));
    let mut b = DatetimeExtnameDigests::new();
    b.insert("k3".to_string(), Extension::Mp4, record("3", "c.mp4", "c.mp4"));
    b.insert("k1".to_string(), Extension::Jpeg, record("4", "d.jpg", "d.jpg"));
    a.merge(b);
    assert_eq!(keys(&a), ["k1", "k2", "k3"]);
    assert_eq!(names(&a.get("k1").unwrap().pic), ["a.jpg", "d.jpg"]);
    assert_eq!(a.get("k1").unwrap().sum, 2);
    assert_eq!(names(&a.get("k3").unwrap().mov), ["c.mp4"]);
    assert_eq!(sum_calc(&a), 4);
}

#[test]
fn index_merge_entry_takes_a_whole_bucket() {
    let mut index = DatetimeExtnameDigests::new();
    let mut bucket = SumNameDigests::default();
    bucket.push(Extension::Jpeg, record("1", "a.jpg", "a.jpg"));
    index.merge_entry("k".to_string(), bucket);
    let mut more = SumNameDigests::default();
    more.push(Extension::Mp4, record("2", "b.mp4", "b.mp4"));
    index.merge_entry("k".to_string(), more);
    assert_eq!(index.len(), 1);
    assert_eq!(index.get("k").unwrap().sum, 2);
}

fn sample(order: &[usize]) -> Vec<DatetimeExtnameDigests> {
    let make = |which: usize| {
        let mut index = DatetimeExtnameDigests::new();
        match which {
            0 => {
                index.insert("k1".to_string(), Extension::Jpeg, record("1", "a.jpg", "/0/a.jpg"));
                index.insert("k2".to_string(), Extension::Mp4, record("2", "b.mp4", "/0/b.mp4"));
            }
            1 => {
                index.insert("k2".to_string(), Extension::Mp4, record("3", "c.mp4", "/1/c.mp4"));
                index.insert("k3".to_string(), Extension::Jpeg, record("4", "d.jpg", "/1/d.jpg"));
            }
            _ => {
                index.insert("k1".to_string(), Extension::Jpeg, record("5", "e.jpg", "/2/e.jpg"));
                index.insert("k3".to_string(), Extension::Jpeg, record("6", "f.jpg", "/2/f.jpg"));
                index.insert("k4".to_string(), Extension::Mp4, record("7", "g.mp4", "/2/g.mp4"));
            }
        }
        index
    };
    order.iter().map(|&i| make(i)).collect()
}

fn contents(index: &DatetimeExtnameDigests) -> Vec<(String, Vec<String>, Vec<String>, u32)> {
    let mut all: Vec<_> = (0..index.len())
        .map(|i| {
            let e = index.entry_at(i).unwrap();
            let mut pic: Vec<String> = e.pic.iter().map(|r| r.digest.clone()).collect();
            let mut mov: Vec<String> = e.mov.iter().map(|r| r.digest.clone()).collect();
            pic.sort();
            mov.sort();
            (index.key_at(i).unwrap().clone(), pic, mov, e.sum)
        })
        .collect();
    all.sort();
    all
}

#[test]
fn merging_in_any_order_gives_the_same_buckets() {
    let expected = contents(&merge_all(sample(&[0, 1, 2])));
    for order in [[0, 2, 1], [1, 0, 2], [1, 2, 0], [2, 0, 1], [2, 1, 0]] {
        assert_eq!(contents(&merge_all(sample(&order))), expected);
    }
    assert_eq!(expected.len(), 4);
    assert_eq!(sum_calc(&merge_all(sample(&[2, 1, 0]))), 7);
}

#[test]
fn merging_is_associative() {
    let mut left = sample(&[0, 1, 2]);
    let c = left.pop().unwrap();
    let b = left.pop().unwrap();
    let mut ab = left.pop().unwrap();
    ab.merge(b);
    ab.merge(c);
    let mut right = sample(&[0, 1, 2]);
    let c = right.pop().unwrap();
    let mut bc = right.pop().unwrap();
    bc.merge(c);
    let mut a = right.pop().unwrap();
    a.merge(bc);
    assert_eq!(keys(&ab), keys(&a));
    for i in 0..a.len() {
        let (left, right) = (ab.entry_at(i).unwrap(), a.entry_at(i).unwrap());
        assert_eq!(names(&left.pic), names(&right.pic));
        assert_eq!(names(&left.mov), names(&right.mov));
        assert_eq!(left.sum, right.sum);
    }
}

#[test]
fn merge_all_of_nothing_is_empty() {
    let index = merge_all(Vec::new());
    assert_eq!(index.len(), 0);
    assert_eq!(sum_calc(&index), 0);
}

#[test]
fn sort_records_orders_by_name_and_keeps_ties_in_place() {
    let mut v = vec![
        record("1", "b.jpg", "/1/b.jpg"),
        record("2", "a.jpg", "/2/a.jpg"),
        record("3", "c.jpg", "/3/c.jpg"),
        record("4", "a.jpg", "/4/a.jpg"),
        record("5", "B.jpg", "/5/B.jpg"),
    ];
    sort_records(&mut v);
    let digests: Vec<&str> = v.iter().map(|r| r.digest.as_str()).collect();
    assert_eq!(digests, ["5", "2", "4", "1", "3"]);
}

#[test]
fn sort_records_agrees_with_the_stable_sort_of_std() {
    let names_in = ["m", "a", "z", "a", "", "mm", "M", "é", "a", "10", "9", "m"];
    let mut v: Vec<NameDigest> =
        names_in.iter().enumerate().map(|(i, n)| record(&i.to_string(), n, n)).collect();
    let mut expected: Vec<(String, String)> =
        v.iter().map(|r| (r.name.clone(), r.digest.clone())).collect();
    expected.sort_by(|a, b| a.0.cmp(&b.0));
    sort_records(&mut v);
    let got: Vec<(String, String)> = v.iter().map(|r| (r.name.clone(), r.digest.clone())).collect();
    assert_eq!(got, expected);
}

#[test]
fn sort_calc_sorts_every_bucket() {
    let mut index = DatetimeExtnameDigests::new();
    for (key, ext, name) in [
        ("k1", Extension::Jpeg, "c.jpg"),
        ("k1", Extension::Jpeg, "a.jpg"),
        ("k2", Extension::Mp4, "z.mp4"),
        ("k1", Extension::Jpeg, "b.jpg"),
        ("k2", Extension::Mp4, "y.mp4"),
        ("k1", Extension::Mp4, "only.mp4"),
    ] {
        index.insert(key.to_string(), ext, record(name, name, name));
    }
    sort_calc(&mut index);
    assert_eq!(keys(&index), ["k1", "k2"]);
    assert_eq!(names(&index.get("k1").unwrap().pic), ["a.jpg", "b.jpg", "c.jpg"]);
    assert_eq!(names(&index.get("k1").unwrap().mov), ["only.mp4"]);
    assert_eq!(names(&index.get("k2").unwrap().mov), ["y.mp4", "z.mp4"]);
    assert_eq!(sum_calc(&index), 6);
    assert_eq!(index.position("k2"), Some(1));
}

#[test]
fn scan_file_builds_the_record_of_a_picture() {
    let data = picture_taken_at(b"2020:01:02 03:04:05", 0);
    let scanned = scan_file("/photos/2020/IMG_1.JPG", &data).unwrap();
    assert_eq!(scanned.key, "2020-01-02 03:04:05");
    assert_eq!(scanned.ext, Extension::Jpeg);
    assert_eq!(scanned.record.name, "IMG_1.JPG");
    assert_eq!(scanned.record.path, "/photos/2020/IMG_1.JPG");
    assert_eq!(
        scanned.record.digest,
        my_dropbox_controller::digest::dpx_digest(&data).unwrap()
    );
    assert_eq!(scanned.record.digest.len(), 64);
}

#[test]
fn scan_file_builds_the_record_of_a_movie() {
    let data = movie_modified_at(1577934245);
    let scanned = scan_file("clip.mp4", &data).unwrap();
    assert_eq!(scanned.key, "2020-01-02 12:04:05");
    assert_eq!(scanned.ext, Extension::Mp4);
    assert_eq!(scanned.record.name, "clip.mp4");
}

#[test]
fn scan_file_skips_what_it_cannot_use() {
    let picture = picture_taken_at(b"2020:01:02 03:04:05", 0);
    let reason = |path: &str, data: &[u8]| scan_file(path, data).err().unwrap();
    assert_eq!(reason("notes.txt", &picture), FileSkipError::Meta(MetaError::NotMedia));
    assert_eq!(reason("noextension", &picture), FileSkipError::Meta(MetaError::NotMedia));
    assert_eq!(reason("broken.jpg", b"garbage"), FileSkipError::Meta(MetaError::Unreadable));
    assert_eq!(reason("picture.mp4", &picture), FileSkipError::Meta(MetaError::Unreadable));
    assert_eq!(
        reason("late.jpg", &picture_taken_at(b"2020:13:02 03:04:05", 0)),
        FileSkipError::Meta(MetaError::ParseDateTimeError)
    );
    assert_eq!(
        scan_source(&source("gone.jpg", None)).err().unwrap(),
        FileSkipError::Unreadable
    );
    let mut event = vec![0x00, 0x00, 0x00, 0x0C, 0x65, 0x6D, 0x73, 0x67];
    event.extend_from_slice(&[0u8; 22]);
    assert_eq!(reason("x.mp4", &event), FileSkipError::Meta(MetaError::Unreadable));
    let scan = calc2(vec![
        source("x.mp4", Some(event)),
        source("a.jpg", Some(picture_taken_at(b"2020:01:02 03:04:05", 1))),
    ]);
    assert_eq!((sum_calc(&scan.index), scan.skipped.len()), (1, 1));
}

#[test]
fn three_pictures_and_a_movie_of_one_second_share_a_bucket() {
    // The movie's time is 2020-01-01 18:04:05 UTC, which is 03:04:05 of the
    // next day in Tokyo: the second at which the pictures were taken.
    let files = vec![
        source("/t/c.jpg", Some(picture_taken_at(b"2020:01:02 03:04:05", 1))),
        source("/t/a.jpg", Some(picture_taken_at(b"2020:01:02 03:04:05", 2))),
        source("/t/m.mp4", Some(movie_modified_at(1577934245 - 9 * 3600))),
        source("/t/b.jpg", Some(picture_taken_at(b"2020:01:02 03:04:05", 3))),
    ];
    let scan = calc2(files);
    assert!(scan.skipped.is_empty());
    let mut index = scan.index;
    sort_calc(&mut index);
    assert_eq!(keys(&index), ["2020-01-02 03:04:05"]);
    let bucket = index.entry_at(0).unwrap();
    assert_eq!(bucket.sum, 4);
    assert_eq!(names(&bucket.pic), ["a.jpg", "b.jpg", "c.jpg"]);
    assert_eq!(names(&bucket.mov), ["m.mp4"]);
    assert_eq!(sum_calc(&index), 4);
}

#[test]
fn a_corrupt_picture_is_left_out_and_the_rest_is_indexed() {
    let files = vec![
        source("/t/a.jpg", Some(picture_taken_at(b"2020:01:02 03:04:05", 1))),
        source("/t/bad.jpg", Some(b"\xff\xd8 this is cut off".to_vec())),
        source("/t/m.mp4", Some(movie_modified_at(1577934245))),
        source("/t/b.jpg", Some(picture_taken_at(b"2021:05:06 07:08:09", 3))),
    ];
    let scan = calc2(files);
    assert_eq!(sum_calc(&scan.index), 3);
    assert_eq!(scan.skipped.len(), 1);
    assert_eq!(scan.skipped[0].path, "/t/bad.jpg");
    assert_eq!(scan.skipped[0].reason, FileSkipError::Meta(MetaError::Unreadable));
    assert_eq!(
        keys(&scan.index),
        ["2020-01-02 03:04:05", "2020-01-02 12:04:05", "2021-05-06 07:08:09"]
    );
}

#[test]
fn calc2_skips_files_that_could_not_be_read() {
    let files = vec![
        source("/t/a.jpg", None),
        source("/t/b.jpg", Some(picture_taken_at(b"2020:01:02 03:04:05", 1))),
        source("/t/readme.txt", Some(b"hello".to_vec())),
    ];
    let scan = calc2(files);
    assert_eq!(sum_calc(&scan.index), 1);
    let skipped: Vec<(&str, FileSkipError)> =
        scan.skipped.iter().map(|s| (s.path.as_str(), s.reason)).collect();
    assert_eq!(skipped, [("/t/a.jpg", FileSkipError::Unreadable)]);
    let nothing = calc2(Vec::new());
    assert_eq!((nothing.index.len(), nothing.skipped.len()), (0, 0));
}

#[test]
fn calc_merges_the_subdirectories_behind_the_own_files() {
    let own = vec![source("/t/a.jpg", Some(picture_taken_at(b"2020:01:02 03:04:05", 1)))];
    let sub1 = calc2(vec![
        source("/t/s/b.jpg", Some(picture_taken_at(b"2020:01:02 03:04:05", 2))),
        source("/t/s/c.jpg", Some(picture_taken_at(b"2019:01:01 00:00:00", 3))),
    ])
    .index;
    let sub2 = calc2(vec![source("/t/u/m.mp4", Some(movie_modified_at(0)))]).index;
    let index = my_dropbox_controller::calc::calc(own, vec![sub1, sub2]).index;
    assert_eq!(
        keys(&index),
        ["2020-01-02 03:04:05", "2019-01-01 00:00:00", "1970-01-01 09:00:00"]
    );
    assert_eq!(names(&index.entry_at(0).unwrap().pic), ["a.jpg", "b.jpg"]);
    assert_eq!(sum_calc(&index), 4);
}

#[test]
fn calc_starter_gives_what_calc_gives() {
    let own = vec![source("/t/a.jpg", Some(picture_taken_at(b"2020:01:02 03:04:05", 1)))];
    let sub = calc2(vec![source("/t/s/b.jpg", Some(picture_taken_at(b"2020:01:02 03:04:05", 2)))])
        .index;
    let index = calc_starter(own, vec![sub]).index;
    assert_eq!(keys(&index), ["2020-01-02 03:04:05"]);
    assert_eq!(sum_calc(&index), 2);
}

#[test]
fn accm_sends_pictures_and_movies_and_counts_them() {
    let entries = vec![
        WalkEntry { path: "/t".to_string(), is_dir: true },
        WalkEntry { path: "/t/a.jpg".to_string(), is_dir: false },
        WalkEntry { path: "/t/notes.txt".to_string(), is_dir: false },
        WalkEntry { path: "/t/dir.jpg".to_string(), is_dir: true },
        WalkEntry { path: "/t/dir.jpg/b.MP4".to_string(), is_dir: false },
        WalkEntry { path: "/t/Makefile".to_string(), is_dir: false },
    ];
    let (messages, sum) = accm(&entries, false);
    assert_eq!(sum, 2);
    assert_eq!(messages.len(), 3);
    assert!(matches!(&messages[0], CalcMessage::File(p) if p == "/t/a.jpg"));
    assert!(matches!(&messages[1], CalcMessage::File(p) if p == "/t/dir.jpg/b.MP4"));
    assert!(matches!(&messages[2], CalcMessage::Finish(2)));
    let (messages, sum) = accm(&entries, true);
    assert_eq!((messages.len(), sum), (2, 2));
}

#[test]
fn accm_of_an_empty_tree_only_finishes() {
    let (messages, sum) = accm(&Vec::new(), false);
    assert_eq!(sum, 0);
    assert_eq!(messages.len(), 1);
    assert!(matches!(&messages[0], CalcMessage::Finish(0)));
}

#[test]
fn controller_step_hands_out_full_batches_and_the_last_one() {
    let mut c = Controller::new(2);
    let d = c.step(file("a"));
    assert!(d.full.is_none() && d.last.is_none());
    let d = c.step(file("b"));
    assert_eq!(d.full.unwrap(), ["a", "b"]);
    assert!(d.last.is_none());
    let d = c.step(file("c"));
    assert!(d.full.is_none() && d.last.is_none());
    assert!(!c.is_done());
    let d = c.step(CalcMessage::Finish(3));
    assert!(d.full.is_none());
    assert_eq!(d.last.unwrap(), ["c"]);
    assert!(c.is_done());
}

#[test]
fn controller_waits_for_the_announced_number() {
    let mut c = Controller::new(10);
    assert!(c.step(CalcMessage::Finish(2)).last.is_none());
    assert!(c.step(file("a")).last.is_none());
    let d = c.step(file("b"));
    assert_eq!(d.last.unwrap(), ["a", "b"]);
}

#[test]
fn controller_hands_out_a_full_and_an_empty_last_batch_at_once() {
    let mut c = Controller::new(2);
    c.step(CalcMessage::Finish(2));
    c.step(file("a"));
    let d = c.step(file("b"));
    assert_eq!(d.full.unwrap(), ["a", "b"]);
    assert_eq!(d.last.unwrap(), Vec::<String>::new());
}

#[test]
fn controller_batches_every_file_once() {
    let mut messages: Vec<CalcMessage> = (0..250).map(|i| file(&format!("f{}", i))).collect();
    messages.push(CalcMessage::Finish(250));
    let batches = controller(messages, 100).unwrap();
    let sizes: Vec<usize> = batches.iter().map(|b| b.len()).collect();
    assert_eq!(sizes, [100, 100, 50]);
    let all: Vec<String> = batches.into_iter().flatten().collect();
    let expected: Vec<String> = (0..250).map(|i| format!("f{}", i)).collect();
    assert_eq!(all, expected);
}

#[test]
fn controller_takes_nothing_after_it_is_done() {
    let messages = vec![file("a"), CalcMessage::Finish(1), file("b"), CalcMessage::Finish(2)];
    let batches = controller(messages, 100).unwrap();
    assert_eq!(batches, [vec!["a".to_string()]]);
}

#[test]
fn controller_of_an_empty_walk_hands_out_one_empty_batch() {
    let batches = controller(vec![CalcMessage::Finish(0)], 100).unwrap();
    assert_eq!(batches, [Vec::<String>::new()]);
}

#[test]
fn controller_fails_when_the_messages_end_early() {
    assert_eq!(controller(Vec::new(), 100), Err(ControllerError::ChannelClosed));
    assert_eq!(controller(vec![file("a"), file("b")], 100), Err(ControllerError::ChannelClosed));
    assert_eq!(
        controller(vec![file("a"), CalcMessage::Finish(2)], 100),
        Err(ControllerError::ChannelClosed)
    );
    assert_eq!(
        controller(vec![file("a"), CalcMessage::Finish(-1)], 100),
        Err(ControllerError::ChannelClosed)
    );
}

#[test]
fn walk_then_controller_batches_the_walked_files() {
    let entries: Vec<WalkEntry> = (0..7)
        .map(|i| WalkEntry { path: format!("/t/{}.jpg", i), is_dir: false })
        .collect();
    let (messages, sum) = accm(&entries, false);
    assert_eq!(sum, 7);
    let batches = controller(messages, 3).unwrap();
    let sizes: Vec<usize> = batches.iter().map(|b| b.len()).collect();
    assert_eq!(sizes, [3, 3, 1]);
}

#[test]
fn build_record_reports_the_first_failure() {
    let ok = build_record("/t/a.jpg", Extension::Jpeg, Ok("k".to_string()), Ok("d".to_string()))
        .ok()
        .unwrap();
    assert_eq!((ok.key.as_str(), ok.ext), ("k", Extension::Jpeg));
    assert_eq!(
        (ok.record.digest.as_str(), ok.record.name.as_str(), ok.record.path.as_str()),
        ("d", "a.jpg", "/t/a.jpg")
    );
    let failed = |key, digest| build_record("/t/a.jpg", Extension::Jpeg, key, digest).err().unwrap();
    assert_eq!(
        failed(Err(MetaError::NoTimestamp), Ok("d".to_string())),
        FileSkipError::Meta(MetaError::NoTimestamp)
    );
    assert_eq!(
        failed(Ok("k".to_string()), Err(DigestError::Unreadable)),
        FileSkipError::Digest(DigestError::Unreadable)
    );
    assert_eq!(
        failed(Err(MetaError::Unreadable), Err(DigestError::InputTooLong)),
        FileSkipError::Meta(MetaError::Unreadable)
    );
}

#[test]
fn aggregate_counts_every_scanned_file_once() {
    let batches = vec![
        vec![
            source("/t/a.jpg", Some(picture_taken_at(b"2020:01:02 03:04:05", 1))),
            source("/t/bad.jpg", Some(b"nothing".to_vec())),
        ],
        Vec::new(),
        vec![
            source("/t/notes.txt", Some(b"text".to_vec())),
            source("/t/b.jpg", Some(picture_taken_at(b"2020:01:02 03:04:05", 2))),
            source("/t/m.mp4", Some(movie_modified_at(0))),
            source("/t/gone.mp4", None),
        ],
    ];
    let scan = aggregate(batches);
    assert_eq!(keys(&scan.index), ["2020-01-02 03:04:05", "1970-01-01 09:00:00"]);
    assert_eq!(sum_calc(&scan.index), 3);
    let skipped: Vec<&str> = scan.skipped.iter().map(|s| s.path.as_str()).collect();
    assert_eq!(skipped, ["/t/bad.jpg", "/t/gone.mp4"]);
}

#[test]
fn runner_scans_a_tree_in_batches() {
    let mut files = Vec::new();
    for i in 0..7u8 {
        let time = format!("2020:01:02 03:04:0{}", i % 3);
        files.push(source(&format!("/t/{}.jpg", i), Some(picture_taken_at(time.as_bytes(), i))));
    }
    files.push(source("/t/notes.txt", Some(b"text".to_vec())));
    files.push(source("/t/bad.jpg", Some(b"nothing".to_vec())));
    files.push(source("/t/m.mp4", Some(movie_modified_at(1577934245 - 9 * 3600))));
    files.push(source("/t/gone.mp4", None));
    let scan = my_dropbox_controller::calc::runner(files, 3);
    assert_eq!(
        keys(&scan.index),
        ["2020-01-02 03:04:00", "2020-01-02 03:04:01", "2020-01-02 03:04:02", "2020-01-02 03:04:05"]
    );
    assert_eq!(names(&scan.index.entry_at(0).unwrap().pic), ["0.jpg", "3.jpg", "6.jpg"]);
    assert_eq!(names(&scan.index.entry_at(3).unwrap().mov), ["m.mp4"]);
    assert_eq!(sum_calc(&scan.index), 8);
    let skipped: Vec<(&str, FileSkipError)> =
        scan.skipped.iter().map(|s| (s.path.as_str(), s.reason)).collect();
    assert_eq!(
        skipped,
        [
            ("/t/bad.jpg", FileSkipError::Meta(MetaError::Unreadable)),
            ("/t/gone.mp4", FileSkipError::Unreadable),
        ]
    );
}

#[test]
fn runner_gives_the_same_index_for_every_batch_size() {
    let make = || -> Vec<SourceFile> {
        (0..10u8)
            .map(|i| {
                let time = format!("2020:01:02 03:04:0{}", (i * 7) % 4);
                source(&format!("/t/{}.jpg", i), Some(picture_taken_at(time.as_bytes(), i)))
            })
            .collect()
    };
    let expected = my_dropbox_controller::calc::runner(make(), 100).index;
    for limit in [0, 1, 2, 3, 5, 10, 11] {
        let index = my_dropbox_controller::calc::runner(make(), limit).index;
        assert_eq!(keys(&index), keys(&expected));
        for i in 0..index.len() {
            assert_eq!(
                names(&index.entry_at(i).unwrap().pic),
                names(&expected.entry_at(i).unwrap().pic)
            );
        }
    }
    let nothing = my_dropbox_controller::calc::runner(Vec::new(), 100);
    assert_eq!((nothing.index.len(), nothing.skipped.len()), (0, 0));
}

#[test]
fn a_controller_that_is_done_takes_no_more_messages() {
    let mut c = Controller::new(2);
    c.step(file("a"));
    assert!(c.step(CalcMessage::Finish(1)).last.is_some());
    assert_eq!(c.seen(), 1);
    let d = c.step(file("b"));
    assert!(d.full.is_none() && d.last.is_none());
    let d = c.step(file("c"));
    assert!(d.full.is_none() && d.last.is_none());
    assert!(c.is_done());
    assert_eq!(c.seen(), 1);
}
