use my_dropbox_controller::blocks::plan_blocks;
use my_dropbox_controller::dropbox::{Resume, BLOCK_SIZE, PARALLELISM};
use my_dropbox_controller::session::{SessionState, UploadSession};

#[test]
fn new_session_is_started() {
    let s = UploadSession::new("sid".to_string(), 10);
    assert_eq!(s.state(), SessionState::Started);
    assert_eq!(s.session_id(), "sid");
    assert_eq!((s.start_offset(), s.file_size()), (0, 10));
    assert_eq!((s.bytes_transferred(), s.complete_up_to(), s.blocks()), (0, 0, 1));
}

#[test]
fn session_hands_out_the_blocks_of_the_plan() {
    let size = 3 * BLOCK_SIZE + 7;
    let mut s = UploadSession::new("sid".to_string(), size);
    let mut got = Vec::new();
    while let Some(b) = s.next_append() {
        got.push(b);
    }
    assert_eq!(got, plan_blocks(0, size).unwrap());
    assert_eq!(s.state(), SessionState::Appending);
}

#[test]
fn session_keeps_no_more_than_the_allowed_blocks_out() {
    let mut s = UploadSession::new("sid".to_string(), 50 * BLOCK_SIZE);
    let mut out = Vec::new();
    while let Some(b) = s.next_append() {
        out.push(b);
    }
    assert_eq!(out.len(), PARALLELISM);
    assert_eq!(s.handed_out(), PARALLELISM as u64);
    assert!(s.complete_block(out[3].offset));
    let next = s.next_append().unwrap();
    assert_eq!(next.offset, PARALLELISM as u64 * BLOCK_SIZE);
    assert!(s.next_append().is_none());
}

#[test]
fn session_follows_acknowledgements_in_any_order() {
    let size = 3 * BLOCK_SIZE + 7;
    let mut s = UploadSession::new("sid".to_string(), size);
    let blocks: Vec<_> = std::iter::from_fn(|| s.next_append()).collect();
    assert_eq!(blocks.len(), 4);
    assert!(s.complete_block(blocks[2].offset));
    assert_eq!((s.bytes_transferred(), s.complete_up_to()), (BLOCK_SIZE, 0));
    assert!(s.complete_block(blocks[3].offset));
    assert_eq!((s.bytes_transferred(), s.complete_up_to()), (BLOCK_SIZE + 7, 0));
    assert!(s.complete_block(blocks[0].offset));
    assert_eq!((s.bytes_transferred(), s.complete_up_to()), (2 * BLOCK_SIZE + 7, BLOCK_SIZE));
    assert_eq!(s.state(), SessionState::Appending);
    assert!(s.complete_block(blocks[1].offset));
    assert_eq!((s.bytes_transferred(), s.complete_up_to()), (size, size));
    assert_eq!(s.state(), SessionState::Closed);
    assert!(s.next_append().is_none());
}

#[test]
fn session_refuses_acknowledgements_that_do_not_fit() {
    let mut s = UploadSession::new("sid".to_string(), 3 * BLOCK_SIZE);
    assert!(!s.complete_block(0));
    let first = s.next_append().unwrap();
    assert!(!s.complete_block(BLOCK_SIZE));
    assert!(!s.complete_block(1));
    assert!(s.complete_block(first.offset));
    assert!(!s.complete_block(first.offset));
    let second = s.next_append().unwrap();
    let third = s.next_append().unwrap();
    assert!(s.complete_block(third.offset));
    assert!(!s.complete_block(third.offset));
    assert!(s.complete_block(second.offset));
    assert_eq!(s.state(), SessionState::Closed);
    assert!(!s.complete_block(second.offset));
    assert_eq!(s.bytes_transferred(), 3 * BLOCK_SIZE);
}

#[test]
fn session_of_an_empty_file_closes_with_one_empty_block() {
    let mut s = UploadSession::new("sid".to_string(), 0);
    let b = s.next_append().unwrap();
    assert_eq!((b.offset, b.len, b.close), (0, 0, true));
    assert!(s.next_append().is_none());
    assert!(s.complete_block(0));
    assert_eq!(s.state(), SessionState::Closed);
    assert!(!s.complete_block(0));
}

#[test]
fn session_is_finalized_once_it_is_closed() {
    let mut s = UploadSession::new("sid".to_string(), 5);
    assert!(s.finalize("/f/x.JPG".to_string()).is_none());
    let b = s.next_append().unwrap();
    assert!(s.finalize("/f/x.JPG".to_string()).is_none());
    assert!(!s.committed());
    assert!(s.complete_block(b.offset));
    let d = s.finalize("/f/x.JPG".to_string()).unwrap();
    assert_eq!(d.session_id, "sid");
    assert_eq!(d.final_offset, 5);
    assert_eq!(d.destination_path, "/f/x.JPG");
    assert_eq!(s.state(), SessionState::Finalizing);
    assert!(s.finalize("/f/x.JPG".to_string()).is_none());
    assert!(s.committed());
    assert_eq!(s.state(), SessionState::Complete);
    assert!(!s.committed());
    assert!(!s.fail());
    assert_eq!(s.state(), SessionState::Complete);
}

#[test]
fn a_failed_session_is_given_up() {
    let mut s = UploadSession::new("sid".to_string(), 2 * BLOCK_SIZE);
    let b = s.next_append().unwrap();
    assert!(s.fail());
    assert_eq!(s.state(), SessionState::Failed);
    assert!(!s.fail());
    assert!(s.next_append().is_none());
    assert!(!s.complete_block(b.offset));
    assert!(s.finalize("/f/x.JPG".to_string()).is_none());
    assert!(!s.committed());
}

#[test]
fn a_session_is_taken_up_at_an_offset() {
    let mut s = UploadSession::resume(Resume::new(BLOCK_SIZE, "sid".to_string()), 2 * BLOCK_SIZE + 1)
        .unwrap();
    assert_eq!(s.start_offset(), BLOCK_SIZE);
    assert_eq!(s.complete_up_to(), BLOCK_SIZE);
    assert_eq!(s.blocks(), 2);
    let a = s.next_append().unwrap();
    let b = s.next_append().unwrap();
    assert_eq!((a.offset, a.len, a.close), (BLOCK_SIZE, BLOCK_SIZE, false));
    assert_eq!((b.offset, b.len, b.close), (2 * BLOCK_SIZE, 1, true));
    assert!(s.complete_block(a.offset));
    assert_eq!(s.complete_up_to(), 2 * BLOCK_SIZE);
    assert!(s.complete_block(b.offset));
    assert_eq!(s.complete_up_to(), 2 * BLOCK_SIZE + 1);
    assert_eq!(s.bytes_transferred(), BLOCK_SIZE + 1);
    assert!(UploadSession::resume(Resume::new(11, "sid".to_string()), 10).is_none());
}

#[test]
fn append_at_hands_out_the_blocks_up_to_the_one_asked_for() {
    let mut s = UploadSession::new("sid".to_string(), 5 * BLOCK_SIZE + 1);
    let third = s.append_at(2 * BLOCK_SIZE).unwrap();
    assert_eq!((third.offset, third.len, third.close), (2 * BLOCK_SIZE, BLOCK_SIZE, false));
    assert_eq!(s.handed_out(), 3);
    let first = s.append_at(0).unwrap();
    assert_eq!(first.offset, 0);
    assert_eq!(s.handed_out(), 3);
    assert!(s.complete_block(0));
    assert!(s.append_at(0).is_none());
    let last = s.append_at(5 * BLOCK_SIZE).unwrap();
    assert_eq!((last.len, last.close), (1, true));
    assert_eq!(s.handed_out(), 6);
    assert!(s.append_at(6 * BLOCK_SIZE).is_none());
    assert!(s.append_at(1).is_none());
}

#[test]
fn append_at_does_not_go_past_the_allowed_blocks() {
    let mut s = UploadSession::new("sid".to_string(), 50 * BLOCK_SIZE);
    assert!(s.append_at(30 * BLOCK_SIZE).is_none());
    assert_eq!(s.handed_out(), PARALLELISM as u64);
    assert!(s.append_at(19 * BLOCK_SIZE).is_some());
    assert!(s.complete_block(0));
    assert!(s.append_at(20 * BLOCK_SIZE).is_some());
    s.fail();
    assert!(s.append_at(20 * BLOCK_SIZE).is_none());
}
