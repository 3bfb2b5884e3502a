use my_dropbox_controller::sqlite::{reset_db, FileData, FileType, Message, Store};

fn progress(name: &str, hash: &str) -> Message {
    Message::Progress(name.to_string(), hash.to_string())
}

#[test]
fn store_knows_what_was_inserted() {
    let mut store = Store::new();
    assert!(!store.exist("h1"));
    assert!(store.insert(&FileData::new("a.jpg".to_string(), "h1".to_string())));
    assert!(store.exist("h1"));
    assert!(!store.exist("a.jpg"));
    assert!(!store.exist("h2"));
}

#[test]
fn store_refuses_a_known_name_or_digest() {
    let mut store = Store::new();
    assert!(store.insert(&FileData::new("a.jpg".to_string(), "h1".to_string())));
    assert!(!store.insert(&FileData::new("a.jpg".to_string(), "h2".to_string())));
    assert!(!store.exist("h2"));
    assert!(!store.insert(&FileData::new("b.jpg".to_string(), "h1".to_string())));
    assert!(store.insert(&FileData::new("b.jpg".to_string(), "h2".to_string())));
    assert!(store.exist("h2"));
}

#[test]
fn file_data_holds_name_and_digest() {
    let data = FileData::new("1.jpg".to_string(), "1".to_string());
    assert_eq!(data.name(), "1.jpg");
    assert_eq!(data.hash(), "1");
}

#[test]
fn file_types_differ() {
    assert_ne!(FileType::Picture, FileType::Movie);
}

#[test]
fn reset_db_fills_the_store_from_the_listing() {
    let report = reset_db(vec![
        progress("a.jpg", "h1"),
        progress("b.jpg", "h2"),
        Message::Finish,
        progress("c.jpg", "h3"),
    ])
    .unwrap();
    assert!(report.store.exist("h1") && report.store.exist("h2") && report.store.exist("h3"));
    assert!(report.rejected.is_empty());
}

#[test]
fn reset_db_reports_refused_rows_and_goes_on() {
    let report = reset_db(vec![
        progress("a.jpg", "h1"),
        progress("a.jpg", "h2"),
        progress("b.jpg", "h1"),
        progress("c.jpg", "h3"),
    ])
    .unwrap();
    assert!(report.store.exist("h1") && report.store.exist("h3"));
    assert!(!report.store.exist("h2"));
    let rejected: Vec<(String, String)> =
        report.rejected.iter().map(|d| (d.name().clone(), d.hash().clone())).collect();
    assert_eq!(
        rejected,
        [("a.jpg".to_string(), "h2".to_string()), ("b.jpg".to_string(), "h1".to_string())]
    );
}

#[test]
fn reset_db_fails_at_the_first_abort() {
    let result = reset_db(vec![
        progress("a.jpg", "h1"),
        Message::Abort("first".to_string()),
        Message::Abort("second".to_string()),
    ]);
    assert_eq!(result.err().unwrap(), "first");
}

#[test]
fn reset_db_of_nothing_is_an_empty_store() {
    let report = reset_db(Vec::new()).unwrap();
    assert!(!report.store.exist(""));
    assert!(report.rejected.is_empty());
}
