use irc_index::builder::{build_index, date_key, IndexWriter, SourceEntry};
use irc_index::errors::Error;
use irc_index::segment::decode_segment;
use irc_index::serve::{init_index, search_site, Hit};
use irc_index::store::{Document, DocumentStore, StoreLocation};

fn file(name: &str, lines: &[&str]) -> SourceEntry {
    SourceEntry::File {
        name: name.to_string(),
        lines: lines.iter().map(|l| l.to_string()).collect(),
    }
}

fn doc(time: &str, nick: &str, msg: &str) -> Document {
    Document { time: time.to_string(), nick: nick.to_string(), msg: msg.to_string() }
}

fn hit(time: &str, nick: &str, msg: &str) -> Hit {
    Hit { time: time.to_string(), nick: nick.to_string(), msg: msg.to_string() }
}

fn stored(location: &StoreLocation) -> Vec<Document> {
    match location {
        StoreLocation::Occupied { bytes } => decode_segment(bytes).unwrap(),
        StoreLocation::Vacant => panic!("nothing was committed"),
    }
}

#[test]
fn date_key_is_the_stem_of_the_name() {
    assert_eq!(date_key("2020-01-01.log"), "2020-01-01");
    assert_eq!(date_key("2020-01-01"), "2020-01-01");
    assert_eq!(date_key("a.b.c"), "a.b");
    assert_eq!(date_key(".hidden"), ".hidden");
    assert_eq!(date_key(".hidden.log"), ".hidden");
    assert_eq!(date_key("trailing."), "trailing");
    assert_eq!(date_key(""), "");
    assert_eq!(date_key("\u{e9}t\u{e9}.log"), "\u{e9}t\u{e9}");
}

#[test]
fn one_message_is_indexed_and_found() {
    let mut location = StoreLocation::Vacant;
    let entries = vec![file("2020-01-01.log", &["12:34 <alice> hello world"])];
    let report = build_index(&mut location, &entries).unwrap();
    assert_eq!(report.indexed, 1);
    assert!(report.parse_seconds <= 10 && report.commit_seconds <= 10);
    let idx = init_index(&location).unwrap();
    let page = search_site(&idx, Some("msg:hello"), Some(10)).unwrap().unwrap();
    assert_eq!(page.num_hits, 1);
    assert_eq!(page.shown_hits, 1);
    assert_eq!(page.hits, vec![hit("2020-01-01 12:34", "<alice", "hello world")]);
    let page = search_site(&idx, Some("nick:alice"), Some(10)).unwrap().unwrap();
    assert_eq!(page.hits, vec![hit("2020-01-01 12:34", "<alice", "hello world")]);
}

#[test]
fn lines_that_are_no_messages_are_dropped_silently() {
    let mut location = StoreLocation::Vacant;
    let entries = vec![file(
        "2020-01-01.log",
        &[
            "12:34 <alice> hello world",
            "12:35 +bob bad line",
            "12:36 < > empty speaker",
            "*** alice has joined",
        ],
    )];
    let report = build_index(&mut location, &entries).unwrap();
    assert_eq!(report.indexed, 1);
    assert_eq!(stored(&location), vec![doc("2020-01-01 12:34", "<alice", "hello world")]);
    assert_eq!(init_index(&location).unwrap().store().len(), 1);
}

#[test]
fn file_without_messages_gives_no_documents() {
    let mut location = StoreLocation::Vacant;
    let entries = vec![file(
        "2020-01-01.log",
        &["12:35 +bob bad line", "12:36 < > empty speaker", "*** alice has joined", ""],
    )];
    let report = build_index(&mut location, &entries).unwrap();
    assert_eq!(report.indexed, 0);
    assert_eq!(stored(&location), vec![]);
}

#[test]
fn two_files_one_word_two_speakers() {
    let mut location = StoreLocation::Vacant;
    let entries = vec![
        SourceEntry::Directory,
        file("2020-01-01.log", &["12:34 <alice> hello there"]),
        SourceEntry::Directory,
        file("2020-01-02.log", &["08:00 <bob> well hello hello"]),
    ];
    let report = build_index(&mut location, &entries).unwrap();
    assert_eq!(report.indexed, 2);
    let idx = init_index(&location).unwrap();
    let first = search_site(&idx, Some("hello"), Some(1)).unwrap().unwrap();
    assert_eq!(first.num_hits, 2);
    assert_eq!(first.shown_hits, 1);
    assert_eq!(first.hits, vec![hit("2020-01-02 08:00", "<bob", "well hello hello")]);
    let all = search_site(&idx, Some("hello"), Some(100)).unwrap().unwrap();
    assert_eq!(all.num_hits, 2);
    assert_eq!(all.shown_hits, 2);
    assert_eq!(
        all.hits,
        vec![
            hit("2020-01-02 08:00", "<bob", "well hello hello"),
            hit("2020-01-01 12:34", "<alice", "hello there"),
        ]
    );
    let out = idx.search("hello", 100).unwrap();
    assert!(out.ranked[0].score >= out.ranked[1].score);
}

#[test]
fn ids_follow_the_walk() {
    let mut location = StoreLocation::Vacant;
    let entries = vec![
        file("b.log", &["00:01 x> one", "junk", "00:02 y> two"]),
        file("a.log", &["00:03 z> three"]),
    ];
    assert_eq!(build_index(&mut location, &entries).unwrap().indexed, 3);
    assert_eq!(
        stored(&location),
        vec![doc("b 00:01", "x", "one"), doc("b 00:02", "y", "two"), doc("a 00:03", "z", "three")]
    );
}

#[test]
fn building_into_an_existing_store_fails_and_changes_nothing() {
    let mut location = StoreLocation::Vacant;
    let first = vec![file("2020-01-01.log", &["12:34 <alice> hello world"])];
    build_index(&mut location, &first).unwrap();
    let before = location.clone();
    let second = vec![file("2020-01-02.log", &["12:34 <bob> other"])];
    assert_eq!(build_index(&mut location, &second), Err(Error::StoreExists));
    assert_eq!(location, before);
    assert_eq!(build_index(&mut location, &vec![]), Err(Error::StoreExists));
    assert_eq!(location, before);
}

#[test]
fn building_over_anything_that_is_there_fails() {
    let mut location = StoreLocation::Occupied { bytes: b"something else".to_vec() };
    let entries = vec![file("2020-01-01.log", &["12:34 <alice> hello world"])];
    assert_eq!(build_index(&mut location, &entries), Err(Error::StoreExists));
    assert_eq!(location, StoreLocation::Occupied { bytes: b"something else".to_vec() });
    let unreadable = vec![SourceEntry::Unreadable { path: "logs/x".to_string() }];
    assert_eq!(build_index(&mut location, &unreadable), Err(Error::StoreExists));
}

#[test]
fn unreadable_entry_fails_the_build_and_commits_nothing() {
    let mut location = StoreLocation::Vacant;
    let entries = vec![
        file("2020-01-01.log", &["12:34 <alice> hello world"]),
        SourceEntry::Unreadable { path: "logs/secret.log".to_string() },
        SourceEntry::Unreadable { path: "logs/other.log".to_string() },
        file("2020-01-02.log", &["12:34 <bob> other"]),
    ];
    assert_eq!(
        build_index(&mut location, &entries),
        Err(Error::Io { path: "logs/secret.log".to_string() })
    );
    assert_eq!(location, StoreLocation::Vacant);
}

#[test]
fn empty_tree_gives_an_empty_store() {
    let mut location = StoreLocation::Vacant;
    assert_eq!(build_index(&mut location, &vec![]).unwrap().indexed, 0);
    let idx = init_index(&location).unwrap();
    assert_eq!(idx.store().len(), 0);
    assert_eq!(build_index(&mut location, &vec![]), Err(Error::StoreExists));
}

#[test]
fn writer_commits_once() {
    let mut location = StoreLocation::Vacant;
    let mut writer = IndexWriter::create(&location).unwrap();
    assert_eq!(writer.len(), 0);
    assert!(writer.add_line("12:34 <alice> hello world", "2020-01-01"));
    assert!(!writer.add_line("*** alice has joined", "2020-01-01"));
    assert_eq!(writer.add_document(doc("t", "n", "m")), 1);
    assert_eq!(writer.len(), 2);
    assert_eq!(location, StoreLocation::Vacant);
    assert_eq!(writer.commit(&mut location), Ok(2));
    assert_eq!(
        stored(&location),
        vec![doc("2020-01-01 12:34", "<alice", "hello world"), doc("t", "n", "m")]
    );
    assert!(matches!(IndexWriter::create(&location), Err(Error::StoreExists)));
    let late = IndexWriter::create(&StoreLocation::Vacant).unwrap();
    let before = location.clone();
    assert_eq!(late.commit(&mut location), Err(Error::StoreExists));
    assert_eq!(location, before);
}

#[test]
fn opened_store_holds_what_was_built() {
    let mut location = StoreLocation::Vacant;
    let entries = vec![file("d.log", &["00:01 x> one", "00:02 y> two"])];
    build_index(&mut location, &entries).unwrap();
    let store = DocumentStore::open(&location).unwrap();
    assert_eq!(store.len(), 2);
    assert_eq!(store.doc(0), Some(&doc("d 00:01", "x", "one")));
    assert_eq!(store.doc(1), Some(&doc("d 00:02", "y", "two")));
}
