use irc_index::postings::{Posting, TermIndex};
use irc_index::record::LogRecord;
use irc_index::store::{Document, DocumentStore, Field};
use irc_index::tokens::tokenize;

fn term(s: &str) -> Vec<char> {
    s.chars().collect()
}

fn doc(time: &str, nick: &str, msg: &str) -> Document {
    Document { time: time.to_string(), nick: nick.to_string(), msg: msg.to_string() }
}

fn p(doc: usize, tf: usize) -> Posting {
    Posting { doc, tf }
}

#[test]
fn empty_index_has_no_postings() {
    let index = TermIndex::new();
    assert_eq!(index.len(), 0);
    assert_eq!(index.postings(&term("hello")), None);
}

#[test]
fn postings_name_documents_in_order_with_frequencies() {
    let mut index = TermIndex::new();
    index.add_text(&tokenize("hello world hello"));
    index.add_text(&tokenize("nothing here"));
    index.add_text(&tokenize("Hello"));
    index.add_text(&tokenize(""));
    index.add_text(&tokenize("world world world hello"));
    assert_eq!(index.len(), 5);
    assert_eq!(index.postings(&term("hello")), Some(&vec![p(0, 2), p(2, 1), p(4, 1)]));
    assert_eq!(index.postings(&term("world")), Some(&vec![p(0, 1), p(4, 3)]));
    assert_eq!(index.postings(&term("here")), Some(&vec![p(1, 1)]));
    assert_eq!(index.postings(&term("absent")), None);
    assert_eq!(index.postings(&term("Hello")), None);
}

#[test]
fn many_terms_stay_findable() {
    let mut index = TermIndex::new();
    for d in 0..40usize {
        let text: Vec<String> = (0..100usize).map(|k| format!("t{}x{}", d, k)).collect();
        index.add_text(&tokenize(&text.join(" ")));
    }
    for d in 0..40usize {
        for k in 0..100usize {
            assert_eq!(index.postings(&term(&format!("t{}x{}", d, k))), Some(&vec![p(d, 1)]));
        }
    }
    assert_eq!(index.postings(&term("t40x0")), None);
}

#[test]
fn document_of_a_record_keeps_its_fields() {
    let record = LogRecord {
        timestamp: "2020-01-01 12:34".to_string(),
        speaker: "<alice".to_string(),
        message: "hello world".to_string(),
    };
    let d = Document::from_record(record);
    assert_eq!(d, doc("2020-01-01 12:34", "<alice", "hello world"));
    assert_eq!(d.text(Field::Time), "2020-01-01 12:34");
    assert_eq!(d.text(Field::Nick), "<alice");
    assert_eq!(d.text(Field::Msg), "hello world");
}

#[test]
fn store_gives_documents_by_id() {
    let docs = vec![doc("t0", "a", "x"), doc("t1", "b", "y")];
    let store = DocumentStore::from_documents(docs.clone());
    assert_eq!(store.len(), 2);
    assert_eq!(store.doc(0), Some(&docs[0]));
    assert_eq!(store.doc(1), Some(&docs[1]));
    assert_eq!(store.doc(2), None);
}

#[test]
fn store_indexes_each_field_by_itself() {
    let store = DocumentStore::from_documents(vec![
        doc("2020-01-01 12:34", "<alice", "hello bob"),
        doc("2020-01-01 12:35", "<bob", "hello hello"),
    ]);
    assert_eq!(store.postings(Field::Msg, &term("hello")), Some(&vec![p(0, 1), p(1, 2)]));
    assert_eq!(store.postings(Field::Msg, &term("bob")), Some(&vec![p(0, 1)]));
    assert_eq!(store.postings(Field::Nick, &term("bob")), Some(&vec![p(1, 1)]));
    assert_eq!(store.postings(Field::Nick, &term("hello")), None);
    assert_eq!(store.postings(Field::Time, &term("01")), Some(&vec![p(0, 2), p(1, 2)]));
    assert_eq!(store.postings(Field::Time, &term("35")), Some(&vec![p(1, 1)]));
}
