use irc_index::query::parse_query;
use irc_index::record::extract_record;
use irc_index::search::search;
use irc_index::store::{Document, DocumentStore};
use tantivy::collector::{Count, TopDocs};
use tantivy::query::QueryParser;
use tantivy::schema::{Schema, Value, STORED, TEXT};
use tantivy::{Index, IndexWriter, TantivyDocument};

// A general-purpose search engine over the same three text fields, with
// `nick` and `msg` as the fields of a bare term. It weighs matches in its
// own way, so scores are not compared: the documents that match are.
fn matches_by_engine(docs: &[Document], q: &str) -> (usize, Vec<(String, String, String)>) {
    let mut builder = Schema::builder();
    let time = builder.add_text_field("time", TEXT | STORED);
    let nick = builder.add_text_field("nick", TEXT | STORED);
    let msg = builder.add_text_field("msg", TEXT | STORED);
    let index = Index::create_in_ram(builder.build());
    let mut writer: IndexWriter = index.writer_with_num_threads(1, 50_000_000).unwrap();
    for d in docs {
        let mut doc = TantivyDocument::default();
        doc.add_text(time, &d.time);
        doc.add_text(nick, &d.nick);
        doc.add_text(msg, &d.msg);
        writer.add_document(doc).unwrap();
    }
    writer.commit().unwrap();
    let searcher = index.reader().unwrap().searcher();
    let parser = QueryParser::for_index(&index, vec![nick, msg]);
    let query = parser.parse_query(q).unwrap();
    let (top, count) =
        searcher.search(&query, &(TopDocs::with_limit(1000).order_by_score(), Count)).unwrap();
    let mut found: Vec<(String, String, String)> = top
        .into_iter()
        .map(|(_, address)| {
            let doc: TantivyDocument = searcher.doc(address).unwrap();
            let text = |f| doc.get_first(f).unwrap().as_str().unwrap().to_string();
            (text(time), text(nick), text(msg))
        })
        .collect();
    found.sort();
    (count, found)
}

fn matches_by_library(docs: &[Document], q: &str) -> (usize, Vec<(String, String, String)>) {
    let store = DocumentStore::from_documents(docs.to_vec());
    let out = search(&store, &parse_query(q).unwrap(), 1000);
    let mut found: Vec<(String, String, String)> = out
        .ranked
        .iter()
        .map(|c| {
            let d = store.doc(c.doc).unwrap();
            (d.time.clone(), d.nick.clone(), d.msg.clone())
        })
        .collect();
    found.sort();
    (out.total, found)
}

fn corpus() -> Vec<Document> {
    let log = [
        ("2020-01-01", "12:34 <alice> hello world"),
        ("2020-01-01", "12:35 <bob> Hello, Alice! how are you?"),
        ("2020-01-01", "12:36 <alice> fine -- and you, bob?"),
        ("2020-01-02", "08:00 <carol> good morning world"),
        ("2020-01-02", "08:01 <hello> my nick is a word"),
        ("2020-01-02", "08:02 <dave_1> numbers 123 and 456"),
        ("2020-01-03", "23:59 <bob> hello hello hello"),
    ];
    log.iter()
        .map(|(date, line)| Document::from_record(extract_record(line, date).unwrap()))
        .collect()
}

#[test]
fn same_documents_match_as_in_a_general_engine() {
    let docs = corpus();
    let queries = [
        "hello",
        "world",
        "msg:hello",
        "nick:hello",
        "nick:alice",
        "nick:bob msg:world",
        "alice bob",
        "HELLO",
        "morning numbers",
        "123",
        "time:2020",
        "time:59",
        "absent",
        "dave",
        "you",
    ];
    for q in queries.iter() {
        assert_eq!(matches_by_library(&docs, q), matches_by_engine(&docs, q), "query {:?}", q);
    }
}
