use irc_index::collector::Candidate;
use irc_index::query::parse_query;
use irc_index::search::{search, SearchOutcome};
use irc_index::store::{Document, DocumentStore};

fn doc(nick: &str, msg: &str) -> Document {
    Document { time: "2020-01-01 00:00".to_string(), nick: nick.to_string(), msg: msg.to_string() }
}

fn c(doc: usize, score: u64) -> Candidate {
    Candidate { doc, score }
}

fn run(store: &DocumentStore, q: &str, limit: usize) -> SearchOutcome {
    search(store, &parse_query(q).unwrap(), limit)
}

fn small() -> DocumentStore {
    DocumentStore::from_documents(vec![
        doc("alice", "hello hello world"),
        doc("bob", "hello"),
        doc("hello", "nothing to see"),
        doc("carol", "world of worlds"),
    ])
}

#[test]
fn weight_is_frequency_times_rarity() {
    // Four documents. `hello` stands in the message of two: each occurrence
    // is worth 1 + 4 / 2 = 3.
    let out = run(&small(), "msg:hello", 10);
    assert_eq!(out, SearchOutcome { ranked: vec![c(0, 6), c(1, 3)], total: 2 });
    // `world` stands in the message of two as well.
    let out = run(&small(), "msg:world", 10);
    assert_eq!(out, SearchOutcome { ranked: vec![c(0, 3), c(3, 3)], total: 2 });
    // `nothing` stands in one: 1 + 4 / 1 = 5.
    let out = run(&small(), "msg:nothing", 10);
    assert_eq!(out, SearchOutcome { ranked: vec![c(2, 5)], total: 1 });
}

#[test]
fn bare_term_is_looked_for_in_speaker_and_message() {
    // In the speaker `hello` stands in one document of four: 1 + 4 / 1 = 5.
    let out = run(&small(), "hello", 10);
    assert_eq!(out, SearchOutcome { ranked: vec![c(0, 6), c(2, 5), c(1, 3)], total: 3 });
    let out = run(&small(), "nick:hello", 10);
    assert_eq!(out, SearchOutcome { ranked: vec![c(2, 5)], total: 1 });
}

#[test]
fn clauses_add_up_and_none_is_required() {
    let out = run(&small(), "msg:hello msg:world", 10);
    assert_eq!(out, SearchOutcome { ranked: vec![c(0, 9), c(1, 3), c(3, 3)], total: 3 });
    let out = run(&small(), "msg:hello msg:hello", 10);
    assert_eq!(out, SearchOutcome { ranked: vec![c(0, 12), c(1, 6)], total: 2 });
    let out = run(&small(), "msg:hello absent", 10);
    assert_eq!(out, SearchOutcome { ranked: vec![c(0, 6), c(1, 3)], total: 2 });
}

#[test]
fn limit_cuts_the_results_and_not_the_count() {
    let out = run(&small(), "hello", 1);
    assert_eq!(out, SearchOutcome { ranked: vec![c(0, 6)], total: 3 });
    let out = run(&small(), "hello", 0);
    assert_eq!(out, SearchOutcome { ranked: vec![], total: 3 });
    let out = run(&small(), "hello", 2);
    assert_eq!(out, SearchOutcome { ranked: vec![c(0, 6), c(2, 5)], total: 3 });
}

#[test]
fn no_match_gives_nothing() {
    assert_eq!(run(&small(), "absent", 10), SearchOutcome { ranked: vec![], total: 0 });
    assert_eq!(run(&small(), "", 10), SearchOutcome { ranked: vec![], total: 0 });
    let empty = DocumentStore::from_documents(vec![]);
    assert_eq!(run(&empty, "hello", 10), SearchOutcome { ranked: vec![], total: 0 });
}

#[test]
fn time_is_searched_only_when_named() {
    let out = run(&small(), "2020", 10);
    assert_eq!(out.total, 0);
    let out = run(&small(), "time:2020", 10);
    assert_eq!(out, SearchOutcome { ranked: vec![c(0, 2), c(1, 2), c(2, 2), c(3, 2)], total: 4 });
}

#[test]
fn equal_scores_come_in_order_of_id() {
    let store = DocumentStore::from_documents(
        (0..20).map(|i| doc("n", if i % 2 == 0 { "ping" } else { "pong" })).collect(),
    );
    let out = run(&store, "ping", 4);
    assert_eq!(out.total, 10);
    assert_eq!(out.ranked, vec![c(0, 3), c(2, 3), c(4, 3), c(6, 3)]);
}

#[test]
fn repeated_search_gives_the_same() {
    let store = small();
    assert_eq!(run(&store, "hello world", 3), run(&store, "hello world", 3));
}

#[test]
fn results_are_bounded_and_ranked_for_many_limits() {
    let store = small();
    for limit in 0..7usize {
        let out = run(&store, "hello world nothing", limit);
        assert!(out.ranked.len() <= limit);
        assert!(out.total >= out.ranked.len());
        for w in out.ranked.windows(2) {
            assert!(w[0].score > w[1].score || (w[0].score == w[1].score && w[0].doc < w[1].doc));
        }
    }
}
