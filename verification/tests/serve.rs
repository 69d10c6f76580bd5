use irc_index::errors::Error;
use irc_index::query::QueryError;
use irc_index::serve::{
    init_index, search_site, serve, Hit, IndexServer, Request, Response, SearchForm, SearchResult,
    DEFAULT_LIMIT,
};
use irc_index::store::{Document, DocumentStore, StoreLocation};

fn server(n: usize) -> IndexServer {
    let docs = (0..n)
        .map(|i| Document {
            time: format!("2020-01-01 00:{:02}", i % 60),
            nick: format!("<n{}", i),
            msg: "ping".to_string(),
        })
        .collect();
    IndexServer::new(DocumentStore::from_documents(docs))
}

fn flags(page: &SearchResult) -> (usize, bool, bool, bool) {
    (page.shown_hits, page.limit_10, page.limit_50, page.limit_100)
}

fn hit(i: usize) -> Hit {
    Hit {
        time: format!("2020-01-01 00:{:02}", i % 60),
        nick: format!("<n{}", i),
        msg: "ping".to_string(),
    }
}

#[test]
fn form_without_query_has_no_page() {
    let idx = server(3);
    assert_eq!(search_site(&idx, None, None), Ok(None));
    assert_eq!(search_site(&idx, None, Some(50)), Ok(None));
}

#[test]
fn limit_is_ten_unless_chosen() {
    assert_eq!(DEFAULT_LIMIT, 10);
    let idx = server(120);
    let page = search_site(&idx, Some("ping"), None).unwrap().unwrap();
    assert_eq!(page.q, "ping");
    assert_eq!(page.num_hits, 120);
    assert_eq!(page.shown_hits, 10);
    assert_eq!(page.hits, (0..10).map(hit).collect::<Vec<Hit>>());
    assert_eq!((page.limit_10, page.limit_50, page.limit_100), (true, false, false));
}

#[test]
fn flags_say_which_limit_is_in_force() {
    let idx = server(120);
    let page = search_site(&idx, Some("ping"), Some(10)).unwrap().unwrap();
    assert_eq!(flags(&page), (10, true, false, false));
    let page = search_site(&idx, Some("ping"), Some(50)).unwrap().unwrap();
    assert_eq!(flags(&page), (50, false, true, false));
    let page = search_site(&idx, Some("ping"), Some(100)).unwrap().unwrap();
    assert_eq!(flags(&page), (100, false, false, true));
    let page = search_site(&idx, Some("ping"), Some(7)).unwrap().unwrap();
    assert_eq!(flags(&page), (7, false, false, false));
    assert_eq!(page.num_hits, 120);
}

#[test]
fn query_without_matches_has_an_empty_page() {
    let idx = server(3);
    assert_eq!(
        search_site(&idx, Some("pong"), None),
        Ok(Some(SearchResult {
            q: "pong".to_string(),
            num_hits: 0,
            shown_hits: 0,
            hits: vec![],
            limit_10: true,
            limit_50: false,
            limit_100: false,
        }))
    );
}

#[test]
fn bad_query_is_an_error_and_no_empty_page() {
    let idx = server(3);
    assert_eq!(
        search_site(&idx, Some("body:x"), None),
        Err(Error::BadQuery { reason: QueryError::UnknownField })
    );
    assert_eq!(
        search_site(&idx, Some("msg:"), None),
        Err(Error::BadQuery { reason: QueryError::MissingTerm })
    );
    assert_eq!(
        search_site(&idx, Some("\"ping"), None),
        Err(Error::BadQuery { reason: QueryError::UnbalancedQuote })
    );
    assert_eq!(
        idx.search("\"ping", 10),
        Err(Error::BadQuery { reason: QueryError::UnbalancedQuote })
    );
    assert_eq!(search_site(&idx, Some("ping"), None).unwrap().unwrap().num_hits, 3);
}

#[test]
fn opening_nothing_fails() {
    assert!(matches!(init_index(&StoreLocation::Vacant), Err(Error::StoreMissing)));
    assert!(matches!(DocumentStore::open(&StoreLocation::Vacant), Err(Error::StoreMissing)));
}

#[test]
fn opening_damaged_bytes_fails() {
    let location = StoreLocation::Occupied { bytes: b"IRCIDX01 and then rubbish".to_vec() };
    assert!(matches!(init_index(&location), Err(Error::StoreCorrupt)));
    let location = StoreLocation::Occupied { bytes: vec![] };
    assert!(matches!(DocumentStore::open(&location), Err(Error::StoreCorrupt)));
}

#[test]
fn root_is_sent_on_to_the_search_page() {
    let idx = server(1);
    assert_eq!(serve(&idx, &Request::Index), Ok(Response::Redirect { to: "/search".to_string() }));
}

#[test]
fn bare_search_page_is_empty() {
    let idx = server(1);
    assert_eq!(serve(&idx, &Request::Search), Ok(Response::Page { context: None }));
    let form = SearchForm { q: None, limit: Some(50) };
    assert_eq!(serve(&idx, &Request::SearchQuery { form }), Ok(Response::Page { context: None }));
}

#[test]
fn search_form_gets_its_page() {
    let idx = server(2);
    let form = SearchForm { q: Some("nick:n1".to_string()), limit: None };
    let want = search_site(&idx, Some("nick:n1"), None).unwrap();
    assert_eq!(want.as_ref().unwrap().hits, vec![hit(1)]);
    assert_eq!(serve(&idx, &Request::SearchQuery { form }), Ok(Response::Page { context: want }));
    let form = SearchForm { q: Some("nope:x".to_string()), limit: None };
    assert_eq!(
        serve(&idx, &Request::SearchQuery { form }),
        Err(Error::BadQuery { reason: QueryError::UnknownField })
    );
}

#[test]
fn other_paths_name_static_files() {
    let idx = server(1);
    assert_eq!(
        serve(&idx, &Request::File { path: "css/site.css".to_string() }),
        Ok(Response::StaticFile { path: "static/css/site.css".to_string() })
    );
}

#[test]
fn errors_describe_themselves() {
    assert_eq!(Error::Io { path: "logs/a.log".to_string() }.describe(), "cannot read logs/a.log");
    assert_eq!(Error::StoreExists.describe(), "the index exists already");
    assert_eq!(Error::StoreMissing.describe(), "there is no index");
    assert_eq!(Error::StoreCorrupt.describe(), "the index is damaged");
    assert_eq!(
        Error::BadQuery { reason: QueryError::UnknownField }.describe(),
        "unknown field in the query"
    );
    assert_eq!(
        Error::BadQuery { reason: QueryError::MissingTerm }.describe(),
        "a field of the query has no term"
    );
    assert_eq!(
        Error::BadQuery { reason: QueryError::UnbalancedQuote }.describe(),
        "a quotation mark of the query is never closed"
    );
}
