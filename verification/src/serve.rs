//! The serving side: opening a store for queries, answering a search form,
//! and deciding what each request gets.

use crate::collector::{in_rank_order, top_ranked, Candidate};
use crate::errors::Error;
use crate::query::{parse_query, parse_spec, TermMatchView};
use crate::score::candidates;
use crate::search::{search, SearchOutcome};
use crate::segment::parse_segment;
use crate::store::{held, DocumentStore, DocumentView, StoreLocation};
use vstd::prelude::*;

verus! {

/// A store opened for queries. It is never changed, and any number of
/// queries may read it at once.
pub struct IndexServer {
    store: DocumentStore,
}

impl IndexServer {
    /// The store held is well formed.
    pub closed spec fn wf(&self) -> bool {
        self.store.wf()
    }

    /// The documents that queries are answered from, by id.
    pub closed spec fn documents(&self) -> Seq<DocumentView> {
        self.store@
    }

    /// A server over a store.
    pub fn new(store: DocumentStore) -> (idx: IndexServer)
        requires
            store.wf(),
        ensures
            idx.wf(),
            idx.documents() == store@,
    {
        IndexServer { store }
    }

    /// The store.
    pub fn store(&self) -> (store: &DocumentStore)
        requires
            self.wf(),
        ensures
            store.wf(),
            store@ == self.documents(),
    {
        &self.store
    }

    /// Parses `q` and evaluates it.
    ///
    /// Fails with `BadQuery` exactly where `q` is no query. Otherwise gives
    /// the number of all matching documents and the best `limit` of them in
    /// rank order.
    pub fn search(&self, q: &str, limit: usize) -> (r: Result<SearchOutcome, Error>)
        requires
            self.wf(),
        ensures
            match parse_spec(q@) {
                Err(e) => r is Err && r->Err_0 == (Error::BadQuery { reason: e }),
                Ok(clauses) => {
                    let all = candidates(self.documents(), clauses, self.documents().len());
                    &&& r is Ok
                    &&& r->Ok_0.total == all.len()
                    &&& r->Ok_0.ranked@ == top_ranked(all, limit as nat)
                    &&& r->Ok_0.ranked@.len() <= limit
                    &&& r->Ok_0.ranked@.len() <= r->Ok_0.total
                    &&& in_rank_order(r->Ok_0.ranked@)
                    &&& forall|j: int|
                        0 <= j < r->Ok_0.ranked@.len() ==> (#[trigger] r->Ok_0.ranked@[j]).doc
                            < self.documents().len()
                },
            },
    {
        match parse_query(q) {
            Err(reason) => Err(Error::BadQuery { reason }),
            Ok(query) => Ok(search(&self.store, &query, limit)),
        }
    }
}

/// Opens the store at `location` for queries.
///
/// Fails with `StoreMissing` where the location is vacant, and with
/// `StoreCorrupt` where its bytes are not a segment.
pub fn init_index(location: &StoreLocation) -> (r: Result<IndexServer, Error>)
    ensures
        match held(*location) {
            None => r is Err && r->Err_0 == Error::StoreMissing,
            Some(bytes) => match parse_segment(bytes) {
                None => r is Err && r->Err_0 == Error::StoreCorrupt,
                Some(docs) => r is Ok && r->Ok_0.wf() && r->Ok_0.documents() == docs,
            },
        },
{
    match DocumentStore::open(location) {
        Err(e) => Err(e),
        Ok(store) => Ok(IndexServer::new(store)),
    }
}

/// What a search form holds: the query, if one was typed, and the limit, if
/// one was chosen.
#[derive(Clone, Debug, PartialEq, Eq)]
pub struct SearchForm {
    pub q: Option<String>,
    pub limit: Option<usize>,
}

/// One result as the page shows it: the stored fields of a document.
#[derive(Clone, Debug, PartialEq, Eq)]
pub struct Hit {
    pub time: String,
    pub nick: String,
    pub msg: String,
}

impl View for Hit {
    type V = DocumentView;

    open spec fn view(&self) -> DocumentView {
        DocumentView { time: self.time@, nick: self.nick@, msg: self.msg@ }
    }
}

/// What the result page shows.
#[derive(Clone, Debug, PartialEq, Eq)]
pub struct SearchResult {
    pub q: String,
    pub num_hits: usize,
    pub shown_hits: usize,
    pub hits: Vec<Hit>,
    pub limit_10: bool,
    pub limit_50: bool,
    pub limit_100: bool,
}

/// The limit that holds where the form chose none.
pub const DEFAULT_LIMIT: usize = 10;

/// The limit that a form asks for.
pub open spec fn limit_of(limit: Option<usize>) -> usize {
    match limit {
        Some(n) => n,
        None => DEFAULT_LIMIT,
    }
}

/// The views of a list of hits.
pub open spec fn hits_view(v: Seq<Hit>) -> Seq<DocumentView> {
    Seq::new(v.len(), |i: int| v[i]@)
}

/// The documents that ranked results stand for, in the same order.
pub open spec fn hits_of(docs: Seq<DocumentView>, ranked: Seq<Candidate>) -> Seq<DocumentView> {
    Seq::new(ranked.len(), |i: int| docs[ranked[i].doc as int])
}

/// `page` is the result page of the query `text`, with the clauses
/// `clauses`, over `docs` under `limit`.
pub open spec fn is_page_for(
    docs: Seq<DocumentView>,
    text: Seq<char>,
    clauses: Seq<TermMatchView>,
    limit: usize,
    page: SearchResult,
) -> bool {
    let all = candidates(docs, clauses, docs.len());
    &&& page.q@ == text
    &&& page.num_hits == all.len()
    &&& hits_view(page.hits@) == hits_of(docs, top_ranked(all, limit as nat))
    &&& page.shown_hits == page.hits@.len()
    &&& page.shown_hits <= limit
    &&& page.shown_hits <= page.num_hits
    &&& page.limit_10 == (limit == 10)
    &&& page.limit_50 == (limit == 50)
    &&& page.limit_100 == (limit == 100)
}

/// `r` is the answer to a search form over `docs`: no page for a form
/// without a query, `BadQuery` for a query that does not parse, and the
/// result page otherwise.
pub open spec fn answers_form(
    docs: Seq<DocumentView>,
    q: Option<Seq<char>>,
    limit: Option<usize>,
    r: Result<Option<SearchResult>, Error>,
) -> bool {
    match q {
        None => r is Ok && r->Ok_0 is None,
        Some(text) => match parse_spec(text) {
            Err(e) => r is Err && r->Err_0 == (Error::BadQuery { reason: e }),
            Ok(clauses) => r is Ok && r->Ok_0 is Some && is_page_for(
                docs,
                text,
                clauses,
                limit_of(limit),
                r->Ok_0->0,
            ),
        },
    }
}

/// Answers a search form.
///
/// Without a query there is nothing to show, and the answer is `None`. With
/// one, the answer is the page of its results under the limit asked for, or
/// under ten where none was: the matching documents' stored fields in rank
/// order, the number shown, the number of all matches, and which of the
/// limits 10, 50 and 100 is in force.
pub fn search_site(idx: &IndexServer, q: Option<&str>, limit: Option<usize>) -> (r: Result<
    Option<SearchResult>,
    Error,
>)
    requires
        idx.wf(),
    ensures
        answers_form(
            idx.documents(),
            match q {
                Some(text) => Some(text@),
                None => None,
            },
            limit,
            r,
        ),
{
    let user_query: &str = match q {
        None => {
            return Ok(None);
        },
        Some(text) => text,
    };
    let limit: usize = match limit {
        Some(n) => n,
        None => DEFAULT_LIMIT,
    };
    let outcome = match idx.search(user_query, limit) {
        Err(e) => {
            return Err(e);
        },
        Ok(outcome) => outcome,
    };
    let store = idx.store();
    let ghost docs = idx.documents();
    let ghost ranked = outcome.ranked@;
    let mut hits: Vec<Hit> = Vec::new();
    let mut i: usize = 0;
    assert(hits_view(hits@) =~= hits_of(docs, ranked.take(0)));
    while i < outcome.ranked.len()
        invariant
            i <= outcome.ranked.len(),
            ranked == outcome.ranked@,
            docs == store@,
            forall|j: int| 0 <= j < ranked.len() ==> (#[trigger] ranked[j]).doc < docs.len(),
            hits_view(hits@) == hits_of(docs, ranked.take(i as int)),
        decreases outcome.ranked.len() - i,
    {
        let ghost before = hits_view(hits@);
        assert(ranked[i as int].doc < docs.len());
        match store.doc(outcome.ranked[i].doc) {
            Some(doc) => {
                let hit = Hit {
                    time: doc.time.clone(),
                    nick: doc.nick.clone(),
                    msg: doc.msg.clone(),
                };
                assert(hit@ == docs[ranked[i as int].doc as int]);
                hits.push(hit);
                assert(hits_view(hits@) =~= before.push(hit@));
            },
            None => {},
        }
        i = i + 1;
        assert(hits_of(docs, ranked.take(i as int)) =~= before.push(
            docs[ranked[i - 1].doc as int],
        ));
    }
    assert(ranked.take(outcome.ranked.len() as int) =~= ranked);
    Ok(
        Some(
            SearchResult {
                q: String::from_str(user_query),
                num_hits: outcome.total,
                shown_hits: hits.len(),
                hits,
                limit_10: limit == 10,
                limit_50: limit == 50,
                limit_100: limit == 100,
            },
        ),
    )
}

/// What a request asks for.
#[derive(Clone, Debug, PartialEq, Eq)]
pub enum Request {
    /// The root of the site.
    Index,
    /// The search page, without a form.
    Search,
    /// The search page, with a form.
    SearchQuery { form: SearchForm },
    /// Anything else: a file of the site, by its path.
    File { path: String },
}

/// What a request gets.
#[derive(Clone, Debug, PartialEq, Eq)]
pub enum Response {
    /// Go to another place of the site.
    Redirect { to: String },
    /// The search page: empty without a context, with results otherwise.
    Page { context: Option<SearchResult> },
    /// The file at this path, which is below the directory of static files.
    StaticFile { path: String },
}

/// The text of a form's query.
pub open spec fn form_query(form: SearchForm) -> Option<Seq<char>> {
    match form.q {
        Some(text) => Some(text@),
        None => None,
    }
}

/// Decides what a request gets.
///
/// The root is sent on to `/search`. The bare search page is shown empty. A
/// search form is answered as `search_site` answers it. Every other path
/// names a file below `static/`.
pub fn serve(idx: &IndexServer, request: &Request) -> (r: Result<Response, Error>)
    requires
        idx.wf(),
    ensures
        match *request {
            Request::Index => r is Ok && r->Ok_0 is Redirect && r->Ok_0->to@ == "/search"@,
            Request::Search => r is Ok && r->Ok_0 is Page && r->Ok_0->context is None,
            Request::SearchQuery { form } => match r {
                Ok(response) => response is Page && answers_form(
                    idx.documents(),
                    form_query(form),
                    form.limit,
                    Ok(response->context),
                ),
                Err(e) => answers_form(idx.documents(), form_query(form), form.limit, Err(e)),
            },
            Request::File { path } => r is Ok && r->Ok_0 is StaticFile && r->Ok_0->path@
                == "static/"@ + path@,
        },
{
    match request {
        Request::Index => Ok(Response::Redirect { to: String::from_str("/search") }),
        Request::Search => Ok(Response::Page { context: None }),
        Request::SearchQuery { form } => {
            let q: Option<&str> = match &form.q {
                Some(text) => Some(text.as_str()),
                None => None,
            };
            match search_site(idx, q, form.limit) {
                Ok(context) => Ok(Response::Page { context }),
                Err(e) => Err(e),
            }
        },
        Request::File { path } => Ok(
            Response::StaticFile { path: String::from_str("static/").concat(path.as_str()) },
        ),
    }
}

} // verus!
