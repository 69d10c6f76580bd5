//! The document store: the stored fields of every document, and one
//! inverted index for each field.

use crate::errors::Error;
use crate::postings::{postings_of, postings_view, Posting, TermIndex};
use crate::record::{LogRecord, RecordView};
use crate::segment::{decode_segment, parse_segment};
use crate::tokens::{occurrences, terms, tokenize};
use vstd::prelude::*;

verus! {

/// The three fields of a document. Each is stored as written and indexed
/// by its terms.
#[derive(Clone, Copy, Debug, PartialEq, Eq, Hash)]
pub enum Field {
    Time,
    Nick,
    Msg,
}

/// The indexed unit: one message with its time and speaker.
#[derive(Clone, Debug, PartialEq, Eq)]
pub struct Document {
    pub time: String,
    pub nick: String,
    pub msg: String,
}

/// The characters of a document's three fields.
pub struct DocumentView {
    pub time: Seq<char>,
    pub nick: Seq<char>,
    pub msg: Seq<char>,
}

impl View for Document {
    type V = DocumentView;

    open spec fn view(&self) -> DocumentView {
        DocumentView { time: self.time@, nick: self.nick@, msg: self.msg@ }
    }
}

/// The document that stands for a record: field by field the same text.
pub open spec fn document_of(r: RecordView) -> DocumentView {
    DocumentView { time: r.timestamp, nick: r.speaker, msg: r.message }
}

/// The views of a list of documents.
pub open spec fn documents_view(v: Seq<Document>) -> Seq<DocumentView> {
    Seq::new(v.len(), |i: int| v[i]@)
}

/// The text that a document stores under a field.
pub open spec fn field_text(doc: DocumentView, f: Field) -> Seq<char> {
    match f {
        Field::Time => doc.time,
        Field::Nick => doc.nick,
        Field::Msg => doc.msg,
    }
}

/// For every document, the terms of its text under `f`.
pub open spec fn field_terms(docs: Seq<DocumentView>, f: Field) -> Seq<Seq<Seq<char>>> {
    Seq::new(docs.len(), |d: int| terms(field_text(docs[d], f)))
}

/// How often `term` occurs in field `f` of document `d`; zero for an id
/// that names no document.
pub open spec fn term_frequency(docs: Seq<DocumentView>, d: int, f: Field, term: Seq<char>) -> nat {
    if 0 <= d < docs.len() {
        occurrences(terms(field_text(docs[d], f)), term)
    } else {
        0
    }
}

/// In how many documents field `f` holds `term`: the length of the term's
/// postings list for that field.
pub open spec fn document_frequency(docs: Seq<DocumentView>, f: Field, term: Seq<char>) -> nat {
    postings_of(field_terms(docs, f), term).len()
}

impl Document {
    /// The document of a record.
    pub fn from_record(record: LogRecord) -> (doc: Document)
        ensures
            doc@ == document_of(record@),
    {
        Document { time: record.timestamp, nick: record.speaker, msg: record.message }
    }

    /// The text stored under `f`.
    pub fn text(&self, f: Field) -> (s: &str)
        ensures
            s@ == field_text(self@, f),
    {
        match f {
            Field::Time => self.time.as_str(),
            Field::Nick => self.nick.as_str(),
            Field::Msg => self.msg.as_str(),
        }
    }
}

/// The place where a store is kept: nothing yet, or the bytes that were
/// committed there.
#[derive(Clone, Debug, PartialEq, Eq)]
pub enum StoreLocation {
    Vacant,
    Occupied { bytes: Vec<u8> },
}

/// What a location holds: `None` for a vacant one.
pub open spec fn held(location: StoreLocation) -> Option<Seq<u8>> {
    match location {
        StoreLocation::Vacant => None,
        StoreLocation::Occupied { bytes } => Some(bytes@),
    }
}

/// A committed set of documents, searchable and read-only. A document's id
/// is its place in the order of insertion.
pub struct DocumentStore {
    docs: Vec<Document>,
    time_index: TermIndex,
    nick_index: TermIndex,
    msg_index: TermIndex,
}

impl View for DocumentStore {
    type V = Seq<DocumentView>;

    closed spec fn view(&self) -> Seq<DocumentView> {
        documents_view(self.docs@)
    }
}

impl DocumentStore {
    /// Each field's index is the index of exactly the documents held.
    pub closed spec fn wf(&self) -> bool {
        &&& self.time_index.wf()
        &&& self.nick_index.wf()
        &&& self.msg_index.wf()
        &&& self.time_index.texts() == field_terms(self@, Field::Time)
        &&& self.nick_index.texts() == field_terms(self@, Field::Nick)
        &&& self.msg_index.texts() == field_terms(self@, Field::Msg)
    }

    /// Indexes `docs`: builds the term dictionary and the postings of each
    /// field. Ids are given in the order of `docs`.
    pub fn from_documents(docs: Vec<Document>) -> (store: DocumentStore)
        ensures
            store.wf(),
            store@ == documents_view(docs@),
    {
        let mut time_index = TermIndex::new();
        let mut nick_index = TermIndex::new();
        let mut msg_index = TermIndex::new();
        let ghost all = documents_view(docs@);
        let mut d: usize = 0;
        assert(field_terms(all.take(0), Field::Time) =~= Seq::<Seq<Seq<char>>>::empty());
        assert(field_terms(all.take(0), Field::Nick) =~= Seq::<Seq<Seq<char>>>::empty());
        assert(field_terms(all.take(0), Field::Msg) =~= Seq::<Seq<Seq<char>>>::empty());
        while d < docs.len()
            invariant
                d <= docs.len(),
                all == documents_view(docs@),
                time_index.wf(),
                nick_index.wf(),
                msg_index.wf(),
                time_index.texts() == field_terms(all.take(d as int), Field::Time),
                nick_index.texts() == field_terms(all.take(d as int), Field::Nick),
                msg_index.texts() == field_terms(all.take(d as int), Field::Msg),
            decreases docs.len() - d,
        {
            let doc = &docs[d];
            let time_terms = tokenize(doc.time.as_str());
            let nick_terms = tokenize(doc.nick.as_str());
            let msg_terms = tokenize(doc.msg.as_str());
            time_index.add_text(&time_terms);
            nick_index.add_text(&nick_terms);
            msg_index.add_text(&msg_terms);
            proof {
                let grown = all.take(d as int + 1);
                assert(grown[d as int] == docs[d as int]@);
                assert(field_terms(grown, Field::Time) =~= field_terms(
                    all.take(d as int),
                    Field::Time,
                ).push(terms(doc.time@)));
                assert(field_terms(grown, Field::Nick) =~= field_terms(
                    all.take(d as int),
                    Field::Nick,
                ).push(terms(doc.nick@)));
                assert(field_terms(grown, Field::Msg) =~= field_terms(
                    all.take(d as int),
                    Field::Msg,
                ).push(terms(doc.msg@)));
            }
            d = d + 1;
        }
        assert(all.take(docs.len() as int) =~= all);
        DocumentStore { docs, time_index, nick_index, msg_index }
    }

    /// Opens the store that a location holds.
    ///
    /// Fails with `StoreMissing` where the location is vacant, and with
    /// `StoreCorrupt` where its bytes are not a segment. Otherwise gives the
    /// store of the documents of that segment.
    pub fn open(location: &StoreLocation) -> (r: Result<DocumentStore, Error>)
        ensures
            match held(*location) {
                None => r is Err && r->Err_0 == Error::StoreMissing,
                Some(bytes) => match parse_segment(bytes) {
                    None => r is Err && r->Err_0 == Error::StoreCorrupt,
                    Some(docs) => r is Ok && r->Ok_0.wf() && r->Ok_0@ == docs,
                },
            },
    {
        match location {
            StoreLocation::Vacant => Err(Error::StoreMissing),
            StoreLocation::Occupied { bytes } => match decode_segment(bytes.as_slice()) {
                None => Err(Error::StoreCorrupt),
                Some(docs) => Ok(DocumentStore::from_documents(docs)),
            },
        }
    }

    /// The number of documents.
    pub fn len(&self) -> (n: usize)
        ensures
            n == self@.len(),
    {
        self.docs.len()
    }

    /// The document with id `id`, or `None` where there is none.
    pub fn doc(&self, id: usize) -> (r: Option<&Document>)
        ensures
            r is Some <==> id < self@.len(),
            r is Some ==> r->0@ == self@[id as int],
    {
        if id < self.docs.len() {
            Some(&self.docs[id])
        } else {
            None
        }
    }

    /// The postings list of `term` in field `f`: in ascending order of id,
    /// the documents whose text under `f` holds the term, each with the
    /// number of occurrences. `None` where no document holds it.
    pub fn postings(&self, f: Field, term: &Vec<char>) -> (r: Option<&Vec<Posting>>)
        requires
            self.wf(),
        ensures
            match r {
                Some(list) => list@.len() > 0 && postings_view(list@) == postings_of(
                    field_terms(self@, f),
                    term@,
                ),
                None => postings_of(field_terms(self@, f), term@).len() == 0,
            },
    {
        match f {
            Field::Time => self.time_index.postings(term),
            Field::Nick => self.nick_index.postings(term),
            Field::Msg => self.msg_index.postings(term),
        }
    }
}

} // verus!
