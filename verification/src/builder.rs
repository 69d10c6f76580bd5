//! Building a store from a tree of log files.

use crate::errors::Error;
use crate::record::{extract_record, record_of};
use crate::segment::{encode_segment, parse_segment, segment_bytes};
use crate::store::{document_of, documents_view, held, Document, DocumentView, StoreLocation};
use crate::text::to_chars;
use std::time::Instant;
use vstd::prelude::*;

verus! {

/// One entry of the source tree, as the walk over it found it.
#[derive(Clone, Debug, PartialEq, Eq)]
pub enum SourceEntry {
    /// A directory. It is descended into, and gives no documents itself.
    Directory,
    /// A regular file: its name and its lines.
    File { name: String, lines: Vec<String> },
    /// A directory or file that could not be read.
    Unreadable { path: String },
}

/// What a build reports: how many records it indexed, and how many whole
/// seconds extraction and the commit took.
#[derive(Clone, Copy, Debug, PartialEq, Eq)]
pub struct BuildReport {
    pub indexed: usize,
    pub parse_seconds: u64,
    pub commit_seconds: u64,
}

/// The last index below `upto` where `s` holds `c`, or -1.
pub open spec fn last_index_below(s: Seq<char>, c: char, upto: int) -> int
    decreases upto,
{
    if upto <= 0 || upto > s.len() {
        -1
    } else if s[upto - 1] == c {
        upto - 1
    } else {
        last_index_below(s, c, upto - 1)
    }
}

/// The stem of a file name: the name without its extension. The extension
/// begins at the last dot, unless that dot opens the name.
pub open spec fn file_stem(name: Seq<char>) -> Seq<char> {
    let dot = last_index_below(name, '.', name.len() as int);
    if dot <= 0 {
        name
    } else {
        name.take(dot)
    }
}

/// The document that a line of the log of day `date` gives, if any.
pub open spec fn line_documents(date: Seq<char>, line: Seq<char>) -> Seq<DocumentView> {
    match record_of(line, date) {
        Some(r) => seq![document_of(r)],
        None => Seq::empty(),
    }
}

/// The documents that the lines of the log of day `date` give, in order.
pub open spec fn file_documents(date: Seq<char>, lines: Seq<String>) -> Seq<DocumentView>
    decreases lines.len(),
{
    if lines.len() == 0 {
        Seq::empty()
    } else {
        file_documents(date, lines.drop_last()) + line_documents(date, lines.last()@)
    }
}

/// The documents that one entry gives: those of its lines for a file, under
/// the stem of its name as the date; none for anything else.
pub open spec fn entry_documents(entry: SourceEntry) -> Seq<DocumentView> {
    match entry {
        SourceEntry::File { name, lines } => file_documents(file_stem(name@), lines@),
        _ => Seq::empty(),
    }
}

/// The documents that a source tree gives, in the order of the walk.
pub open spec fn tree_documents(entries: Seq<SourceEntry>) -> Seq<DocumentView>
    decreases entries.len(),
{
    if entries.len() == 0 {
        Seq::empty()
    } else {
        tree_documents(entries.drop_last()) + entry_documents(entries.last())
    }
}

/// The first entry among the first `upto` that could not be read.
pub open spec fn first_unreadable(entries: Seq<SourceEntry>, upto: int) -> Option<int>
    decreases upto,
{
    if upto <= 0 || upto > entries.len() {
        None
    } else {
        match first_unreadable(entries, upto - 1) {
            Some(k) => Some(k),
            None => if entries[upto - 1] is Unreadable {
                Some(upto - 1)
            } else {
                None
            },
        }
    }
}

/// A file none of whose lines is a message line gives no documents.
pub proof fn lemma_file_without_messages(date: Seq<char>, lines: Seq<String>)
    requires
        forall|i: int| 0 <= i < lines.len() ==> record_of(#[trigger] lines[i]@, date) is None,
    ensures
        file_documents(date, lines) == Seq::<DocumentView>::empty(),
    decreases lines.len(),
{
    if lines.len() > 0 {
        let front = lines.drop_last();
        assert forall|i: int| 0 <= i < front.len() implies record_of(
            #[trigger] front[i]@,
            date,
        ) is None by {
            assert(front[i] == lines[i]);
        }
        lemma_file_without_messages(date, front);
        assert(record_of(lines[lines.len() - 1]@, date) is None);
        assert(file_documents(date, lines) =~= Seq::<DocumentView>::empty());
    }
}

/// The date key of a log file: the stem of its name.
pub fn date_key(name: &str) -> (date: String)
    ensures
        date@ == file_stem(name@),
{
    let chars = to_chars(name);
    let mut i: usize = chars.len();
    while i > 0 && chars[i - 1] != '.'
        invariant
            i <= chars.len(),
            last_index_below(chars@, '.', chars.len() as int) == last_index_below(
                chars@,
                '.',
                i as int,
            ),
        decreases i,
    {
        i = i - 1;
    }
    if i <= 1 {
        String::from_str(name)
    } else {
        String::from_str(name.substring_char(0, i - 1))
    }
}

/// A build session: the documents added so far. Nothing of it is durable
/// or searchable before the commit.
pub struct IndexWriter {
    docs: Vec<Document>,
}

impl View for IndexWriter {
    type V = Seq<DocumentView>;

    closed spec fn view(&self) -> Seq<DocumentView> {
        documents_view(self.docs@)
    }
}

impl IndexWriter {
    /// Begins a build at `location`. Fails with `StoreExists` where the
    /// location holds something already.
    pub fn create(location: &StoreLocation) -> (r: Result<IndexWriter, Error>)
        ensures
            held(*location) is Some ==> r is Err && r->Err_0 == Error::StoreExists,
            held(*location) is None ==> r is Ok && r->Ok_0@ == Seq::<DocumentView>::empty(),
    {
        match location {
            StoreLocation::Occupied { .. } => Err(Error::StoreExists),
            StoreLocation::Vacant => {
                let writer = IndexWriter { docs: Vec::new() };
                assert(writer@ =~= Seq::<DocumentView>::empty());
                Ok(writer)
            },
        }
    }

    /// The number of documents added.
    pub fn len(&self) -> (n: usize)
        ensures
            n == self@.len(),
    {
        self.docs.len()
    }

    /// Adds a document. Its id is the number of documents added before it.
    pub fn add_document(&mut self, doc: Document) -> (id: usize)
        ensures
            final(self)@ == old(self)@.push(doc@),
            id == old(self)@.len(),
    {
        let id: usize = self.docs.len();
        self.docs.push(doc);
        assert(self@ =~= old(self)@.push(doc@));
        id
    }

    /// Adds the document of one line of the log of day `date`, if the line
    /// is a message line. Says whether it was.
    pub fn add_line(&mut self, line: &str, date: &str) -> (added: bool)
        ensures
            final(self)@ == old(self)@ + line_documents(date@, line@),
            added == record_of(line@, date@) is Some,
    {
        match extract_record(line, date) {
            Some(record) => {
                let ghost r = record@;
                let doc = Document::from_record(record);
                self.docs.push(doc);
                assert(self@ =~= old(self)@ + seq![document_of(r)]);
                true
            },
            None => {
                assert(self@ =~= old(self)@ + Seq::<DocumentView>::empty());
                false
            },
        }
    }

    /// Commits the documents added: writes their segment to `location` and
    /// gives their number. Fails with `StoreExists`, and writes nothing,
    /// where the location holds something already.
    pub fn commit(self, location: &mut StoreLocation) -> (r: Result<usize, Error>)
        ensures
            held(*old(location)) is Some ==> r is Err && r->Err_0 == Error::StoreExists
                && *final(location) == *old(location),
            held(*old(location)) is None ==> r is Ok && r->Ok_0 == self@.len() && held(
                *final(location),
            ) == Some(segment_bytes(self@)) && parse_segment(segment_bytes(self@)) == Some(
                self@,
            ),
    {
        match location {
            StoreLocation::Occupied { .. } => Err(Error::StoreExists),
            StoreLocation::Vacant => {
                let bytes = encode_segment(&self.docs);
                *location = StoreLocation::Occupied { bytes };
                Ok(self.docs.len())
            },
        }
    }
}

/// Adds the documents of the lines of one log file.
fn add_file(writer: &mut IndexWriter, name: &str, lines: &Vec<String>)
    ensures
        final(writer)@ == old(writer)@ + file_documents(file_stem(name@), lines@),
{
    let date = date_key(name);
    let mut i: usize = 0;
    assert(writer@ =~= old(writer)@ + file_documents(date@, lines@.take(0)));
    while i < lines.len()
        invariant
            i <= lines.len(),
            date@ == file_stem(name@),
            writer@ == old(writer)@ + file_documents(date@, lines@.take(i as int)),
        decreases lines.len() - i,
    {
        let ghost before = file_documents(date@, lines@.take(i as int));
        writer.add_line(lines[i].as_str(), date.as_str());
        proof {
            let grown = lines@.take(i as int + 1);
            assert(grown.drop_last() =~= lines@.take(i as int));
            assert(grown.last() == lines[i as int]);
            assert(writer@ =~= old(writer)@ + (before + line_documents(date@, lines[i as int]@)));
        }
        i = i + 1;
    }
    assert(lines@.take(lines.len() as int) =~= lines@);
}

/// Builds a store at `location` from the entries of a source tree, given in
/// the order of the walk.
///
/// Every line of every file that is a message line becomes one document,
/// dated by the stem of the file's name; ids follow the order of the walk.
/// All documents are committed together at the end, as one segment.
///
/// Fails with `StoreExists` where the location holds something already,
/// whatever the entries are, and leaves the location as it is. Otherwise
/// fails with `Io` and the path of the first entry that could not be read,
/// and leaves the location vacant. Otherwise reports the number of records
/// indexed and the seconds that extraction and the commit took.
pub fn build_index(location: &mut StoreLocation, entries: &Vec<SourceEntry>) -> (r: Result<
    BuildReport,
    Error,
>)
    ensures
        held(*old(location)) is Some ==> r is Err && r->Err_0 == Error::StoreExists
            && *final(location) == *old(location),
        held(*old(location)) is None ==> match first_unreadable(entries@, entries@.len() as int) {
            Some(k) => {
                &&& r is Err
                &&& r->Err_0 is Io
                &&& r->Err_0->path == entries@[k]->path
                &&& *final(location) == StoreLocation::Vacant
            },
            None => {
                &&& r is Ok
                &&& r->Ok_0.indexed == tree_documents(entries@).len()
                &&& held(*final(location)) == Some(segment_bytes(tree_documents(entries@)))
                &&& parse_segment(segment_bytes(tree_documents(entries@))) == Some(
                    tree_documents(entries@),
                )
            },
        },
{
    let mut writer = match IndexWriter::create(location) {
        Err(e) => {
            return Err(e);
        },
        Ok(writer) => writer,
    };
    let parse_started = Instant::now();
    let mut i: usize = 0;
    assert(writer@ =~= tree_documents(entries@.take(0)));
    while i < entries.len()
        invariant
            i <= entries.len(),
            *location == *old(location),
            held(*location) is None,
            first_unreadable(entries@, i as int) is None,
            writer@ == tree_documents(entries@.take(i as int)),
        decreases entries.len() - i,
    {
        let ghost before = writer@;
        proof {
            let grown = entries@.take(i as int + 1);
            assert(grown.drop_last() =~= entries@.take(i as int));
            assert(grown.last() == entries[i as int]);
        }
        match &entries[i] {
            SourceEntry::Directory => {
                assert(writer@ =~= before + Seq::<DocumentView>::empty());
            },
            SourceEntry::File { name, lines } => {
                add_file(&mut writer, name.as_str(), lines);
            },
            SourceEntry::Unreadable { path } => {
                proof {
                    lemma_first_unreadable_stays(entries@, i as int + 1, entries@.len() as int);
                }
                return Err(Error::Io { path: path.clone() });
            },
        }
        i = i + 1;
    }
    assert(entries@.take(entries.len() as int) =~= entries@);
    let parse_seconds: u64 = parse_started.elapsed().as_secs();
    let commit_started = Instant::now();
    match writer.commit(location) {
        Err(e) => Err(e),
        Ok(indexed) => {
            let commit_seconds: u64 = commit_started.elapsed().as_secs();
            Ok(BuildReport { indexed, parse_seconds, commit_seconds })
        },
    }
}

/// The first unreadable entry of a part of the tree is the first of the
/// whole tree.
proof fn lemma_first_unreadable_stays(entries: Seq<SourceEntry>, upto: int, end: int)
    requires
        0 <= upto <= end <= entries.len(),
        first_unreadable(entries, upto) is Some,
    ensures
        first_unreadable(entries, end) == first_unreadable(entries, upto),
    decreases end - upto,
{
    if upto < end {
        lemma_first_unreadable_stays(entries, upto, end - 1);
    }
}

} // verus!
