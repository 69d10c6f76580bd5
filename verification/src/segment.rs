//! The durable form of a set of documents: one segment of bytes.
//!
//! A segment holds the stored fields of its documents. The term dictionary
//! and the postings are derived from them when the store is opened.

use crate::store::{documents_view, Document, DocumentView};
use vstd::bytes::{
    lemma_auto_spec_u64_to_from_le_bytes, spec_u64_from_le_bytes, spec_u64_to_le_bytes,
    u64_from_le_bytes, u64_to_le_bytes,
};
use vstd::prelude::*;
use vstd::slice::{slice_subrange, slice_to_vec};
use vstd::utf8::{
    decode_utf8, decode_utf8_encode_utf8, encode_utf8, encode_utf8_decode_utf8,
    encode_utf8_valid_utf8, valid_utf8,
};

verus! {

/// The eight bytes that every segment begins with.
pub open spec fn magic() -> Seq<u8> {
    seq![0x49u8, 0x52u8, 0x43u8, 0x49u8, 0x44u8, 0x58u8, 0x30u8, 0x31u8]
}

/// A text in a segment: the length of its UTF-8 form as eight bytes, least
/// significant first, then that form.
pub open spec fn text_bytes(s: Seq<char>) -> Seq<u8> {
    spec_u64_to_le_bytes(encode_utf8(s).len() as u64) + encode_utf8(s)
}

/// A document in a segment: its time, its speaker, its message.
pub open spec fn document_bytes(d: DocumentView) -> Seq<u8> {
    text_bytes(d.time) + text_bytes(d.nick) + text_bytes(d.msg)
}

/// Documents in a segment: one after the other.
pub open spec fn documents_bytes(docs: Seq<DocumentView>) -> Seq<u8>
    decreases docs.len(),
{
    if docs.len() == 0 {
        Seq::empty()
    } else {
        document_bytes(docs[0]) + documents_bytes(docs.drop_first())
    }
}

/// The segment of `docs`: the magic bytes, the number of documents as eight
/// bytes, then the documents in the order of their ids.
pub open spec fn segment_bytes(docs: Seq<DocumentView>) -> Seq<u8> {
    magic() + spec_u64_to_le_bytes(docs.len() as u64) + documents_bytes(docs)
}

/// The lengths that a segment writes down fit its eight-byte fields.
pub open spec fn text_fits(s: Seq<char>) -> bool {
    encode_utf8(s).len() <= u64::MAX
}

/// The number of documents and the length of every text fit the eight-byte
/// fields of a segment.
pub open spec fn storable(docs: Seq<DocumentView>) -> bool {
    &&& docs.len() <= u64::MAX
    &&& forall|i: int|
        0 <= i < docs.len() ==> text_fits((#[trigger] docs[i]).time) && text_fits(docs[i].nick)
            && text_fits(docs[i].msg)
}

/// The text that stands at `pos`, and where it ends.
pub open spec fn parse_text(b: Seq<u8>, pos: int) -> Option<(Seq<char>, int)> {
    if 0 <= pos && pos + 8 <= b.len() {
        let end = pos + 8 + spec_u64_from_le_bytes(b.subrange(pos, pos + 8));
        if end <= b.len() && valid_utf8(b.subrange(pos + 8, end)) {
            Some((decode_utf8(b.subrange(pos + 8, end)), end))
        } else {
            None
        }
    } else {
        None
    }
}

/// The document that stands at `pos`, and where it ends.
pub open spec fn parse_document(b: Seq<u8>, pos: int) -> Option<(DocumentView, int)> {
    match parse_text(b, pos) {
        None => None,
        Some((time, after_time)) => match parse_text(b, after_time) {
            None => None,
            Some((nick, after_nick)) => match parse_text(b, after_nick) {
                None => None,
                Some((msg, after_msg)) => Some((DocumentView { time, nick, msg }, after_msg)),
            },
        },
    }
}

/// The `count` documents that stand at `pos`, and where they end.
pub open spec fn parse_documents(b: Seq<u8>, pos: int, count: nat) -> Option<
    (Seq<DocumentView>, int),
>
    decreases count,
{
    if count == 0 {
        Some((Seq::empty(), pos))
    } else {
        match parse_document(b, pos) {
            None => None,
            Some((d, p)) => match parse_documents(b, p, (count - 1) as nat) {
                None => None,
                Some((rest, end)) => Some((seq![d] + rest, end)),
            },
        }
    }
}

/// The documents of a segment: `None` where the bytes do not begin with the
/// magic bytes, break off, hold text that is not UTF-8, or go on behind the
/// last document.
pub open spec fn parse_segment(b: Seq<u8>) -> Option<Seq<DocumentView>> {
    if b.len() >= 16 && b.subrange(0, 8) == magic() {
        match parse_documents(b, 16, spec_u64_from_le_bytes(b.subrange(8, 16)) as nat) {
            Some((docs, end)) => if end == b.len() {
                Some(docs)
            } else {
                None
            },
            None => None,
        }
    } else {
        None
    }
}

/// A text that was written at `pos` is read back from there.
pub proof fn lemma_parse_written_text(b: Seq<u8>, pos: int, s: Seq<char>)
    requires
        0 <= pos,
        pos + text_bytes(s).len() <= b.len(),
        b.subrange(pos, pos + text_bytes(s).len()) == text_bytes(s),
        text_fits(s),
    ensures
        parse_text(b, pos) == Some((s, pos + text_bytes(s).len())),
{
    lemma_auto_spec_u64_to_from_le_bytes();
    encode_utf8_valid_utf8(s);
    encode_utf8_decode_utf8(s);
    let utf = encode_utf8(s);
    let len = utf.len() as u64;
    let written = text_bytes(s);
    assert(spec_u64_to_le_bytes(len).len() == 8);
    assert(b.subrange(pos, pos + 8) =~= written.subrange(0, 8));
    assert(written.subrange(0, 8) =~= spec_u64_to_le_bytes(len));
    assert(b.subrange(pos + 8, pos + 8 + utf.len()) =~= written.subrange(8, 8 + utf.len() as int));
    assert(written.subrange(8, 8 + utf.len() as int) =~= utf);
}

/// What is read at `pos` is what stands written there.
pub proof fn lemma_parsed_text_is_written(b: Seq<u8>, pos: int)
    requires
        parse_text(b, pos) is Some,
    ensures
        pos < parse_text(b, pos).unwrap().1 <= b.len(),
        b.subrange(pos, parse_text(b, pos).unwrap().1) == text_bytes(parse_text(b, pos).unwrap().0),
        text_fits(parse_text(b, pos).unwrap().0),
{
    lemma_auto_spec_u64_to_from_le_bytes();
    let head = b.subrange(pos, pos + 8);
    let len = spec_u64_from_le_bytes(head);
    let end = pos + 8 + len;
    let utf = b.subrange(pos + 8, end);
    decode_utf8_encode_utf8(utf);
    assert(spec_u64_to_le_bytes(spec_u64_from_le_bytes(head)) == head);
    assert(b.subrange(pos, end) =~= head + utf);
}

/// A document that was written at `pos` is read back from there.
pub proof fn lemma_parse_written_document(b: Seq<u8>, pos: int, d: DocumentView)
    requires
        0 <= pos,
        pos + document_bytes(d).len() <= b.len(),
        b.subrange(pos, pos + document_bytes(d).len()) == document_bytes(d),
        text_fits(d.time),
        text_fits(d.nick),
        text_fits(d.msg),
    ensures
        parse_document(b, pos) == Some((d, pos + document_bytes(d).len())),
{
    let written = document_bytes(d);
    let l1 = text_bytes(d.time).len() as int;
    let l2 = text_bytes(d.nick).len() as int;
    let l3 = text_bytes(d.msg).len() as int;
    assert(written.len() == l1 + l2 + l3);
    assert(b.subrange(pos, pos + l1) =~= written.subrange(0, l1));
    assert(written.subrange(0, l1) =~= text_bytes(d.time));
    lemma_parse_written_text(b, pos, d.time);
    assert(b.subrange(pos + l1, pos + l1 + l2) =~= written.subrange(l1, l1 + l2));
    assert(written.subrange(l1, l1 + l2) =~= text_bytes(d.nick));
    lemma_parse_written_text(b, pos + l1, d.nick);
    assert(b.subrange(pos + l1 + l2, pos + l1 + l2 + l3) =~= written.subrange(
        l1 + l2,
        l1 + l2 + l3,
    ));
    assert(written.subrange(l1 + l2, l1 + l2 + l3) =~= text_bytes(d.msg));
    lemma_parse_written_text(b, pos + l1 + l2, d.msg);
}

/// Documents that were written at `pos` are read back from there.
pub proof fn lemma_parse_written_documents(b: Seq<u8>, pos: int, docs: Seq<DocumentView>)
    requires
        0 <= pos,
        pos + documents_bytes(docs).len() <= b.len(),
        b.subrange(pos, pos + documents_bytes(docs).len()) == documents_bytes(docs),
        storable(docs),
    ensures
        parse_documents(b, pos, docs.len()) == Some((docs, pos + documents_bytes(docs).len())),
    decreases docs.len(),
{
    if docs.len() > 0 {
        let written = documents_bytes(docs);
        let rest = docs.drop_first();
        let l = document_bytes(docs[0]).len() as int;
        assert(written.len() == l + documents_bytes(rest).len());
        assert(b.subrange(pos, pos + l) =~= written.subrange(0, l));
        assert(written.subrange(0, l) =~= document_bytes(docs[0]));
        lemma_parse_written_document(b, pos, docs[0]);
        assert(b.subrange(pos + l, pos + written.len()) =~= written.subrange(
            l,
            written.len() as int,
        ));
        assert(written.subrange(l, written.len() as int) =~= documents_bytes(rest));
        assert forall|i: int| 0 <= i < rest.len() implies text_fits((#[trigger] rest[i]).time)
            && text_fits(rest[i].nick) && text_fits(rest[i].msg) by {
            assert(rest[i] == docs[i + 1]);
        }
        lemma_parse_written_documents(b, pos + l, rest);
        assert(seq![docs[0]] + rest =~= docs);
    }
}

/// Reading a segment gives back the documents that it was made of.
pub proof fn lemma_segment_round_trip(docs: Seq<DocumentView>)
    requires
        storable(docs),
    ensures
        parse_segment(segment_bytes(docs)) == Some(docs),
{
    lemma_auto_spec_u64_to_from_le_bytes();
    let b = segment_bytes(docs);
    let count = spec_u64_to_le_bytes(docs.len() as u64);
    assert(magic().len() == 8);
    assert(count.len() == 8);
    assert(b.subrange(0, 8) =~= magic());
    assert(b.subrange(8, 16) =~= count);
    assert(b.subrange(16, 16 + documents_bytes(docs).len() as int) =~= documents_bytes(docs));
    lemma_parse_written_documents(b, 16, docs);
}

/// The document read at `pos` is the one that stands written there.
pub proof fn lemma_parsed_document_is_written(b: Seq<u8>, pos: int)
    requires
        parse_document(b, pos) is Some,
    ensures
        pos < parse_document(b, pos).unwrap().1 <= b.len(),
        b.subrange(pos, parse_document(b, pos).unwrap().1) == document_bytes(
            parse_document(b, pos).unwrap().0,
        ),
        text_fits(parse_document(b, pos).unwrap().0.time),
        text_fits(parse_document(b, pos).unwrap().0.nick),
        text_fits(parse_document(b, pos).unwrap().0.msg),
{
    let after_time = parse_text(b, pos).unwrap().1;
    let after_nick = parse_text(b, after_time).unwrap().1;
    let after_msg = parse_text(b, after_nick).unwrap().1;
    lemma_parsed_text_is_written(b, pos);
    lemma_parsed_text_is_written(b, after_time);
    lemma_parsed_text_is_written(b, after_nick);
    assert(b.subrange(pos, after_msg) =~= b.subrange(pos, after_time) + b.subrange(
        after_time,
        after_nick,
    ) + b.subrange(after_nick, after_msg));
}

/// The documents read at `pos` are as many as asked for, and the ones that
/// stand written there.
pub proof fn lemma_parsed_documents_are_written(b: Seq<u8>, pos: int, count: nat)
    requires
        0 <= pos <= b.len(),
        parse_documents(b, pos, count) is Some,
    ensures
        parse_documents(b, pos, count).unwrap().0.len() == count,
        pos <= parse_documents(b, pos, count).unwrap().1 <= b.len(),
        b.subrange(pos, parse_documents(b, pos, count).unwrap().1) == documents_bytes(
            parse_documents(b, pos, count).unwrap().0,
        ),
        forall|i: int|
            0 <= i < count ==> {
                let d = #[trigger] parse_documents(b, pos, count).unwrap().0[i];
                text_fits(d.time) && text_fits(d.nick) && text_fits(d.msg)
            },
    decreases count,
{
    if count == 0 {
        assert(b.subrange(pos, pos) =~= Seq::<u8>::empty());
    } else {
        let (d, p) = parse_document(b, pos).unwrap();
        let (rest, end) = parse_documents(b, p, (count - 1) as nat).unwrap();
        let docs = seq![d] + rest;
        lemma_parsed_document_is_written(b, pos);
        lemma_parsed_documents_are_written(b, p, (count - 1) as nat);
        assert(docs.drop_first() =~= rest);
        assert(b.subrange(pos, end) =~= b.subrange(pos, p) + b.subrange(p, end));
        assert forall|i: int| 0 <= i < count implies {
            let d = #[trigger] docs[i];
            text_fits(d.time) && text_fits(d.nick) && text_fits(d.msg)
        } by {
            if i > 0 {
                assert(docs[i] == rest[i - 1]);
            }
        }
    }
}

/// Bytes that read as a segment are the segment of the documents read.
pub proof fn lemma_segment_read_is_written(b: Seq<u8>)
    requires
        parse_segment(b) is Some,
    ensures
        segment_bytes(parse_segment(b).unwrap()) == b,
        storable(parse_segment(b).unwrap()),
{
    lemma_auto_spec_u64_to_from_le_bytes();
    let head = b.subrange(8, 16);
    let count = spec_u64_from_le_bytes(head);
    lemma_parsed_documents_are_written(b, 16, count as nat);
    let docs = parse_segment(b).unwrap();
    assert(spec_u64_to_le_bytes(spec_u64_from_le_bytes(head)) == head);
    assert(b =~= b.subrange(0, 8) + head + b.subrange(16, b.len() as int));
}

/// Writing one more document adds its bytes at the end.
pub proof fn lemma_documents_bytes_push(docs: Seq<DocumentView>, d: DocumentView)
    ensures
        documents_bytes(docs.push(d)) == documents_bytes(docs) + document_bytes(d),
    decreases docs.len(),
{
    let grown = docs.push(d);
    if docs.len() == 0 {
        assert(grown.drop_first() =~= Seq::<DocumentView>::empty());
        assert(documents_bytes(grown.drop_first()) =~= Seq::<u8>::empty());
        assert(documents_bytes(grown) =~= document_bytes(d));
        assert(documents_bytes(docs) + document_bytes(d) =~= document_bytes(d));
    } else {
        assert(grown.drop_first() =~= docs.drop_first().push(d));
        lemma_documents_bytes_push(docs.drop_first(), d);
        assert(document_bytes(docs[0]) + (documents_bytes(docs.drop_first()) + document_bytes(d))
            =~= (document_bytes(docs[0]) + documents_bytes(docs.drop_first())) + document_bytes(
            d,
        ));
    }
}

/// The documents read so far in front of what the rest of the bytes gives.
spec fn following(
    found: Seq<DocumentView>,
    rest: Option<(Seq<DocumentView>, int)>,
) -> Option<(Seq<DocumentView>, int)> {
    match rest {
        Some((more, end)) => Some((found + more, end)),
        None => None,
    }
}

/// `String::from_utf8` of the standard library: it accepts exactly the
/// byte strings that are well-formed UTF-8 and gives back the text that
/// they encode.
#[verifier::external_body]
fn string_from_utf8(bytes: Vec<u8>) -> (r: Option<String>)
    ensures
        r is Some <==> valid_utf8(bytes@),
        r is Some ==> r->0@ == decode_utf8(bytes@),
{
    String::from_utf8(bytes).ok()
}

/// Appends `src` to `out`.
fn push_bytes(out: &mut Vec<u8>, src: &[u8])
    ensures
        final(out)@ == old(out)@ + src@,
{
    let mut i: usize = 0;
    assert(out@ =~= old(out)@ + src@.take(0));
    while i < src.len()
        invariant
            i <= src.len(),
            out@ == old(out)@ + src@.take(i as int),
        decreases src.len() - i,
    {
        out.push(src[i]);
        i = i + 1;
        assert(out@ =~= old(out)@ + src@.take(i as int));
    }
    assert(src@.take(src.len() as int) =~= src@);
}

/// Appends a text to `out`: its length, then its UTF-8 form.
fn write_text(out: &mut Vec<u8>, s: &str)
    ensures
        final(out)@ == old(out)@ + text_bytes(s@),
        text_fits(s@),
{
    let utf = s.as_bytes();
    let head = u64_to_le_bytes(utf.len() as u64);
    push_bytes(out, head.as_slice());
    push_bytes(out, utf);
    assert(out@ =~= old(out)@ + text_bytes(s@));
}

/// The text that stands at `pos`, and where it ends.
fn read_text(bytes: &[u8], pos: usize) -> (r: Option<(String, usize)>)
    requires
        pos <= bytes.len(),
    ensures
        match parse_text(bytes@, pos as int) {
            Some((s, end)) => r is Some && r.unwrap().0@ == s && r.unwrap().1 == end,
            None => r is None,
        },
{
    if bytes.len() - pos < 8 {
        return None;
    }
    let len: u64 = u64_from_le_bytes(slice_subrange(bytes, pos, pos + 8));
    let room: usize = bytes.len() - pos - 8;
    if len > room as u64 {
        return None;
    }
    let end: usize = pos + 8 + len as usize;
    let utf = slice_to_vec(slice_subrange(bytes, pos + 8, end));
    match string_from_utf8(utf) {
        Some(s) => Some((s, end)),
        None => None,
    }
}

/// The document that stands at `pos`, and where it ends.
fn read_document(bytes: &[u8], pos: usize) -> (r: Option<(Document, usize)>)
    requires
        pos <= bytes.len(),
    ensures
        match parse_document(bytes@, pos as int) {
            Some((d, end)) => r is Some && r.unwrap().0@ == d && r.unwrap().1 == end && pos < end
                <= bytes.len(),
            None => r is None,
        },
{
    proof {
        if parse_document(bytes@, pos as int) is Some {
            lemma_parsed_document_is_written(bytes@, pos as int);
        }
        if parse_text(bytes@, pos as int) is Some {
            lemma_parsed_text_is_written(bytes@, pos as int);
            let after_time = parse_text(bytes@, pos as int).unwrap().1;
            if parse_text(bytes@, after_time) is Some {
                lemma_parsed_text_is_written(bytes@, after_time);
            }
        }
    }
    match read_text(bytes, pos) {
        None => None,
        Some((time, after_time)) => match read_text(bytes, after_time) {
            None => None,
            Some((nick, after_nick)) => match read_text(bytes, after_nick) {
                None => None,
                Some((msg, after_msg)) => Some((Document { time, nick, msg }, after_msg)),
            },
        },
    }
}

/// Writes the segment of `docs`.
pub fn encode_segment(docs: &Vec<Document>) -> (bytes: Vec<u8>)
    ensures
        bytes@ == segment_bytes(documents_view(docs@)),
        parse_segment(bytes@) == Some(documents_view(docs@)),
{
    let ghost all = documents_view(docs@);
    let mut out: Vec<u8> = Vec::new();
    out.push(0x49);
    out.push(0x52);
    out.push(0x43);
    out.push(0x49);
    out.push(0x44);
    out.push(0x58);
    out.push(0x30);
    out.push(0x31);
    assert(out@ =~= magic());
    let count = u64_to_le_bytes(docs.len() as u64);
    push_bytes(&mut out, count.as_slice());
    let ghost head = out@;
    let mut i: usize = 0;
    assert(out@ =~= head + documents_bytes(all.take(0)));
    while i < docs.len()
        invariant
            i <= docs.len(),
            all == documents_view(docs@),
            out@ == head + documents_bytes(all.take(i as int)),
            storable(all.take(i as int)),
        decreases docs.len() - i,
    {
        let ghost before = out@;
        write_text(&mut out, docs[i].time.as_str());
        write_text(&mut out, docs[i].nick.as_str());
        write_text(&mut out, docs[i].msg.as_str());
        proof {
            let d = docs[i as int]@;
            assert(all[i as int] == d);
            assert(all.take(i as int + 1) =~= all.take(i as int).push(d));
            lemma_documents_bytes_push(all.take(i as int), d);
            assert(out@ =~= before + document_bytes(d));
            assert(out@ =~= head + documents_bytes(all.take(i as int + 1)));
        }
        i = i + 1;
    }
    proof {
        assert(all.take(docs.len() as int) =~= all);
        lemma_segment_round_trip(all);
    }
    out
}

/// Reads a segment.
///
/// Gives the documents back exactly where `bytes` is the segment of some
/// documents, and those documents; `None` for any other bytes.
#[verifier::loop_isolation(false)]
pub fn decode_segment(bytes: &[u8]) -> (r: Option<Vec<Document>>)
    ensures
        match parse_segment(bytes@) {
            Some(docs) => r is Some && documents_view(r->0@) == docs,
            None => r is None,
        },
        r is Some ==> segment_bytes(documents_view(r->0@)) == bytes@,
        r is None ==> forall|docs: Seq<DocumentView>|
            storable(docs) ==> #[trigger] segment_bytes(docs) != bytes@,
{
    proof {
        if parse_segment(bytes@) is Some {
            lemma_segment_read_is_written(bytes@);
        } else {
            assert forall|docs: Seq<DocumentView>| storable(docs) implies #[trigger] segment_bytes(
                docs,
            ) != bytes@ by {
                if segment_bytes(docs) == bytes@ {
                    lemma_segment_round_trip(docs);
                }
            }
        }
    }
    if bytes.len() < 16 {
        return None;
    }
    if !(bytes[0] == 0x49 && bytes[1] == 0x52 && bytes[2] == 0x43 && bytes[3] == 0x49 && bytes[4]
        == 0x44 && bytes[5] == 0x58 && bytes[6] == 0x30 && bytes[7] == 0x31) {
        assert(bytes@.subrange(0, 8) != magic()) by {
            let m = bytes@.subrange(0, 8);
            if m == magic() {
                assert(m[0] == bytes[0] && m[1] == bytes[1] && m[2] == bytes[2] && m[3] == bytes[3]
                    && m[4] == bytes[4] && m[5] == bytes[5] && m[6] == bytes[6] && m[7]
                    == bytes[7]);
            }
        }
        return None;
    }
    assert(bytes@.subrange(0, 8) =~= magic());
    let count: u64 = u64_from_le_bytes(slice_subrange(bytes, 8, 16));
    let mut docs: Vec<Document> = Vec::new();
    let mut pos: usize = 16;
    let mut i: u64 = 0;
    assert(documents_view(docs@) =~= Seq::<DocumentView>::empty());
    assert(following(Seq::empty(), parse_documents(bytes@, 16, count as nat))
        == parse_documents(bytes@, 16, count as nat)) by {
        match parse_documents(bytes@, 16, count as nat) {
            Some((more, end)) => assert(Seq::<DocumentView>::empty() + more =~= more),
            None => {},
        }
    }
    while i < count
        invariant
            i <= count,
            16 <= pos <= bytes.len(),
            parse_documents(bytes@, 16, count as nat) == following(
                documents_view(docs@),
                parse_documents(bytes@, pos as int, (count - i) as nat),
            ),
        decreases count - i,
    {
        let ghost found = documents_view(docs@);
        match read_document(bytes, pos) {
            None => {
                return None;
            },
            Some((doc, next)) => {
                proof {
                    let d = doc@;
                    match parse_documents(bytes@, next as int, (count - i - 1) as nat) {
                        Some((more, end)) => {
                            assert(found + (seq![d] + more) =~= found.push(d) + more);
                        },
                        None => {},
                    }
                }
                docs.push(doc);
                assert(documents_view(docs@) =~= found.push(doc@));
                pos = next;
                i = i + 1;
            },
        }
    }
    assert(documents_view(docs@) + Seq::<DocumentView>::empty() =~= documents_view(docs@));
    if pos != bytes.len() {
        return None;
    }
    Some(docs)
}

} // verus!
