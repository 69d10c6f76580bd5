//! The query language: terms, optionally restricted to one field, joined
//! by a logical OR.

use crate::store::Field;
use crate::text::{char_is_space, find_char, find_from, is_space, lemma_find_from};
use crate::tokens::{terms, terms_view, tokenize_range};
use vstd::prelude::*;

verus! {

/// One clause of a query: a term, and the field it must occur in. Without
/// a field the term is looked for in `nick` and in `msg`.
#[derive(Clone, Debug, PartialEq, Eq)]
pub struct TermMatch {
    pub field: Option<Field>,
    pub term: Vec<char>,
}

/// A clause with its term as a sequence of characters.
pub struct TermMatchView {
    pub field: Option<Field>,
    pub term: Seq<char>,
}

impl View for TermMatch {
    type V = TermMatchView;

    open spec fn view(&self) -> TermMatchView {
        TermMatchView { field: self.field, term: self.term@ }
    }
}

/// A parsed query. A document matches when it matches any clause; every
/// clause it matches adds to its score.
#[derive(Clone, Debug, PartialEq, Eq)]
pub struct Query {
    pub clauses: Vec<TermMatch>,
}

impl View for Query {
    type V = Seq<TermMatchView>;

    open spec fn view(&self) -> Seq<TermMatchView> {
        Seq::new(self.clauses@.len(), |i: int| self.clauses@[i]@)
    }
}

/// Why a query string could not be parsed.
#[derive(Clone, Copy, Debug, PartialEq, Eq)]
pub enum QueryError {
    /// The name in front of a colon is not the name of a field.
    UnknownField,
    /// A field is named, but no term follows the colon.
    MissingTerm,
    /// A quotation mark opens a text that is never closed.
    UnbalancedQuote,
}

/// The field that a name stands for.
pub open spec fn field_named(name: Seq<char>) -> Option<Field> {
    if name == seq!['t', 'i', 'm', 'e'] {
        Some(Field::Time)
    } else if name == seq!['n', 'i', 'c', 'k'] {
        Some(Field::Nick)
    } else if name == seq!['m', 's', 'g'] {
        Some(Field::Msg)
    } else {
        None
    }
}

/// Where the head of the clause that begins at `from` ends: at the next
/// white space or quotation mark, or at the end of the query.
pub open spec fn head_end(q: Seq<char>, from: int) -> int
    decreases q.len() - from,
{
    if from < 0 || from >= q.len() || is_space(q[from]) || q[from] == '"' {
        from
    } else {
        head_end(q, from + 1)
    }
}

/// A head ends within the query; it is not empty unless it begins on white
/// space or a quotation mark; and it holds neither.
pub proof fn lemma_head_end(q: Seq<char>, from: int)
    requires
        0 <= from <= q.len(),
    ensures
        from <= head_end(q, from) <= q.len(),
        from < q.len() && !is_space(q[from]) && q[from] != '"' ==> from < head_end(q, from),
        head_end(q, from) < q.len() ==> is_space(q[head_end(q, from)]) || q[head_end(q, from)]
            == '"',
        forall|i: int|
            from <= i < head_end(q, from) ==> !is_space(#[trigger] q[i]) && q[i] != '"',
    decreases q.len() - from,
{
    if from < q.len() && !is_space(q[from]) && q[from] != '"' {
        lemma_head_end(q, from + 1);
    }
}

/// One clause as it stands in the query string.
pub struct ClauseShape {
    /// The field named in front of the colon, if a colon stands in the head.
    pub field: Option<Field>,
    /// The text whose terms are looked for.
    pub text: Seq<char>,
    /// Where the rest of the query goes on.
    pub next: int,
}

/// The clause that begins at `at`, a place that holds no white space.
///
/// Its head runs to the next white space or quotation mark. A colon in the
/// head parts a field name from the text. The text is what is left of the
/// head, or, where a quotation mark follows at once, everything up to the
/// closing mark.
pub open spec fn clause_at(q: Seq<char>, at: int) -> Result<ClauseShape, QueryError> {
    let h = head_end(q, at);
    let colon = find_from(q, ':', at);
    let named = colon < h;
    let start = if named {
        colon + 1
    } else {
        at
    };
    if named && field_named(q.subrange(at, colon)) is None {
        Err(QueryError::UnknownField)
    } else {
        let field = if named {
            field_named(q.subrange(at, colon))
        } else {
            None
        };
        if start < q.len() && q[start] == '"' {
            let close = find_from(q, '"', start + 1);
            if close >= q.len() {
                Err(QueryError::UnbalancedQuote)
            } else if named && terms(q.subrange(start + 1, close)).len() == 0 {
                Err(QueryError::MissingTerm)
            } else {
                Ok(ClauseShape { field, text: q.subrange(start + 1, close), next: close + 1 })
            }
        } else if named && terms(q.subrange(start, h)).len() == 0 {
            Err(QueryError::MissingTerm)
        } else {
            Ok(ClauseShape { field, text: q.subrange(start, h), next: h })
        }
    }
}

/// The clauses that a text gives under a field: one for each of its terms.
pub open spec fn clauses_of(field: Option<Field>, text: Seq<char>) -> Seq<TermMatchView> {
    Seq::new(terms(text).len(), |k: int| TermMatchView { field, term: terms(text)[k] })
}

/// A clause begun at a place without white space ends behind that place.
pub proof fn lemma_clause_advances(q: Seq<char>, at: int)
    requires
        0 <= at < q.len(),
        !is_space(q[at]),
    ensures
        clause_at(q, at) is Ok ==> at < clause_at(q, at)->Ok_0.next <= q.len(),
{
    lemma_head_end(q, at);
    lemma_find_from(q, ':', at);
    let h = head_end(q, at);
    let colon = find_from(q, ':', at);
    let start = if colon < h {
        colon + 1
    } else {
        at
    };
    if start < q.len() && q[start] == '"' {
        lemma_find_from(q, '"', start + 1);
    }
}

/// The clauses of `q[from..]`, or the error of the first clause that is
/// not well formed.
pub open spec fn parse_from(q: Seq<char>, from: int) -> Result<Seq<TermMatchView>, QueryError>
    decreases q.len() - from,
{
    if from < 0 || from >= q.len() {
        Ok(Seq::empty())
    } else if is_space(q[from]) {
        parse_from(q, from + 1)
    } else {
        match clause_at(q, from) {
            Err(e) => Err(e),
            Ok(shape) => {
                proof {
                    lemma_clause_advances(q, from);
                }
                match parse_from(q, shape.next) {
                    Err(e) => Err(e),
                    Ok(rest) => Ok(clauses_of(shape.field, shape.text) + rest),
                }
            },
        }
    }
}

/// What a query string means: its clauses in order, or why it is no query.
///
/// Clauses are separated by white space. A clause is `term`, `field:term`,
/// `"some text"` or `field:"some text"`, with `time`, `nick` or `msg` for
/// the field. The text of a clause gives one term match for each of its
/// terms.
pub open spec fn parse_spec(q: Seq<char>) -> Result<Seq<TermMatchView>, QueryError> {
    parse_from(q, 0)
}

/// The clauses found so far in front of what the rest of the query gives.
spec fn joined(
    found: Seq<TermMatchView>,
    rest: Result<Seq<TermMatchView>, QueryError>,
) -> Result<Seq<TermMatchView>, QueryError> {
    match rest {
        Ok(more) => Ok(found + more),
        Err(e) => Err(e),
    }
}

/// The views of a list of clauses.
spec fn clauses_view(v: Seq<TermMatch>) -> Seq<TermMatchView> {
    Seq::new(v.len(), |i: int| v[i]@)
}

/// The field that `chars[from..to]` names.
fn field_of(chars: &Vec<char>, from: usize, to: usize) -> (r: Option<Field>)
    requires
        from <= to <= chars.len(),
    ensures
        r == field_named(chars@.subrange(from as int, to as int)),
{
    let ghost name = chars@.subrange(from as int, to as int);
    let len: usize = to - from;
    proof {
        let time = seq!['t', 'i', 'm', 'e'];
        let nick = seq!['n', 'i', 'c', 'k'];
        let msg = seq!['m', 's', 'g'];
        assert(time.len() == 4 && time[0] == 't' && time[1] == 'i' && time[2] == 'm' && time[3]
            == 'e');
        assert(nick.len() == 4 && nick[0] == 'n' && nick[1] == 'i' && nick[2] == 'c' && nick[3]
            == 'k');
        assert(msg.len() == 3 && msg[0] == 'm' && msg[1] == 's' && msg[2] == 'g');
    }
    if len == 4 {
        assert(name[0] == chars[from as int] && name[1] == chars[from + 1] && name[2]
            == chars[from + 2] && name[3] == chars[from + 3]);
        if chars[from] == 't' && chars[from + 1] == 'i' && chars[from + 2] == 'm' && chars[from
            + 3] == 'e' {
            assert(name =~= seq!['t', 'i', 'm', 'e']);
            Some(Field::Time)
        } else if chars[from] == 'n' && chars[from + 1] == 'i' && chars[from + 2] == 'c'
            && chars[from + 3] == 'k' {
            assert(name =~= seq!['n', 'i', 'c', 'k']);
            Some(Field::Nick)
        } else {
            None
        }
    } else if len == 3 {
        assert(name[0] == chars[from as int] && name[1] == chars[from + 1] && name[2]
            == chars[from + 2]);
        if chars[from] == 'm' && chars[from + 1] == 's' && chars[from + 2] == 'g' {
            assert(name =~= seq!['m', 's', 'g']);
            Some(Field::Msg)
        } else {
            None
        }
    } else {
        None
    }
}

/// Where the head of the clause that begins at `from` ends.
fn scan_head(chars: &Vec<char>, from: usize) -> (r: usize)
    requires
        from <= chars.len(),
    ensures
        r == head_end(chars@, from as int),
        from <= r <= chars.len(),
{
    let mut i: usize = from;
    while i < chars.len() && !char_is_space(chars[i]) && chars[i] != '"'
        invariant
            from <= i <= chars.len(),
            head_end(chars@, from as int) == head_end(chars@, i as int),
        decreases chars.len() - i,
    {
        i = i + 1;
    }
    i
}

/// Parses a query string.
///
/// Returns the clauses that `parse_spec` gives, in order, or the error of
/// the first clause that is not well formed: a name in front of a colon
/// that names no field, a named field without a term, or a quotation mark
/// that is never closed.
pub fn parse_query(q: &str) -> (r: Result<Query, QueryError>)
    ensures
        match parse_spec(q@) {
            Ok(clauses) => r is Ok && r->Ok_0@ == clauses,
            Err(e) => r is Err && r->Err_0 == e,
        },
{
    let chars = crate::text::to_chars(q);
    let n: usize = chars.len();
    let mut clauses: Vec<TermMatch> = Vec::new();
    let mut i: usize = 0;
    assert(clauses_view(clauses@) =~= Seq::<TermMatchView>::empty());
    assert(joined(Seq::empty(), parse_from(q@, 0)) == parse_from(q@, 0)) by {
        match parse_from(q@, 0) {
            Ok(more) => assert(Seq::<TermMatchView>::empty() + more =~= more),
            Err(_) => {},
        }
    }
    while i < n
        invariant
            i <= n,
            n == chars.len(),
            chars@ == q@,
            parse_from(q@, 0) == joined(clauses_view(clauses@), parse_from(q@, i as int)),
        decreases n - i,
    {
        if char_is_space(chars[i]) {
            i = i + 1;
        } else {
            proof {
                lemma_head_end(q@, i as int);
                lemma_find_from(q@, ':', i as int);
                lemma_clause_advances(q@, i as int);
            }
            let h: usize = scan_head(&chars, i);
            let colon: usize = find_char(&chars, ':', i);
            let named: bool = colon < h;
            let start: usize = if named {
                colon + 1
            } else {
                i
            };
            let mut field: Option<Field> = None;
            if named {
                field = field_of(&chars, i, colon);
                if field.is_none() {
                    return Err(QueryError::UnknownField);
                }
            }
            let mut text_from: usize = start;
            let mut text_to: usize = h;
            let mut next: usize = h;
            if start < n && chars[start] == '"' {
                let close: usize = find_char(&chars, '"', start + 1);
                if close >= n {
                    return Err(QueryError::UnbalancedQuote);
                }
                text_from = start + 1;
                text_to = close;
                next = close + 1;
            }
            let found = tokenize_range(&chars, text_from, text_to);
            if named && found.len() == 0 {
                return Err(QueryError::MissingTerm);
            }
            let ghost text = q@.subrange(text_from as int, text_to as int);
            let ghost before = clauses_view(clauses@);
            assert(clause_at(q@, i as int) == Ok::<ClauseShape, QueryError>(
                ClauseShape { field, text, next: next as int },
            ));
            let mut k: usize = 0;
            while k < found.len()
                invariant
                    k <= found.len(),
                    terms_view(found@) == terms(text),
                    clauses_view(clauses@) == before + clauses_of(field, text).take(k as int),
                decreases found.len() - k,
            {
                let term = crate::tokens::copy_term(&found[k]);
                assert(terms_view(found@)[k as int] == found[k as int]@);
                let ghost held = clauses_view(clauses@);
                let ghost all = clauses_of(field, text);
                clauses.push(TermMatch { field, term });
                k = k + 1;
                proof {
                    assert(clauses_view(clauses@) =~= held.push(all[k - 1]));
                    assert(all.take(k as int) =~= all.take(k - 1).push(all[k - 1]));
                    assert(clauses_view(clauses@) =~= before + all.take(k as int));
                }
            }
            proof {
                assert(clauses_of(field, text).take(found.len() as int) =~= clauses_of(
                    field,
                    text,
                ));
                match parse_from(q@, next as int) {
                    Ok(more) => {
                        assert((before + clauses_of(field, text)) + more =~= before + (clauses_of(
                            field,
                            text,
                        ) + more));
                    },
                    Err(_) => {},
                }
            }
            i = next;
        }
    }
    proof {
        assert(clauses_view(clauses@) + Seq::<TermMatchView>::empty() =~= clauses_view(
            clauses@,
        ));
    }
    let query = Query { clauses };
    assert(query@ =~= clauses_view(query.clauses@));
    Ok(query)
}

} // verus!
