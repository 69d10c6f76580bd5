//! Scoring: what a term in a field is worth to a document, and what a
//! whole query is.

use crate::collector::Candidate;
use crate::postings::lemma_recorded_tf;
use crate::query::TermMatchView;
use crate::store::{document_frequency, field_terms, term_frequency, DocumentView, Field};
use vstd::prelude::*;

verus! {

/// The weight of a term that occurs `tf` times in a field of a document,
/// where `df` of the `n` documents hold it in that field: the frequency
/// times one more than the number of documents for each one that holds the
/// term. Nothing where the term does not occur.
pub open spec fn weight(tf: nat, df: nat, n: nat) -> nat {
    if tf == 0 || df == 0 {
        0
    } else {
        tf * (1 + n / df)
    }
}

/// What `term` in field `f` adds to the score of document `d`.
pub open spec fn field_score(docs: Seq<DocumentView>, d: int, f: Field, term: Seq<char>) -> nat {
    weight(term_frequency(docs, d, f, term), document_frequency(docs, f, term), docs.len())
}

/// What one clause adds to the score of document `d`: the score of its term
/// in its field, or in `nick` and `msg` together where it names none.
pub open spec fn clause_score(docs: Seq<DocumentView>, d: int, clause: TermMatchView) -> nat {
    match clause.field {
        Some(f) => field_score(docs, d, f, clause.term),
        None => field_score(docs, d, Field::Nick, clause.term) + field_score(
            docs,
            d,
            Field::Msg,
            clause.term,
        ),
    }
}

/// The sum of what the clauses add to the score of document `d`.
pub open spec fn query_score(docs: Seq<DocumentView>, d: int, clauses: Seq<TermMatchView>) -> nat
    decreases clauses.len(),
{
    if clauses.len() == 0 {
        0
    } else {
        query_score(docs, d, clauses.drop_last()) + clause_score(docs, d, clauses.last())
    }
}

/// A sum as a score: itself, or the largest score where it is beyond that.
pub open spec fn clamp(x: nat) -> u64 {
    if x > u64::MAX {
        u64::MAX
    } else {
        x as u64
    }
}

/// The score of document `d` for a query.
pub open spec fn score(docs: Seq<DocumentView>, d: int, clauses: Seq<TermMatchView>) -> u64 {
    clamp(query_score(docs, d, clauses))
}

/// The documents among the first `n` that match the query, each with its
/// score, in ascending order of id. A document matches when its score is
/// not zero.
pub open spec fn candidates(docs: Seq<DocumentView>, clauses: Seq<TermMatchView>, n: nat) -> Seq<
    Candidate,
>
    decreases n,
{
    if n == 0 {
        Seq::empty()
    } else {
        let before = candidates(docs, clauses, (n - 1) as nat);
        if score(docs, n - 1, clauses) > 0 {
            before.push(Candidate { doc: (n - 1) as usize, score: score(docs, n - 1, clauses) })
        } else {
            before
        }
    }
}

/// The candidates are exactly the matching documents, once each and in
/// ascending order of id, each with its score.
pub proof fn lemma_candidates(docs: Seq<DocumentView>, clauses: Seq<TermMatchView>, n: nat)
    requires
        n <= usize::MAX,
    ensures
        candidates(docs, clauses, n).len() <= n,
        forall|j: int|
            0 <= j < candidates(docs, clauses, n).len() ==> {
                let c = #[trigger] candidates(docs, clauses, n)[j];
                c.doc < n && c.score > 0 && c.score == score(docs, c.doc as int, clauses)
            },
        forall|i: int, j: int|
            0 <= i < j < candidates(docs, clauses, n).len() ==> (#[trigger] candidates(
                docs,
                clauses,
                n,
            )[i]).doc < (#[trigger] candidates(docs, clauses, n)[j]).doc,
        forall|d: int|
            0 <= d < n && score(docs, d, clauses) > 0 ==> candidates(docs, clauses, n).contains(
                Candidate { doc: d as usize, score: #[trigger] score(docs, d, clauses) },
            ),
    decreases n,
{
    if n > 0 {
        let before = candidates(docs, clauses, (n - 1) as nat);
        let all = candidates(docs, clauses, n);
        lemma_candidates(docs, clauses, (n - 1) as nat);
        assert forall|d: int| 0 <= d < n && score(docs, d, clauses) > 0 implies all.contains(
            Candidate { doc: d as usize, score: #[trigger] score(docs, d, clauses) },
        ) by {
            let c = Candidate { doc: d as usize, score: score(docs, d, clauses) };
            if d == n - 1 {
                assert(all[all.len() - 1] == c);
            } else {
                assert(before.contains(c));
                let w = choose|w: int| 0 <= w < before.len() && before[w] == c;
                assert(all[w] == c);
            }
        }
    }
}

/// More occurrences never weigh less, and one more occurrence of a term
/// that some document holds weighs strictly more.
pub proof fn lemma_weight_grows_with_frequency(tf: nat, more: nat, df: nat, n: nat)
    requires
        tf <= more,
    ensures
        weight(tf, df, n) <= weight(more, df, n),
        tf < more && df > 0 ==> weight(tf, df, n) < weight(more, df, n),
{
    if df > 0 {
        let idf = 1 + n / df;
        assert(tf * idf <= more * idf) by (nonlinear_arith)
            requires
                tf <= more,
                idf >= 0,
        ;
        if tf < more {
            assert(tf * idf < more * idf) by (nonlinear_arith)
                requires
                    tf < more,
                    idf >= 1,
            ;
        }
    }
}

/// A term that more documents hold never weighs more.
pub proof fn lemma_weight_falls_with_document_frequency(tf: nat, df: nat, wider: nat, n: nat)
    requires
        0 < df <= wider,
    ensures
        weight(tf, wider, n) <= weight(tf, df, n),
{
    if tf > 0 {
        assert(n / wider <= n / df) by {
            vstd::arithmetic::div_mod::lemma_div_is_ordered_by_denominator(
                n as int,
                df as int,
                wider as int,
            );
        }
        let a = 1 + n / wider;
        let b = 1 + n / df;
        assert(tf * a <= tf * b) by (nonlinear_arith)
            requires
                a <= b,
                tf >= 0,
        ;
    }
}

/// A term adds to a document's score exactly when the document holds it.
pub proof fn lemma_field_score_positive(
    docs: Seq<DocumentView>,
    d: int,
    f: Field,
    term: Seq<char>,
)
    ensures
        field_score(docs, d, f, term) > 0 <==> term_frequency(docs, d, f, term) > 0,
{
    let tf = term_frequency(docs, d, f, term);
    let df = document_frequency(docs, f, term);
    if tf > 0 {
        lemma_recorded_tf(field_terms(docs, f), term, d as nat);
        assert(df > 0);
        let idf = 1 + docs.len() / df;
        assert(tf * idf > 0) by (nonlinear_arith)
            requires
                tf > 0,
                idf > 0,
        ;
    }
}

/// A document matches a clause when it holds the clause's term in the
/// clause's field, or in `nick` or `msg` where the clause names none.
pub open spec fn matches_clause(docs: Seq<DocumentView>, d: int, clause: TermMatchView) -> bool {
    match clause.field {
        Some(f) => term_frequency(docs, d, f, clause.term) > 0,
        None => term_frequency(docs, d, Field::Nick, clause.term) > 0 || term_frequency(
            docs,
            d,
            Field::Msg,
            clause.term,
        ) > 0,
    }
}

/// A clause adds to a document's score exactly when the document matches it.
pub proof fn lemma_clause_score_positive(docs: Seq<DocumentView>, d: int, clause: TermMatchView)
    ensures
        clause_score(docs, d, clause) > 0 <==> matches_clause(docs, d, clause),
{
    match clause.field {
        Some(f) => lemma_field_score_positive(docs, d, f, clause.term),
        None => {
            lemma_field_score_positive(docs, d, Field::Nick, clause.term);
            lemma_field_score_positive(docs, d, Field::Msg, clause.term);
        },
    }
}

/// The clauses are joined by OR: a document's score is not zero exactly
/// when it matches at least one of them.
pub proof fn lemma_score_positive(docs: Seq<DocumentView>, d: int, clauses: Seq<TermMatchView>)
    ensures
        score(docs, d, clauses) > 0 <==> exists|k: int|
            0 <= k < clauses.len() && matches_clause(docs, d, #[trigger] clauses[k]),
    decreases clauses.len(),
{
    if clauses.len() > 0 {
        let front = clauses.drop_last();
        lemma_score_positive(docs, d, front);
        lemma_clause_score_positive(docs, d, clauses.last());
        if score(docs, d, clauses) > 0 {
            if matches_clause(docs, d, clauses.last()) {
                assert(matches_clause(docs, d, clauses[clauses.len() - 1]));
            } else {
                let k = choose|k: int|
                    0 <= k < front.len() && matches_clause(docs, d, #[trigger] front[k]);
                assert(matches_clause(docs, d, clauses[k]));
            }
        }
        if exists|k: int| 0 <= k < clauses.len() && matches_clause(docs, d, #[trigger] clauses[k]) {
            let k = choose|k: int|
                0 <= k < clauses.len() && matches_clause(docs, d, #[trigger] clauses[k]);
            if k < clauses.len() - 1 {
                assert(matches_clause(docs, d, front[k]));
            }
        }
    }
}

/// One more clause never lowers a score, and a clause that the document
/// matches raises the sum that the score stands for.
pub proof fn lemma_more_clauses_score_more(
    docs: Seq<DocumentView>,
    d: int,
    clauses: Seq<TermMatchView>,
    clause: TermMatchView,
)
    ensures
        score(docs, d, clauses) <= score(docs, d, clauses.push(clause)),
        query_score(docs, d, clauses.push(clause)) == query_score(docs, d, clauses) + clause_score(
            docs,
            d,
            clause,
        ),
        matches_clause(docs, d, clause) ==> query_score(docs, d, clauses) < query_score(
            docs,
            d,
            clauses.push(clause),
        ),
{
    assert(clauses.push(clause).drop_last() =~= clauses);
    lemma_clause_score_positive(docs, d, clause);
}

} // verus!
