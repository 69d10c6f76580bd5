//! Query evaluation: scores every document against the clauses of a query
//! and hands the matches to the collector.

use crate::collector::{
    in_rank_order, lemma_top_distinct, lemma_top_dominates, lemma_top_from_stream,
    lemma_top_in_rank_order, ranks_before, top_ranked, Candidate, ResultCollector,
};
use crate::postings::{
    lemma_postings_ascending, lemma_recorded_tf, postings_of, postings_view, recorded_tf,
    PostingView,
};
use crate::query::Query;
use crate::score::{
    candidates, clamp, clause_score, field_score, lemma_candidates, query_score, score, weight,
};
use crate::store::{field_terms, term_frequency, DocumentStore, Field};
use vstd::prelude::*;

verus! {

/// What a search gives: the best matches in rank order, and how many
/// documents matched in all.
#[derive(Clone, Debug, PartialEq, Eq)]
pub struct SearchOutcome {
    pub ranked: Vec<Candidate>,
    pub total: usize,
}

/// A list that does not name a document records no frequency for it.
proof fn lemma_recorded_absent(list: Seq<PostingView>, doc: nat)
    requires
        forall|j: int| 0 <= j < list.len() ==> (#[trigger] list[j]).doc != doc,
    ensures
        recorded_tf(list, doc) == 0,
    decreases list.len(),
{
    if list.len() > 0 {
        let front = list.drop_last();
        assert forall|j: int| 0 <= j < front.len() implies (#[trigger] front[j]).doc != doc by {
            assert(front[j] == list[j]);
        }
        lemma_recorded_absent(front, doc);
    }
}

/// Adds to every document's score what `term` in field `f` is worth to it.
/// `exact` holds the sums that the scores stand for.
fn add_field_scores(
    store: &DocumentStore,
    f: Field,
    term: &Vec<char>,
    scores: &mut Vec<u64>,
    Ghost(exact): Ghost<Seq<nat>>,
)
    requires
        store.wf(),
        old(scores).len() == store@.len(),
        exact.len() == store@.len(),
        forall|d: int| 0 <= d < exact.len() ==> old(scores)[d] == clamp(#[trigger] exact[d]),
    ensures
        final(scores).len() == store@.len(),
        forall|d: int|
            0 <= d < exact.len() ==> final(scores)[d] == clamp(
                #[trigger] exact[d] + field_score(store@, d, f, term@),
            ),
{
    let n: usize = store.len();
    let ghost docs = store@;
    let ghost texts = field_terms(docs, f);
    let ghost full = postings_of(texts, term@);
    proof {
        lemma_postings_ascending(texts, term@);
        assert forall|d: int| 0 <= d < exact.len() implies recorded_tf(full, d as nat)
            == term_frequency(docs, d, f, term@) by {
            lemma_recorded_tf(texts, term@, d as nat);
        }
    }
    match store.postings(f, term) {
        None => {
            assert forall|d: int| 0 <= d < exact.len() implies field_score(docs, d, f, term@)
                == 0 by {
                assert(recorded_tf(full, d as nat) == 0);
            }
        },
        Some(list) => {
            let df: usize = list.len();
            let idf: u128 = 1 + (n / df) as u128;
            let mut k: usize = 0;
            assert(full.take(0) =~= Seq::<PostingView>::empty());
            while k < list.len()
                invariant
                    k <= list.len(),
                    df == list.len(),
                    df > 0,
                    n == docs.len(),
                    idf == 1 + n as nat / df as nat,
                    scores.len() == n,
                    exact.len() == n,
                    full == postings_view(list@),
                    full.len() <= n,
                    forall|j: int|
                        0 <= j < full.len() ==> (#[trigger] full[j]).doc < n && full[j].tf > 0,
                    forall|i: int, j: int|
                        0 <= i < j < full.len() ==> (#[trigger] full[i]).doc < (
                        #[trigger] full[j]).doc,
                    forall|d: int|
                        0 <= d < n ==> scores[d] == clamp(
                            #[trigger] exact[d] + weight(
                                recorded_tf(full.take(k as int), d as nat),
                                df as nat,
                                n as nat,
                            ),
                        ),
                decreases list.len() - k,
            {
                let doc: usize = list[k].doc;
                let tf: usize = list[k].tf;
                assert(full[k as int] == list[k as int]@);
                let ghost seen = full.take(k as int);
                let ghost next = full.take(k as int + 1);
                proof {
                    assert(next.drop_last() =~= seen);
                    assert(next.last() == full[k as int]);
                    assert forall|j: int| 0 <= j < seen.len() implies (#[trigger] seen[j]).doc
                        != doc by {
                        assert(seen[j] == full[j]);
                    }
                    lemma_recorded_absent(seen, doc as nat);
                    assert(tf as u128 * idf <= 0xffff_ffff_ffff_ffff * 0x1_0000_0000_0000_0000)
                        by (nonlinear_arith)
                        requires
                            tf as u128 <= 0xffff_ffff_ffff_ffff,
                            idf <= 0x1_0000_0000_0000_0000,
                    ;
                }
                let worth: u128 = tf as u128 * idf;
                let capped: u64 = if worth > u64::MAX as u128 {
                    u64::MAX
                } else {
                    worth as u64
                };
                let held: u64 = scores[doc];
                let sum: u64 = if capped > u64::MAX - held {
                    u64::MAX
                } else {
                    held + capped
                };
                scores[doc] = sum;
                k = k + 1;
                proof {
                    assert(weight(tf as nat, df as nat, n as nat) == worth);
                    assert forall|d: int| 0 <= d < n implies scores[d] == clamp(
                        #[trigger] exact[d] + weight(
                            recorded_tf(next, d as nat),
                            df as nat,
                            n as nat,
                        ),
                    ) by {
                        if d == doc {
                            assert(recorded_tf(next, d as nat) == tf);
                        } else {
                            assert(recorded_tf(next, d as nat) == recorded_tf(seen, d as nat));
                        }
                    }
                }
            }
            assert(full.take(list.len() as int) =~= full);
        },
    }
}

/// Evaluates a query against a store.
///
/// Every document whose score is not zero is a match. `total` counts all
/// matches; `ranked` holds the best `limit` of them, the higher score first
/// and among equal scores the lower id, each with its score.
pub fn search(store: &DocumentStore, query: &Query, limit: usize) -> (out: SearchOutcome)
    requires
        store.wf(),
    ensures
        out.total == candidates(store@, query@, store@.len()).len(),
        out.ranked@ == top_ranked(candidates(store@, query@, store@.len()), limit as nat),
        out.ranked@.len() <= limit,
        out.ranked@.len() <= out.total,
        out.total <= store@.len(),
        in_rank_order(out.ranked@),
        forall|i: int, j: int|
            0 <= i < j < out.ranked@.len() ==> (#[trigger] out.ranked@[i]).score > (
            #[trigger] out.ranked@[j]).score || (out.ranked@[i].score == out.ranked@[j].score
                && out.ranked@[i].doc < out.ranked@[j].doc),
        forall|j: int|
            0 <= j < out.ranked@.len() ==> {
                let c = #[trigger] out.ranked@[j];
                c.doc < store@.len() && c.score > 0 && c.score == score(
                    store@,
                    c.doc as int,
                    query@,
                )
            },
        forall|d: int|
            0 <= d < store@.len() && score(store@, d, query@) > 0 ==> {
                let c = Candidate { doc: d as usize, score: #[trigger] score(store@, d, query@) };
                out.ranked@.contains(c) || (out.ranked@.len() == limit && forall|j: int|
                    0 <= j < out.ranked@.len() ==> !ranks_before(
                        c,
                        #[trigger] out.ranked@[j],
                    ))
            },
{
    let n: usize = store.len();
    let ghost docs = store@;
    let ghost clauses = query@;
    let mut scores: Vec<u64> = Vec::new();
    let mut d: usize = 0;
    while d < n
        invariant
            d <= n,
            scores.len() == d,
            forall|i: int| 0 <= i < d ==> scores[i] == 0,
        decreases n - d,
    {
        scores.push(0);
        d = d + 1;
    }
    let mut c: usize = 0;
    assert(clauses.take(0) =~= Seq::empty());
    while c < query.clauses.len()
        invariant
            c <= query.clauses.len(),
            store.wf(),
            docs == store@,
            clauses == query@,
            n == docs.len(),
            scores.len() == n,
            forall|i: int|
                0 <= i < n ==> scores[i] == clamp(
                    #[trigger] query_score(docs, i, clauses.take(c as int)),
                ),
        decreases query.clauses.len() - c,
    {
        let clause = &query.clauses[c];
        let ghost done = clauses.take(c as int);
        let ghost exact = Seq::new(n as nat, |i: int| query_score(docs, i, done));
        proof {
            assert(clauses.take(c as int + 1).drop_last() =~= done);
            assert(clauses.take(c as int + 1).last() == clause@);
        }
        let ghost grown = clauses.take(c as int + 1);
        match clause.field {
            Some(f) => {
                add_field_scores(store, f, &clause.term, &mut scores, Ghost(exact));
                assert forall|i: int| 0 <= i < n implies scores[i] == clamp(
                    #[trigger] query_score(docs, i, grown),
                ) by {
                    assert(exact[i] == query_score(docs, i, done));
                    assert(clause_score(docs, i, clause@) == field_score(
                        docs,
                        i,
                        f,
                        clause.term@,
                    ));
                }
            },
            None => {
                add_field_scores(store, Field::Nick, &clause.term, &mut scores, Ghost(exact));
                let ghost with_nick = Seq::new(
                    n as nat,
                    |i: int| exact[i] + field_score(docs, i, Field::Nick, clause.term@),
                );
                add_field_scores(store, Field::Msg, &clause.term, &mut scores, Ghost(with_nick));
                assert forall|i: int| 0 <= i < n implies scores[i] == clamp(
                    #[trigger] query_score(docs, i, grown),
                ) by {
                    assert(exact[i] == query_score(docs, i, done));
                    assert(with_nick[i] == exact[i] + field_score(
                        docs,
                        i,
                        Field::Nick,
                        clause.term@,
                    ));
                }
            },
        }
        c = c + 1;
    }
    assert(clauses.take(query.clauses.len() as int) =~= clauses);
    let mut collector = ResultCollector::with_limit(limit);
    let mut d: usize = 0;
    while d < n
        invariant
            d <= n,
            n == docs.len(),
            scores.len() == n,
            forall|i: int| 0 <= i < n ==> scores[i] == score(docs, i, clauses),
            collector.wf(),
            collector.limit() == limit,
            collector.stream() == candidates(docs, clauses, d as nat),
            collector.stream().len() <= d,
        decreases n - d,
    {
        if scores[d] > 0 {
            collector.collect(Candidate { doc: d, score: scores[d] });
        }
        d = d + 1;
    }
    let total: usize = collector.count();
    let ranked = collector.into_ranked();
    proof {
        let stream = candidates(docs, clauses, n as nat);
        let top = top_ranked(stream, limit as nat);
        lemma_top_in_rank_order(stream, limit as nat);
        lemma_top_from_stream(stream, limit as nat);
        lemma_top_dominates(stream, limit as nat);
        lemma_candidates(docs, clauses, n as nat);
        lemma_top_distinct(stream, limit as nat);
        assert forall|j: int| 0 <= j < top.len() implies {
            let c = #[trigger] top[j];
            c.doc < n && c.score > 0 && c.score == score(docs, c.doc as int, clauses)
        } by {
            let w = choose|w: int| 0 <= w < stream.len() && stream[w] == top[j];
            assert(stream[w].doc < n);
        }
        assert forall|i: int, j: int| 0 <= i < j < top.len() implies (#[trigger] top[i]).score > (
        #[trigger] top[j]).score || (top[i].score == top[j].score && top[i].doc < top[j].doc) by {
            assert(!ranks_before(top[j], top[i]));
            assert(top[i].score == score(docs, top[i].doc as int, clauses));
            assert(top[j].score == score(docs, top[j].doc as int, clauses));
            assert(top[i] != top[j]);
        }
        assert forall|d: int| 0 <= d < n && score(docs, d, clauses) > 0 implies {
            let c = Candidate { doc: d as usize, score: #[trigger] score(docs, d, clauses) };
            top.contains(c) || (top.len() == limit && forall|j: int|
                0 <= j < top.len() ==> !ranks_before(c, #[trigger] top[j]))
        } by {
            let c = Candidate { doc: d as usize, score: score(docs, d, clauses) };
            let w = choose|w: int| 0 <= w < stream.len() && stream[w] == c;
            assert(stream[w] == c);
        }
    }
    SearchOutcome { ranked, total }
}

} // verus!
