//! Bounded top-K selection together with an exact count of everything offered.

use vstd::prelude::*;

verus! {

/// A scored match: the id of a document and the score the query gave it.
#[derive(Clone, Copy, Debug, PartialEq, Eq)]
pub struct Candidate {
    pub doc: usize,
    pub score: u64,
}

/// `a` is ranked strictly ahead of `b`: a higher score wins, and among equal
/// scores the lower document id.
pub open spec fn ranks_before(a: Candidate, b: Candidate) -> bool {
    a.score > b.score || (a.score == b.score && a.doc < b.doc)
}

/// No element is ranked strictly ahead of one that stands before it.
pub open spec fn in_rank_order(s: Seq<Candidate>) -> bool {
    forall|i: int, j: int| 0 <= i < j < s.len() ==> !ranks_before(s[j], s[i])
}

/// How many leading elements of `top` are not ranked after `c`.
pub open spec fn rank_position(top: Seq<Candidate>, c: Candidate) -> nat
    decreases top.len(),
{
    if top.len() > 0 && !ranks_before(c, top[0]) {
        1 + rank_position(top.drop_first(), c)
    } else {
        0
    }
}

/// `top` with `c` placed behind everything that is not ranked after it, cut
/// back to `limit` elements.
pub open spec fn insert_ranked(top: Seq<Candidate>, c: Candidate, limit: nat) -> Seq<Candidate> {
    let placed = top.insert(rank_position(top, c) as int, c);
    if placed.len() > limit {
        placed.take(limit as int)
    } else {
        placed
    }
}

/// The best `limit` candidates of `stream`, in rank order.
pub open spec fn top_ranked(stream: Seq<Candidate>, limit: nat) -> Seq<Candidate>
    decreases stream.len(),
{
    if stream.len() == 0 {
        Seq::empty()
    } else {
        insert_ranked(top_ranked(stream.drop_last(), limit), stream.last(), limit)
    }
}

/// The exec form of `ranks_before`.
pub fn ranked_ahead(a: &Candidate, b: &Candidate) -> (r: bool)
    ensures
        r == ranks_before(*a, *b),
{
    a.score > b.score || (a.score == b.score && a.doc < b.doc)
}

/// Where `c` goes in `top`: everything before that place is not ranked after
/// `c`, and the element at that place, if there is one, is.
pub proof fn lemma_rank_position(top: Seq<Candidate>, c: Candidate)
    ensures
        rank_position(top, c) <= top.len(),
        forall|i: int| 0 <= i < rank_position(top, c) ==> !ranks_before(c, #[trigger] top[i]),
        rank_position(top, c) < top.len() ==> ranks_before(c, top[rank_position(top, c) as int]),
    decreases top.len(),
{
    if top.len() > 0 && !ranks_before(c, top[0]) {
        let rest = top.drop_first();
        lemma_rank_position(rest, c);
        assert forall|i: int| 0 <= i < rank_position(top, c) implies !ranks_before(
            c,
            #[trigger] top[i],
        ) by {
            if i > 0 {
                assert(top[i] == rest[i - 1]);
            }
        }
        if rank_position(top, c) < top.len() {
            assert(top[rank_position(top, c) as int] == rest[rank_position(rest, c) as int]);
        }
    }
}

/// Placing a candidate into a ranked sequence keeps it ranked.
pub proof fn lemma_insert_keeps_order(top: Seq<Candidate>, c: Candidate, limit: nat)
    requires
        in_rank_order(top),
    ensures
        in_rank_order(insert_ranked(top, c, limit)),
{
    lemma_rank_position(top, c);
    let pos = rank_position(top, c) as int;
    let placed = top.insert(pos, c);
    assert forall|i: int, j: int| 0 <= i < j < placed.len() implies !ranks_before(
        placed[j],
        placed[i],
    ) by {
        if j == pos {
            assert(placed[i] == top[i]);
        } else if i == pos {
            assert(placed[j] == top[j - 1]);
            assert(!ranks_before(top[j - 1], top[pos]) || j - 1 == pos);
        } else if i < pos && j < pos {
            assert(placed[i] == top[i] && placed[j] == top[j]);
        } else if i < pos && j > pos {
            assert(placed[i] == top[i] && placed[j] == top[j - 1]);
        } else {
            assert(placed[i] == top[i - 1] && placed[j] == top[j - 1]);
        }
    }
}

/// The length of the selection: the limit, or the whole stream where that is shorter.
pub proof fn lemma_top_len(stream: Seq<Candidate>, limit: nat)
    ensures
        top_ranked(stream, limit).len() == if stream.len() < limit {
            stream.len()
        } else {
            limit
        },
    decreases stream.len(),
{
    if stream.len() > 0 {
        lemma_top_len(stream.drop_last(), limit);
        lemma_rank_position(top_ranked(stream.drop_last(), limit), stream.last());
    }
}

/// The selection is in rank order: scores never increase along it, and among
/// equal scores document ids never decrease.
pub proof fn lemma_top_in_rank_order(stream: Seq<Candidate>, limit: nat)
    ensures
        in_rank_order(top_ranked(stream, limit)),
        forall|i: int, j: int|
            0 <= i < j < top_ranked(stream, limit).len() ==> {
                let a = #[trigger] top_ranked(stream, limit)[i];
                let b = #[trigger] top_ranked(stream, limit)[j];
                a.score > b.score || (a.score == b.score && a.doc <= b.doc)
            },
    decreases stream.len(),
{
    if stream.len() > 0 {
        lemma_top_in_rank_order(stream.drop_last(), limit);
        lemma_insert_keeps_order(top_ranked(stream.drop_last(), limit), stream.last(), limit);
    }
    let top = top_ranked(stream, limit);
    assert forall|i: int, j: int| 0 <= i < j < top.len() implies {
        let a = #[trigger] top[i];
        let b = #[trigger] top[j];
        a.score > b.score || (a.score == b.score && a.doc <= b.doc)
    } by {
        assert(!ranks_before(top[j], top[i]));
    }
}

/// Everything selected was in the stream.
pub proof fn lemma_top_from_stream(stream: Seq<Candidate>, limit: nat)
    ensures
        forall|j: int|
            0 <= j < top_ranked(stream, limit).len() ==> stream.contains(
                #[trigger] top_ranked(stream, limit)[j],
            ),
    decreases stream.len(),
{
    if stream.len() > 0 {
        let front = stream.drop_last();
        let c = stream.last();
        let held = top_ranked(front, limit);
        let top = top_ranked(stream, limit);
        lemma_top_from_stream(front, limit);
        lemma_rank_position(held, c);
        let pos = rank_position(held, c) as int;
        let placed = held.insert(pos, c);
        assert forall|j: int| 0 <= j < top.len() implies stream.contains(#[trigger] top[j]) by {
            assert(top[j] == placed[j]);
            if j == pos {
                assert(stream[stream.len() - 1] == c);
            } else {
                let k = if j < pos {
                    j
                } else {
                    j - 1
                };
                assert(placed[j] == held[k]);
                assert(front.contains(held[k]));
                let w = choose|w: int| 0 <= w < front.len() && front[w] == held[k];
                assert(stream[w] == held[k]);
            }
        }
    }
}

/// Of a stream that offers no candidate twice, none is selected twice.
pub proof fn lemma_top_distinct(stream: Seq<Candidate>, limit: nat)
    requires
        forall|a: int, b: int| 0 <= a < b < stream.len() ==> stream[a] != stream[b],
    ensures
        forall|i: int, j: int|
            0 <= i < j < top_ranked(stream, limit).len() ==> top_ranked(stream, limit)[i]
                != top_ranked(stream, limit)[j],
    decreases stream.len(),
{
    if stream.len() > 0 {
        let front = stream.drop_last();
        let c = stream.last();
        let held = top_ranked(front, limit);
        let top = top_ranked(stream, limit);
        assert forall|a: int, b: int| 0 <= a < b < front.len() implies front[a] != front[b] by {
            assert(front[a] == stream[a] && front[b] == stream[b]);
        }
        lemma_top_distinct(front, limit);
        lemma_top_from_stream(front, limit);
        lemma_rank_position(held, c);
        let pos = rank_position(held, c) as int;
        let placed = held.insert(pos, c);
        assert forall|k: int| 0 <= k < held.len() implies held[k] != c by {
            assert(front.contains(held[k]));
            let w = choose|w: int| 0 <= w < front.len() && front[w] == held[k];
            assert(stream[w] == held[k]);
        }
        assert forall|i: int, j: int| 0 <= i < j < top.len() implies top[i] != top[j] by {
            assert(top[i] == placed[i] && top[j] == placed[j]);
            let ki = if i < pos {
                i
            } else {
                i - 1
            };
            let kj = if j < pos {
                j
            } else {
                j - 1
            };
            if i != pos {
                assert(placed[i] == held[ki]);
            }
            if j != pos {
                assert(placed[j] == held[kj]);
            }
        }
    }
}

/// Nothing left out is better than anything selected: a candidate of the
/// stream is either among the selected, or the selection is full and none
/// of the selected is ranked behind it.
pub proof fn lemma_top_dominates(stream: Seq<Candidate>, limit: nat)
    ensures
        forall|i: int|
            0 <= i < stream.len() ==> top_ranked(stream, limit).contains(#[trigger] stream[i]) || (
            top_ranked(stream, limit).len() == limit && forall|j: int|
                0 <= j < top_ranked(stream, limit).len() ==> !ranks_before(
                    stream[i],
                    #[trigger] top_ranked(stream, limit)[j],
                )),
    decreases stream.len(),
{
    if stream.len() > 0 {
        let front = stream.drop_last();
        let c = stream.last();
        let held = top_ranked(front, limit);
        let top = top_ranked(stream, limit);
        lemma_top_dominates(front, limit);
        lemma_top_len(front, limit);
        lemma_top_len(stream, limit);
        lemma_top_in_rank_order(front, limit);
        lemma_top_in_rank_order(stream, limit);
        lemma_rank_position(held, c);
        let pos = rank_position(held, c) as int;
        let placed = held.insert(pos, c);
        lemma_insert_keeps_order(held, c, placed.len());
        assert(in_rank_order(placed));
        assert forall|i: int| 0 <= i < stream.len() implies top.contains(#[trigger] stream[i]) || (
        top.len() == limit && forall|j: int|
            0 <= j < top.len() ==> !ranks_before(stream[i], #[trigger] top[j])) by {
            let x = stream[i];
            // Where `x` stands in `placed`, if it stands there at all.
            let at: int = if i == stream.len() - 1 {
                pos
            } else if held.contains(x) {
                let k = choose|k: int| 0 <= k < held.len() && held[k] == x;
                if k < pos {
                    k
                } else {
                    k + 1
                }
            } else {
                -1
            };
            if at >= 0 {
                assert(placed[at] == x);
                if at < top.len() {
                    assert(top[at] == x);
                } else {
                    assert(at == limit);
                    assert forall|j: int| 0 <= j < top.len() implies !ranks_before(
                        x,
                        #[trigger] top[j],
                    ) by {
                        assert(top[j] == placed[j]);
                        assert(!ranks_before(placed[at], placed[j]));
                    }
                }
            } else {
                assert(x == front[i]);
                assert(held.len() == limit);
                assert forall|j: int| 0 <= j < top.len() implies !ranks_before(
                    x,
                    #[trigger] top[j],
                ) by {
                    assert(top[j] == placed[j]);
                    if j == pos {
                        assert(placed[limit as int] == held[limit - 1]);
                        assert(!ranks_before(placed[limit as int], placed[j]));
                        assert(!ranks_before(x, held[limit - 1]));
                    } else if j < pos {
                        assert(placed[j] == held[j]);
                    } else {
                        assert(placed[j] == held[j - 1]);
                    }
                }
            }
        }
    }
}

/// Selects the best `limit` candidates of a stream while counting all of them.
pub struct ResultCollector {
    limit: usize,
    top: Vec<Candidate>,
    count: usize,
    seen: Ghost<Seq<Candidate>>,
}

impl ResultCollector {
    /// The selection held is the best of the stream consumed, and the count
    /// is the length of that stream.
    pub closed spec fn wf(&self) -> bool {
        &&& self.top@ == top_ranked(self.seen@, self.limit as nat)
        &&& self.count == self.seen@.len()
    }

    /// Every candidate consumed so far, in the order of arrival.
    pub closed spec fn stream(&self) -> Seq<Candidate> {
        self.seen@
    }

    /// The bound on the number of ranked results.
    pub closed spec fn limit(&self) -> nat {
        self.limit as nat
    }

    /// A collector that has seen nothing yet.
    pub fn with_limit(limit: usize) -> (c: Self)
        ensures
            c.wf(),
            c.limit() == limit,
            c.stream() == Seq::<Candidate>::empty(),
    {
        ResultCollector { limit, top: Vec::new(), count: 0, seen: Ghost(Seq::empty()) }
    }

    /// Consumes one candidate.
    pub fn collect(&mut self, c: Candidate)
        requires
            old(self).wf(),
            old(self).stream().len() < usize::MAX,
        ensures
            final(self).wf(),
            final(self).limit() == old(self).limit(),
            final(self).stream() == old(self).stream().push(c),
    {
        let ghost before = self.top@;
        let ghost stream = self.seen@.push(c);
        proof {
            lemma_top_len(self.seen@, self.limit as nat);
            lemma_top_in_rank_order(self.seen@, self.limit as nat);
            lemma_rank_position(before, c);
            assert(stream.drop_last() =~= self.seen@);
        }
        self.count = self.count + 1;
        self.seen = Ghost(stream);
        let len: usize = self.top.len();
        if len == self.limit && (len == 0 || !ranked_ahead(&c, &self.top[len - 1])) {
            // Full, and not better than the worst kept: it would be cut off again.
            proof {
                lemma_position_at_end(before, c);
                assert(before.insert(len as int, c).take(len as int) == before);
            }
            return ;
        }
        let mut pos: usize = 0;
        assert(before.skip(0) =~= before);
        while pos < len && !ranked_ahead(&c, &self.top[pos])
            invariant
                pos <= len,
                len == self.top.len(),
                self.top@ == before,
                rank_position(before, c) == pos + rank_position(before.skip(pos as int), c),
            decreases len - pos,
        {
            proof {
                assert(before.skip(pos as int).drop_first() == before.skip(pos as int + 1));
            }
            pos = pos + 1;
        }
        assert(rank_position(before, c) == pos);
        self.top.insert(pos, c);
        if self.top.len() > self.limit {
            self.top.truncate(self.limit);
            assert(self.top@ == before.insert(pos as int, c).take(self.limit as int));
        }
    }

    /// How many candidates were consumed.
    pub fn count(&self) -> (n: usize)
        requires
            self.wf(),
        ensures
            n == self.stream().len(),
    {
        self.count
    }

    /// The best candidates consumed, in rank order, at most `limit` of them.
    pub fn ranked(&self) -> (top: &Vec<Candidate>)
        requires
            self.wf(),
        ensures
            top@ == top_ranked(self.stream(), self.limit()),
            top@.len() <= self.limit(),
            top@.len() <= self.stream().len(),
            in_rank_order(top@),
    {
        proof {
            lemma_top_len(self.seen@, self.limit as nat);
            lemma_top_in_rank_order(self.seen@, self.limit as nat);
        }
        &self.top
    }

    /// Ends the collection and hands out the ranked selection.
    pub fn into_ranked(self) -> (top: Vec<Candidate>)
        requires
            self.wf(),
        ensures
            top@ == top_ranked(self.stream(), self.limit()),
            top@.len() <= self.limit(),
            top@.len() <= self.stream().len(),
            in_rank_order(top@),
    {
        proof {
            lemma_top_len(self.seen@, self.limit as nat);
            lemma_top_in_rank_order(self.seen@, self.limit as nat);
        }
        self.top
    }
}

/// In a ranked sequence, a candidate that is not ahead of the last element
/// goes behind all of them.
proof fn lemma_position_at_end(top: Seq<Candidate>, c: Candidate)
    requires
        in_rank_order(top),
        top.len() > 0 ==> !ranks_before(c, top.last()),
    ensures
        rank_position(top, c) == top.len(),
    decreases top.len(),
{
    if top.len() > 0 {
        let rest = top.drop_first();
        assert(!ranks_before(top.last(), top[0]) || top.len() == 1);
        assert(!ranks_before(c, top[0]));
        assert forall|i: int, j: int| 0 <= i < j < rest.len() implies !ranks_before(
            rest[j],
            rest[i],
        ) by {
            assert(rest[i] == top[i + 1] && rest[j] == top[j + 1]);
        }
        if rest.len() > 0 {
            assert(rest.last() == top.last());
        }
        lemma_position_at_end(rest, c);
    }
}

} // verus!
