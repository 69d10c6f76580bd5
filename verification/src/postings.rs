//! The inverted index of one field: for every term, the documents whose text
//! holds it and how often.

use crate::tokens::{copy_term, occurrences, same_term, terms_view};
use vstd::prelude::*;

verus! {

/// One entry of a postings list: a document and the number of times the
/// term occurs in its text.
#[derive(Clone, Copy, Debug, PartialEq, Eq)]
pub struct Posting {
    pub doc: usize,
    pub tf: usize,
}

/// A posting as mathematical integers.
pub struct PostingView {
    pub doc: nat,
    pub tf: nat,
}

impl View for Posting {
    type V = PostingView;

    open spec fn view(&self) -> PostingView {
        PostingView { doc: self.doc as nat, tf: self.tf as nat }
    }
}

/// The views of a list of postings.
pub open spec fn postings_view(v: Seq<Posting>) -> Seq<PostingView> {
    Seq::new(v.len(), |i: int| v[i]@)
}

/// The postings list of `term` over `texts`, where document `d` has the
/// terms `texts[d]`: in ascending order of document, every document that
/// holds the term at least once, with the number of occurrences.
pub open spec fn postings_of(texts: Seq<Seq<Seq<char>>>, term: Seq<char>) -> Seq<PostingView>
    decreases texts.len(),
{
    if texts.len() == 0 {
        Seq::empty()
    } else {
        postings_of(texts.drop_last(), term) + newest_posting(
            (texts.len() - 1) as nat,
            texts.last(),
            term,
        )
    }
}

/// What document `doc` with the terms `text` adds to the postings of `term`.
pub open spec fn newest_posting(doc: nat, text: Seq<Seq<char>>, term: Seq<char>) -> Seq<
    PostingView,
> {
    if occurrences(text, term) > 0 {
        seq![PostingView { doc, tf: occurrences(text, term) }]
    } else {
        Seq::empty()
    }
}

/// The frequency that a postings list records for document `doc`: zero
/// where the list does not name it.
pub open spec fn recorded_tf(list: Seq<PostingView>, doc: nat) -> nat
    decreases list.len(),
{
    if list.len() == 0 {
        0
    } else if list.last().doc == doc {
        list.last().tf
    } else {
        recorded_tf(list.drop_last(), doc)
    }
}

/// A term occurs at most as often as the text is long.
pub proof fn lemma_occurrences_bound(ts: Seq<Seq<char>>, t: Seq<char>)
    ensures
        occurrences(ts, t) <= ts.len(),
    decreases ts.len(),
{
    if ts.len() > 0 {
        lemma_occurrences_bound(ts.drop_last(), t);
    }
}

/// A term occurs in a text exactly when it is one of its elements.
pub proof fn lemma_occurrences_positive(ts: Seq<Seq<char>>, t: Seq<char>)
    ensures
        occurrences(ts, t) > 0 <==> exists|k: int| 0 <= k < ts.len() && #[trigger] ts[k] == t,
    decreases ts.len(),
{
    if ts.len() > 0 {
        let front = ts.drop_last();
        lemma_occurrences_positive(front, t);
        if occurrences(ts, t) > 0 {
            if ts.last() == t {
                assert(ts[ts.len() - 1] == t);
            } else {
                let k = choose|k: int| 0 <= k < front.len() && #[trigger] front[k] == t;
                assert(ts[k] == t);
            }
        }
        if exists|k: int| 0 <= k < ts.len() && #[trigger] ts[k] == t {
            let k = choose|k: int| 0 <= k < ts.len() && #[trigger] ts[k] == t;
            if k < ts.len() - 1 {
                assert(front[k] == t);
            }
        }
    }
}

/// A postings list names documents in strictly ascending order, each within
/// the collection and each with a positive frequency.
pub proof fn lemma_postings_ascending(texts: Seq<Seq<Seq<char>>>, term: Seq<char>)
    ensures
        postings_of(texts, term).len() <= texts.len(),
        forall|j: int|
            0 <= j < postings_of(texts, term).len() ==> {
                &&& (#[trigger] postings_of(texts, term)[j]).doc < texts.len()
                &&& postings_of(texts, term)[j].tf > 0
            },
        forall|i: int, j: int|
            0 <= i < j < postings_of(texts, term).len() ==> (#[trigger] postings_of(
                texts,
                term,
            )[i]).doc < (#[trigger] postings_of(texts, term)[j]).doc,
    decreases texts.len(),
{
    if texts.len() > 0 {
        lemma_postings_ascending(texts.drop_last(), term);
    }
}

/// What a postings list records for a document is the number of times the
/// term occurs in it.
pub proof fn lemma_recorded_tf(texts: Seq<Seq<Seq<char>>>, term: Seq<char>, doc: nat)
    ensures
        recorded_tf(postings_of(texts, term), doc) == if doc < texts.len() {
            occurrences(texts[doc as int], term)
        } else {
            0
        },
    decreases texts.len(),
{
    if texts.len() > 0 {
        let front = texts.drop_last();
        let list = postings_of(texts, term);
        lemma_recorded_tf(front, term, doc);
        lemma_postings_ascending(front, term);
        if occurrences(texts.last(), term) > 0 {
            assert(list.drop_last() =~= postings_of(front, term));
            assert(list.last().doc == texts.len() - 1);
        } else {
            assert(list =~= postings_of(front, term));
        }
        if doc < texts.len() - 1 {
            assert(front[doc as int] == texts[doc as int]);
        }
    }
}

/// A term that no text holds has an empty postings list.
pub proof fn lemma_postings_of_absent_term(texts: Seq<Seq<Seq<char>>>, term: Seq<char>)
    requires
        forall|d: int, k: int|
            0 <= d < texts.len() && 0 <= k < texts[d].len() ==> #[trigger] texts[d][k] != term,
    ensures
        postings_of(texts, term).len() == 0,
    decreases texts.len(),
{
    if texts.len() > 0 {
        let front = texts.drop_last();
        assert forall|d: int, k: int| 0 <= d < front.len() && 0 <= k < front[d].len() implies
            #[trigger] front[d][k] != term by {
            assert(front[d][k] == texts[d][k]);
        }
        lemma_postings_of_absent_term(front, term);
        lemma_occurrences_positive(texts.last(), term);
        if occurrences(texts.last(), term) > 0 {
            let k = choose|k: int|
                0 <= k < texts.last().len() && #[trigger] texts.last()[k] == term;
            assert(texts[texts.len() - 1][k] == term);
        }
    }
}

/// A term of the dictionary with its postings list.
pub struct TermEntry {
    term: Vec<char>,
    postings: Vec<Posting>,
}

/// The dictionary has an entry for `t`.
spec fn has_entry(entries: Seq<TermEntry>, t: Seq<char>) -> bool {
    exists|i: int| 0 <= i < entries.len() && (#[trigger] entries[i]).term@ == t
}

/// The dictionary `entries` is the index of the documents `texts` and of the
/// terms `fresh` of one more document that is being added.
spec fn indexes(
    entries: Seq<TermEntry>,
    texts: Seq<Seq<Seq<char>>>,
    fresh: Seq<Seq<char>>,
) -> bool {
    &&& forall|i: int|
        0 <= i < entries.len() ==> {
            &&& postings_view((#[trigger] entries[i]).postings@) == postings_of(
                texts,
                entries[i].term@,
            ) + newest_posting(texts.len(), fresh, entries[i].term@)
            &&& entries[i].postings@.len() > 0
        }
    &&& forall|i: int, j: int|
        0 <= i < j < entries.len() ==> (#[trigger] entries[i]).term@ != (
        #[trigger] entries[j]).term@
    &&& forall|d: int, k: int|
        0 <= d < texts.len() && 0 <= k < texts[d].len() ==> has_entry(
            entries,
            #[trigger] texts[d][k],
        )
    &&& forall|k: int| 0 <= k < fresh.len() ==> has_entry(entries, #[trigger] fresh[k])
}

/// The modulus of the term hash, a prime below 2^32.
const HASH_MODULUS: u64 = 4294967291;

/// The hash of a term: its characters as the digits of a number to the
/// base 31, reduced by the modulus at every step.
spec fn term_hash(t: Seq<char>) -> nat
    decreases t.len(),
{
    if t.len() == 0 {
        0
    } else {
        (term_hash(t.drop_last()) * 31 + (t.last() as u32) as nat) % (HASH_MODULUS as nat)
    }
}

/// The slot that a term falls into, of `slots` slots.
spec fn slot_of(t: Seq<char>, slots: nat) -> int {
    (term_hash(t) % slots) as int
}

/// The slots find every entry: each slot names entries only, and every
/// entry is named in the slot that its term falls into.
spec fn registered(entries: Seq<TermEntry>, slots: Seq<Vec<usize>>) -> bool {
    &&& slots.len() > 0
    &&& forall|i: int|
        0 <= i < entries.len() ==> slots[slot_of(
            (#[trigger] entries[i]).term@,
            slots.len(),
        )]@.contains(i as usize)
    &&& forall|b: int, k: int|
        0 <= b < slots.len() && 0 <= k < slots[b]@.len() ==> (#[trigger] slots[b]@[k])
            < entries.len()
}

/// The hash of a term.
fn hash_term(t: &Vec<char>) -> (h: u64)
    ensures
        h == term_hash(t@),
        h < HASH_MODULUS,
{
    let mut h: u64 = 0;
    let mut i: usize = 0;
    assert(t@.take(0) =~= Seq::<char>::empty());
    while i < t.len()
        invariant
            i <= t.len(),
            h == term_hash(t@.take(i as int)),
            h < HASH_MODULUS,
        decreases t.len() - i,
    {
        proof {
            assert(t@.take(i as int + 1).drop_last() =~= t@.take(i as int));
            assert(t@.take(i as int + 1).last() == t@[i as int]);
        }
        h = (h * 31 + (t[i] as u32) as u64) % HASH_MODULUS;
        i = i + 1;
    }
    assert(t@.take(t.len() as int) =~= t@);
    h
}

/// `slots` empty slots.
fn empty_slots(slots: usize) -> (v: Vec<Vec<usize>>)
    ensures
        v.len() == slots,
        forall|b: int| 0 <= b < slots ==> (#[trigger] v[b])@.len() == 0,
{
    let mut v: Vec<Vec<usize>> = Vec::new();
    let mut b: usize = 0;
    while b < slots
        invariant
            b <= slots,
            v.len() == b,
            forall|k: int| 0 <= k < b ==> (#[trigger] v[k])@.len() == 0,
        decreases slots - b,
    {
        v.push(Vec::new());
        b = b + 1;
    }
    v
}

/// Naming a new entry in the slot of its term keeps every entry findable.
proof fn lemma_registered_push(
    entries: Seq<TermEntry>,
    entry: TermEntry,
    slots: Seq<Vec<usize>>,
    grown: Seq<Vec<usize>>,
)
    requires
        registered(entries, slots),
        entries.len() < usize::MAX,
        grown.len() == slots.len(),
        forall|b: int|
            0 <= b < slots.len() ==> (#[trigger] grown[b])@ == if b == slot_of(
                entry.term@,
                slots.len(),
            ) {
                slots[b]@.push(entries.len() as usize)
            } else {
                slots[b]@
            },
    ensures
        registered(entries.push(entry), grown),
{
    let all = entries.push(entry);
    let home = slot_of(entry.term@, slots.len());
    assert(0 <= home < slots.len()) by (nonlinear_arith)
        requires
            home == (term_hash(entry.term@) % slots.len()) as int,
            slots.len() > 0,
    ;
    assert forall|i: int| 0 <= i < all.len() implies grown[slot_of(
        (#[trigger] all[i]).term@,
        grown.len(),
    )]@.contains(i as usize) by {
        let at = slot_of(all[i].term@, grown.len());
        assert(0 <= at < slots.len()) by (nonlinear_arith)
            requires
                at == (term_hash(all[i].term@) % slots.len()) as int,
                slots.len() > 0,
        ;
        if i < entries.len() {
            assert(all[i] == entries[i]);
            let w = choose|w: int| 0 <= w < slots[at]@.len() && slots[at]@[w] == i as usize;
            assert(grown[at]@[w] == i as usize);
        } else {
            assert(grown[at]@[slots[at]@.len() as int] == i as usize);
        }
    }
    assert forall|b: int, k: int| 0 <= b < grown.len() && 0 <= k < grown[b]@.len() implies (
    #[trigger] grown[b]@[k]) < all.len() by {
        if k < slots[b]@.len() {
            assert(grown[b]@[k] == slots[b]@[k]);
        }
    }
}

/// Entries that keep their terms stay findable.
proof fn lemma_registered_same_terms(
    entries: Seq<TermEntry>,
    changed: Seq<TermEntry>,
    slots: Seq<Vec<usize>>,
)
    requires
        registered(entries, slots),
        changed.len() == entries.len(),
        forall|i: int| 0 <= i < entries.len() ==> (#[trigger] changed[i]).term@ == entries[i].term@,
    ensures
        registered(changed, slots),
{
    assert forall|i: int| 0 <= i < changed.len() implies slots[slot_of(
        (#[trigger] changed[i]).term@,
        slots.len(),
    )]@.contains(i as usize) by {
        assert(changed[i].term@ == entries[i].term@);
    }
}

/// Names entry `idx`, whose term has the hash `h`, in its slot.
fn register(slots: &mut Vec<Vec<usize>>, h: u64, idx: usize)
    requires
        old(slots).len() > 0,
    ensures
        final(slots).len() == old(slots).len(),
        forall|b: int|
            0 <= b < old(slots).len() ==> (#[trigger] final(slots)[b])@ == if b == (h as nat % old(
                slots,
            ).len() as nat) as int {
                old(slots)[b]@.push(idx)
            } else {
                old(slots)[b]@
            },
{
    let b: usize = (h % slots.len() as u64) as usize;
    slots[b].push(idx);
}

/// Slots for `entries`, `slots` of them.
fn register_all(entries: &Vec<TermEntry>, slots: usize) -> (v: Vec<Vec<usize>>)
    requires
        slots > 0,
    ensures
        v.len() == slots,
        registered(entries@, v@),
{
    let mut v = empty_slots(slots);
    let mut i: usize = 0;
    while i < entries.len()
        invariant
            i <= entries.len(),
            v.len() == slots,
            slots > 0,
            registered(entries@.take(i as int), v@),
        decreases entries.len() - i,
    {
        let h: u64 = hash_term(&entries[i].term);
        let ghost before = v@;
        register(&mut v, h, i);
        proof {
            lemma_registered_push(entries@.take(i as int), entries[i as int], before, v@);
            assert(entries@.take(i as int).push(entries[i as int]) =~= entries@.take(i as int + 1));
        }
        i = i + 1;
    }
    assert(entries@.take(entries.len() as int) =~= entries@);
    v
}

/// The inverted index over the texts of one field.
pub struct TermIndex {
    entries: Vec<TermEntry>,
    slots: Vec<Vec<usize>>,
    count: usize,
    texts: Ghost<Seq<Seq<Seq<char>>>>,
}

impl TermIndex {
    /// The terms of every document indexed so far, by document id.
    pub closed spec fn texts(&self) -> Seq<Seq<Seq<char>>> {
        self.texts@
    }

    /// Every postings list is the one that the texts call for, and every
    /// term of the texts has one.
    pub closed spec fn wf(&self) -> bool {
        &&& indexes(self.entries@, self.texts@, Seq::empty())
        &&& registered(self.entries@, self.slots@)
        &&& self.count == self.texts@.len()
    }

    /// An index over no documents.
    pub fn new() -> (index: Self)
        ensures
            index.wf(),
            index.texts() == Seq::<Seq<Seq<char>>>::empty(),
    {
        let entries: Vec<TermEntry> = Vec::new();
        let slots = register_all(&entries, 1024);
        TermIndex { entries, slots, count: 0, texts: Ghost(Seq::empty()) }
    }

    /// The number of documents indexed.
    pub fn len(&self) -> (n: usize)
        requires
            self.wf(),
        ensures
            n == self.texts().len(),
    {
        self.count
    }

    /// Where the entry of `term` stands, if the dictionary has one.
    fn find(&self, term: &Vec<char>) -> (r: Option<usize>)
        requires
            registered(self.entries@, self.slots@),
        ensures
            match r {
                Some(i) => i < self.entries.len() && self.entries[i as int].term@ == term@,
                None => !has_entry(self.entries@, term@),
            },
    {
        let h: u64 = hash_term(term);
        let b: usize = (h % self.slots.len() as u64) as usize;
        let slot = &self.slots[b];
        let mut k: usize = 0;
        while k < slot.len()
            invariant
                k <= slot.len(),
                slot == self.slots[b as int],
                b == slot_of(term@, self.slots.len() as nat),
                registered(self.entries@, self.slots@),
                forall|w: int|
                    0 <= w < k ==> self.entries[(#[trigger] slot@[w]) as int].term@ != term@,
            decreases slot.len() - k,
        {
            let i: usize = slot[k];
            if same_term(&self.entries[i].term, term) {
                return Some(i);
            }
            k = k + 1;
        }
        proof {
            if has_entry(self.entries@, term@) {
                let i = choose|i: int|
                    0 <= i < self.entries.len() && (#[trigger] self.entries[i]).term@ == term@;
                assert(slot@.contains(i as usize));
                let w = choose|w: int| 0 <= w < slot@.len() && slot@[w] == i as usize;
                assert(self.entries[slot@[w] as int].term@ != term@);
            }
        }
        None
    }

    /// The postings list of `term`, or `None` where no document holds it.
    pub fn postings(&self, term: &Vec<char>) -> (r: Option<&Vec<Posting>>)
        requires
            self.wf(),
        ensures
            match r {
                Some(list) => list@.len() > 0 && postings_view(list@) == postings_of(
                    self.texts(),
                    term@,
                ),
                None => postings_of(self.texts(), term@).len() == 0,
            },
    {
        match self.find(term) {
            Some(i) => {
                assert(postings_of(self.texts@, term@) + newest_posting(
                    self.texts@.len(),
                    Seq::empty(),
                    term@,
                ) =~= postings_of(self.texts@, term@));
                Some(&self.entries[i].postings)
            },
            None => {
                proof {
                    let texts = self.texts@;
                    assert forall|d: int, k: int|
                        0 <= d < texts.len() && 0 <= k < texts[d].len() implies
                        #[trigger] texts[d][k] != term@ by {
                        assert(has_entry(self.entries@, texts[d][k]));
                    }
                    lemma_postings_of_absent_term(texts, term@);
                }
                None
            },
        }
    }

    /// Indexes one more document, whose text has the terms `tokens`. It gets
    /// the next free document id.
    pub fn add_text(&mut self, tokens: &Vec<Vec<char>>)
        requires
            old(self).wf(),
            old(self).texts().len() < usize::MAX,
        ensures
            final(self).wf(),
            final(self).texts() == old(self).texts().push(terms_view(tokens@)),
    {
        let doc: usize = self.count;
        let ghost texts = self.texts@;
        let ghost toks = terms_view(tokens@);
        let mut j: usize = 0;
        assert(toks.take(0) =~= Seq::<Seq<char>>::empty());
        while j < tokens.len()
            invariant
                j <= tokens.len(),
                doc == texts.len(),
                toks == terms_view(tokens@),
                indexes(self.entries@, texts, toks.take(j as int)),
                registered(self.entries@, self.slots@),
            decreases tokens.len() - j,
        {
            let ghost seen = toks.take(j as int);
            let ghost next = toks.take(j as int + 1);
            let ghost t = tokens[j as int]@;
            let ghost before = self.entries@;
            proof {
                assert(next.drop_last() =~= seen);
                assert(next.last() == t);
                lemma_occurrences_bound(seen, t);
                lemma_occurrences_positive(seen, t);
                lemma_postings_ascending(texts, t);
            }
            match self.find(&tokens[j]) {
                Some(i) => {
                    let last: usize = self.entries[i].postings.len() - 1;
                    let ghost list = self.entries[i as int].postings@;
                    let ghost known = postings_of(texts, t);
                    proof {
                        let lv = postings_view(list);
                        assert(lv == known + newest_posting(texts.len(), seen, t));
                        assert(lv[last as int] == list[last as int]@);
                        if occurrences(seen, t) > 0 {
                            assert(lv.len() == known.len() + 1);
                            assert(lv[last as int] == PostingView {
                                doc: texts.len(),
                                tf: occurrences(seen, t),
                            });
                        } else {
                            assert(lv.len() == known.len());
                            assert(lv[last as int] == known[last as int]);
                        }
                    }
                    if self.entries[i].postings[last].doc == doc {
                        let tf: usize = self.entries[i].postings[last].tf;
                        self.entries[i].postings[last] = Posting { doc, tf: tf + 1 };
                    } else {
                        self.entries[i].postings.push(Posting { doc, tf: 1 });
                    }
                    proof {
                        let after = self.entries@;
                        lemma_registered_same_terms(before, after, self.slots@);
                        let now = postings_view(after[i as int].postings@);
                        let want = known + newest_posting(texts.len(), next, t);
                        assert(occurrences(next, t) == occurrences(seen, t) + 1);
                        assert(now.len() == want.len());
                        assert forall|k: int| 0 <= k < now.len() implies now[k] == want[k] by {
                            if k < last {
                                assert(now[k] == postings_view(list)[k]);
                            }
                        }
                        assert(now =~= want);
                        assert forall|k: int| 0 <= k < after.len() implies {
                            &&& postings_view((#[trigger] after[k]).postings@) == postings_of(
                                texts,
                                after[k].term@,
                            ) + newest_posting(texts.len(), next, after[k].term@)
                            &&& after[k].postings@.len() > 0
                        } by {
                            if k != i {
                                assert(after[k] == before[k]);
                                assert(before[k].term@ != t);
                            }
                        }
                        assert forall|u: Seq<char>| has_entry(before, u) implies has_entry(
                            after,
                            u,
                        ) by {
                            let w = choose|w: int|
                                0 <= w < before.len() && (#[trigger] before[w]).term@ == u;
                            assert(after[w].term@ == u);
                        }
                        assert(has_entry(after, t)) by {
                            assert(after[i as int].term@ == t);
                        }
                        assert forall|k: int| 0 <= k < next.len() implies has_entry(
                            after,
                            #[trigger] next[k],
                        ) by {
                            if k < seen.len() {
                                assert(next[k] == seen[k]);
                            }
                        }
                    }
                },
                None => {
                    let term = copy_term(&tokens[j]);
                    let mut postings: Vec<Posting> = Vec::new();
                    postings.push(Posting { doc, tf: 1 });
                    proof {
                        assert forall|d: int, k: int|
                            0 <= d < texts.len() && 0 <= k < texts[d].len() implies
                            #[trigger] texts[d][k] != t by {
                            assert(has_entry(before, texts[d][k]));
                        }
                        lemma_postings_of_absent_term(texts, t);
                        assert forall|k: int| 0 <= k < seen.len() implies #[trigger] seen[k]
                            != t by {
                            assert(has_entry(before, seen[k]));
                        }
                        assert(postings_view(postings@) =~= postings_of(texts, t) + newest_posting(
                            texts.len(),
                            next,
                            t,
                        ));
                    }
                    let h: u64 = hash_term(&term);
                    let idx: usize = self.entries.len();
                    let ghost slots_before = self.slots@;
                    self.entries.push(TermEntry { term, postings });
                    let total: usize = self.entries.len();
                    register(&mut self.slots, h, idx);
                    proof {
                        lemma_registered_push(
                            before,
                            self.entries@[idx as int],
                            slots_before,
                            self.slots@,
                        );
                        assert(before.push(self.entries@[idx as int]) =~= self.entries@);
                    }
                    if total / 2 > self.slots.len() && self.slots.len() <= usize::MAX / 2 {
                        let wider: usize = self.slots.len() * 2;
                        self.slots = register_all(&self.entries, wider);
                    }
                    proof {
                        let after = self.entries@;
                        assert forall|k: int| 0 <= k < after.len() implies {
                            &&& postings_view((#[trigger] after[k]).postings@) == postings_of(
                                texts,
                                after[k].term@,
                            ) + newest_posting(texts.len(), next, after[k].term@)
                            &&& after[k].postings@.len() > 0
                        } by {
                            if k < before.len() {
                                assert(after[k] == before[k]);
                                assert(before[k].term@ != t);
                            }
                        }
                        assert forall|a: int, b: int| 0 <= a < b < after.len() implies (
                        #[trigger] after[a]).term@ != (#[trigger] after[b]).term@ by {
                            assert(after[a] == before[a]);
                            if b < before.len() {
                                assert(after[b] == before[b]);
                            }
                        }
                        assert forall|u: Seq<char>| has_entry(before, u) implies has_entry(
                            after,
                            u,
                        ) by {
                            let w = choose|w: int|
                                0 <= w < before.len() && (#[trigger] before[w]).term@ == u;
                            assert(after[w].term@ == u);
                        }
                        assert(has_entry(after, t)) by {
                            assert(after[before.len() as int].term@ == t);
                        }
                        assert forall|k: int| 0 <= k < next.len() implies has_entry(
                            after,
                            #[trigger] next[k],
                        ) by {
                            if k < seen.len() {
                                assert(next[k] == seen[k]);
                            }
                        }
                    }
                },
            }
            j = j + 1;
        }
        proof {
            assert(toks.take(tokens.len() as int) =~= toks);
            let grown = texts.push(toks);
            let entries = self.entries@;
            assert(grown.drop_last() =~= texts);
            assert forall|i: int| 0 <= i < entries.len() implies {
                &&& postings_view((#[trigger] entries[i]).postings@) == postings_of(
                    grown,
                    entries[i].term@,
                ) + newest_posting(grown.len(), Seq::empty(), entries[i].term@)
                &&& entries[i].postings@.len() > 0
            } by {
                let u = entries[i].term@;
                assert(postings_of(grown, u) + newest_posting(grown.len(), Seq::empty(), u)
                    =~= postings_of(texts, u) + newest_posting(texts.len(), toks, u));
            }
            assert forall|d: int, k: int|
                0 <= d < grown.len() && 0 <= k < grown[d].len() implies has_entry(
                entries,
                #[trigger] grown[d][k],
            ) by {
                if d < texts.len() {
                    assert(grown[d][k] == texts[d][k]);
                } else {
                    assert(grown[d][k] == toks[k]);
                }
            }
        }
        self.count = doc + 1;
        self.texts = Ghost(texts.push(toks));
    }
}

} // verus!
