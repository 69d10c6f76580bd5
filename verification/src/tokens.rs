//! Splits text into the terms under which it is indexed and searched.

use vstd::prelude::*;

verus! {

/// The characters that terms are made of: ASCII letters and digits. Every
/// other character separates terms.
pub open spec fn is_term_char(c: char) -> bool {
    ('a' <= c <= 'z') || ('A' <= c <= 'Z') || ('0' <= c <= '9')
}

/// An ASCII capital letter as its small letter; any other character unchanged.
pub open spec fn fold_case(c: char) -> char {
    if 'A' <= c <= 'Z' {
        ((c as u8) + 32) as char
    } else {
        c
    }
}

/// `s` with every character case-folded.
pub open spec fn fold_all(s: Seq<char>) -> Seq<char> {
    Seq::new(s.len(), |i: int| fold_case(s[i]))
}

/// Where the run of term characters that begins at `from` ends.
pub open spec fn run_end(s: Seq<char>, from: int) -> int
    decreases s.len() - from,
{
    if from < 0 || from >= s.len() || !is_term_char(s[from]) {
        from
    } else {
        run_end(s, from + 1)
    }
}

/// The terms of `s[from..]`, in order of appearance.
pub open spec fn terms_from(s: Seq<char>, from: int) -> Seq<Seq<char>>
    decreases s.len() - from,
{
    if from < 0 || from >= s.len() {
        Seq::empty()
    } else if !is_term_char(s[from]) {
        terms_from(s, from + 1)
    } else {
        proof {
            lemma_run_end(s, from);
        }
        seq![fold_all(s.subrange(from, run_end(s, from)))] + terms_from(s, run_end(s, from))
    }
}

/// The terms of a text: its maximal runs of ASCII letters and digits, each
/// case-folded, in order of appearance.
pub open spec fn terms(s: Seq<char>) -> Seq<Seq<char>> {
    terms_from(s, 0)
}

/// How often `t` occurs in `ts`.
pub open spec fn occurrences(ts: Seq<Seq<char>>, t: Seq<char>) -> nat
    decreases ts.len(),
{
    if ts.len() == 0 {
        0
    } else {
        occurrences(ts.drop_last(), t) + if ts.last() == t {
            1nat
        } else {
            0nat
        }
    }
}

/// The character sequences that a vector of terms holds.
pub open spec fn terms_view(v: Seq<Vec<char>>) -> Seq<Seq<char>> {
    Seq::new(v.len(), |i: int| v[i]@)
}

/// A run ends within the text, behind its start.
pub proof fn lemma_run_end(s: Seq<char>, from: int)
    requires
        0 <= from <= s.len(),
    ensures
        from <= run_end(s, from) <= s.len(),
        from < s.len() && is_term_char(s[from]) ==> from < run_end(s, from),
        forall|i: int| from <= i < run_end(s, from) ==> is_term_char(#[trigger] s[i]),
        run_end(s, from) < s.len() ==> !is_term_char(s[run_end(s, from)]),
    decreases s.len() - from,
{
    if from < s.len() && is_term_char(s[from]) {
        lemma_run_end(s, from + 1);
    }
}

/// A character as terms hold it: a small ASCII letter or a digit.
pub open spec fn is_folded_term_char(c: char) -> bool {
    ('a' <= c <= 'z') || ('0' <= c <= '9')
}

/// A non-empty run of small ASCII letters and digits.
pub open spec fn is_folded_term(t: Seq<char>) -> bool {
    t.len() > 0 && forall|i: int| 0 <= i < t.len() ==> is_folded_term_char(#[trigger] t[i])
}

/// Every term of a text is a non-empty run of small ASCII letters and digits.
pub proof fn lemma_terms_are_folded(s: Seq<char>, from: int)
    requires
        0 <= from <= s.len(),
    ensures
        forall|k: int|
            0 <= k < terms_from(s, from).len() ==> is_folded_term(
                #[trigger] terms_from(s, from)[k],
            ),
    decreases s.len() - from,
{
    if from < s.len() {
        if !is_term_char(s[from]) {
            lemma_terms_are_folded(s, from + 1);
            assert(terms_from(s, from) == terms_from(s, from + 1));
        } else {
            lemma_run_end(s, from);
            let end = run_end(s, from);
            assert(terms_from(s, from) == seq![fold_all(s.subrange(from, end))] + terms_from(
                s,
                end,
            ));
            let first = fold_all(s.subrange(from, end));
            lemma_terms_are_folded(s, end);
            assert forall|k: int| 0 <= k < terms_from(s, from).len() implies is_folded_term(
                #[trigger] terms_from(s, from)[k],
            ) by {
                let t = terms_from(s, from)[k];
                if k == 0 {
                    assert(t == first);
                    assert forall|i: int| 0 <= i < t.len() implies is_folded_term_char(
                        #[trigger] t[i],
                    ) by {
                        assert(is_term_char(s[from + i]));
                        assert(t[i] == fold_case(s.subrange(from, end)[i]));
                    }
                } else {
                    assert(t == terms_from(s, end)[k - 1]);
                }
            }
        }
    } else {
        assert(terms_from(s, from).len() == 0);
    }
}

/// The exec form of `is_term_char`.
pub fn char_is_term(c: char) -> (r: bool)
    ensures
        r == is_term_char(c),
{
    ('a' <= c && c <= 'z') || ('A' <= c && c <= 'Z') || ('0' <= c && c <= '9')
}

/// The exec form of `fold_case`.
pub fn char_fold(c: char) -> (r: char)
    ensures
        r == fold_case(c),
{
    if 'A' <= c && c <= 'Z' {
        ((c as u8) + 32) as char
    } else {
        c
    }
}

/// The terms of `chars[from..to]`, where `to` is the end of the text or
/// stands on a separator.
pub fn tokenize_range(chars: &Vec<char>, from: usize, to: usize) -> (out: Vec<Vec<char>>)
    requires
        from <= to <= chars.len(),
    ensures
        terms_view(out@) == terms(chars@.subrange(from as int, to as int)),
{
    let ghost s = chars@.subrange(from as int, to as int);
    let mut out: Vec<Vec<char>> = Vec::new();
    let mut i: usize = from;
    assert(terms_view(out@) =~= Seq::<Seq<char>>::empty());
    while i < to
        invariant
            from <= i <= to <= chars.len(),
            s == chars@.subrange(from as int, to as int),
            terms(s) == terms_view(out@) + terms_from(s, i - from),
        decreases to - i,
    {
        if !char_is_term(chars[i]) {
            i = i + 1;
        } else {
            let mut term: Vec<char> = Vec::new();
            let start: usize = i;
            proof {
                lemma_run_end(s, start - from);
            }
            while i < to && char_is_term(chars[i])
                invariant
                    from <= start <= i <= to <= chars.len(),
                    s == chars@.subrange(from as int, to as int),
                    run_end(s, start - from) == run_end(s, i - from),
                    term@ == fold_all(s.subrange(start - from, i - from)),
                decreases to - i,
            {
                term.push(char_fold(chars[i]));
                i = i + 1;
                assert(term@ =~= fold_all(s.subrange(start - from, i - from)));
            }
            assert(i - from == run_end(s, start - from));
            let ghost before = terms_view(out@);
            out.push(term);
            assert(terms_view(out@) =~= before + seq![term@]);
            assert(terms_from(s, start - from) == seq![term@] + terms_from(s, i - from));
            assert(terms(s) =~= terms_view(out@) + terms_from(s, i - from));
        }
    }
    assert(terms_from(s, to - from) =~= Seq::<Seq<char>>::empty());
    out
}

/// The terms of a text.
pub fn tokenize(text: &str) -> (out: Vec<Vec<char>>)
    ensures
        terms_view(out@) == terms(text@),
{
    let chars = crate::text::to_chars(text);
    assert(chars@.subrange(0, chars@.len() as int) =~= chars@);
    tokenize_range(&chars, 0, chars.len())
}

/// Whether two terms hold the same characters.
pub fn same_term(a: &Vec<char>, b: &Vec<char>) -> (r: bool)
    ensures
        r == (a@ == b@),
{
    if a.len() != b.len() {
        return false;
    }
    let mut i: usize = 0;
    while i < a.len()
        invariant
            i <= a.len(),
            a.len() == b.len(),
            forall|k: int| 0 <= k < i ==> a@[k] == b@[k],
        decreases a.len() - i,
    {
        if a[i] != b[i] {
            return false;
        }
        i = i + 1;
    }
    assert(a@ =~= b@);
    true
}

/// A copy of a term.
pub fn copy_term(t: &Vec<char>) -> (r: Vec<char>)
    ensures
        r@ == t@,
{
    let mut r: Vec<char> = Vec::new();
    let mut i: usize = 0;
    while i < t.len()
        invariant
            i <= t.len(),
            r@ == t@.take(i as int),
        decreases t.len() - i,
    {
        r.push(t[i]);
        i = i + 1;
        assert(r@ =~= t@.take(i as int));
    }
    assert(t@.take(t.len() as int) =~= t@);
    r
}

} // verus!
