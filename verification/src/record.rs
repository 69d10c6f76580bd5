//! Turns one line of a log into a structured record, or rejects it.

use crate::text::{
    char_is_digit, find_char, find_from, has_space, is_digit, range_has_space, to_chars,
};
use vstd::prelude::*;

verus! {

/// One utterance: when it was said, by whom, and what.
#[derive(Clone, Debug, PartialEq, Eq)]
pub struct LogRecord {
    pub timestamp: String,
    pub speaker: String,
    pub message: String,
}

/// The characters of a record's three fields.
pub struct RecordView {
    pub timestamp: Seq<char>,
    pub speaker: Seq<char>,
    pub message: Seq<char>,
}

impl View for LogRecord {
    type V = RecordView;

    open spec fn view(&self) -> RecordView {
        RecordView {
            timestamp: self.timestamp@,
            speaker: self.speaker@,
            message: self.message@,
        }
    }
}

/// The three parts that a message line is made of.
pub struct Captures {
    pub time: Seq<char>,
    pub speaker: Seq<char>,
    pub message: Seq<char>,
}

/// The status marks that may stand in front of the time.
pub open spec fn is_status_prefix(c: char) -> bool {
    c == '+' || c == '@' || c == '&'
}

/// Where the time begins: behind the status mark, if the line opens with one.
pub open spec fn time_start(line: Seq<char>) -> int {
    if line.len() > 0 && is_status_prefix(line[0]) {
        1
    } else {
        0
    }
}

/// `HH:MM` and a space stand at `p`.
pub open spec fn has_time_at(line: Seq<char>, p: int) -> bool {
    &&& 0 <= p
    &&& p + 6 <= line.len()
    &&& is_digit(line[p])
    &&& is_digit(line[p + 1])
    &&& line[p + 2] == ':'
    &&& is_digit(line[p + 3])
    &&& is_digit(line[p + 4])
    &&& line[p + 5] == ' '
}

/// The parts of a line of the recognized shape: an optional status mark,
/// `HH:MM`, a space, a speaker (a non-empty run without `>`), `>`, a space,
/// and the rest of the line as the message, which is not empty. `None` for
/// any other line.
pub open spec fn captures(line: Seq<char>) -> Option<Captures> {
    let p = time_start(line);
    let s = p + 6;
    let g = find_from(line, '>', s);
    if has_time_at(line, p) && s < g && g + 2 < line.len() && line[g + 1] == ' ' {
        Some(
            Captures {
                time: line.subrange(p, p + 5),
                speaker: line.subrange(s, g),
                message: line.subrange(g + 2, line.len() as int),
            },
        )
    } else {
        None
    }
}

/// The record that a line found in the log of day `date` stands for, if it
/// is a message line whose speaker holds no white space.
pub open spec fn record_of(line: Seq<char>, date: Seq<char>) -> Option<RecordView> {
    match captures(line) {
        Some(c) => if has_space(c.speaker) {
            None
        } else {
            Some(
                RecordView {
                    timestamp: date + seq![' '] + c.time,
                    speaker: c.speaker,
                    message: c.message,
                },
            )
        },
        None => None,
    }
}

/// Five characters that read `HH:MM`.
pub open spec fn is_time(t: Seq<char>) -> bool {
    &&& t.len() == 5
    &&& is_digit(t[0])
    &&& is_digit(t[1])
    &&& t[2] == ':'
    &&& is_digit(t[3])
    &&& is_digit(t[4])
}

/// A line put together from a time, a speaker and a message is taken apart
/// into exactly these three, with or without a status mark in front.
pub proof fn lemma_captures_of_message_line(
    mark: Seq<char>,
    time: Seq<char>,
    speaker: Seq<char>,
    message: Seq<char>,
)
    requires
        mark.len() == 0 || (mark.len() == 1 && is_status_prefix(mark[0])),
        is_time(time),
        speaker.len() > 0,
        forall|i: int| 0 <= i < speaker.len() ==> speaker[i] != '>',
        message.len() > 0,
    ensures
        captures(mark + time + seq![' '] + speaker + seq!['>', ' '] + message) == Some(
            Captures { time, speaker, message },
        ),
{
    let line = mark + time + seq![' '] + speaker + seq!['>', ' '] + message;
    let p = mark.len() as int;
    let s = p + 6;
    let g = s + speaker.len();
    assert(line.len() == g + 2 + message.len());
    assert(line[0] == if p == 1 { mark[0] } else { time[0] });
    assert(time_start(line) == p);
    assert forall|i: int| 0 <= i < 5 implies line[p + i] == time[i] by {}
    assert(line[p + 5] == ' ');
    assert forall|i: int| s <= i < g implies #[trigger] line[i] != '>' by {
        assert(line[i] == speaker[i - s]);
    }
    assert(line[g] == '>');
    assert(line[g + 1] == ' ');
    lemma_find_is(line, '>', s, g);
    assert(line.subrange(p, p + 5) =~= time);
    assert(line.subrange(s, g) =~= speaker);
    assert(line.subrange(g + 2, line.len() as int) =~= message);
}

/// Extraction is a round trip: a message line whose speaker holds no white
/// space gives back the parts it was put together from, the time behind the
/// date and a space.
pub proof fn lemma_record_of_message_line(
    mark: Seq<char>,
    time: Seq<char>,
    speaker: Seq<char>,
    message: Seq<char>,
    date: Seq<char>,
)
    requires
        mark.len() == 0 || (mark.len() == 1 && is_status_prefix(mark[0])),
        is_time(time),
        speaker.len() > 0,
        forall|i: int| 0 <= i < speaker.len() ==> speaker[i] != '>',
        !has_space(speaker),
        message.len() > 0,
    ensures
        record_of(mark + time + seq![' '] + speaker + seq!['>', ' '] + message, date) == Some(
            RecordView { timestamp: date + seq![' '] + time, speaker, message },
        ),
{
    lemma_captures_of_message_line(mark, time, speaker, message);
}

/// A line that is no message line, and one whose speaker holds white space,
/// gives no record.
pub proof fn lemma_no_record(line: Seq<char>, date: Seq<char>)
    requires
        captures(line) is None || has_space(captures(line)->0.speaker),
    ensures
        record_of(line, date) is None,
{
}

/// The first occurrence at or after `from` is at `at` when `c` stands there
/// and nowhere between.
pub proof fn lemma_find_is(s: Seq<char>, c: char, from: int, at: int)
    requires
        0 <= from <= at < s.len(),
        s[at] == c,
        forall|i: int| from <= i < at ==> #[trigger] s[i] != c,
    ensures
        find_from(s, c, from) == at,
    decreases at - from,
{
    if from < at {
        lemma_find_is(s, c, from + 1, at);
    }
}

/// Extracts the record of one line of the log of day `date`.
///
/// A line of the recognized shape whose speaker holds no white space gives
/// its three captured parts back unchanged, the time behind the date and a
/// space. Every other line gives `None`.
pub fn extract_record(line: &str, date: &str) -> (r: Option<LogRecord>)
    ensures
        match captures(line@) {
            Some(c) => if has_space(c.speaker) {
                r is None
            } else {
                &&& r is Some
                &&& r->0@.timestamp == date@ + seq![' '] + c.time
                &&& r->0@.speaker == c.speaker
                &&& r->0@.message == c.message
            },
            None => r is None,
        },
        r is Some <==> record_of(line@, date@) is Some,
        r is Some ==> r->0@ == record_of(line@, date@)->0,
{
    let chars = to_chars(line);
    let n: usize = chars.len();
    let p: usize = if n > 0 && (chars[0] == '+' || chars[0] == '@' || chars[0] == '&') {
        1
    } else {
        0
    };
    if n < 6 || p > n - 6 {
        return None;
    }
    if !(char_is_digit(chars[p]) && char_is_digit(chars[p + 1]) && chars[p + 2] == ':'
        && char_is_digit(chars[p + 3]) && char_is_digit(chars[p + 4]) && chars[p + 5] == ' ') {
        return None;
    }
    let s: usize = p + 6;
    let g: usize = find_char(&chars, '>', s);
    if g <= s || n < 3 || g >= n - 2 || chars[g + 1] != ' ' {
        return None;
    }
    if range_has_space(&chars, s, g) {
        return None;
    }
    let mut timestamp = String::from_str(date);
    timestamp.append(" ");
    timestamp.append(line.substring_char(p, p + 5));
    let speaker = String::from_str(line.substring_char(s, g));
    let message = String::from_str(line.substring_char(g + 2, n));
    proof {
        reveal_strlit(" ");
        assert(" "@ =~= seq![' ']);
    }
    Some(LogRecord { timestamp, speaker, message })
}

} // verus!
