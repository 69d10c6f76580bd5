use irc_index::record::{extract_record, LogRecord};

fn record(timestamp: &str, speaker: &str, message: &str) -> LogRecord {
    LogRecord {
        timestamp: timestamp.to_string(),
        speaker: speaker.to_string(),
        message: message.to_string(),
    }
}

#[test]
fn message_line_gives_its_three_parts() {
    assert_eq!(
        extract_record("12:34 <alice> hello world", "2020-01-01"),
        Some(record("2020-01-01 12:34", "<alice", "hello world"))
    );
}

#[test]
fn timestamp_is_date_space_time() {
    let r = extract_record("23:59 bob> x", "1999-12-31").unwrap();
    assert_eq!(r.timestamp, "1999-12-31 23:59");
    let r = extract_record("00:00 bob> x", "").unwrap();
    assert_eq!(r.timestamp, " 00:00");
}

#[test]
fn date_is_not_validated() {
    let r = extract_record("99:99 bob> x", "not a date").unwrap();
    assert_eq!(r.timestamp, "not a date 99:99");
}

#[test]
fn status_mark_in_front_of_the_time_is_skipped() {
    assert_eq!(
        extract_record("@09:05 bob> hi", "2021-12-31"),
        Some(record("2021-12-31 09:05", "bob", "hi"))
    );
    assert_eq!(extract_record("+09:05 bob> hi", "d"), Some(record("d 09:05", "bob", "hi")));
    assert_eq!(extract_record("&09:05 bob> hi", "d"), Some(record("d 09:05", "bob", "hi")));
}

#[test]
fn other_characters_in_front_of_the_time_are_no_status_mark() {
    assert_eq!(extract_record("#09:05 bob> hi", "d"), None);
    assert_eq!(extract_record(" 09:05 bob> hi", "d"), None);
    assert_eq!(extract_record("++09:05 bob> hi", "d"), None);
}

#[test]
fn message_keeps_everything_behind_the_first_separator() {
    assert_eq!(
        extract_record("12:34 bob> a > b > c  ", "d"),
        Some(record("d 12:34", "bob", "a > b > c  "))
    );
    assert_eq!(
        extract_record("12:34 bob> h\u{e9}llo \u{4e16}\u{754c}", "d"),
        Some(record("d 12:34", "bob", "h\u{e9}llo \u{4e16}\u{754c}"))
    );
}

#[test]
fn speaker_ends_at_the_first_closing_bracket() {
    assert_eq!(extract_record("12:34 a>b> c", "d"), None);
    assert_eq!(extract_record("12:34 a> b> c", "d"), Some(record("d 12:34", "a", "b> c")));
}

#[test]
fn speaker_with_white_space_is_dropped() {
    assert_eq!(extract_record("12:36 < > empty speaker", "d"), None);
    assert_eq!(extract_record("12:36 alice has> joined", "d"), None);
    assert_eq!(extract_record("12:36 alice\tb> joined", "d"), None);
    assert_eq!(extract_record("12:36 alice\u{a0}b> joined", "d"), None);
    assert_eq!(extract_record("12:36 alice\u{3000}b> joined", "d"), None);
    assert_eq!(extract_record("12:36  alice> joined", "d"), None);
}

#[test]
fn empty_speaker_is_no_message_line() {
    assert_eq!(extract_record("12:36 > text", "d"), None);
}

#[test]
fn empty_message_is_no_message_line() {
    assert_eq!(extract_record("12:36 bob> ", "d"), None);
    assert_eq!(extract_record("12:36 bob>", "d"), None);
}

#[test]
fn separator_needs_its_space() {
    assert_eq!(extract_record("12:36 bob>text", "d"), None);
    assert_eq!(extract_record("12:36 bob>\ttext", "d"), None);
}

#[test]
fn lines_of_another_shape_are_dropped() {
    assert_eq!(extract_record("", "d"), None);
    assert_eq!(extract_record("12:35 +bob bad line", "d"), None);
    assert_eq!(extract_record("*** alice has joined", "d"), None);
    assert_eq!(extract_record("--- Log opened Wed Jan 01 00:00:00 2020", "d"), None);
    assert_eq!(extract_record("12:3 bob> hi", "d"), None);
    assert_eq!(extract_record("1234 bob> hi", "d"), None);
    assert_eq!(extract_record("12-34 bob> hi", "d"), None);
    assert_eq!(extract_record("ab:cd bob> hi", "d"), None);
    assert_eq!(extract_record("12:34\tbob> hi", "d"), None);
    assert_eq!(extract_record("12:34", "d"), None);
    assert_eq!(extract_record("12:34 ", "d"), None);
    assert_eq!(extract_record("2020-01-01 12:34 bob> hi", "d"), None);
    assert_eq!(extract_record("\u{661}\u{662}:\u{663}\u{664} bob> hi", "d"), None);
}

#[test]
fn extraction_is_repeatable() {
    let a = extract_record("12:34 <alice> hello world", "2020-01-01");
    let b = extract_record("12:34 <alice> hello world", "2020-01-01");
    assert_eq!(a, b);
}
