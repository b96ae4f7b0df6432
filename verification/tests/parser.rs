use timecraft::history::{
    filter_by_date, parse_fields, timestamp_or, CalendarDate, HistoryEntry, HistoryError,
    HistoryParser, Timestamp,
};

fn parser() -> HistoryParser {
    HistoryParser::new(Some("/home/someone".to_string())).unwrap()
}

fn fixed_now() -> Timestamp {
    Timestamp {
        secs: 1_700_000_000,
        nanos: 123_456_789,
        date: CalendarDate { year: 2023, month: 11, day: 14 },
        hour: 22,
    }
}

fn entry_on(year: i32, month: u32, day: u32, hour: u32, secs: i64, command: &str) -> HistoryEntry {
    HistoryEntry {
        timestamp: Timestamp { secs, nanos: 0, date: CalendarDate { year, month, day }, hour },
        command: command.to_string(),
    }
}

#[test]
fn single_line_yields_one_record() {
    let entries = parser().read_history(b": 100:0;echo hi\n");
    assert_eq!(entries.len(), 1);
    assert_eq!(entries[0].command, "echo hi");
    assert_eq!(entries[0].timestamp.secs, 100);
    assert_eq!(entries[0].timestamp.nanos, 0);
}

#[test]
fn documented_example_line() {
    let entries = parser().read_history(b": 1700000000:0;git status");
    assert_eq!(entries.len(), 1);
    assert_eq!(entries[0].command, "git status");
    assert_eq!(entries[0].timestamp.secs, 1_700_000_000);
}

#[test]
fn lines_without_the_prefix_yield_nothing() {
    let p = parser();
    assert_eq!(p.read_history(b"echo hi").len(), 0);
    assert_eq!(p.read_history(b"").len(), 0);
    assert_eq!(p.read_history(b"\n\n\n").len(), 0);
    assert_eq!(p.read_history(&[0xff, 0xfe, 0x00, 0x80, 0x0a, 0xc3, 0x28]).len(), 0);
    assert_eq!(p.read_history(b":100:0;ls\n").len(), 0);
    assert_eq!(p.read_history(b" : 100:0;ls\n").len(), 0);
    assert!(p.parse_line("echo hi").is_none());
    assert!(p.parse_line("").is_none());
    assert!(p.parse_line(":").is_none());
}

#[test]
fn unparseable_epoch_is_dropped() {
    let p = parser();
    assert_eq!(p.read_history(b": abc:0;ls\n").len(), 0);
    assert_eq!(p.read_history(b": :0;ls\n").len(), 0);
    assert_eq!(p.read_history(b": 12x:0;ls\n").len(), 0);
    assert_eq!(p.read_history(b": 1 2:0;ls\n").len(), 0);
    assert_eq!(p.read_history(b":  12:0;ls\n").len(), 0);
    assert_eq!(p.read_history(b": -:0;ls\n").len(), 0);
    assert_eq!(p.read_history(b": +:0;ls\n").len(), 0);
    assert_eq!(p.read_history(b": 9223372036854775808:0;ls\n").len(), 0);
    assert_eq!(p.read_history(b": -9223372036854775809:0;ls\n").len(), 0);
}

#[test]
fn missing_delimiters_drop_the_line() {
    let p = parser();
    assert_eq!(p.read_history(b": 100:0 ls\n").len(), 0);
    assert_eq!(p.read_history(b": 100;ls\n").len(), 0);
    assert_eq!(p.read_history(b": 100;0:ls\n").len(), 0);
}

#[test]
fn fields_of_a_line_are_exact() {
    assert_eq!(parse_fields(": 100:0;echo hi"), Some((100, "echo hi".to_string())));
    assert_eq!(parse_fields(": -5:0;x"), Some((-5, "x".to_string())));
    assert_eq!(parse_fields(": +7:0;x"), Some((7, "x".to_string())));
    assert_eq!(parse_fields(": 007:0;x"), Some((7, "x".to_string())));
    assert_eq!(parse_fields(": 0::;"), Some((0, "".to_string())));
    assert_eq!(
        parse_fields(": 9223372036854775807:0;max"),
        Some((i64::MAX, "max".to_string()))
    );
    assert_eq!(
        parse_fields(": -9223372036854775808:0;min"),
        Some((i64::MIN, "min".to_string()))
    );
    assert_eq!(
        parse_fields(": 0000000000000000000000000000000000000042:0;zeros"),
        Some((42, "zeros".to_string()))
    );
    assert_eq!(parse_fields(": 100:0"), None);
    assert_eq!(parse_fields(": 100"), None);
    assert_eq!(parse_fields(": "), None);
}

#[test]
fn command_is_everything_after_the_first_semicolon() {
    let entries = parser().read_history(b": 1:0;a;b;c\n: 2:ignored:more;  spaced : out ;\n");
    assert_eq!(entries.len(), 2);
    assert_eq!(entries[0].command, "a;b;c");
    assert_eq!(entries[1].command, "  spaced : out ;");
    assert_eq!(entries[1].timestamp.secs, 2);
}

#[test]
fn file_order_is_kept_and_bad_lines_are_skipped() {
    let bytes = b": 30:0;third\ngarbage\n: 10:0;first\n\n: x:0;bad\n: 20:0;second";
    let entries = parser().read_history(bytes);
    let commands: Vec<&str> = entries.iter().map(|e| e.command.as_str()).collect();
    assert_eq!(commands, vec!["third", "first", "second"]);
    let seconds: Vec<i64> = entries.iter().map(|e| e.timestamp.secs).collect();
    assert_eq!(seconds, vec![30, 10, 20]);
}

#[test]
fn carriage_return_stays_in_the_command() {
    let entries = parser().read_history(b": 1:0;ls\r\n");
    assert_eq!(entries.len(), 1);
    assert_eq!(entries[0].command, "ls\r");
}

#[test]
fn undecodable_bytes_become_placeholders() {
    let entries = parser().read_history(b": 5:0;ab\xffcd\n\xff: 6:0;lost\n: 7:0;\xe2\x82\n");
    assert_eq!(entries.len(), 2);
    assert_eq!(entries[0].command, "ab\u{fffd}cd");
    assert_eq!(entries[1].command, "\u{fffd}");
    assert_eq!(entries[1].timestamp.secs, 7);
}

#[test]
fn multibyte_text_is_kept() {
    let entries = parser().read_history(": 8:0;echo héllo ; 日本語\n".as_bytes());
    assert_eq!(entries.len(), 1);
    assert_eq!(entries[0].command, "echo héllo ; 日本語");
}

#[test]
fn civil_fields_lie_in_range() {
    let entries = parser().read_history(b": 0:0;a\n: 1700000000:0;b\n: -86400:0;c\n");
    assert_eq!(entries.len(), 3);
    for entry in &entries {
        assert!(entry.timestamp.hour < 24);
        assert!(1 <= entry.timestamp.date.month && entry.timestamp.date.month <= 12);
        assert!(1 <= entry.timestamp.date.day && entry.timestamp.date.day <= 31);
    }
    let year = entries[1].timestamp.date.year;
    assert!(year == 2023);
}

#[test]
fn unrepresentable_epoch_falls_back_to_now() {
    let now = fixed_now();
    let p = parser();
    let entries = p.read_history_at(
        b": 9223372036854775807:0;far future\n: 100:0;near\n: -9223372036854775808:0;far past\n",
        now,
    );
    assert_eq!(entries.len(), 3);
    assert_eq!(entries[0].timestamp, now);
    assert_eq!(entries[0].command, "far future");
    assert_eq!(entries[1].timestamp.secs, 100);
    assert_eq!(entries[1].timestamp.nanos, 0);
    assert_eq!(entries[2].timestamp, now);
    let entry = p.parse_line_at(": 9223372036854775807:0;x", now).unwrap();
    assert_eq!(entry.timestamp, now);
    let entry = p.parse_line(": 9223372036854775807:0;x").unwrap();
    assert!(entry.timestamp.secs > 1_700_000_000);
    assert!(entry.timestamp.secs < i64::MAX);
    assert!(entry.timestamp.hour < 24);
    assert!(1 <= entry.timestamp.date.month && entry.timestamp.date.month <= 12);
    assert!(entry.timestamp.date.year >= 2024);
}

#[test]
fn fallback_policy_prefers_the_converted_time() {
    let now = fixed_now();
    let other = Timestamp { secs: 5, nanos: 0, date: CalendarDate { year: 1970, month: 1, day: 1 }, hour: 0 };
    assert_eq!(timestamp_or(Some(other), now), other);
    assert_eq!(timestamp_or(None, now), now);
}

#[test]
fn date_filter_returns_exactly_the_matching_day() {
    let entries = vec![
        entry_on(2024, 1, 1, 10, 1_704_103_200, "first"),
        entry_on(2024, 1, 2, 10, 1_704_189_600, "second"),
    ];
    let found = filter_by_date(&entries, CalendarDate { year: 2024, month: 1, day: 1 });
    assert_eq!(found.len(), 1);
    assert_eq!(found[0].command, "first");
    assert_eq!(found[0].timestamp, entries[0].timestamp);
}

#[test]
fn date_filter_ignores_time_of_day_and_keeps_order() {
    let entries = vec![
        entry_on(2024, 1, 1, 23, 3, "late"),
        entry_on(2023, 1, 1, 0, 1, "other year"),
        entry_on(2024, 1, 1, 0, 2, "early"),
        entry_on(2024, 2, 1, 0, 4, "other month"),
    ];
    let found = filter_by_date(&entries, CalendarDate { year: 2024, month: 1, day: 1 });
    let commands: Vec<&str> = found.iter().map(|e| e.command.as_str()).collect();
    assert_eq!(commands, vec!["late", "early"]);
    assert_eq!(filter_by_date(&entries, CalendarDate { year: 1999, month: 1, day: 1 }).len(), 0);
    assert_eq!(filter_by_date(&Vec::new(), CalendarDate { year: 2024, month: 1, day: 1 }).len(), 0);
}

#[test]
fn entries_for_a_date_come_from_the_file() {
    let p = parser();
    let bytes = b": 1704110400:0;first\nnoise\n: 1704196800:0;second\n";
    let all = p.read_history(bytes);
    assert_eq!(all.len(), 2);
    let day = all[0].timestamp.date;
    assert_ne!(day, all[1].timestamp.date);
    let text = format!("{:04}-{:02}-{:02}", day.year, day.month, day.day);
    let found = p.get_entries_for_date(bytes, &text).unwrap();
    assert_eq!(found.len(), 1);
    assert_eq!(found[0].command, "first");
    let none = p.get_entries_for_date(bytes, "1999-12-31").unwrap();
    assert_eq!(none.len(), 0);
}

#[test]
fn malformed_date_is_an_error() {
    let p = parser();
    let bytes = b": 1704110400:0;first\n";
    assert_eq!(p.get_entries_for_date(bytes, "not a date").err(), Some(HistoryError::InvalidDate));
    assert_eq!(p.get_entries_for_date(bytes, "2024-13-01").err(), Some(HistoryError::InvalidDate));
    assert_eq!(p.get_entries_for_date(bytes, "2024-02-30").err(), Some(HistoryError::InvalidDate));
    assert_eq!(p.get_entries_for_date(bytes, "2024/01/01").err(), Some(HistoryError::InvalidDate));
    assert_eq!(p.get_entries_for_date(bytes, "").err(), Some(HistoryError::InvalidDate));
    assert_eq!(p.get_entries_for_date(bytes, "2024-01-01 10:00").err(), Some(HistoryError::InvalidDate));
    assert!(p.get_entries_for_date(bytes, "2024-02-29").is_ok());
}

#[test]
fn parser_needs_a_home_directory() {
    assert_eq!(HistoryParser::new(None).err(), Some(HistoryError::NoHomeDirectory));
    let p = HistoryParser::new(Some("/home/someone".to_string())).unwrap();
    assert_eq!(p.history_file(), "/home/someone/.zsh_history");
}

#[test]
fn duplicate_copies_a_record() {
    let entry = entry_on(2024, 1, 1, 10, 77, "make test");
    let copy = entry.duplicate();
    assert_eq!(copy.command, "make test");
    assert_eq!(copy.timestamp, entry.timestamp);
}

#[test]
fn parsing_twice_gives_the_same_records() {
    let p = parser();
    let now = fixed_now();
    let bytes = b": 1:0;a\n: 9223372036854775807:0;b\nx\n: 3:0;c\n";
    let once = p.read_history_at(bytes, now);
    let again = p.read_history_at(bytes, now);
    assert_eq!(once.len(), again.len());
    for i in 0..once.len() {
        assert_eq!(once[i].command, again[i].command);
        assert_eq!(once[i].timestamp, again[i].timestamp);
    }
}
