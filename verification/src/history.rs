//! Shell history records and the parser that reads them from a history file's
//! bytes.

use chrono::{Datelike, Local, NaiveDate, TimeZone, Timelike};
use vstd::prelude::*;
use vstd::slice::slice_subrange;
use vstd::string::*;
use crate::numeral::{i64_of, parse_i64};
use crate::tally::texts;
use crate::text::{chars_of, find_byte, find_char, first_token, index_of, token_of};

verus! {

/// A day of the civil calendar.
#[derive(Debug, Clone, Copy, PartialEq, Eq, Structural)]
pub struct CalendarDate {
    pub year: i32,
    pub month: u32,
    pub day: u32,
}

/// A point in time, together with the local civil date and hour of day that
/// the clock showed at that point.
#[derive(Debug, Clone, Copy, PartialEq, Eq, Structural)]
pub struct Timestamp {
    /// Whole seconds since the Unix epoch.
    pub secs: i64,
    /// Nanoseconds past `secs`.
    pub nanos: u32,
    /// Local calendar date.
    pub date: CalendarDate,
    /// Local hour of day.
    pub hour: u32,
}

/// One parsed line of the history file.
#[derive(Debug, Clone)]
pub struct HistoryEntry {
    pub timestamp: Timestamp,
    pub command: String,
}

impl CalendarDate {
    /// Month and day lie in the ranges that a calendar has.
    pub open spec fn wf(self) -> bool {
        1 <= self.month <= 12 && 1 <= self.day <= 31
    }
}

impl Timestamp {
    /// The civil fields lie in the ranges that a clock and a calendar have.
    pub open spec fn wf(self) -> bool {
        self.date.wf() && self.hour < 24
    }

    /// Nanoseconds since the Unix epoch.
    pub open spec fn instant(self) -> int {
        self.secs * 1_000_000_000 + self.nanos
    }
}

impl HistoryEntry {
    /// A copy of this record.
    pub fn duplicate(&self) -> (copy: HistoryEntry)
        ensures
            copy == *self,
    {
        HistoryEntry { timestamp: self.timestamp, command: self.command.clone() }
    }
}

/// The raw command text of each record.
pub open spec fn command_texts(records: Seq<HistoryEntry>) -> Seq<Seq<char>> {
    Seq::new(records.len(), |i: int| records[i].command@)
}

/// The first token of each record's command.
pub open spec fn first_tokens(records: Seq<HistoryEntry>) -> Seq<Seq<char>> {
    Seq::new(records.len(), |i: int| token_of(records[i].command@))
}

/// The instant of each record, in nanoseconds since the Unix epoch.
pub open spec fn instants(records: Seq<HistoryEntry>) -> Seq<int> {
    Seq::new(records.len(), |i: int| records[i].timestamp.instant())
}

/// The local hour of day of each record.
pub open spec fn hours(records: Seq<HistoryEntry>) -> Seq<u32> {
    Seq::new(records.len(), |i: int| records[i].timestamp.hour)
}

/// What can go wrong outside the lines of a history file.
#[derive(Debug, Clone, Copy, PartialEq, Eq, Structural)]
pub enum HistoryError {
    /// The user has no home directory to look for a history file in.
    NoHomeDirectory,
    /// A date was asked for that is not written as year, month and day.
    InvalidDate,
}

/// The fields of one line of a history file: the epoch seconds and the
/// command. A line has them where it
///
/// 1. begins with a colon and a space,
/// 2. holds a `;` after that: what stands before the first one is the
///    metadata, and everything after it, further `;` included, is the command,
/// 3. holds a `:` in its metadata, and
/// 4. has, before the first such `:`, the decimal numeral of a 64-bit signed
///    integer.
///
/// Any other line has none.
pub open spec fn line_fields(line: Seq<char>) -> Option<(i64, Seq<char>)> {
    if !(line.len() >= 2 && line[0] == ':' && line[1] == ' ') {
        None
    } else {
        let content = line.skip(2);
        let semicolon = index_of(content, ';');
        if semicolon == content.len() {
            None
        } else {
            let meta = content.take(semicolon);
            let command = content.skip(semicolon + 1);
            let colon = index_of(meta, ':');
            if colon == meta.len() {
                None
            } else {
                match i64_of(meta.take(colon)) {
                    Some(epoch) => Some((epoch, command)),
                    None => None,
                }
            }
        }
    }
}

/// A line made of the marker, a numeral, a colon, anything without a `;`, a
/// `;` and a command has the numeral's value and that command as its fields,
/// whatever the command holds.
pub proof fn lemma_well_formed_line_is_read(
    epoch: Seq<char>,
    ignored: Seq<char>,
    command: Seq<char>,
)
    requires
        i64_of(epoch) is Some,
        !ignored.contains(';'),
    ensures
        line_fields(seq![':', ' '] + epoch + seq![':'] + ignored + seq![';'] + command) == Some(
            (i64_of(epoch)->0, command),
        ),
{
    let line = seq![':', ' '] + epoch + seq![':'] + ignored + seq![';'] + command;
    let content = line.skip(2);
    let n = epoch.len() as int;
    let d = ignored.len() as int;
    assert(content =~= epoch + seq![':'] + ignored + seq![';'] + command);
    crate::numeral::lemma_numeral_characters(epoch);
    assert forall|i: int| 0 <= i < n + 1 + d implies content[i] != ';' by {
        if i < n {
            assert(content[i] == epoch[i]);
        } else if i > n {
            assert(content[i] == ignored[i - n - 1]);
            if ignored[i - n - 1] == ';' {
                assert(ignored.contains(';'));
            }
        }
    }
    assert(content[n + 1 + d] == ';');
    crate::text::lemma_index_of(content, ';', n + 1 + d);
    let meta = content.take(n + 1 + d);
    assert forall|i: int| 0 <= i < n implies meta[i] != ':' by {
        assert(meta[i] == epoch[i]);
    }
    assert(meta[n] == ':');
    crate::text::lemma_index_of(meta, ':', n);
    assert(meta.take(n) =~= epoch);
    assert(content.skip(n + 1 + d + 1) =~= command);
}

/// A line that does not begin with a colon and a space has no fields,
/// whatever else it holds.
pub proof fn lemma_unmarked_line_is_skipped(line: Seq<char>)
    requires
        line.len() < 2 || line[0] != ':' || line[1] != ' ',
    ensures
        line_fields(line) is None,
{
}

/// A line whose epoch field is not a numeral has no fields: nothing stands in
/// for the number.
pub proof fn lemma_unreadable_epoch_is_skipped(epoch: Seq<char>, rest: Seq<char>)
    requires
        i64_of(epoch) is None,
        !epoch.contains(':'),
        !epoch.contains(';'),
    ensures
        line_fields(seq![':', ' '] + epoch + seq![':'] + rest) is None,
{
    let line = seq![':', ' '] + epoch + seq![':'] + rest;
    let content = line.skip(2);
    assert(content =~= epoch + seq![':'] + rest);
    let semicolon = index_of(content, ';');
    let n = epoch.len() as int;
    crate::text::lemma_index_of_bounds(content, ';');
    if semicolon < content.len() {
        let meta = content.take(semicolon);
        assert(semicolon > n) by {
            if semicolon < n {
                assert(epoch[semicolon] == content[semicolon]);
                assert(epoch.contains(';'));
            }
        }
        assert forall|i: int| 0 <= i < n implies meta[i] != ':' by {
            assert(meta[i] == epoch[i]);
            if epoch[i] == ':' {
                assert(epoch.contains(':'));
            }
        }
        assert(meta[n] == ':');
        crate::text::lemma_index_of(meta, ':', n);
        assert(meta.take(n) =~= epoch);
    }
}

/// The fields of one line of a history file, if it has them.
pub fn parse_fields(line: &str) -> (fields: Option<(i64, String)>)
    ensures
        match line_fields(line@) {
            Some((epoch, command)) => fields matches Some((e, c)) && e == epoch && c@ == command,
            None => fields is None,
        },
{
    let v = chars_of(line);
    let n = v.len();
    if n < 2 || v[0] != ':' || v[1] != ' ' {
        return None;
    }
    let ghost content = line@.skip(2);
    let semicolon = find_char(&v, 2, n, ';');
    proof {
        assert(content =~= v@.subrange(2, n as int));
    }
    if semicolon == n {
        return None;
    }
    let ghost meta = content.take(semicolon - 2);
    let colon = find_char(&v, 2, semicolon, ':');
    proof {
        assert(meta =~= v@.subrange(2, semicolon as int));
        assert(meta.take(colon - 2) =~= v@.subrange(2, colon as int));
        assert(content.skip(semicolon - 2 + 1) =~= line@.subrange(semicolon + 1, n as int));
    }
    if colon == semicolon {
        return None;
    }
    match parse_i64(&v, 2, colon) {
        Some(epoch) => Some((epoch, line.substring_char(semicolon + 1, n).to_owned())),
        None => None,
    }
}

/// The lines of a file: the chunks between newline bytes. A last chunk that no
/// newline ends is a line too, unless it is empty.
pub open spec fn lines_of(bytes: Seq<u8>) -> Seq<Seq<u8>>
    decreases bytes.len(),
{
    if bytes.len() == 0 {
        Seq::empty()
    } else {
        let end = index_of(bytes, 10u8);
        if 0 <= end < bytes.len() {
            seq![bytes.take(end)] + lines_of(bytes.skip(end + 1))
        } else {
            seq![bytes]
        }
    }
}

/// The text that a line's bytes are read as. Bytes that are not part of any
/// text are read as placeholder characters.
pub uninterp spec fn utf8_lossy(bytes: Seq<u8>) -> Seq<char>;

/// Calls `String::from_utf8_lossy`. The result depends on the bytes alone;
/// nothing is proved of it, and it is, by definition, `utf8_lossy` of them.
#[verifier::external_body]
fn decode_lossy(bytes: &[u8]) -> (text: String)
    ensures
        text@ == utf8_lossy(bytes@),
{
    String::from_utf8_lossy(bytes).into_owned()
}

/// The fields of those of `lines` that have them, in order.
pub open spec fn fields_of(lines: Seq<Seq<u8>>) -> Seq<(i64, Seq<char>)>
    decreases lines.len(),
{
    if lines.len() == 0 {
        Seq::empty()
    } else {
        fields_of(lines.drop_last()) + match line_fields(utf8_lossy(lines.last())) {
            Some(fields) => seq![fields],
            None => Seq::empty(),
        }
    }
}

/// The fields of every well-formed line of a history file, in file order.
pub open spec fn history_fields(bytes: Seq<u8>) -> Seq<(i64, Seq<char>)> {
    fields_of(lines_of(bytes))
}

/// Whether the calendar can hold the instant that lies `epoch` seconds from
/// the Unix epoch.
pub uninterp spec fn representable(epoch: i64) -> bool;

/// Calls `chrono::TimeZone::timestamp_opt` on `chrono::Local` with no
/// nanoseconds, takes `single()` of it, and reads the fields off the result.
/// Whether there is a result depends on `epoch` alone, and is, by definition,
/// `representable(epoch)`. The result is the instant asked for; its date and
/// hour depend on the machine's time zone, and lie in the ranges of a calendar
/// and a clock. This is what `chrono` documents of `timestamp_opt`: no result
/// for seconds out of its range, and otherwise always a single one.
#[verifier::external_body]
fn local_time(epoch: i64) -> (local: Option<Timestamp>)
    ensures
        local is Some <==> representable(epoch),
        local matches Some(t) ==> t.secs == epoch && t.nanos == 0 && t.wf(),
{
    match Local.timestamp_opt(epoch, 0).single() {
        Some(t) => Some(
            Timestamp {
                secs: t.timestamp(),
                nanos: t.timestamp_subsec_nanos(),
                date: CalendarDate { year: t.year(), month: t.month(), day: t.day() },
                hour: t.hour(),
            },
        ),
        None => None,
    }
}

/// Calls `chrono::Local::now` and reads the fields off the result: the
/// current time, of which only the ranges of date and hour are known.
#[verifier::external_body]
fn local_now() -> (now: Timestamp)
    ensures
        now.wf(),
{
    let t = Local::now();
    Timestamp {
        secs: t.timestamp(),
        nanos: t.timestamp_subsec_nanos(),
        date: CalendarDate { year: t.year(), month: t.month(), day: t.day() },
        hour: t.hour(),
    }
}

/// The date that a text denotes under a format of `chrono`'s, if it denotes
/// one: its year, month and day.
pub uninterp spec fn formatted_date(text: Seq<char>, format: Seq<char>) -> Option<(i32, u32, u32)>;

/// `chrono::format::ParseError`, the error of `chrono`'s parsers. Nothing is
/// known of a value of it.
#[verifier::external_type_specification]
#[verifier::external_body]
pub struct ExParseError(chrono::format::ParseError);

/// Calls `chrono::NaiveDate::parse_from_str` and reads year, month and day
/// off the date. The result depends on the two texts alone; it is, by
/// definition, `formatted_date` of them, and a date that was read is a day of
/// the calendar.
#[verifier::external_body]
fn parse_date(text: &str, format: &str) -> (parsed: Result<CalendarDate, chrono::format::ParseError>)
    ensures
        match parsed {
            Ok(date) => formatted_date(text@, format@) == Some((date.year, date.month, date.day))
                && date.wf(),
            Err(_) => formatted_date(text@, format@) is None,
        },
{
    match NaiveDate::parse_from_str(text, format) {
        Ok(date) => Ok(CalendarDate { year: date.year(), month: date.month(), day: date.day() }),
        Err(error) => Err(error),
    }
}

/// The date that a text written as year, month and day denotes.
pub open spec fn date_of(text: Seq<char>) -> Option<CalendarDate> {
    match formatted_date(text, "%Y-%m-%d"@) {
        Some((year, month, day)) => Some(CalendarDate { year, month, day }),
        None => None,
    }
}

/// The test that a record falls on `date`, by the local calendar.
pub open spec fn falls_on(date: CalendarDate) -> spec_fn(HistoryEntry) -> bool {
    |entry: HistoryEntry| entry.timestamp.date == date
}

/// The timestamp of a record whose line gave `epoch`. Where the calendar can
/// hold that instant, it is that instant; where it cannot, it is `now`.
pub open spec fn stamped(timestamp: Timestamp, epoch: i64, now: Timestamp) -> bool {
    if representable(epoch) {
        timestamp.secs == epoch && timestamp.nanos == 0 && timestamp.wf()
    } else {
        timestamp == now
    }
}

/// Whether `records` are what a history file's bytes hold, read at the time
/// `now`: one record for each well-formed line, in file order, with the line's
/// command and the timestamp that its epoch seconds give.
pub open spec fn is_reading(records: Seq<HistoryEntry>, bytes: Seq<u8>, now: Timestamp) -> bool {
    &&& records.len() == history_fields(bytes).len()
    &&& forall|i: int|
        0 <= i < records.len() ==> (#[trigger] records[i]).command@ == history_fields(bytes)[i].1
            && stamped(records[i].timestamp, history_fields(bytes)[i].0, now)
}

/// The timestamp for a line's epoch seconds: the local time that the calendar
/// gave for them, or `now` where it gave none.
pub fn timestamp_or(local: Option<Timestamp>, now: Timestamp) -> (timestamp: Timestamp)
    ensures
        timestamp == match local {
            Some(t) => t,
            None => now,
        },
{
    match local {
        Some(t) => t,
        None => now,
    }
}

/// The records of `entries` that fall on `date`, in order.
pub fn filter_by_date(entries: &Vec<HistoryEntry>, date: CalendarDate) -> (found: Vec<HistoryEntry>)
    ensures
        found@ == entries@.filter(falls_on(date)),
{
    let ghost pred = falls_on(date);
    let mut found: Vec<HistoryEntry> = Vec::new();
    let mut i: usize = 0;
    proof {
        reveal(Seq::filter);
        assert(found@ =~= entries@.take(0).filter(pred));
    }
    while i < entries.len()
        invariant
            i <= entries.len(),
            pred == falls_on(date),
            found@ == entries@.take(i as int).filter(pred),
        decreases entries.len() - i,
    {
        proof {
            reveal(Seq::filter);
            assert(entries@.take(i + 1).drop_last() =~= entries@.take(i as int));
            assert(entries@.take(i + 1).last() == entries@[i as int]);
            assert(pred(entries@[i as int]) == (entries@[i as int].timestamp.date == date));
        }
        if entries[i].timestamp.date == date {
            found.push(entries[i].duplicate());
        }
        i += 1;
    }
    proof {
        assert(entries@.take(entries.len() as int) =~= entries@);
    }
    found
}

/// Reads shell history from the bytes of the user's history file.
pub struct HistoryParser {
    history_file: String,
}

impl HistoryParser {
    /// Path of the history file.
    pub closed spec fn path(&self) -> Seq<char> {
        self.history_file@
    }

    /// A parser for the history file in the home directory `home`. Fails
    /// where there is no home directory.
    pub fn new(home: Option<String>) -> (parser: Result<HistoryParser, HistoryError>)
        ensures
            match home {
                Some(dir) => parser matches Ok(p) && p.path() == dir@ + "/.zsh_history"@,
                None => parser == Err::<HistoryParser, HistoryError>(HistoryError::NoHomeDirectory),
            },
    {
        match home {
            Some(dir) => {
                let mut history_file = dir;
                history_file.append("/.zsh_history");
                Ok(HistoryParser { history_file })
            },
            None => Err(HistoryError::NoHomeDirectory),
        }
    }

    /// Path of the history file.
    pub fn history_file(&self) -> (path: &str)
        ensures
            path@ == self.path(),
    {
        self.history_file.as_str()
    }

    /// The record that a line holds, read at the time `now`, or `None` for a
    /// line that is not well formed.
    pub fn parse_line_at(&self, line: &str, now: Timestamp) -> (entry: Option<HistoryEntry>)
        ensures
            match line_fields(line@) {
                Some((epoch, command)) => entry matches Some(e) && e.command@ == command
                    && stamped(e.timestamp, epoch, now),
                None => entry is None,
            },
    {
        match parse_fields(line) {
            Some((epoch, command)) => Some(
                HistoryEntry { timestamp: timestamp_or(local_time(epoch), now), command },
            ),
            None => None,
        }
    }

    /// The record that a line holds, or `None` for a line that is not well
    /// formed. Where the calendar cannot hold the line's instant, the record
    /// is stamped with the current time.
    pub fn parse_line(&self, line: &str) -> (entry: Option<HistoryEntry>)
        ensures
            match line_fields(line@) {
                Some((epoch, command)) => entry matches Some(e) && e.command@ == command
                    && e.timestamp.wf() && (representable(epoch) ==> e.timestamp.secs == epoch
                    && e.timestamp.nanos == 0),
                None => entry is None,
            },
    {
        self.parse_line_at(line, local_now())
    }

    /// The records that the bytes of a history file hold, read at the time
    /// `now`: one for each well-formed line, in file order. Lines that are not
    /// well formed are skipped.
    pub fn read_history_at(&self, bytes: &[u8], now: Timestamp) -> (entries: Vec<HistoryEntry>)
        ensures
            is_reading(entries@, bytes@, now),
    {
        let ghost mut done: Seq<Seq<u8>> = Seq::empty();
        let mut entries: Vec<HistoryEntry> = Vec::new();
        let mut pos: usize = 0;
        proof {
            assert(bytes@.skip(0) =~= bytes@);
        }
        while pos < bytes.len()
            invariant
                pos <= bytes@.len(),
                lines_of(bytes@) == done + lines_of(bytes@.skip(pos as int)),
                entries@.len() == fields_of(done).len(),
                forall|i: int|
                    0 <= i < entries@.len() ==> (#[trigger] entries@[i]).command@ == fields_of(
                        done,
                    )[i].1 && stamped(entries@[i].timestamp, fields_of(done)[i].0, now),
            decreases bytes@.len() - pos,
        {
            let ghost rest = bytes@.skip(pos as int);
            let end = find_byte(bytes, pos, 10u8);
            let line = slice_subrange(bytes, pos, end);
            let ghost earlier = fields_of(done);
            proof {
                assert(rest.take(end - pos) =~= line@);
                assert(done.push(line@).drop_last() =~= done);
                if end < bytes@.len() {
                    assert(rest.skip(end - pos + 1) =~= bytes@.skip(end + 1));
                    assert(done + (seq![line@] + lines_of(bytes@.skip(end + 1))) =~= done.push(
                        line@,
                    ) + lines_of(bytes@.skip(end + 1)));
                } else {
                    assert(rest.take(end - pos) =~= rest);
                    assert(lines_of(bytes@.skip(end as int)) =~= Seq::<Seq<u8>>::empty());
                    assert(done + seq![line@] =~= done.push(line@) + Seq::<Seq<u8>>::empty());
                }
                done = done.push(line@);
            }
            let text = decode_lossy(line);
            match self.parse_line_at(text.as_str(), now) {
                Some(entry) => {
                    entries.push(entry);
                },
                None => {
                    proof {
                        assert(earlier + Seq::<(i64, Seq<char>)>::empty() =~= earlier);
                    }
                },
            }
            pos = if end < bytes.len() {
                end + 1
            } else {
                end
            };
        }
        proof {
            assert(lines_of(bytes@.skip(pos as int)) =~= Seq::<Seq<u8>>::empty());
            assert(done + Seq::<Seq<u8>>::empty() =~= done);
        }
        entries
    }

    /// The records that the bytes of a history file hold: one for each
    /// well-formed line, in file order. A record whose instant the calendar
    /// cannot hold is stamped with the time of the call.
    pub fn read_history(&self, bytes: &[u8]) -> (entries: Vec<HistoryEntry>)
        ensures
            exists|now: Timestamp| now.wf() && is_reading(entries@, bytes@, now),
    {
        let now = local_now();
        self.read_history_at(bytes, now)
    }

    /// The records of a history file that fall on the day that `date` names.
    /// `date` is written as year, month and day, as in `2024-01-31`; any other
    /// text is an error.
    pub fn get_entries_for_date(&self, bytes: &[u8], date: &str) -> (found: Result<
        Vec<HistoryEntry>,
        HistoryError,
    >)
        ensures
            match date_of(date@) {
                Some(day) => found matches Ok(entries) && exists|all: Seq<HistoryEntry>, now: Timestamp|
                    now.wf() && is_reading(all, bytes@, now) && entries@ == all.filter(
                        falls_on(day),
                    ),
                None => found == Err::<Vec<HistoryEntry>, HistoryError>(HistoryError::InvalidDate),
            },
    {
        let now = local_now();
        let all = self.read_history_at(bytes, now);
        match parse_date(date, "%Y-%m-%d") {
            Ok(day) => {
                let entries = filter_by_date(&all, day);
                proof {
                    assert(now.wf() && is_reading(all@, bytes@, now) && entries@ == all@.filter(
                        falls_on(day),
                    ));
                }
                Ok(entries)
            },
            Err(_) => Err(HistoryError::InvalidDate),
        }
    }
}

/// The first token of every record's command, in order, the empty ones too.
pub fn tokens_of(entries: &Vec<HistoryEntry>) -> (tokens: Vec<String>)
    ensures
        texts(tokens@) == first_tokens(entries@),
{
    let mut tokens: Vec<String> = Vec::new();
    let mut i: usize = 0;
    while i < entries.len()
        invariant
            i <= entries.len(),
            tokens.len() == i,
            forall|k: int|
                0 <= k < i ==> (#[trigger] tokens@[k])@ == token_of(entries@[k].command@),
        decreases entries.len() - i,
    {
        tokens.push(first_token(entries[i].command.as_str()));
        i += 1;
    }
    proof {
        assert(texts(tokens@) =~= first_tokens(entries@));
    }
    tokens
}

} // verus!
