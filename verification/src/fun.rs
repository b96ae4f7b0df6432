//! Light-hearted summaries: the longest session, the busiest hour, the
//! variety of commands, and a roast.

use rand::seq::SliceRandom;
use std::collections::HashMap;
use vstd::prelude::*;
use vstd::string::*;
use crate::history::{first_tokens, hours, instants, tokens_of, HistoryEntry, Timestamp};
use crate::numeral::{decimal, push_decimal};
use crate::tally::{
    counted, counts_of, first_maximum, lemma_distinct_len_is_cardinality, lemma_first_maximum,
    lemma_occurrences_bounds, occurrences, slices, tally,
};

verus! {

broadcast use vstd::std_specs::hash::group_hash_axioms;

/// Nanoseconds in a second, a minute and an hour.
pub const SECOND_NANOS: u128 = 1_000_000_000;

pub const MINUTE_NANOS: u128 = 60_000_000_000;

pub const HOUR_NANOS: u128 = 3_600_000_000_000;

/// A gap of this many nanoseconds or more between two records ends a session.
pub const SESSION_GAP_NANOS: i128 = 3_600_000_000_000;

/// A length of time that is not negative.
#[derive(Debug, Clone, Copy, PartialEq, Eq, Structural)]
pub struct TimeSpan {
    pub nanos: u128,
}

impl TimeSpan {
    /// Whole hours in the span.
    pub fn num_hours(&self) -> (hours: u128)
        ensures
            hours == self.nanos / HOUR_NANOS,
    {
        self.nanos / HOUR_NANOS
    }

    /// Whole minutes in the span.
    pub fn num_minutes(&self) -> (minutes: u128)
        ensures
            minutes == self.nanos / MINUTE_NANOS,
    {
        self.nanos / MINUTE_NANOS
    }
}

/// What the session scan remembers between records.
pub struct SessionState {
    /// Length of the longest session that has ended.
    pub longest: int,
    /// Length so far of the session that is still open.
    pub current: int,
    /// Instant of the latest record, once there was one.
    pub last: Option<int>,
}

/// The state before any record.
pub open spec fn session_start() -> SessionState {
    SessionState { longest: 0, current: 0, last: None }
}

/// Ends the open session: it becomes the longest if it is longer than the
/// longest so far, and a new one begins.
pub open spec fn close_session(state: SessionState) -> SessionState {
    SessionState {
        longest: if state.current > state.longest {
            state.current
        } else {
            state.longest
        },
        current: 0,
        last: state.last,
    }
}

/// Takes in one record. A gap of less than an hour since the record before,
/// a zero or negative one too, is added to the open session; a longer gap
/// ends the open session.
pub open spec fn session_step(state: SessionState, instant: int) -> SessionState {
    let moved = match state.last {
        None => state,
        Some(last) => if instant - last < SESSION_GAP_NANOS {
            SessionState { current: state.current + (instant - last), ..state }
        } else {
            close_session(state)
        },
    };
    SessionState { last: Some(instant), ..moved }
}

/// The state after the records at the given instants, taken in order.
pub open spec fn session_scan(instants: Seq<int>) -> SessionState
    decreases instants.len(),
{
    if instants.len() == 0 {
        session_start()
    } else {
        session_step(session_scan(instants.drop_last()), instants.last())
    }
}

/// What the scan reports at the end of the records: the longest session that
/// has ended. The session still open at the end is not compared with it.
pub open spec fn longest_session(instants: Seq<int>) -> Option<int> {
    if instants.len() == 0 {
        None
    } else {
        Some(session_scan(instants).longest)
    }
}

/// Position of the record with which the session that is open at the end
/// began.
pub open spec fn open_since(instants: Seq<int>) -> int
    decreases instants.len(),
{
    if instants.len() <= 1 {
        0
    } else if instants.last() - instants[instants.len() - 2] < SESSION_GAP_NANOS {
        open_since(instants.drop_last())
    } else {
        instants.len() - 1
    }
}

/// The open session's length is the time from its first record to the latest
/// record: the gaps in between add up to just that, the negative ones too.
pub proof fn lemma_open_session_length(instants: Seq<int>)
    requires
        instants.len() > 0,
    ensures
        0 <= open_since(instants) < instants.len(),
        session_scan(instants).last == Some(instants.last()),
        session_scan(instants).current == instants.last() - instants[open_since(instants)],
    decreases instants.len(),
{
    let front = instants.drop_last();
    if front.len() > 0 {
        lemma_open_session_length(front);
        assert(front.last() == instants[instants.len() - 2]);
        assert(front[open_since(front)] == instants[open_since(front)]);
    } else {
        assert(session_scan(front) == session_start());
    }
}

/// No session is longer than the span that the records cover, and the longest
/// length is never negative.
pub proof fn lemma_session_within_span(instants: Seq<int>, low: int, high: int)
    requires
        forall|i: int| 0 <= i < instants.len() ==> low <= #[trigger] instants[i] <= high,
    ensures
        0 <= session_scan(instants).longest,
        instants.len() == 0 ==> session_scan(instants) == session_start(),
        instants.len() > 0 ==> {
            let state = session_scan(instants);
            &&& state.last == Some(instants.last())
            &&& low <= instants.last() - state.current <= high
            &&& state.longest <= high - low
        },
    decreases instants.len(),
{
    if instants.len() > 0 {
        let front = instants.drop_last();
        assert forall|i: int| 0 <= i < front.len() implies low <= #[trigger] front[i] <= high by {
            assert(front[i] == instants[i]);
        }
        lemma_session_within_span(front, low, high);
        assert(low <= instants[instants.len() - 1] <= high);
        if front.len() > 0 {
            assert(low <= front[front.len() - 1] <= high);
        }
    }
}

/// While every gap stays under an hour, no session ends, and the longest
/// session reported is zero however long the records go on.
pub proof fn lemma_open_session_not_counted(instants: Seq<int>)
    requires
        forall|i: int|
            0 < i < instants.len() ==> #[trigger] instants[i] - instants[i - 1] < SESSION_GAP_NANOS,
    ensures
        session_scan(instants).longest == 0,
        instants.len() > 0 ==> session_scan(instants).last == Some(instants.last()),
    decreases instants.len(),
{
    if instants.len() > 0 {
        let front = instants.drop_last();
        assert forall|i: int| 0 < i < front.len() implies #[trigger] front[i] - front[i - 1]
            < SESSION_GAP_NANOS by {
            assert(front[i] == instants[i]);
            assert(front[i - 1] == instants[i - 1]);
        }
        lemma_open_session_not_counted(front);
        if front.len() > 0 {
            let i = instants.len() - 1;
            assert(instants[i] - instants[i - 1] < SESSION_GAP_NANOS);
            assert(front.last() == instants[i - 1]);
        }
    }
}

/// Two records less than an hour apart, then a third an hour or more after
/// the second: the session of the first two is the longest, and the third
/// record's own session, still open, does not count.
pub proof fn lemma_closed_pair_then_gap(a: int, b: int, c: int)
    requires
        b - a < SESSION_GAP_NANOS,
        c - b >= SESSION_GAP_NANOS,
    ensures
        longest_session(seq![a, b, c]) == Some(
            if b - a > 0 {
                b - a
            } else {
                0
            },
        ),
{
    let s = seq![a, b, c];
    let s2 = s.drop_last();
    let s1 = s2.drop_last();
    assert(s1.drop_last() =~= Seq::<int>::empty());
    assert(s1.last() == a && s2.last() == b && s.last() == c);
    assert(session_scan(s1.drop_last()) == session_start());
    assert(session_scan(s1) == SessionState { longest: 0, current: 0, last: Some(a) });
    assert(session_scan(s2) == SessionState { longest: 0, current: b - a, last: Some(b) });
}

/// How often the hour of each position occurs in the whole sequence.
pub open spec fn hour_counts(hours: Seq<u32>) -> Seq<nat> {
    Seq::new(hours.len(), |i: int| occurrences(hours, hours[i]))
}

/// The hour of day with the most records and the number of its records; of
/// several such hours, the one that a record shows first.
pub open spec fn busiest_hour(hours: Seq<u32>) -> Option<(u32, nat)> {
    if hours.len() == 0 {
        None
    } else {
        let first = first_maximum(hour_counts(hours));
        Some((hours[first], occurrences(hours, hours[first])))
    }
}

/// No hour has more records than the busiest.
pub proof fn lemma_busiest_hour_is_maximum(hours: Seq<u32>, other: u32)
    requires
        hours.len() > 0,
    ensures
        match busiest_hour(hours) {
            Some((hour, count)) => occurrences(hours, other) <= count && count > 0
                && hours.contains(hour),
            None => false,
        },
{
    let counts = hour_counts(hours);
    lemma_first_maximum(counts);
    let first = first_maximum(counts);
    assert(counts[first] == occurrences(hours, hours[first]));
    lemma_occurrences_bounds(hours, hours[first]);
    lemma_occurrences_bounds(hours, other);
    if hours.contains(other) {
        let i = choose|i: int| 0 <= i < hours.len() && hours[i] == other;
        assert(counts[i] == occurrences(hours, other));
    }
}

/// The text of the fact about the longest session.
pub open spec fn session_fact(hours: nat, minutes: nat) -> Seq<char> {
    "Your longest coding session was "@ + decimal(hours) + " hours "@ + decimal(minutes)
        + " minutes"@
}

/// The text of the fact about the busiest hour.
pub open spec fn hour_fact(hour: nat, count: nat) -> Seq<char> {
    "You're most productive at "@ + decimal(hour) + ":00 with "@ + decimal(count) + " commands"@
}

/// The text of the fact about the variety of commands.
pub open spec fn variety_fact(unique: nat, total: nat) -> Seq<char> {
    "You've used "@ + decimal(unique) + " unique commands out of "@ + decimal(total)
        + " total executions"@
}

/// The facts about a history, each as its text and its emoji: the longest
/// session and the busiest hour where there is any record, and always the
/// variety of commands.
pub open spec fn fun_facts(records: Seq<HistoryEntry>) -> Seq<(Seq<char>, Seq<char>)> {
    let session = match longest_session(instants(records)) {
        Some(nanos) => seq![
            (
                session_fact(
                    (nanos / (HOUR_NANOS as int)) as nat,
                    ((nanos / (MINUTE_NANOS as int)) % 60) as nat,
                ),
                "🏃"@,
            ),
        ],
        None => Seq::empty(),
    };
    let hour = match busiest_hour(hours(records)) {
        Some((hour, count)) => seq![(hour_fact(hour as nat, count), "⏰"@)],
        None => Seq::empty(),
    };
    let variety = seq![
        (variety_fact(first_tokens(records).to_set().len(), records.len()), "🎭"@),
    ];
    session + hour + variety
}

/// The roasts on offer.
pub open spec fn roast_table() -> Seq<Seq<char>> {
    seq![
        "I see you're still typing 'gut status' instead of 'git status'. Maybe it's time for a typing course? 😏"@,
        "Wow, another 'sudo !!' - planning ahead isn't your strong suit, is it? 😅"@,
        "You've used 'vim' and immediately ':q' so many times. VS Code is waiting for you... 🎯"@,
        "The number of times you've run 'npm install' without '--save' is concerning. 📦"@,
        "Your command history suggests you're in a very committed relationship with Stack Overflow. 💑"@,
    ]
}

/// What is said when there is no roast to pick.
pub open spec fn roast_fallback() -> Seq<char> {
    "You're doing great! (I couldn't find anything to roast) 😇"@
}

/// Calls `rand::seq::SliceRandom::choose` with the thread's generator. The
/// method returns one element of the slice, picked at random, and `None`
/// only for an empty slice; which element it returns is not known.
#[verifier::external_body]
fn choose_text(items: &Vec<&'static str>) -> (chosen: Option<&'static str>)
    ensures
        chosen is None <==> items@.len() == 0,
        chosen matches Some(text) ==> slices(items@).contains(text@),
{
    items.as_slice().choose(&mut rand::thread_rng()).copied()
}

/// The roast that was picked, or the fallback where none was.
pub fn roast_or_fallback(chosen: Option<&str>) -> (roast: String)
    ensures
        roast@ == match chosen {
            Some(text) => text@,
            None => roast_fallback(),
        },
{
    match chosen {
        Some(text) => text.to_owned(),
        None => "You're doing great! (I couldn't find anything to roast) 😇".to_owned(),
    }
}

/// One fact, with the emoji to show beside it.
#[derive(Debug)]
pub struct FunFact {
    pub fact: String,
    pub emoji: String,
}

/// What a vector of facts holds: each fact's text and emoji.
pub open spec fn fact_texts(facts: Seq<FunFact>) -> Seq<(Seq<char>, Seq<char>)> {
    Seq::new(facts.len(), |i: int| (facts[i].fact@, facts[i].emoji@))
}

/// The number of records and of distinct first tokens among them.
pub struct CommandVariety {
    pub total_commands: usize,
    pub unique_commands: usize,
}

/// Nanoseconds from `earlier` to `later`; negative where `later` is the earlier one.
fn elapsed(later: &Timestamp, earlier: &Timestamp) -> (gap: i128)
    ensures
        gap == later.instant() - earlier.instant(),
{
    let secs: i128 = later.secs as i128 - earlier.secs as i128;
    let nanos: i128 = later.nanos as i128 - earlier.nanos as i128;
    secs * 1_000_000_000 + nanos
}

/// Derives the summaries from a sequence of history records.
pub struct FunAnalyzer {
    entries: Vec<HistoryEntry>,
}

impl FunAnalyzer {
    /// The records under analysis.
    pub closed spec fn records(&self) -> Seq<HistoryEntry> {
        self.entries@
    }

    /// An analyzer that summarizes the given records, in the order given.
    pub fn new(entries: Vec<HistoryEntry>) -> (analyzer: Self)
        ensures
            analyzer.records() == entries@,
    {
        FunAnalyzer { entries }
    }

    /// The longest session that ended within the records, or `None` where
    /// there is no record. A session is a run of records in which each comes
    /// less than an hour after the one before; its length is the time from
    /// its first record to its last. The run that is still open at the last
    /// record is not counted.
    pub fn find_longest_session(&self) -> (longest: Option<TimeSpan>)
        ensures
            is_longest_session(self.records(), longest),
    {
        if self.entries.len() == 0 {
            return None;
        }
        let ghost all = instants(self.records());
        let ghost low = i64::MIN * 1_000_000_000;
        let ghost high = i64::MAX * 1_000_000_000 + u32::MAX;
        let mut longest: i128 = 0;
        let mut current: i128 = 0;
        let mut last: Option<Timestamp> = None;
        let mut i: usize = 0;
        while i < self.entries.len()
            invariant
                i <= self.entries.len(),
                all == instants(self.records()),
                low == i64::MIN * 1_000_000_000,
                high == i64::MAX * 1_000_000_000 + u32::MAX,
                longest == session_scan(all.take(i as int)).longest,
                current == session_scan(all.take(i as int)).current,
                i == 0 ==> last is None,
                i > 0 ==> last == Some(self.entries@[i - 1].timestamp),
            decreases self.entries.len() - i,
        {
            let ghost seen = all.take(i as int);
            let ghost next = all.take(i + 1);
            proof {
                assert(next.drop_last() =~= seen);
                assert(next.last() == self.entries@[i as int].timestamp.instant());
                assert forall|k: int| 0 <= k < next.len() implies low <= #[trigger] next[k]
                    <= high by {
                    assert(next[k] == self.entries@[k].timestamp.instant());
                }
                assert forall|k: int| 0 <= k < seen.len() implies low <= #[trigger] seen[k]
                    <= high by {
                    assert(seen[k] == next[k]);
                }
                lemma_session_within_span(seen, low, high);
                lemma_session_within_span(next, low, high);
            }
            let timestamp = self.entries[i].timestamp;
            match last {
                Some(previous) => {
                    let gap = elapsed(&timestamp, &previous);
                    if gap < SESSION_GAP_NANOS {
                        current = current + gap;
                    } else {
                        if current > longest {
                            longest = current;
                        }
                        current = 0;
                    }
                },
                None => {},
            }
            last = Some(timestamp);
            i += 1;
        }
        proof {
            assert(all.take(self.entries.len() as int) =~= all);
            assert forall|k: int| 0 <= k < all.len() implies low <= #[trigger] all[k] <= high by {
                assert(all[k] == self.entries@[k].timestamp.instant());
            }
            lemma_session_within_span(all, low, high);
        }
        Some(TimeSpan { nanos: longest as u128 })
    }

    /// The hour of day at which the most records fall, with the number of
    /// those records, or `None` where there is no record. Of several hours
    /// with that number, the one that a record shows first.
    pub fn most_productive_hour(&self) -> (busiest: Option<(u32, usize)>)
        ensures
            is_busiest_hour(self.records(), busiest),
    {
        let ghost all = hours(self.records());
        let mut counts: HashMap<u32, usize> = HashMap::new();
        let mut i: usize = 0;
        while i < self.entries.len()
            invariant
                i <= self.entries.len(),
                all == hours(self.records()),
                forall|h: u32|
                    counts@.contains_key(h) ==> #[trigger] counts@[h] == occurrences(
                        all.take(i as int),
                        h,
                    ),
                forall|h: u32|
                    !counts@.contains_key(h) ==> #[trigger] occurrences(all.take(i as int), h)
                        == 0,
            decreases self.entries.len() - i,
        {
            let hour = self.entries[i].timestamp.hour;
            proof {
                assert(all.take(i + 1).drop_last() =~= all.take(i as int));
                assert(all.take(i + 1).last() == hour);
                lemma_occurrences_bounds(all.take(i as int), hour);
            }
            let seen: usize = match counts.get(&hour) {
                Some(n) => *n,
                None => 0,
            };
            let ghost before = counts@;
            counts.insert(hour, seen + 1);
            proof {
                assert forall|h: u32| !counts@.contains_key(h) implies #[trigger] occurrences(
                    all.take(i + 1),
                    h,
                ) == 0 by {
                    assert(!before.contains_key(h));
                    assert(occurrences(all.take(i as int), h) == 0);
                }
                assert forall|h: u32| counts@.contains_key(h) implies #[trigger] counts@[h]
                    == occurrences(all.take(i + 1), h) by {
                    if h != hour {
                        assert(before.contains_key(h));
                        assert(before[h] == occurrences(all.take(i as int), h));
                    }
                }
            }
            i += 1;
        }
        proof {
            assert(all.take(self.entries.len() as int) =~= all);
        }
        if self.entries.len() == 0 {
            return None;
        }
        let ghost ranked = hour_counts(all);
        let mut best_hour: u32 = self.entries[0].timestamp.hour;
        let mut best_count: usize = match counts.get(&best_hour) {
            Some(n) => *n,
            None => 0,
        };
        let ghost mut best: int = 0;
        let mut j: usize = 1;
        proof {
            assert(ranked.take(1).len() == 1);
        }
        while j < self.entries.len()
            invariant
                1 <= j <= self.entries.len(),
                all == hours(self.records()),
                ranked == hour_counts(all),
                forall|h: u32|
                    counts@.contains_key(h) ==> #[trigger] counts@[h] == occurrences(all, h),
                forall|h: u32| !counts@.contains_key(h) ==> #[trigger] occurrences(all, h) == 0,
                0 <= best < j,
                best == first_maximum(ranked.take(j as int)),
                best_hour == all[best],
                best_count == occurrences(all, best_hour),
            decreases self.entries.len() - j,
        {
            let hour = self.entries[j].timestamp.hour;
            proof {
                assert(ranked.take(j + 1).drop_last() =~= ranked.take(j as int));
                assert(ranked.take(j + 1).last() == occurrences(all, hour));
                assert(ranked.take(j + 1)[best] == occurrences(all, best_hour));
            }
            let count: usize = match counts.get(&hour) {
                Some(n) => *n,
                None => 0,
            };
            if count > best_count {
                best_hour = hour;
                best_count = count;
                proof {
                    best = j as int;
                }
            }
            j += 1;
        }
        proof {
            assert(ranked.take(self.entries.len() as int) =~= ranked);
        }
        Some((best_hour, best_count))
    }

    /// The number of records, and the number of distinct first tokens among
    /// their commands (the empty token counts as one, where a record has no
    /// command name).
    pub fn command_variety(&self) -> (variety: CommandVariety)
        ensures
            variety.total_commands == self.records().len(),
            variety.unique_commands == first_tokens(self.records()).to_set().len(),
    {
        let tokens = tokens_of(&self.entries);
        let unique = tally(&tokens);
        proof {
            lemma_distinct_len_is_cardinality(first_tokens(self.records()));
            assert(counted(unique@).len() == counts_of(first_tokens(self.records())).len());
        }
        CommandVariety { total_commands: self.entries.len(), unique_commands: unique.len() }
    }

    /// The facts about this history: the longest session and the busiest hour
    /// where there is any record, and always the variety of commands.
    pub fn generate_fun_facts(&self) -> (facts: Vec<FunFact>)
        ensures
            fact_texts(facts@) == fun_facts(self.records()),
    {
        let mut facts: Vec<FunFact> = Vec::new();
        match self.find_longest_session() {
            Some(session) => {
                let mut fact = "Your longest coding session was ".to_owned();
                push_decimal(&mut fact, session.num_hours());
                fact.append(" hours ");
                push_decimal(&mut fact, session.num_minutes() % 60);
                fact.append(" minutes");
                facts.push(FunFact { fact, emoji: "🏃".to_owned() });
            },
            None => {},
        }
        match self.most_productive_hour() {
            Some((hour, count)) => {
                let mut fact = "You're most productive at ".to_owned();
                push_decimal(&mut fact, hour as u128);
                fact.append(":00 with ");
                push_decimal(&mut fact, count as u128);
                fact.append(" commands");
                facts.push(FunFact { fact, emoji: "⏰".to_owned() });
            },
            None => {},
        }
        let variety = self.command_variety();
        let mut fact = "You've used ".to_owned();
        push_decimal(&mut fact, variety.unique_commands as u128);
        fact.append(" unique commands out of ");
        push_decimal(&mut fact, variety.total_commands as u128);
        fact.append(" total executions");
        facts.push(FunFact { fact, emoji: "🎭".to_owned() });
        proof {
            assert(fact_texts(facts@) =~= fun_facts(self.records()));
        }
        facts
    }

    /// One of the roasts, picked at random.
    pub fn generate_roast(&self) -> (roast: String)
        ensures
            roast_table().contains(roast@),
    {
        let mut roasts: Vec<&'static str> = Vec::new();
        roasts.push(
            "I see you're still typing 'gut status' instead of 'git status'. Maybe it's time for a typing course? 😏",
        );
        roasts.push("Wow, another 'sudo !!' - planning ahead isn't your strong suit, is it? 😅");
        roasts.push(
            "You've used 'vim' and immediately ':q' so many times. VS Code is waiting for you... 🎯",
        );
        roasts.push(
            "The number of times you've run 'npm install' without '--save' is concerning. 📦",
        );
        roasts.push(
            "Your command history suggests you're in a very committed relationship with Stack Overflow. 💑",
        );
        proof {
            assert(slices(roasts@) =~= roast_table());
        }
        roast_or_fallback(choose_text(&roasts))
    }
}

/// What `find_longest_session` promises of its answer for these records.
pub open spec fn is_longest_session(records: Seq<HistoryEntry>, longest: Option<TimeSpan>) -> bool {
    &&& longest is Some <==> records.len() > 0
    &&& longest matches Some(span) ==> longest_session(instants(records)) == Some(
        span.nanos as int,
    )
}

/// What `most_productive_hour` promises of its answer for these records.
pub open spec fn is_busiest_hour(records: Seq<HistoryEntry>, busiest: Option<(u32, usize)>) -> bool {
    match busiest_hour(hours(records)) {
        Some((hour, count)) => busiest == Some((hour, count as usize)) && count <= usize::MAX,
        None => busiest is None,
    }
}

/// Summarizing the same records again gives the same summaries: the longest
/// session, the busiest hour, the variety and the facts are fixed by the
/// records alone. (The roast is picked at random, and is not.)
pub proof fn lemma_summaries_are_repeatable(
    records: Seq<HistoryEntry>,
    sessions: (Option<TimeSpan>, Option<TimeSpan>),
    busiest: (Option<(u32, usize)>, Option<(u32, usize)>),
    varieties: (CommandVariety, CommandVariety),
    facts: (Seq<FunFact>, Seq<FunFact>),
)
    requires
        is_longest_session(records, sessions.0),
        is_longest_session(records, sessions.1),
        is_busiest_hour(records, busiest.0),
        is_busiest_hour(records, busiest.1),
        varieties.0.total_commands == records.len(),
        varieties.1.total_commands == records.len(),
        varieties.0.unique_commands == first_tokens(records).to_set().len(),
        varieties.1.unique_commands == first_tokens(records).to_set().len(),
        fact_texts(facts.0) == fun_facts(records),
        fact_texts(facts.1) == fun_facts(records),
    ensures
        sessions.0 == sessions.1,
        busiest.0 == busiest.1,
        varieties.0 == varieties.1,
        fact_texts(facts.0) == fact_texts(facts.1),
{
}

} // verus!
