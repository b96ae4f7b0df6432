use timecraft::fun::{roast_or_fallback, FunAnalyzer, TimeSpan};
use timecraft::history::{CalendarDate, HistoryEntry, Timestamp};

const MINUTE: i64 = 60;
const HOUR: i64 = 3600;
const BASE: i64 = 1_700_000_000;

fn at(secs: i64, nanos: u32, hour: u32, command: &str) -> HistoryEntry {
    HistoryEntry {
        timestamp: Timestamp {
            secs,
            nanos,
            date: CalendarDate { year: 2023, month: 11, day: 14 },
            hour,
        },
        command: command.to_string(),
    }
}

fn at_seconds(seconds: &[i64]) -> FunAnalyzer {
    FunAnalyzer::new(seconds.iter().map(|s| at(*s, 0, 0, "ls")).collect())
}

fn at_hours(hours: &[u32]) -> FunAnalyzer {
    FunAnalyzer::new(hours.iter().map(|h| at(0, 0, *h, "ls")).collect())
}

fn seconds(n: i64) -> Option<TimeSpan> {
    Some(TimeSpan { nanos: n as u128 * 1_000_000_000 })
}

#[test]
fn longest_session_leaves_out_the_open_burst() {
    let analyzer = at_seconds(&[BASE, BASE + 30 * MINUTE, BASE + 30 * MINUTE + 90 * MINUTE]);
    let longest = analyzer.find_longest_session().unwrap();
    assert_eq!(longest, TimeSpan { nanos: 1_800_000_000_000 });
    assert_eq!(longest.num_minutes(), 30);
    assert_eq!(longest.num_hours(), 0);
    // Were the burst that is open at the end compared as well, the answer
    // would still be 30 minutes here; the next test tells the two apart.
}

#[test]
fn session_still_open_at_the_end_is_not_counted() {
    let analyzer = at_seconds(&[BASE, BASE + 10 * MINUTE, BASE + 20 * MINUTE, BASE + 70 * MINUTE]);
    assert_eq!(analyzer.find_longest_session(), seconds(0));
    let analyzer = at_seconds(&[
        BASE,
        BASE + 5 * MINUTE,
        BASE + 5 * MINUTE + 2 * HOUR,
        BASE + 5 * MINUTE + 2 * HOUR + 50 * MINUTE,
    ]);
    // A version that compared the last burst too would answer 50 minutes.
    assert_eq!(analyzer.find_longest_session(), seconds(5 * MINUTE));
}

#[test]
fn no_records_no_session() {
    assert_eq!(FunAnalyzer::new(Vec::new()).find_longest_session(), None);
    assert_eq!(at_seconds(&[BASE]).find_longest_session(), seconds(0));
}

#[test]
fn gap_of_exactly_one_hour_ends_a_session() {
    let analyzer = at_seconds(&[0, 59 * MINUTE, 59 * MINUTE + HOUR, 10 * HOUR]);
    assert_eq!(analyzer.find_longest_session(), seconds(59 * MINUTE));
    let analyzer = at_seconds(&[0, 59 * MINUTE, 59 * MINUTE + HOUR - 1, 10 * HOUR]);
    assert_eq!(analyzer.find_longest_session(), seconds(59 * MINUTE + HOUR - 1));
}

#[test]
fn longest_of_several_sessions() {
    let analyzer = at_seconds(&[
        0,
        10 * MINUTE,
        5 * HOUR,
        5 * HOUR + 40 * MINUTE,
        5 * HOUR + 80 * MINUTE,
        20 * HOUR,
        20 * HOUR + 15 * MINUTE,
        40 * HOUR,
    ]);
    let longest = analyzer.find_longest_session().unwrap();
    assert_eq!(longest, TimeSpan { nanos: 80 * 60 * 1_000_000_000 });
    assert_eq!(longest.num_hours(), 1);
    assert_eq!(longest.num_minutes(), 80);
    assert_eq!(longest.num_minutes() % 60, 20);
}

#[test]
fn records_out_of_order_count_as_the_same_burst() {
    let analyzer = at_seconds(&[BASE, BASE, BASE - 10 * MINUTE, BASE + 20 * MINUTE, BASE + 5 * HOUR]);
    assert_eq!(analyzer.find_longest_session(), seconds(20 * MINUTE));
    let analyzer = at_seconds(&[BASE, BASE - 3 * HOUR, BASE + HOUR]);
    assert_eq!(analyzer.find_longest_session(), seconds(0));
    let analyzer = at_seconds(&[BASE, BASE - 3 * HOUR, BASE - 3 * HOUR + 10 * MINUTE, BASE + HOUR]);
    assert_eq!(analyzer.find_longest_session(), seconds(0));
}

#[test]
fn sessions_are_measured_to_the_nanosecond() {
    let analyzer = FunAnalyzer::new(vec![
        at(100, 999_999_999, 0, "a"),
        at(101, 1, 0, "b"),
        at(101 + HOUR, 1, 0, "c"),
    ]);
    assert_eq!(analyzer.find_longest_session(), Some(TimeSpan { nanos: 2 }));
    let analyzer = FunAnalyzer::new(vec![
        at(0, 1, 0, "a"),
        at(HOUR, 0, 0, "b"),
        at(3 * HOUR, 0, 0, "c"),
    ]);
    assert_eq!(
        analyzer.find_longest_session(),
        Some(TimeSpan { nanos: 3_599_999_999_999 })
    );
}

#[test]
fn extreme_instants_do_not_overflow() {
    let analyzer = FunAnalyzer::new(vec![
        at(i64::MAX, u32::MAX, 0, "a"),
        at(i64::MIN, 0, 0, "b"),
        at(i64::MAX, u32::MAX, 0, "c"),
        at(i64::MIN, 0, 0, "d"),
        at(i64::MAX, 0, 0, "e"),
    ]);
    assert_eq!(analyzer.find_longest_session(), seconds(0));
}

#[test]
fn time_span_in_hours_and_minutes() {
    let span = TimeSpan { nanos: (2 * 3600 + 59 * 60 + 59) * 1_000_000_000 + 999_999_999 };
    assert_eq!(span.num_hours(), 2);
    assert_eq!(span.num_minutes(), 179);
    assert_eq!(TimeSpan { nanos: 0 }.num_hours(), 0);
    assert_eq!(TimeSpan { nanos: 3_600_000_000_000 }.num_hours(), 1);
    assert_eq!(TimeSpan { nanos: 59_999_999_999 }.num_minutes(), 0);
}

#[test]
fn busiest_hour() {
    assert_eq!(at_hours(&[]).most_productive_hour(), None);
    assert_eq!(at_hours(&[9]).most_productive_hour(), Some((9, 1)));
    assert_eq!(at_hours(&[9, 14, 14, 9, 14, 23]).most_productive_hour(), Some((14, 3)));
    assert_eq!(at_hours(&[0, 0, 23]).most_productive_hour(), Some((0, 2)));
}

#[test]
fn busiest_hour_on_a_tie_is_the_one_seen_first() {
    assert_eq!(at_hours(&[22, 8, 8, 22]).most_productive_hour(), Some((22, 2)));
    assert_eq!(at_hours(&[8, 22, 22, 8]).most_productive_hour(), Some((8, 2)));
    assert_eq!(at_hours(&[1, 2, 3]).most_productive_hour(), Some((1, 1)));
}

#[test]
fn command_variety_counts_distinct_first_tokens() {
    let analyzer = FunAnalyzer::new(vec![
        at(0, 0, 0, "git status"),
        at(0, 0, 0, "git push"),
        at(0, 0, 0, "ls"),
        at(0, 0, 0, ""),
        at(0, 0, 0, "   "),
    ]);
    let variety = analyzer.command_variety();
    assert_eq!(variety.total_commands, 5);
    assert_eq!(variety.unique_commands, 3);
    let variety = FunAnalyzer::new(Vec::new()).command_variety();
    assert_eq!(variety.total_commands, 0);
    assert_eq!(variety.unique_commands, 0);
}

#[test]
fn fun_facts_of_a_history() {
    let analyzer = FunAnalyzer::new(vec![
        at(0, 0, 9, "git status"),
        at(50 * MINUTE, 0, 9, "git push"),
        at(100 * MINUTE, 0, 10, "ls"),
        at(145 * MINUTE, 0, 11, "ls -la"),
        at(10 * HOUR, 0, 18, "make"),
        at(10 * HOUR + 5, 0, 18, "make test"),
        at(10 * HOUR + 9, 0, 18, "vim"),
    ]);
    let facts = analyzer.generate_fun_facts();
    let seen: Vec<(&str, &str)> = facts.iter().map(|f| (f.fact.as_str(), f.emoji.as_str())).collect();
    assert_eq!(
        seen,
        vec![
            ("Your longest coding session was 2 hours 25 minutes", "🏃"),
            ("You're most productive at 18:00 with 3 commands", "⏰"),
            ("You've used 4 unique commands out of 7 total executions", "🎭"),
        ]
    );
}

#[test]
fn fun_facts_of_nothing() {
    let facts = FunAnalyzer::new(Vec::new()).generate_fun_facts();
    assert_eq!(facts.len(), 1);
    assert_eq!(facts[0].fact, "You've used 0 unique commands out of 0 total executions");
    assert_eq!(facts[0].emoji, "🎭");
}

#[test]
fn fun_facts_of_one_record() {
    let facts = FunAnalyzer::new(vec![at(BASE, 0, 0, "ls")]).generate_fun_facts();
    assert_eq!(facts.len(), 3);
    assert_eq!(facts[0].fact, "Your longest coding session was 0 hours 0 minutes");
    assert_eq!(facts[1].fact, "You're most productive at 0:00 with 1 commands");
    assert_eq!(facts[2].fact, "You've used 1 unique commands out of 1 total executions");
}

#[test]
fn roast_is_one_of_the_table() {
    let table = [
        "I see you're still typing 'gut status' instead of 'git status'. Maybe it's time for a typing course? 😏",
        "Wow, another 'sudo !!' - planning ahead isn't your strong suit, is it? 😅",
        "You've used 'vim' and immediately ':q' so many times. VS Code is waiting for you... 🎯",
        "The number of times you've run 'npm install' without '--save' is concerning. 📦",
        "Your command history suggests you're in a very committed relationship with Stack Overflow. 💑",
    ];
    let analyzer = FunAnalyzer::new(Vec::new());
    let mut seen = [false; 5];
    for _ in 0..400 {
        let roast = analyzer.generate_roast();
        let place = table.iter().position(|r| *r == roast);
        assert!(place.is_some());
        seen[place.unwrap()] = true;
    }
    assert!(seen.iter().all(|s| *s));
}

#[test]
fn roast_falls_back_when_nothing_was_picked() {
    assert_eq!(roast_or_fallback(Some("anything")), "anything");
    assert_eq!(
        roast_or_fallback(None),
        "You're doing great! (I couldn't find anything to roast) 😇"
    );
}

#[test]
fn summaries_twice_give_the_same_answer() {
    let analyzer = FunAnalyzer::new(vec![
        at(0, 0, 9, "git status"),
        at(50 * MINUTE, 5, 9, "ls"),
        at(5 * HOUR, 0, 14, "ls"),
        at(5 * HOUR + 1, 0, 14, "cd"),
    ]);
    assert_eq!(analyzer.find_longest_session(), analyzer.find_longest_session());
    assert_eq!(analyzer.most_productive_hour(), analyzer.most_productive_hour());
    let first = analyzer.generate_fun_facts();
    let second = analyzer.generate_fun_facts();
    assert_eq!(first.len(), second.len());
    for i in 0..first.len() {
        assert_eq!(first[i].fact, second[i].fact);
        assert_eq!(first[i].emoji, second[i].emoji);
    }
}
