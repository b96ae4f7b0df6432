//! Auditing a history for risky commands and likely typos.

use fuzzy_matcher::skim::SkimMatcherV2;
use fuzzy_matcher::FuzzyMatcher;
use vstd::prelude::*;
use vstd::string::*;
use crate::history::{command_texts, first_tokens, tokens_of, HistoryEntry};
use crate::tally::{
    at_least, counted, counts_of, distinct, keep_long, lemma_distinct_is_a_set, occurrences,
    slices, tally, texts, Counted,
};
use crate::text::{chars_of, contains_chars, has_substring, same_text};

verus! {

/// How risky a command is.
#[derive(Debug, Clone, Copy, PartialEq, Eq, Structural)]
pub enum RiskLevel {
    Low,
    Medium,
    High,
}

/// A command that one of the risk rules flags.
#[derive(Debug)]
pub struct DangerousCommand {
    pub command: String,
    pub occurrences: usize,
    pub risk_level: RiskLevel,
    pub suggestion: String,
}

/// The risk tier of a raw command text, by the first rule that matches:
/// forced recursive deletion is high risk; `sudo` outside a package manager is
/// medium risk; discarding all output is low risk. A command that no rule
/// matches has no tier.
pub open spec fn risk_of(command: Seq<char>) -> Option<RiskLevel> {
    if has_substring(command, "rm -rf"@) {
        Some(RiskLevel::High)
    } else if has_substring(command, "sudo"@) && !has_substring(command, "apt"@) && !has_substring(
        command,
        "brew"@,
    ) {
        Some(RiskLevel::Medium)
    } else if has_substring(command, "> /dev/null 2>&1"@) {
        Some(RiskLevel::Low)
    } else {
        None
    }
}

/// The advice that goes with a risk tier.
pub open spec fn suggestion_text(level: RiskLevel) -> Seq<char> {
    match level {
        RiskLevel::High => "Use 'trash' command or add '-i' flag for interactive deletion"@,
        RiskLevel::Medium => "Consider using 'sudo -E' or creating a proper service"@,
        RiskLevel::Low => "Consider proper logging instead of discarding output"@,
    }
}

/// A flagged command as plain values: its text, the number of records that
/// hold it, its risk tier and the advice for that tier.
pub type Danger = (Seq<char>, nat, RiskLevel, Seq<char>);

/// What a vector of flagged commands holds.
pub open spec fn danger_view(found: Seq<DangerousCommand>) -> Seq<Danger> {
    Seq::new(
        found.len(),
        |i: int|
            (found[i].command@, found[i].occurrences as nat, found[i].risk_level, found[i].suggestion@),
    )
}

/// Those of the counted commands that have a risk tier, in order, each with
/// its count, its tier and the advice for the tier.
pub open spec fn dangers_among(entries: Seq<Counted>) -> Seq<Danger>
    decreases entries.len(),
{
    if entries.len() == 0 {
        Seq::empty()
    } else {
        dangers_among(entries.drop_last()) + match risk_of(entries.last().0) {
            Some(level) => seq![(entries.last().0, entries.last().1, level, suggestion_text(level))],
            None => Seq::empty(),
        }
    }
}

/// The flagged commands of a history: each distinct raw command that has a
/// risk tier, in order of first appearance, with the number of records that
/// hold exactly that text.
pub open spec fn dangerous_commands(commands: Seq<Seq<char>>) -> Seq<Danger> {
    dangers_among(counts_of(commands))
}

/// Every flagged command is a command of the history that a rule matches,
/// counted over the whole history; a command that no rule matches is never
/// reported.
pub proof fn lemma_dangers_are_flagged(commands: Seq<Seq<char>>)
    ensures
        forall|i: int|
            0 <= i < dangerous_commands(commands).len() ==> {
                let danger = #[trigger] dangerous_commands(commands)[i];
                &&& commands.contains(danger.0)
                &&& danger.1 == occurrences(commands, danger.0)
                &&& risk_of(danger.0) == Some(danger.2)
                &&& danger.3 == suggestion_text(danger.2)
            },
{
    let entries = counts_of(commands);
    lemma_dangers_among(entries);
    lemma_distinct_is_a_set(commands);
    assert forall|i: int| 0 <= i < dangerous_commands(commands).len() implies {
        let danger = #[trigger] dangerous_commands(commands)[i];
        &&& commands.contains(danger.0)
        &&& danger.1 == occurrences(commands, danger.0)
        &&& risk_of(danger.0) == Some(danger.2)
        &&& danger.3 == suggestion_text(danger.2)
    } by {
        let danger = dangerous_commands(commands)[i];
        assert(entries.contains((danger.0, danger.1)));
        let k = choose|k: int| 0 <= k < entries.len() && entries[k] == (danger.0, danger.1);
        assert(distinct(commands)[k] == danger.0);
        assert(distinct(commands).contains(danger.0));
    }
}

proof fn lemma_dangers_among(entries: Seq<Counted>)
    ensures
        forall|i: int|
            0 <= i < dangers_among(entries).len() ==> {
                let danger = #[trigger] dangers_among(entries)[i];
                &&& entries.contains((danger.0, danger.1))
                &&& risk_of(danger.0) == Some(danger.2)
                &&& danger.3 == suggestion_text(danger.2)
            },
    decreases entries.len(),
{
    if entries.len() > 0 {
        let front = entries.drop_last();
        lemma_dangers_among(front);
        assert forall|i: int| 0 <= i < dangers_among(entries).len() implies {
            let danger = #[trigger] dangers_among(entries)[i];
            &&& entries.contains((danger.0, danger.1))
            &&& risk_of(danger.0) == Some(danger.2)
            &&& danger.3 == suggestion_text(danger.2)
        } by {
            let danger = dangers_among(entries)[i];
            if i < dangers_among(front).len() {
                assert(danger == dangers_among(front)[i]);
                assert(front.contains((danger.0, danger.1)));
                let k = choose|k: int| 0 <= k < front.len() && front[k] == (danger.0, danger.1);
                assert(entries[k] == (danger.0, danger.1));
            } else {
                assert(entries[entries.len() - 1] == (danger.0, danger.1));
            }
        }
    }
}

/// A token that may be a misspelling of a well-known command.
#[derive(Debug)]
pub struct TypoSuggestion {
    pub typed: String,
    pub meant: String,
    pub count: usize,
}

/// A suggestion as plain values: the token typed, the command meant, and the
/// number of records that typed it.
pub type Typo = (Seq<char>, Seq<char>, nat);

/// What a vector of suggestions holds.
pub open spec fn typo_view(found: Seq<TypoSuggestion>) -> Seq<Typo> {
    Seq::new(found.len(), |i: int| (found[i].typed@, found[i].meant@, found[i].count as nat))
}

/// The well-known commands that a typed token is compared with.
pub open spec fn vocabulary() -> Seq<Seq<char>> {
    seq![
        "ls"@,
        "cd"@,
        "git"@,
        "docker"@,
        "npm"@,
        "yarn"@,
        "cargo"@,
        "python"@,
        "pip"@,
        "node"@,
        "vim"@,
        "code"@,
    ]
}

/// The score that the fuzzy matcher gives for finding `pattern` in `choice`,
/// or `None` where it finds no match.
pub uninterp spec fn skim_score(choice: Seq<char>, pattern: Seq<char>) -> Option<i64>;

/// Calls `fuzzy_matcher::FuzzyMatcher::fuzzy_match` on a
/// `fuzzy_matcher::skim::SkimMatcherV2` made by `default()`. The result
/// depends on the two texts alone; nothing is proved of it, and it is, by
/// definition, `skim_score` of the two texts.
#[verifier::external_body]
fn fuzzy_score(choice: &str, pattern: &str) -> (score: Option<i64>)
    ensures
        score == skim_score(choice@, pattern@),
{
    SkimMatcherV2::default().fuzzy_match(choice, pattern)
}

/// Whether `typed` counts as a misspelling of `word`: the two differ, and the
/// fuzzy matcher finds `word` in `typed` with any score at all.
pub open spec fn is_typo_of(typed: Seq<char>, word: Seq<char>) -> bool {
    typed != word && skim_score(typed, word) is Some
}

/// Whether the fuzzy matcher found a match, given its answer: any score
/// counts, whatever its value.
pub fn is_match(score: Option<i64>) -> (matched: bool)
    ensures
        matched == (score is Some),
{
    score.is_some()
}

/// The suggestions for one counted token: one for each of `words`, in order,
/// that the token counts as a misspelling of.
pub open spec fn suggestions_for(entry: Counted, words: Seq<Seq<char>>) -> Seq<Typo>
    decreases words.len(),
{
    if words.len() == 0 {
        Seq::empty()
    } else {
        suggestions_for(entry, words.drop_last()) + if is_typo_of(entry.0, words.last()) {
            seq![(entry.0, words.last(), entry.1)]
        } else {
            Seq::empty()
        }
    }
}

/// The suggestions for each counted token in turn.
pub open spec fn typos_among(entries: Seq<Counted>) -> Seq<Typo>
    decreases entries.len(),
{
    if entries.len() == 0 {
        Seq::empty()
    } else {
        typos_among(entries.drop_last()) + suggestions_for(entries.last(), vocabulary())
    }
}

/// The typo suggestions for the first tokens of a history. Tokens of fewer
/// than two characters are left out. Each distinct remaining token, in order
/// of first appearance, is paired with every command of the vocabulary that it
/// counts as a misspelling of, and carries the number of records that typed it.
pub open spec fn typos_of(tokens: Seq<Seq<char>>) -> Seq<Typo> {
    typos_among(counts_of(tokens.filter(at_least(2))))
}

proof fn lemma_suggestions_for(entry: Counted, words: Seq<Seq<char>>)
    ensures
        forall|i: int|
            0 <= i < suggestions_for(entry, words).len() ==> {
                let typo = #[trigger] suggestions_for(entry, words)[i];
                &&& typo.0 == entry.0
                &&& typo.2 == entry.1
                &&& words.contains(typo.1)
                &&& is_typo_of(typo.0, typo.1)
            },
    decreases words.len(),
{
    if words.len() > 0 {
        let front = words.drop_last();
        lemma_suggestions_for(entry, front);
        assert forall|i: int| 0 <= i < suggestions_for(entry, words).len() implies {
            let typo = #[trigger] suggestions_for(entry, words)[i];
            &&& typo.0 == entry.0
            &&& typo.2 == entry.1
            &&& words.contains(typo.1)
            &&& is_typo_of(typo.0, typo.1)
        } by {
            let typo = suggestions_for(entry, words)[i];
            if i < suggestions_for(entry, front).len() {
                assert(typo == suggestions_for(entry, front)[i]);
                assert(front.contains(typo.1));
                let k = choose|k: int| 0 <= k < front.len() && front[k] == typo.1;
                assert(words[k] == typo.1);
            } else {
                assert(words[words.len() - 1] == typo.1);
            }
        }
    }
}

proof fn lemma_typos_among(entries: Seq<Counted>)
    ensures
        forall|i: int|
            0 <= i < typos_among(entries).len() ==> {
                let typo = #[trigger] typos_among(entries)[i];
                &&& entries.contains((typo.0, typo.2))
                &&& vocabulary().contains(typo.1)
                &&& is_typo_of(typo.0, typo.1)
            },
    decreases entries.len(),
{
    if entries.len() > 0 {
        let front = entries.drop_last();
        lemma_typos_among(front);
        lemma_suggestions_for(entries.last(), vocabulary());
        assert forall|i: int| 0 <= i < typos_among(entries).len() implies {
            let typo = #[trigger] typos_among(entries)[i];
            &&& entries.contains((typo.0, typo.2))
            &&& vocabulary().contains(typo.1)
            &&& is_typo_of(typo.0, typo.1)
        } by {
            let typo = typos_among(entries)[i];
            let n = typos_among(front).len();
            if i < n {
                assert(typo == typos_among(front)[i]);
                assert(front.contains((typo.0, typo.2)));
                let k = choose|k: int| 0 <= k < front.len() && front[k] == (typo.0, typo.2);
                assert(entries[k] == (typo.0, typo.2));
            } else {
                assert(typo == suggestions_for(entries.last(), vocabulary())[i - n]);
                assert(entries[entries.len() - 1] == (typo.0, typo.2));
            }
        }
    }
}

/// What every typo suggestion is: a token of at least two characters that some
/// record typed, with the number of records that typed it, and a command of
/// the vocabulary that differs from the token and that the fuzzy matcher finds
/// in it. So no command is ever suggested as a misspelling of itself.
pub proof fn lemma_typos_are_genuine(tokens: Seq<Seq<char>>)
    ensures
        forall|i: int|
            0 <= i < typos_of(tokens).len() ==> {
                let typo = #[trigger] typos_of(tokens)[i];
                &&& typo.0 != typo.1
                &&& typo.0.len() >= 2
                &&& tokens.contains(typo.0)
                &&& typo.2 == occurrences(tokens.filter(at_least(2)), typo.0)
                &&& vocabulary().contains(typo.1)
                &&& skim_score(typo.0, typo.1) is Some
            },
{
    let candidates = tokens.filter(at_least(2));
    let entries = counts_of(candidates);
    lemma_typos_among(entries);
    lemma_distinct_is_a_set(candidates);
    assert forall|i: int| 0 <= i < typos_of(tokens).len() implies {
        let typo = #[trigger] typos_of(tokens)[i];
        &&& typo.0 != typo.1
        &&& typo.0.len() >= 2
        &&& tokens.contains(typo.0)
        &&& typo.2 == occurrences(tokens.filter(at_least(2)), typo.0)
        &&& vocabulary().contains(typo.1)
        &&& skim_score(typo.0, typo.1) is Some
    } by {
        let typo = typos_of(tokens)[i];
        assert(entries.contains((typo.0, typo.2)));
        let k = choose|k: int| 0 <= k < entries.len() && entries[k] == (typo.0, typo.2);
        assert(distinct(candidates)[k] == typo.0);
        assert(distinct(candidates).contains(typo.0));
        assert(candidates.contains(typo.0));
        tokens.lemma_filter_contains_rev(at_least(2), typo.0);
        let m = choose|m: int| 0 <= m < candidates.len() && candidates[m] == typo.0;
        tokens.lemma_filter_pred(at_least(2), m);
    }
}

/// The well-known commands, as the analyzer compares against them.
fn vocabulary_words() -> (words: Vec<&'static str>)
    ensures
        slices(words@) == vocabulary(),
{
    let mut words: Vec<&'static str> = Vec::new();
    words.push("ls");
    words.push("cd");
    words.push("git");
    words.push("docker");
    words.push("npm");
    words.push("yarn");
    words.push("cargo");
    words.push("python");
    words.push("pip");
    words.push("node");
    words.push("vim");
    words.push("code");
    proof {
        assert(slices(words@) =~= vocabulary());
    }
    words
}

/// Classifies one raw command text.
pub fn classify(command: &str) -> (level: Option<RiskLevel>)
    ensures
        level == risk_of(command@),
{
    let text = chars_of(command);
    if contains_chars(&text, &chars_of("rm -rf")) {
        Some(RiskLevel::High)
    } else if contains_chars(&text, &chars_of("sudo")) && !contains_chars(&text, &chars_of("apt"))
        && !contains_chars(&text, &chars_of("brew")) {
        Some(RiskLevel::Medium)
    } else if contains_chars(&text, &chars_of("> /dev/null 2>&1")) {
        Some(RiskLevel::Low)
    } else {
        None
    }
}

/// The advice that goes with a risk tier.
pub fn suggestion_for(level: RiskLevel) -> (advice: String)
    ensures
        advice@ == suggestion_text(level),
{
    match level {
        RiskLevel::High => "Use 'trash' command or add '-i' flag for interactive deletion".to_string(),
        RiskLevel::Medium => "Consider using 'sudo -E' or creating a proper service".to_string(),
        RiskLevel::Low => "Consider proper logging instead of discarding output".to_string(),
    }
}

/// Audits a sequence of history records.
pub struct AuditAnalyzer {
    entries: Vec<HistoryEntry>,
}

impl AuditAnalyzer {
    /// The records under audit.
    pub closed spec fn records(&self) -> Seq<HistoryEntry> {
        self.entries@
    }

    /// An analyzer that audits the given records, in the order given.
    pub fn new(entries: Vec<HistoryEntry>) -> (analyzer: Self)
        ensures
            analyzer.records() == entries@,
    {
        AuditAnalyzer { entries }
    }

    /// The raw command of every record, in order.
    fn commands(&self) -> (commands: Vec<String>)
        ensures
            texts(commands@) == command_texts(self.records()),
    {
        let mut commands: Vec<String> = Vec::new();
        let mut i: usize = 0;
        while i < self.entries.len()
            invariant
                i <= self.entries.len(),
                commands.len() == i,
                forall|k: int| 0 <= k < i ==> (#[trigger] commands@[k])@ == self.entries@[k].command@,
            decreases self.entries.len() - i,
        {
            commands.push(self.entries[i].command.clone());
            i += 1;
        }
        proof {
            assert(texts(commands@) =~= command_texts(self.records()));
        }
        commands
    }

    /// The likely typos among the first tokens of the records' commands. A
    /// token of fewer than two characters is never reported. Each other
    /// distinct token, in order of first appearance, is reported once for
    /// every command of the vocabulary that differs from it and that the fuzzy
    /// matcher finds in it, with the number of records that typed the token.
    pub fn find_typos(&self) -> (found: Vec<TypoSuggestion>)
        ensures
            typo_view(found@) == typos_of(first_tokens(self.records())),
            forall|i: int|
                0 <= i < found@.len() ==> (#[trigger] found@[i]).typed@ != found@[i].meant@
                    && vocabulary().contains(found@[i].meant@),
    {
        let tokens = tokens_of(&self.entries);
        let candidates = keep_long(&tokens, 2);
        let counts = tally(&candidates);
        let words = vocabulary_words();
        let ghost entries = counted(counts@);
        let ghost known = slices(words@);
        let mut found: Vec<TypoSuggestion> = Vec::new();
        let mut i: usize = 0;
        proof {
            assert(typo_view(found@) =~= typos_among(entries.take(0)));
        }
        while i < counts.len()
            invariant
                i <= counts.len(),
                entries == counted(counts@),
                known == slices(words@),
                known == vocabulary(),
                typo_view(found@) == typos_among(entries.take(i as int)),
            decreases counts.len() - i,
        {
            let ghost done = typos_among(entries.take(i as int));
            let ghost entry = entries[i as int];
            let mut j: usize = 0;
            proof {
                assert(entries.take(i + 1).drop_last() =~= entries.take(i as int));
                assert(entries.take(i + 1).last() == entry);
                assert(done + suggestions_for(entry, known.take(0)) =~= done);
            }
            while j < words.len()
                invariant
                    i < counts.len(),
                    j <= words.len(),
                    entries == counted(counts@),
                    entry == entries[i as int],
                    known == slices(words@),
                    typo_view(found@) == done + suggestions_for(entry, known.take(j as int)),
                decreases words.len() - j,
            {
                let ghost earlier = suggestions_for(entry, known.take(j as int));
                let ghost before = typo_view(found@);
                proof {
                    assert(known.take(j + 1).drop_last() =~= known.take(j as int));
                    assert(known.take(j + 1).last() == words@[j as int]@);
                }
                let typed = counts[i].0.as_str();
                let word: &str = words[j];
                if !same_text(typed, word) && is_match(fuzzy_score(typed, word)) {
                    found.push(
                        TypoSuggestion {
                            typed: counts[i].0.clone(),
                            meant: word.to_owned(),
                            count: counts[i].1,
                        },
                    );
                    proof {
                        let typo = (entry.0, words@[j as int]@, entry.1);
                        assert(typo_view(found@) =~= before.push(typo));
                        assert(before.push(typo) =~= done + (earlier + seq![typo]));
                    }
                } else {
                    proof {
                        assert(earlier + Seq::<Typo>::empty() =~= earlier);
                    }
                }
                j += 1;
            }
            proof {
                assert(known.take(words.len() as int) =~= known);
            }
            i += 1;
        }
        proof {
            assert(entries.take(counts.len() as int) =~= entries);
            lemma_typos_are_genuine(first_tokens(self.records()));
            assert forall|i: int| 0 <= i < found@.len() implies (#[trigger] found@[i]).typed@
                != found@[i].meant@ && vocabulary().contains(found@[i].meant@) by {
                assert(typo_view(found@)[i] == typos_of(first_tokens(self.records()))[i]);
            }
        }
        found
    }

    /// Every distinct raw command that a risk rule flags, in order of first
    /// appearance, with the number of records that hold exactly that text,
    /// its risk tier and the advice for that tier. Commands are compared as
    /// whole texts, so two invocations that differ in any character are
    /// reported apart. A command that no rule matches is not reported.
    pub fn find_dangerous_commands(&self) -> (found: Vec<DangerousCommand>)
        ensures
            danger_view(found@) == dangerous_commands(command_texts(self.records())),
            forall|i: int|
                0 <= i < found@.len() ==> risk_of((#[trigger] found@[i]).command@) == Some(
                    found@[i].risk_level,
                ),
    {
        let commands = self.commands();
        let counts = tally(&commands);
        let ghost entries = counted(counts@);
        let mut found: Vec<DangerousCommand> = Vec::new();
        let mut j: usize = 0;
        proof {
            assert(danger_view(found@) =~= dangers_among(entries.take(0)));
        }
        while j < counts.len()
            invariant
                j <= counts.len(),
                entries == counted(counts@),
                danger_view(found@) == dangers_among(entries.take(j as int)),
            decreases counts.len() - j,
        {
            let ghost before = danger_view(found@);
            proof {
                assert(entries.take(j + 1).drop_last() =~= entries.take(j as int));
                assert(entries.take(j + 1).last() == entries[j as int]);
            }
            match classify(counts[j].0.as_str()) {
                Some(risk_level) => {
                    found.push(
                        DangerousCommand {
                            command: counts[j].0.clone(),
                            occurrences: counts[j].1,
                            risk_level,
                            suggestion: suggestion_for(risk_level),
                        },
                    );
                    proof {
                        let danger = (
                            entries[j as int].0,
                            entries[j as int].1,
                            risk_level,
                            suggestion_text(risk_level),
                        );
                        assert(danger_view(found@) =~= before + seq![danger]);
                    }
                },
                None => {
                    proof {
                        assert(before + Seq::<Danger>::empty() =~= before);
                    }
                },
            }
            j += 1;
        }
        proof {
            assert(entries.take(counts.len() as int) =~= entries);
            lemma_dangers_are_flagged(command_texts(self.records()));
            assert forall|i: int| 0 <= i < found@.len() implies risk_of(
                (#[trigger] found@[i]).command@,
            ) == Some(found@[i].risk_level) by {
                assert(danger_view(found@)[i] == dangerous_commands(
                    command_texts(self.records()),
                )[i]);
            }
        }
        found
    }
}

/// Auditing the same records again gives the same reports: each report is
/// fixed by the records alone.
pub proof fn lemma_audit_is_repeatable(
    records: Seq<HistoryEntry>,
    typos: (Seq<TypoSuggestion>, Seq<TypoSuggestion>),
    dangers: (Seq<DangerousCommand>, Seq<DangerousCommand>),
)
    requires
        typo_view(typos.0) == typos_of(first_tokens(records)),
        typo_view(typos.1) == typos_of(first_tokens(records)),
        danger_view(dangers.0) == dangerous_commands(command_texts(records)),
        danger_view(dangers.1) == dangerous_commands(command_texts(records)),
    ensures
        typo_view(typos.0) == typo_view(typos.1),
        danger_view(dangers.0) == danger_view(dangers.1),
{
}

} // verus!
