//! Command frequencies: ranking, alias suggestions and daily totals.

use vstd::prelude::*;
use vstd::string::*;
use crate::history::{first_tokens, tokens_of, HistoryEntry};
use crate::tally::{
    at_least, counted, counts_of, distinct, keep_long, lemma_distinct_len_is_cardinality,
    occurrences, tally, texts, Counted,
};
use crate::text::same_text;

verus! {

/// What a vector of pairs of strings holds.
pub open spec fn paired(v: Seq<(String, String)>) -> Seq<(Seq<char>, Seq<char>)> {
    Seq::new(v.len(), |i: int| (v[i].0@, v[i].1@))
}

/// The tokens that name a command: all but the empty ones.
pub open spec fn named(tokens: Seq<Seq<char>>) -> Seq<Seq<char>> {
    tokens.filter(at_least(1))
}

/// Position of the entry that ranks first: the greatest count, and among
/// entries with that count the earliest.
pub open spec fn best_index(s: Seq<Counted>) -> int
    decreases s.len(),
{
    if s.len() <= 1 {
        0
    } else {
        let earlier = best_index(s.drop_last());
        if s.last().1 > s[earlier].1 {
            s.len() - 1
        } else {
            earlier
        }
    }
}

/// The `n` entries of `s` that rank first, best first: the best entry of `s`,
/// followed by the best `n - 1` of the others.
pub open spec fn top_n(s: Seq<Counted>, n: nat) -> Seq<Counted>
    decreases n,
{
    if n == 0 || s.len() == 0 {
        Seq::empty()
    } else {
        let best = best_index(s);
        seq![s[best]] + top_n(s.remove(best), (n - 1) as nat)
    }
}

/// The `limit` most frequent command names among `tokens`, most frequent first;
/// names with equal counts stand in order of first appearance. Empty tokens are
/// not counted.
pub open spec fn top_commands(tokens: Seq<Seq<char>>, limit: nat) -> Seq<Counted> {
    top_n(counts_of(named(tokens)), limit)
}

/// The shorthands on offer for a tool; none for a tool that the table lacks.
pub open spec fn aliases_for(tool: Seq<char>) -> Seq<(Seq<char>, Seq<char>)> {
    if tool == "git"@ {
        seq![("g"@, "git"@), ("gp"@, "git push"@), ("gl"@, "git pull"@)]
    } else if tool == "docker"@ {
        seq![("d"@, "docker"@), ("dc"@, "docker-compose"@)]
    } else if tool == "npm"@ {
        seq![("nr"@, "npm run"@), ("ni"@, "npm install"@)]
    } else {
        Seq::empty()
    }
}

/// The shorthands for every ranked tool that was used more than ten times, in
/// ranking order.
pub open spec fn alias_suggestions(ranked: Seq<Counted>) -> Seq<(Seq<char>, Seq<char>)>
    decreases ranked.len(),
{
    if ranked.len() == 0 {
        Seq::empty()
    } else {
        alias_suggestions(ranked.drop_last()) + if ranked.last().1 > 10 {
            aliases_for(ranked.last().0)
        } else {
            Seq::empty()
        }
    }
}

/// The best entry has the greatest count, and every entry before it has a
/// smaller one.
pub proof fn lemma_best_is_first_maximum(s: Seq<Counted>)
    requires
        s.len() > 0,
    ensures
        0 <= best_index(s) < s.len(),
        forall|i: int| 0 <= i < s.len() ==> (#[trigger] s[i]).1 <= s[best_index(s)].1,
        forall|i: int| 0 <= i < best_index(s) ==> (#[trigger] s[i]).1 < s[best_index(s)].1,
    decreases s.len(),
{
    if s.len() > 1 {
        let front = s.drop_last();
        lemma_best_is_first_maximum(front);
        assert forall|i: int| 0 <= i < s.len() implies (#[trigger] s[i]).1 <= s[best_index(s)].1 by {
            if i < front.len() {
                assert(front[i] == s[i]);
            }
        }
        assert forall|i: int| 0 <= i < best_index(s) implies (#[trigger] s[i]).1 < s[best_index(
            s,
        )].1 by {
            assert(front[i] == s[i]);
        }
    }
}

/// A ranking holds as many entries as were asked for, or all there are.
pub proof fn lemma_top_n_len(s: Seq<Counted>, n: nat)
    ensures
        top_n(s, n).len() == if n <= s.len() {
            n
        } else {
            s.len()
        },
    decreases n,
{
    if n != 0 && s.len() != 0 {
        lemma_best_is_first_maximum(s);
        lemma_top_n_len(s.remove(best_index(s)), (n - 1) as nat);
    }
}

/// Every entry of a ranking is an entry of what was ranked.
pub proof fn lemma_top_n_members(s: Seq<Counted>, n: nat)
    ensures
        forall|i: int| 0 <= i < top_n(s, n).len() ==> s.contains(#[trigger] top_n(s, n)[i]),
    decreases n,
{
    if n != 0 && s.len() != 0 {
        lemma_best_is_first_maximum(s);
        let best = best_index(s);
        let rest = s.remove(best);
        lemma_top_n_members(rest, (n - 1) as nat);
        assert forall|i: int| 0 <= i < top_n(s, n).len() implies s.contains(
            #[trigger] top_n(s, n)[i],
        ) by {
            if i == 0 {
                assert(s[best] == top_n(s, n)[0]);
            } else {
                let item = top_n(rest, (n - 1) as nat)[i - 1];
                assert(top_n(s, n)[i] == item);
                assert(rest.contains(item));
                let k = choose|k: int| 0 <= k < rest.len() && rest[k] == item;
                if k < best {
                    assert(s[k] == item);
                } else {
                    assert(s[k + 1] == item);
                }
            }
        }
    }
}

/// A ranking is in descending order of count.
pub proof fn lemma_top_n_descending(s: Seq<Counted>, n: nat)
    ensures
        forall|i: int, j: int|
            0 <= i <= j < top_n(s, n).len() ==> (#[trigger] top_n(s, n)[i]).1 >= (#[trigger] top_n(
                s,
                n,
            )[j]).1,
    decreases n,
{
    if n != 0 && s.len() != 0 {
        lemma_best_is_first_maximum(s);
        let best = best_index(s);
        let rest = s.remove(best);
        let tail = top_n(rest, (n - 1) as nat);
        lemma_top_n_descending(rest, (n - 1) as nat);
        lemma_top_n_members(s, n);
        assert forall|i: int, j: int| 0 <= i <= j < top_n(s, n).len() implies (#[trigger] top_n(
            s,
            n,
        )[i]).1 >= (#[trigger] top_n(s, n)[j]).1 by {
            if i == 0 {
                let item = top_n(s, n)[j];
                assert(s.contains(item));
                let k = choose|k: int| 0 <= k < s.len() && s[k] == item;
                assert(s[k].1 <= s[best].1);
            } else {
                assert(top_n(s, n)[i] == tail[i - 1]);
                assert(top_n(s, n)[j] == tail[j - 1]);
            }
        }
    }
}

/// When every record's first token is the same name, that name alone is
/// ranked, with the number of records as its count.
pub proof fn lemma_single_command(tokens: Seq<Seq<char>>, name: Seq<char>, limit: nat)
    requires
        tokens.len() > 0,
        limit >= 1,
        name.len() > 0,
        forall|i: int| 0 <= i < tokens.len() ==> tokens[i] == name,
    ensures
        top_commands(tokens, limit) == seq![(name, tokens.len())],
{
    lemma_filter_keeps_all(tokens, name);
    lemma_uniform_counts(tokens, name);
    let s = counts_of(tokens);
    assert(s =~= seq![(name, tokens.len())]);
    assert(best_index(s) == 0);
    assert(s.remove(0).len() == 0);
    assert(top_n(s.remove(0), (limit - 1) as nat) =~= Seq::<Counted>::empty());
    assert(top_n(s, limit) =~= seq![(name, tokens.len())]);
}

proof fn lemma_filter_keeps_all(tokens: Seq<Seq<char>>, name: Seq<char>)
    requires
        name.len() > 0,
        forall|i: int| 0 <= i < tokens.len() ==> tokens[i] == name,
    ensures
        named(tokens) == tokens,
    decreases tokens.len(),
{
    reveal(Seq::filter);
    let pred = at_least(1);
    if tokens.len() > 0 {
        let front = tokens.drop_last();
        assert forall|i: int| 0 <= i < front.len() implies front[i] == name by {
            assert(front[i] == tokens[i]);
        }
        lemma_filter_keeps_all(front, name);
        assert(pred(tokens.last()));
        assert(front.push(tokens.last()) =~= tokens);
    } else {
        assert(tokens.filter(pred) =~= tokens);
    }
}

proof fn lemma_uniform_counts(tokens: Seq<Seq<char>>, name: Seq<char>)
    requires
        tokens.len() > 0,
        forall|i: int| 0 <= i < tokens.len() ==> tokens[i] == name,
    ensures
        distinct(tokens) == seq![name],
        occurrences(tokens, name) == tokens.len(),
    decreases tokens.len(),
{
    let front = tokens.drop_last();
    if front.len() > 0 {
        assert forall|i: int| 0 <= i < front.len() implies front[i] == name by {
            assert(front[i] == tokens[i]);
        }
        lemma_uniform_counts(front, name);
        assert(seq![name][0] == name);
        assert(distinct(front).contains(name));
    } else {
        assert(distinct(front) =~= Seq::<Seq<char>>::empty());
        assert(distinct(tokens) =~= seq![name]);
        assert(occurrences(front, name) == 0);
    }
}

/// Position of the entry of `pool` that ranks first.
fn best_position(pool: &Vec<(String, usize)>) -> (best: usize)
    requires
        pool.len() > 0,
    ensures
        best == best_index(counted(pool@)),
        best < pool.len(),
{
    let ghost all = counted(pool@);
    let mut best: usize = 0;
    let mut i: usize = 1;
    proof {
        assert(all.take(1).len() == 1);
    }
    while i < pool.len()
        invariant
            1 <= i <= pool.len(),
            all == counted(pool@),
            best < i,
            best == best_index(all.take(i as int)),
        decreases pool.len() - i,
    {
        proof {
            assert(all.take(i + 1).drop_last() =~= all.take(i as int));
            assert(all.take(i + 1).last() == all[i as int]);
            assert(all.take(i + 1)[best as int] == all[best as int]);
        }
        if pool[i].1 > pool[best].1 {
            best = i;
        }
        i += 1;
    }
    proof {
        assert(all.take(pool.len() as int) =~= all);
    }
    best
}

/// Ranks the entries of `pool` and returns the first `limit` of them.
pub fn rank(pool: Vec<(String, usize)>, limit: usize) -> (top: Vec<(String, usize)>)
    ensures
        counted(top@) == top_n(counted(pool@), limit as nat),
{
    let ghost goal = top_n(counted(pool@), limit as nat);
    let mut pool = pool;
    let mut top: Vec<(String, usize)> = Vec::new();
    proof {
        assert(counted(top@) + goal =~= goal);
    }
    while top.len() < limit && pool.len() > 0
        invariant
            top.len() <= limit,
            counted(top@) + top_n(counted(pool@), (limit - top.len()) as nat) == goal,
        decreases pool.len(),
    {
        let ghost before = counted(pool@);
        let ghost ranked = counted(top@);
        let best = best_position(&pool);
        let item = pool.remove(best);
        top.push(item);
        proof {
            assert(counted(pool@) =~= before.remove(best as int));
            assert(counted(top@) =~= ranked + seq![before[best as int]]);
            assert(counted(top@) + top_n(counted(pool@), (limit - top.len()) as nat) =~= ranked
                + top_n(before, (limit - ranked.len()) as nat));
        }
    }
    proof {
        assert(top_n(counted(pool@), (limit - top.len()) as nat) =~= Seq::<Counted>::empty());
        assert(counted(top@) + Seq::<Counted>::empty() =~= counted(top@));
    }
    top
}

/// The shorthands on offer for `tool`.
pub fn tool_aliases(tool: &str) -> (aliases: Vec<(String, String)>)
    ensures
        paired(aliases@) == aliases_for(tool@),
{
    let mut aliases: Vec<(String, String)> = Vec::new();
    if same_text(tool, "git") {
        aliases.push(("g".to_string(), "git".to_string()));
        aliases.push(("gp".to_string(), "git push".to_string()));
        aliases.push(("gl".to_string(), "git pull".to_string()));
    } else if same_text(tool, "docker") {
        aliases.push(("d".to_string(), "docker".to_string()));
        aliases.push(("dc".to_string(), "docker-compose".to_string()));
    } else if same_text(tool, "npm") {
        aliases.push(("nr".to_string(), "npm run".to_string()));
        aliases.push(("ni".to_string(), "npm install".to_string()));
    }
    proof {
        assert(paired(aliases@) =~= aliases_for(tool@));
    }
    aliases
}

/// Totals for a span of history.
pub struct DailyStats {
    pub total_commands: usize,
    pub unique_commands: usize,
    pub top_tools: Vec<(String, usize)>,
}

/// Computes command frequencies over a sequence of history records.
pub struct StatsAnalyzer {
    entries: Vec<HistoryEntry>,
}

impl StatsAnalyzer {
    /// The records under analysis.
    pub closed spec fn records(&self) -> Seq<HistoryEntry> {
        self.entries@
    }

    /// An analyzer that analyzes the given records, in the order given.
    pub fn new(entries: Vec<HistoryEntry>) -> (analyzer: Self)
        ensures
            analyzer.records() == entries@,
    {
        StatsAnalyzer { entries }
    }

    /// The `limit` most frequent command names, most frequent first, each with
    /// its count. A record's command name is the first whitespace-delimited
    /// token of its command; records without one are not counted. Names with
    /// equal counts stand in the order in which they first appear.
    pub fn get_top_commands(&self, limit: usize) -> (top: Vec<(String, usize)>)
        ensures
            counted(top@) == top_commands(first_tokens(self.records()), limit as nat),
            top@.len() <= limit,
            forall|i: int, j: int|
                0 <= i <= j < top@.len() ==> (#[trigger] top@[i]).1 >= (#[trigger] top@[j]).1,
    {
        let tokens = tokens_of(&self.entries);
        let named = keep_long(&tokens, 1);
        let counts = tally(&named);
        let top = rank(counts, limit);
        proof {
            let ranked = counts_of(texts(named@));
            lemma_top_n_len(ranked, limit as nat);
            lemma_top_n_descending(ranked, limit as nat);
            assert(counted(top@).len() == top@.len());
            assert forall|i: int, j: int| 0 <= i <= j < top@.len() implies (#[trigger] top@[i]).1
                >= (#[trigger] top@[j]).1 by {
                assert(counted(top@)[i].1 == top@[i].1);
                assert(counted(top@)[j].1 == top@[j].1);
            }
        }
        top
    }

    /// Shorthands worth defining: for each of the ten most frequent command
    /// names that was used more than ten times, the shorthands that the table
    /// offers for it, as pairs of shorthand and full invocation.
    pub fn suggest_aliases(&self) -> (suggestions: Vec<(String, String)>)
        ensures
            paired(suggestions@) == alias_suggestions(
                top_commands(first_tokens(self.records()), 10),
            ),
    {
        let counts = self.get_top_commands(10);
        let ghost ranked = counted(counts@);
        let mut suggestions: Vec<(String, String)> = Vec::new();
        let mut i: usize = 0;
        proof {
            assert(paired(suggestions@) =~= alias_suggestions(ranked.take(0)));
        }
        while i < counts.len()
            invariant
                i <= counts.len(),
                ranked == counted(counts@),
                paired(suggestions@) == alias_suggestions(ranked.take(i as int)),
            decreases counts.len() - i,
        {
            proof {
                assert(ranked.take(i + 1).drop_last() =~= ranked.take(i as int));
                assert(ranked.take(i + 1).last() == ranked[i as int]);
            }
            if counts[i].1 > 10 {
                let mut aliases = tool_aliases(counts[i].0.as_str());
                let ghost before = paired(suggestions@);
                let ghost added = paired(aliases@);
                suggestions.append(&mut aliases);
                proof {
                    assert(paired(suggestions@) =~= before + added);
                }
            } else {
                proof {
                    assert(paired(suggestions@) + Seq::<(Seq<char>, Seq<char>)>::empty()
                        =~= paired(suggestions@));
                }
            }
            i += 1;
        }
        proof {
            assert(ranked.take(counts.len() as int) =~= ranked);
        }
        suggestions
    }

    /// The number of records, the number of distinct first tokens among them
    /// (the empty token counts as one, where a record has no command name),
    /// and the three most frequent command names.
    pub fn get_daily_stats(&self) -> (stats: DailyStats)
        ensures
            stats.total_commands == self.records().len(),
            stats.unique_commands == first_tokens(self.records()).to_set().len(),
            counted(stats.top_tools@) == top_commands(first_tokens(self.records()), 3),
    {
        let tokens = tokens_of(&self.entries);
        let unique = tally(&tokens);
        proof {
            lemma_distinct_len_is_cardinality(first_tokens(self.records()));
            assert(counted(unique@).len() == counts_of(first_tokens(self.records())).len());
        }
        DailyStats {
            total_commands: self.entries.len(),
            unique_commands: unique.len(),
            top_tools: self.get_top_commands(3),
        }
    }
}

/// Asking again over the same records gives the same answers: each answer is
/// fixed by the records, and the ranking by the limit as well.
pub proof fn lemma_stats_are_repeatable(
    records: Seq<HistoryEntry>,
    limit: usize,
    top: (Seq<(String, usize)>, Seq<(String, usize)>),
    aliases: (Seq<(String, String)>, Seq<(String, String)>),
    daily: (DailyStats, DailyStats),
)
    requires
        counted(top.0) == top_commands(first_tokens(records), limit as nat),
        counted(top.1) == top_commands(first_tokens(records), limit as nat),
        paired(aliases.0) == alias_suggestions(top_commands(first_tokens(records), 10)),
        paired(aliases.1) == alias_suggestions(top_commands(first_tokens(records), 10)),
        daily.0.total_commands == records.len(),
        daily.1.total_commands == records.len(),
        daily.0.unique_commands == first_tokens(records).to_set().len(),
        daily.1.unique_commands == first_tokens(records).to_set().len(),
        counted(daily.0.top_tools@) == top_commands(first_tokens(records), 3),
        counted(daily.1.top_tools@) == top_commands(first_tokens(records), 3),
    ensures
        counted(top.0) == counted(top.1),
        paired(aliases.0) == paired(aliases.1),
        daily.0.total_commands == daily.1.total_commands,
        daily.0.unique_commands == daily.1.unique_commands,
        counted(daily.0.top_tools@) == counted(daily.1.top_tools@),
{
}

} // verus!
