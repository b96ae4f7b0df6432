//! Counting how often each text occurs in a sequence, in order of first
//! appearance.

use vstd::prelude::*;
use vstd::string::*;

verus! {

/// A text with the number of times it occurs.
pub type Counted = (Seq<char>, nat);

/// How often `k` occurs in `s`.
pub open spec fn occurrences<K>(s: Seq<K>, k: K) -> nat
    decreases s.len(),
{
    if s.len() == 0 {
        0
    } else {
        occurrences(s.drop_last(), k) + if s.last() == k {
            1nat
        } else {
            0nat
        }
    }
}

/// The items of `s`, each once, in the order in which they first appear.
pub open spec fn distinct<K>(s: Seq<K>) -> Seq<K>
    decreases s.len(),
{
    if s.len() == 0 {
        Seq::empty()
    } else {
        let earlier = distinct(s.drop_last());
        if earlier.contains(s.last()) {
            earlier
        } else {
            earlier.push(s.last())
        }
    }
}

/// Position of the first greatest number of `counts`.
pub open spec fn first_maximum(counts: Seq<nat>) -> int
    decreases counts.len(),
{
    if counts.len() <= 1 {
        0
    } else {
        let earlier = first_maximum(counts.drop_last());
        if counts.last() > counts[earlier] {
            counts.len() - 1
        } else {
            earlier
        }
    }
}

/// The first maximum is at least every number, and more than every number
/// before it.
pub proof fn lemma_first_maximum(counts: Seq<nat>)
    requires
        counts.len() > 0,
    ensures
        0 <= first_maximum(counts) < counts.len(),
        forall|i: int| 0 <= i < counts.len() ==> #[trigger] counts[i] <= counts[first_maximum(counts)],
        forall|i: int|
            0 <= i < first_maximum(counts) ==> #[trigger] counts[i] < counts[first_maximum(counts)],
    decreases counts.len(),
{
    if counts.len() > 1 {
        let front = counts.drop_last();
        lemma_first_maximum(front);
        assert forall|i: int| 0 <= i < counts.len() implies #[trigger] counts[i]
            <= counts[first_maximum(counts)] by {
            if i < front.len() {
                assert(front[i] == counts[i]);
            }
        }
        assert forall|i: int| 0 <= i < first_maximum(counts) implies #[trigger] counts[i]
            < counts[first_maximum(counts)] by {
            assert(front[i] == counts[i]);
        }
    }
}

/// The texts that a vector of strings holds.
pub open spec fn texts(v: Seq<String>) -> Seq<Seq<char>> {
    Seq::new(v.len(), |i: int| v[i]@)
}

/// The texts that a vector of string slices holds.
pub open spec fn slices(v: Seq<&'static str>) -> Seq<Seq<char>> {
    Seq::new(v.len(), |i: int| v[i]@)
}

/// What a vector of counted texts holds.
pub open spec fn counted(v: Seq<(String, usize)>) -> Seq<Counted> {
    Seq::new(v.len(), |i: int| (v[i].0@, v[i].1 as nat))
}

/// Each distinct text of `keys`, in order of first appearance, with the number
/// of times it occurs.
pub open spec fn counts_of(keys: Seq<Seq<char>>) -> Seq<Counted> {
    Seq::new(distinct(keys).len(), |j: int| (distinct(keys)[j], occurrences(keys, distinct(keys)[j])))
}

/// The test that a text has at least `min` characters.
pub open spec fn at_least(min: nat) -> spec_fn(Seq<char>) -> bool {
    |t: Seq<char>| t.len() >= min
}

/// An item is counted at most once per position, and at least once exactly
/// when it occurs.
pub proof fn lemma_occurrences_bounds<K>(s: Seq<K>, k: K)
    ensures
        occurrences(s, k) <= s.len(),
        occurrences(s, k) > 0 <==> s.contains(k),
    decreases s.len(),
{
    if s.len() > 0 {
        let front = s.drop_last();
        lemma_occurrences_bounds(front, k);
        if s.last() == k {
            assert(s[s.len() - 1] == k);
        } else if front.contains(k) {
            let i = choose|i: int| 0 <= i < front.len() && front[i] == k;
            assert(s[i] == k);
        } else if s.contains(k) {
            let i = choose|i: int| 0 <= i < s.len() && s[i] == k;
            assert(front[i] == k);
        }
    }
}

/// `distinct` keeps exactly the items of its argument, and repeats none.
pub proof fn lemma_distinct_is_a_set<K>(s: Seq<K>)
    ensures
        distinct(s).no_duplicates(),
        distinct(s).len() <= s.len(),
        forall|k: K|
            #![trigger distinct(s).contains(k)]
            #![trigger s.contains(k)]
            distinct(s).contains(k) <==> s.contains(k),
    decreases s.len(),
{
    if s.len() > 0 {
        let front = s.drop_last();
        let earlier = distinct(front);
        lemma_distinct_is_a_set(front);
        assert forall|k: K|
            #![trigger distinct(s).contains(k)]
            #![trigger s.contains(k)]
            distinct(s).contains(k) <==> s.contains(k) by {
            if s.contains(k) {
                let i = choose|i: int| 0 <= i < s.len() && s[i] == k;
                if i < front.len() {
                    assert(front[i] == k);
                    assert(front.contains(k));
                    let j = choose|j: int| 0 <= j < earlier.len() && earlier[j] == k;
                    assert(distinct(s)[j] == k);
                } else if !earlier.contains(k) {
                    assert(distinct(s)[earlier.len() as int] == k);
                }
            }
            if distinct(s).contains(k) {
                let j = choose|j: int| 0 <= j < distinct(s).len() && distinct(s)[j] == k;
                if j < earlier.len() {
                    assert(earlier[j] == k);
                    assert(earlier.contains(k));
                    let i = choose|i: int| 0 <= i < front.len() && front[i] == k;
                    assert(s[i] == k);
                } else {
                    assert(s[s.len() - 1] == k);
                }
            }
        }
    }
}

/// The number of distinct items is the size of the set of items.
pub proof fn lemma_distinct_len_is_cardinality<K>(s: Seq<K>)
    ensures
        distinct(s).len() == s.to_set().len(),
{
    lemma_distinct_is_a_set(s);
    distinct(s).unique_seq_to_set();
    assert(distinct(s).to_set() =~= s.to_set());
}

/// Where `key` stands among `names`, if it does.
fn position_of(names: &Vec<String>, key: &String) -> (found: Option<usize>)
    ensures
        match found {
            Some(j) => j < names.len() && names@[j as int]@ == key@,
            None => forall|j: int| 0 <= j < names.len() ==> names@[j]@ != key@,
        },
{
    let mut j: usize = 0;
    while j < names.len()
        invariant
            j <= names.len(),
            forall|k: int| 0 <= k < j ==> names@[k]@ != key@,
        decreases names.len() - j,
    {
        if names[j] == *key {
            return Some(j);
        }
        j += 1;
    }
    None
}

/// Counts the texts in `keys`. The result lists each distinct text once, in
/// order of first appearance, with the number of times it occurs.
pub fn tally(keys: &Vec<String>) -> (counts: Vec<(String, usize)>)
    ensures
        counted(counts@) == counts_of(texts(keys@)),
{
    let ghost all = texts(keys@);
    let mut names: Vec<String> = Vec::new();
    let mut numbers: Vec<usize> = Vec::new();
    let mut i: usize = 0;
    while i < keys.len()
        invariant
            i <= keys.len(),
            all == texts(keys@),
            names.len() == numbers.len(),
            names.len() == distinct(all.take(i as int)).len(),
            forall|j: int|
                0 <= j < names.len() ==> (#[trigger] names@[j])@ == distinct(all.take(i as int))[j],
            forall|j: int|
                0 <= j < names.len() ==> (#[trigger] numbers@[j]) == occurrences(
                    all.take(i as int),
                    distinct(all.take(i as int))[j],
                ),
        decreases keys.len() - i,
    {
        let ghost seen = all.take(i as int);
        let ghost next = all.take(i + 1);
        let ghost key = keys@[i as int]@;
        proof {
            assert(next.drop_last() =~= seen);
            assert(next.last() == key);
            lemma_distinct_is_a_set(seen);
            lemma_occurrences_bounds(seen, key);
        }
        match position_of(&names, &keys[i]) {
            Some(j) => {
                proof {
                    assert(distinct(seen)[j as int] == key);
                    assert(distinct(next) == distinct(seen));
                }
                let n = numbers[j];
                numbers.set(j, n + 1);
            },
            None => {
                proof {
                    if distinct(seen).contains(key) {
                        let j = choose|j: int|
                            0 <= j < distinct(seen).len() && distinct(seen)[j] == key;
                        assert(names@[j]@ == key);
                    }
                    assert(distinct(next) == distinct(seen).push(key));
                }
                names.push(keys[i].clone());
                numbers.push(1);
            },
        }
        i += 1;
    }
    proof {
        assert(all.take(keys.len() as int) =~= all);
    }
    let mut counts: Vec<(String, usize)> = Vec::new();
    let mut j: usize = 0;
    while j < names.len()
        invariant
            j <= names.len(),
            names.len() == numbers.len(),
            counts.len() == j,
            forall|k: int|
                0 <= k < j ==> (#[trigger] counts@[k]).0@ == names@[k]@ && counts@[k].1
                    == numbers@[k],
        decreases names.len() - j,
    {
        counts.push((names[j].clone(), numbers[j]));
        j += 1;
    }
    proof {
        assert(counted(counts@) =~= counts_of(all));
    }
    counts
}

/// The texts of `tokens` that have at least `min` characters, in order.
pub fn keep_long(tokens: &Vec<String>, min: usize) -> (kept: Vec<String>)
    ensures
        texts(kept@) == texts(tokens@).filter(at_least(min as nat)),
{
    let ghost all = texts(tokens@);
    let ghost pred = at_least(min as nat);
    let mut kept: Vec<String> = Vec::new();
    let mut i: usize = 0;
    proof {
        reveal(Seq::filter);
        assert(texts(kept@) =~= all.take(0).filter(pred));
    }
    while i < tokens.len()
        invariant
            i <= tokens.len(),
            all == texts(tokens@),
            pred == at_least(min as nat),
            texts(kept@) == all.take(i as int).filter(pred),
        decreases tokens.len() - i,
    {
        let ghost before = texts(kept@);
        proof {
            reveal(Seq::filter);
            assert(all.take(i + 1).drop_last() =~= all.take(i as int));
            assert(all.take(i + 1).last() == tokens@[i as int]@);
            assert(pred(tokens@[i as int]@) == (tokens@[i as int]@.len() >= min));
        }
        if tokens[i].as_str().unicode_len() >= min {
            kept.push(tokens[i].clone());
            proof {
                assert(texts(kept@) =~= before.push(tokens@[i as int]@));
            }
        }
        i += 1;
    }
    proof {
        assert(all.take(tokens.len() as int) =~= all);
    }
    kept
}

} // verus!
