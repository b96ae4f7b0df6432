//! Character-level helpers shared by the parser and the analyzers: first
//! tokens, substring search, and finding a delimiter.

use vstd::prelude::*;
use vstd::string::*;

verus! {

/// Whether `c` has the Unicode `White_Space` property, as `char::is_whitespace`
/// reports it.
pub uninterp spec fn unicode_white_space(c: char) -> bool;

/// Calls `char::is_whitespace`. Nothing is proved of the answer: it is, by
/// definition, `unicode_white_space(c)`.
#[verifier::external_body]
pub(crate) fn is_white_space(c: char) -> (b: bool)
    ensures
        b == unicode_white_space(c),
{
    c.is_whitespace()
}

/// The characters of `s`, in order.
pub fn chars_of(s: &str) -> (v: Vec<char>)
    ensures
        v@ == s@,
{
    let mut v: Vec<char> = Vec::new();
    for c in it: s.chars()
        invariant
            it.seq() == s@,
            v@ == it.seq().take(it.index()),
    {
        v.push(c);
    }
    v
}

/// How many characters at the front of `s` have whitespace status `white`.
pub open spec fn leading_run(s: Seq<char>, white: bool) -> nat
    decreases s.len(),
{
    if s.len() == 0 || unicode_white_space(s[0]) != white {
        0
    } else {
        1 + leading_run(s.drop_first(), white)
    }
}

/// The first whitespace-delimited word of `s`: leading whitespace is skipped,
/// and the word runs up to the next whitespace character or the end. It is
/// empty exactly when `s` holds nothing but whitespace.
pub open spec fn token_of(s: Seq<char>) -> Seq<char> {
    let start = leading_run(s, true) as int;
    let len = leading_run(s.skip(start), false) as int;
    s.subrange(start, start + len)
}

/// A run never extends past the end of the text.
pub proof fn lemma_leading_run_bound(s: Seq<char>, white: bool)
    ensures
        leading_run(s, white) <= s.len(),
    decreases s.len(),
{
    if s.len() != 0 && unicode_white_space(s[0]) == white {
        lemma_leading_run_bound(s.drop_first(), white);
    }
}

/// A token holds no whitespace, and is not preceded by anything but whitespace.
pub proof fn lemma_token_has_no_white_space(s: Seq<char>)
    ensures
        forall|i: int| 0 <= i < token_of(s).len() ==> !unicode_white_space(#[trigger] token_of(s)[i]),
        forall|i: int| 0 <= i < leading_run(s, true) ==> unicode_white_space(#[trigger] s[i]),
{
    lemma_leading_run_bound(s, true);
    let start = leading_run(s, true) as int;
    let rest = s.skip(start);
    lemma_leading_run_bound(rest, false);
    lemma_run_is_uniform(s, true);
    lemma_run_is_uniform(rest, false);
    assert forall|i: int| 0 <= i < token_of(s).len() implies !unicode_white_space(
        #[trigger] token_of(s)[i],
    ) by {
        assert(token_of(s)[i] == rest[i]);
    }
}

/// Every character inside a leading run has the status the run was asked for.
pub proof fn lemma_run_is_uniform(s: Seq<char>, white: bool)
    ensures
        forall|i: int| 0 <= i < leading_run(s, white) ==> unicode_white_space(#[trigger] s[i]) == white,
    decreases s.len(),
{
    if s.len() != 0 && unicode_white_space(s[0]) == white {
        let rest = s.drop_first();
        lemma_leading_run_bound(s, white);
        lemma_run_is_uniform(rest, white);
        assert forall|i: int| 0 <= i < leading_run(s, white) implies unicode_white_space(
            #[trigger] s[i],
        ) == white by {
            if i > 0 {
                assert(s[i] == rest[i - 1]);
            }
        }
    }
}

/// Index just past the run of `white`-status characters that starts at `from`.
fn run_end(v: &Vec<char>, from: usize, white: bool) -> (end: usize)
    requires
        from <= v.len(),
    ensures
        end == from + leading_run(v@.skip(from as int), white),
        from <= end <= v.len(),
{
    let mut i: usize = from;
    while i < v.len() && is_white_space(v[i]) == white
        invariant
            from <= i <= v.len(),
            leading_run(v@.skip(from as int), white) == (i - from) + leading_run(
                v@.skip(i as int),
                white,
            ),
        decreases v.len() - i,
    {
        proof {
            assert(v@.skip(i as int)[0] == v@[i as int]);
            assert(v@.skip(i as int).drop_first() =~= v@.skip(i + 1));
        }
        i += 1;
    }
    proof {
        if i < v.len() {
            assert(v@.skip(i as int)[0] == v@[i as int]);
        }
    }
    i
}

/// The first whitespace-delimited word of `s`, or the empty string when there
/// is none.
pub fn first_token(s: &str) -> (token: String)
    ensures
        token@ == token_of(s@),
{
    let v = chars_of(s);
    assert(v@.skip(0) =~= v@);
    let start = run_end(&v, 0, true);
    let end = run_end(&v, start, false);
    s.substring_char(start, end).to_owned()
}

/// Position of the first `x` in `s`, or `s.len()` where `s` holds none.
pub open spec fn index_of<T>(s: Seq<T>, x: T) -> int
    decreases s.len(),
{
    if s.len() == 0 || s[0] == x {
        0
    } else {
        1 + index_of(s.drop_first(), x)
    }
}

/// `index_of` lies within the sequence or at its end.
pub proof fn lemma_index_of_bounds<T>(s: Seq<T>, x: T)
    ensures
        0 <= index_of(s, x) <= s.len(),
        index_of(s, x) < s.len() ==> s[index_of(s, x)] == x,
        forall|i: int| 0 <= i < index_of(s, x) ==> s[i] != x,
    decreases s.len(),
{
    if s.len() != 0 && s[0] != x {
        let rest = s.drop_first();
        lemma_index_of_bounds(rest, x);
        assert forall|i: int| 0 <= i < index_of(s, x) implies s[i] != x by {
            if i > 0 {
                assert(rest[i - 1] == s[i]);
            }
        }
    }
}

/// `index_of` is the one position before which no `x` stands and at which
/// either an `x` stands or the sequence ends.
pub proof fn lemma_index_of<T>(s: Seq<T>, x: T, n: int)
    requires
        0 <= n <= s.len(),
        forall|i: int| 0 <= i < n ==> s[i] != x,
        n < s.len() ==> s[n] == x,
    ensures
        index_of(s, x) == n,
    decreases s.len(),
{
    if n > 0 {
        let rest = s.drop_first();
        assert forall|i: int| 0 <= i < n - 1 implies rest[i] != x by {
            assert(rest[i] == s[i + 1]);
        }
        lemma_index_of(rest, x, n - 1);
    }
}

/// Position of the first `c` among the characters of `v` from `from` up to
/// `to`, or `to` where there is none.
pub fn find_char(v: &Vec<char>, from: usize, to: usize, c: char) -> (at: usize)
    requires
        from <= to <= v.len(),
    ensures
        from <= at <= to,
        at == from + index_of(v@.subrange(from as int, to as int), c),
{
    let mut i: usize = from;
    while i < to && v[i] != c
        invariant
            from <= i <= to <= v.len(),
            forall|k: int| from <= k < i ==> v@[k] != c,
        decreases to - i,
    {
        i += 1;
    }
    proof {
        lemma_index_of(v@.subrange(from as int, to as int), c, i - from);
    }
    i
}

/// Position of the first `b` among the bytes from `from` on, or the length
/// where there is none.
pub fn find_byte(bytes: &[u8], from: usize, b: u8) -> (at: usize)
    requires
        from <= bytes@.len(),
    ensures
        from <= at <= bytes@.len(),
        at == from + index_of(bytes@.skip(from as int), b),
{
    let mut i: usize = from;
    while i < bytes.len() && bytes[i] != b
        invariant
            from <= i <= bytes@.len(),
            forall|k: int| from <= k < i ==> bytes@[k] != b,
        decreases bytes@.len() - i,
    {
        i += 1;
    }
    proof {
        lemma_index_of(bytes@.skip(from as int), b, i - from);
    }
    i
}

/// Whether two texts hold the same characters.
pub fn same_text(a: &str, b: &str) -> (same: bool)
    ensures
        same == (a@ == b@),
{
    a.to_owned() == b.to_owned()
}

/// `p` stands in `s` at position `i`.
pub open spec fn occurs_at(s: Seq<char>, p: Seq<char>, i: int) -> bool {
    0 <= i && i + p.len() <= s.len() && s.subrange(i, i + p.len()) == p
}

/// `p` is a contiguous part of `s`.
pub open spec fn has_substring(s: Seq<char>, p: Seq<char>) -> bool {
    exists|i: int| occurs_at(s, p, i)
}

fn matches_at(s: &Vec<char>, p: &Vec<char>, i: usize) -> (b: bool)
    requires
        i + p.len() <= s.len(),
    ensures
        b == occurs_at(s@, p@, i as int),
{
    let mut j: usize = 0;
    while j < p.len()
        invariant
            j <= p.len(),
            i + p.len() <= s.len(),
            forall|k: int| 0 <= k < j ==> s@[i + k] == p@[k],
        decreases p.len() - j,
    {
        if s[i + j] != p[j] {
            proof {
                assert(s@.subrange(i as int, i + p.len())[j as int] == s@[i + j]);
            }
            return false;
        }
        j += 1;
    }
    proof {
        assert(s@.subrange(i as int, i + p.len()) =~= p@);
    }
    true
}

/// Whether `p` is a contiguous part of `s`.
pub fn contains_chars(s: &Vec<char>, p: &Vec<char>) -> (b: bool)
    ensures
        b == has_substring(s@, p@),
{
    if p.len() > s.len() {
        return false;
    }
    let last: usize = s.len() - p.len();
    let mut i: usize = 0;
    loop
        invariant
            last == s.len() - p.len(),
            i <= last,
            forall|k: int| 0 <= k < i ==> !occurs_at(s@, p@, k),
        decreases last - i,
    {
        if matches_at(s, p, i) {
            return true;
        }
        if i == last {
            return false;
        }
        i += 1;
    }
}

/// Whether the text `p` is a contiguous part of the text `s`.
pub fn contains(s: &str, p: &str) -> (b: bool)
    ensures
        b == has_substring(s@, p@),
{
    let sv = chars_of(s);
    let pv = chars_of(p);
    contains_chars(&sv, &pv)
}

} // verus!
