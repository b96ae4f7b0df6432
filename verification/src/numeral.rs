//! Decimal numerals: writing a number out, and reading a signed one.

use vstd::prelude::*;
use vstd::string::*;

verus! {

/// The character for a single decimal digit.
pub open spec fn digit_char(d: nat) -> char
    recommends
        d < 10,
{
    if d == 0 {
        '0'
    } else if d == 1 {
        '1'
    } else if d == 2 {
        '2'
    } else if d == 3 {
        '3'
    } else if d == 4 {
        '4'
    } else if d == 5 {
        '5'
    } else if d == 6 {
        '6'
    } else if d == 7 {
        '7'
    } else if d == 8 {
        '8'
    } else {
        '9'
    }
}

/// The decimal numeral of `n`, without leading zeros.
pub open spec fn decimal(n: nat) -> Seq<char>
    decreases n,
{
    if n < 10 {
        seq![digit_char(n)]
    } else {
        decimal(n / 10).push(digit_char(n % 10))
    }
}

/// Whether `c` is one of the ten ASCII digits.
pub open spec fn is_digit(c: char) -> bool {
    '0' <= c <= '9'
}

/// The number that a run of digits denotes; zero for the empty run.
pub open spec fn digits_value(s: Seq<char>) -> nat
    decreases s.len(),
{
    if s.len() == 0 {
        0
    } else {
        (digits_value(s.drop_last()) * 10 + (s.last() as u32 - '0' as u32)) as nat
    }
}

/// Whether every character of `s` is a digit.
pub open spec fn all_digits(s: Seq<char>) -> bool {
    forall|i: int| 0 <= i < s.len() ==> is_digit(#[trigger] s[i])
}

/// The digits of a numeral: what follows its sign, if it has one.
pub open spec fn unsigned_part(s: Seq<char>) -> Seq<char> {
    if s.len() > 0 && (s[0] == '-' || s[0] == '+') {
        s.skip(1)
    } else {
        s
    }
}

/// The integer that `s` denotes, if `s` is a decimal numeral: an optional `+`
/// or `-`, then one or more digits, and nothing else.
pub open spec fn signed_decimal(s: Seq<char>) -> Option<int> {
    let digits = unsigned_part(s);
    if digits.len() == 0 || !all_digits(digits) {
        None
    } else if s[0] == '-' {
        Some(-(digits_value(digits) as int))
    } else {
        Some(digits_value(digits) as int)
    }
}

/// The 64-bit signed integer that `s` denotes, if it is a decimal numeral of
/// one.
pub open spec fn i64_of(s: Seq<char>) -> Option<i64> {
    match signed_decimal(s) {
        Some(v) => if i64::MIN <= v <= i64::MAX {
            Some(v as i64)
        } else {
            None
        },
        None => None,
    }
}

/// A numeral holds nothing but digits, after a sign that it may begin with.
pub proof fn lemma_numeral_characters(s: Seq<char>)
    requires
        signed_decimal(s) is Some,
    ensures
        s.len() > 0,
        forall|i: int|
            0 <= i < s.len() ==> is_digit(#[trigger] s[i]) || (i == 0 && (s[0] == '-' || s[0]
                == '+')),
{
    let digits = unsigned_part(s);
    assert forall|i: int| 0 <= i < s.len() implies is_digit(#[trigger] s[i]) || (i == 0 && (s[0]
        == '-' || s[0] == '+')) by {
        if s[0] == '-' || s[0] == '+' {
            if i > 0 {
                assert(s[i] == digits[i - 1]);
            }
        } else {
            assert(s[i] == digits[i]);
        }
    }
}

fn digit_text(d: u8) -> (text: &'static str)
    requires
        d < 10,
    ensures
        text@ == seq![digit_char(d as nat)],
{
    proof {
        reveal_strlit("0");
        reveal_strlit("1");
        reveal_strlit("2");
        reveal_strlit("3");
        reveal_strlit("4");
        reveal_strlit("5");
        reveal_strlit("6");
        reveal_strlit("7");
        reveal_strlit("8");
        reveal_strlit("9");
    }
    let text = if d == 0 {
        "0"
    } else if d == 1 {
        "1"
    } else if d == 2 {
        "2"
    } else if d == 3 {
        "3"
    } else if d == 4 {
        "4"
    } else if d == 5 {
        "5"
    } else if d == 6 {
        "6"
    } else if d == 7 {
        "7"
    } else if d == 8 {
        "8"
    } else {
        "9"
    };
    assert(text@ =~= seq![digit_char(d as nat)]);
    text
}

/// Appends the decimal numeral of `n` to `out`.
pub fn push_decimal(out: &mut String, n: u128)
    ensures
        final(out)@ == old(out)@ + decimal(n as nat),
    decreases n,
{
    if n >= 10 {
        push_decimal(out, n / 10);
    }
    let ghost before = out@;
    out.append(digit_text((n % 10) as u8));
    proof {
        if n >= 10 {
            assert(out@ =~= old(out)@ + decimal((n / 10) as nat).push(digit_char((n % 10) as nat)));
        } else {
            assert(out@ =~= old(out)@ + seq![digit_char(n as nat)]);
        }
    }
}

/// The 64-bit signed integer that the characters of `v` from `from` up to `to`
/// denote, if they are a decimal numeral of one.
pub fn parse_i64(v: &Vec<char>, from: usize, to: usize) -> (parsed: Option<i64>)
    requires
        from <= to <= v.len(),
    ensures
        parsed == i64_of(v@.subrange(from as int, to as int)),
{
    let ghost s = v@.subrange(from as int, to as int);
    if from == to {
        return None;
    }
    let negative = v[from] == '-';
    let start: usize = if v[from] == '-' || v[from] == '+' {
        from + 1
    } else {
        from
    };
    let ghost digits = unsigned_part(s);
    proof {
        assert(s[0] == v@[from as int]);
        assert(digits =~= v@.subrange(start as int, to as int));
    }
    if start == to {
        return None;
    }
    // One more than the largest positive value: the magnitude of the smallest.
    let bound: u128 = 0x8000_0000_0000_0000;
    let mut value: u128 = 0;
    let mut over: bool = false;
    let mut i: usize = start;
    proof {
        assert(digits.take(0) =~= Seq::<char>::empty());
    }
    while i < to
        invariant
            start <= i <= to <= v.len(),
            s == v@.subrange(from as int, to as int),
            digits == unsigned_part(s),
            digits == v@.subrange(start as int, to as int),
            bound == 0x8000_0000_0000_0000,
            all_digits(digits.take(i - start)),
            !over ==> value == digits_value(digits.take(i - start)) && value <= bound,
            over ==> digits_value(digits.take(i - start)) > bound,
        decreases to - i,
    {
        let c = v[i];
        let ghost seen = digits.take(i - start);
        let ghost next = digits.take(i - start + 1);
        proof {
            assert(digits[i - start] == c);
            assert(next.drop_last() =~= seen);
            assert(next.last() == c);
        }
        if c < '0' || c > '9' {
            proof {
                assert(!is_digit(digits[i - start]));
            }
            return None;
        }
        proof {
            assert forall|k: int| 0 <= k < next.len() implies is_digit(#[trigger] next[k]) by {
                if k < seen.len() {
                    assert(next[k] == seen[k]);
                }
            }
        }
        if !over {
            let d: u128 = (c as u32 - '0' as u32) as u128;
            value = value * 10 + d;
            if value > bound {
                over = true;
            }
        }
        i += 1;
    }
    proof {
        assert(digits.take(to - start) =~= digits);
    }
    if over {
        None
    } else if negative {
        if value == bound {
            Some(i64::MIN)
        } else {
            Some(-(value as i64))
        }
    } else if value == bound {
        None
    } else {
        Some(value as i64)
    }
}

} // verus!
