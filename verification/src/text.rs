//! Character-level helpers: reading a string as a sequence of characters and
//! parsing signed decimal integers.

use vstd::prelude::*;
use vstd::string::StringExecFns;

verus! {

/// Whether `c` is one of the ten ASCII decimal digits.
pub open spec fn is_digit(c: char) -> bool {
    '0' as u32 <= c as u32 <= '9' as u32
}

/// The number a decimal digit stands for.
pub open spec fn digit_value(c: char) -> nat {
    (c as u32 - '0' as u32) as nat
}

/// Whether every character of `s` is a decimal digit.
pub open spec fn all_digits(s: Seq<char>) -> bool {
    forall|i: int| 0 <= i < s.len() ==> is_digit(#[trigger] s[i])
}

/// The number written by the digit string `s`, most significant digit first.
pub open spec fn decimal_value(s: Seq<char>) -> nat
    decreases s.len(),
{
    if s.len() == 0 {
        0
    } else {
        10 * decimal_value(s.drop_last()) + digit_value(s.last())
    }
}

/// The digits of a signed decimal literal: what follows one leading sign, or
/// the whole text when it has none.
pub open spec fn unsigned_part(s: Seq<char>) -> Seq<char> {
    if s.len() > 0 && (s[0] == '-' || s[0] == '+') {
        s.skip(1)
    } else {
        s
    }
}

/// The value of a signed decimal literal that fits in 32 bits: an optional
/// `+` or `-`, then one or more digits and nothing else. Any other text has no
/// value.
pub open spec fn parse_i32_spec(s: Seq<char>) -> Option<i32> {
    let digits = unsigned_part(s);
    if digits.len() == 0 || !all_digits(digits) {
        None
    } else {
        let magnitude = decimal_value(digits) as int;
        let value = if s[0] == '-' {
            -magnitude
        } else {
            magnitude
        };
        if i32::MIN <= value <= i32::MAX {
            Some(value as i32)
        } else {
            None
        }
    }
}

/// Appending digits never makes the written number smaller.
pub proof fn lemma_decimal_value_prefix(s: Seq<char>, n: int)
    requires
        0 <= n <= s.len(),
    ensures
        decimal_value(s.take(n)) <= decimal_value(s),
    decreases s.len() - n,
{
    if n == s.len() {
        assert(s.take(n) =~= s);
    } else {
        lemma_decimal_value_prefix(s.drop_last(), n);
        assert(s.drop_last().take(n) =~= s.take(n));
    }
}

/// The characters of `s`, in order.
pub fn chars_of(s: &str) -> (v: Vec<char>)
    ensures
        v@ == s@,
{
    let mut v: Vec<char> = Vec::new();
    for c in it: s.chars()
        invariant
            v@ == it.seq().take(it.index() as int),
            it.seq() == s@,
    {
        v.push(c);
    }
    v
}

/// Parses `chars[start..end]` as a signed decimal integer of 32 bits.
pub fn parse_i32(chars: &Vec<char>, start: usize, end: usize) -> (r: Option<i32>)
    requires
        start <= end <= chars.len(),
    ensures
        r == parse_i32_spec(chars@.subrange(start as int, end as int)),
{
    let ghost text = chars@.subrange(start as int, end as int);
    if start >= end {
        return None;
    }
    let first: char = chars[start];
    assert(first == text[0]);
    let negative: bool = first == '-';
    let from: usize = if first == '-' || first == '+' {
        start + 1
    } else {
        start
    };
    let ghost digits = chars@.subrange(from as int, end as int);
    assert(digits =~= unsigned_part(text));
    if from >= end {
        return None;
    }
    let limit: i64 = if negative {
        2147483648
    } else {
        2147483647
    };
    let mut acc: i64 = 0;
    let mut i: usize = from;
    while i < end
        invariant
            from <= i <= end <= chars.len(),
            digits == chars@.subrange(from as int, end as int),
            text == chars@.subrange(start as int, end as int),
            digits == unsigned_part(text),
            digits.len() > 0,
            negative == (text[0] == '-'),
            limit == if negative { 2147483648i64 } else { 2147483647i64 },
            all_digits(digits.take(i - from)),
            acc == decimal_value(digits.take(i - from)),
            0 <= acc <= limit <= 2147483648,
        decreases end - i,
    {
        let c: char = chars[i];
        let d: u32 = c as u32;
        assert(c == digits[i - from]);
        if d < 48 || d > 57 {
            assert(!is_digit(digits[i - from]));
            return None;
        }
        let ghost before = digits.take(i - from);
        let ghost after = digits.take(i - from + 1);
        assert(after.drop_last() =~= before);
        assert(after.last() == c);
        assert(all_digits(after)) by {
            assert forall|k: int| 0 <= k < after.len() implies is_digit(#[trigger] after[k]) by {
                if k < before.len() {
                    assert(after[k] == before[k]);
                }
            }
        }
        acc = acc * 10 + (d - 48) as i64;
        assert(acc == decimal_value(after));
        if acc > limit {
            proof {
                if all_digits(digits) {
                    lemma_decimal_value_prefix(digits, i - from + 1);
                }
            }
            return None;
        }
        i += 1;
    }
    assert(digits.take(i - from) =~= digits);
    if negative {
        Some((-acc) as i32)
    } else {
        Some(acc as i32)
    }
}

/// The texts of `parts` as sequences of characters.
pub open spec fn texts_of(parts: Seq<String>) -> Seq<Seq<char>> {
    parts.map_values(|s: String| s@)
}

/// The texts of `parts` in order, with a dot between each two neighbours.
pub open spec fn dotted(parts: Seq<Seq<char>>) -> Seq<char>
    decreases parts.len(),
{
    if parts.len() == 0 {
        Seq::empty()
    } else if parts.len() == 1 {
        parts[0]
    } else {
        dotted(parts.drop_last()) + seq!['.'] + parts.last()
    }
}

/// Joins `parts` with dots.
pub fn join_dotted(parts: &Vec<String>) -> (r: String)
    ensures
        r@ == dotted(texts_of(parts@)),
{
    let mut out = String::new();
    let mut i: usize = 0;
    while i < parts.len()
        invariant
            i <= parts.len(),
            out@ == dotted(texts_of(parts@).take(i as int)),
        decreases parts.len() - i,
    {
        let ghost before = texts_of(parts@).take(i as int);
        let ghost after = texts_of(parts@).take(i + 1);
        proof {
            reveal_strlit(".");
            assert(after.drop_last() =~= before);
            assert(after.last() == parts@[i as int]@);
        }
        if i > 0 {
            out.append(".");
        }
        out.append(parts[i].as_str());
        i += 1;
        assert(out@ =~= dotted(after));
    }
    assert(texts_of(parts@).take(i as int) =~= texts_of(parts@));
    out
}

} // verus!
