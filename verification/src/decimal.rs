//! Decimal numbers as the metadata header writes them: digits, and
//! optionally a point and more digits.

use crate::text::chars_of;
use vstd::prelude::*;

verus! {

/// A non-negative decimal number.
#[derive(Debug, PartialEq, Eq)]
pub struct Decimal {
    /// The part before the point.
    pub whole: u64,
    /// The digits after the point, each from 0 to 9.
    pub fraction: Vec<u8>,
}

/// The mathematical value of a [`Decimal`].
pub struct DecimalView {
    pub whole: u64,
    pub fraction: Seq<u8>,
}

impl View for Decimal {
    type V = DecimalView;

    open spec fn view(&self) -> DecimalView {
        DecimalView { whole: self.whole, fraction: self.fraction@ }
    }
}

/// Whether a character is a decimal digit.
pub open spec fn is_digit(c: char) -> bool {
    '0' <= c && c <= '9'
}

/// The value of a decimal digit.
pub open spec fn digit_of(c: char) -> u8 {
    (c as u32 - '0' as u32) as u8
}

/// How many digits stand in `s` from `at` on without a break.
pub open spec fn digit_run(s: Seq<char>, at: int) -> int
    decreases s.len() - at,
{
    if 0 <= at < s.len() && is_digit(s[at]) {
        1 + digit_run(s, at + 1)
    } else {
        0
    }
}

/// The number that a string of digits writes.
pub open spec fn digits_value(s: Seq<char>) -> nat
    decreases s.len(),
{
    if s.len() == 0 {
        0
    } else {
        digits_value(s.drop_last()) * 10 + digit_of(s.last()) as nat
    }
}

/// The values of the digits of `s` from `at` on.
pub open spec fn digits_from(s: Seq<char>, at: int) -> Seq<u8> {
    Seq::new((s.len() - at) as nat, |i: int| digit_of(s[at + i]))
}

/// The decimal number that `s` writes: one or more digits, then optionally
/// a point and any number of digits. `None` where `s` is not of that form
/// or the part before the point is above `u64::MAX`.
pub open spec fn decimal_of(s: Seq<char>) -> Option<DecimalView> {
    let n = digit_run(s, 0);
    if n == 0 || digits_value(s.take(n)) > u64::MAX {
        None
    } else if n == s.len() {
        Some(DecimalView { whole: digits_value(s.take(n)) as u64, fraction: Seq::empty() })
    } else if s[n] == '.' && n + 1 + digit_run(s, n + 1) == s.len() {
        Some(
            DecimalView { whole: digits_value(s.take(n)) as u64, fraction: digits_from(s, n + 1) },
        )
    } else {
        None
    }
}

/// A longer string of digits writes no smaller a number.
pub proof fn lemma_digits_value_grows(s: Seq<char>, i: int, j: int)
    requires
        0 <= i <= j <= s.len(),
    ensures
        digits_value(s.take(i)) <= digits_value(s.take(j)),
    decreases j - i,
{
    if i < j {
        lemma_digits_value_grows(s, i, j - 1);
        assert(s.take(j).drop_last() =~= s.take(j - 1));
    }
}

/// Tells whether a character is a decimal digit.
pub fn digit(c: char) -> (r: Option<u8>)
    ensures
        match r {
            Some(d) => is_digit(c) && d == digit_of(c) && d <= 9,
            None => !is_digit(c),
        },
{
    if c >= '0' && c <= '9' {
        Some((c as u32 - '0' as u32) as u8)
    } else {
        None
    }
}

/// Counts the digits that stand in `s` from `at` on without a break.
fn count_digits(s: &Vec<char>, at: usize) -> (n: usize)
    requires
        at <= s@.len(),
    ensures
        n == digit_run(s@, at as int),
        at + n <= s@.len(),
        forall|k: int| at <= k < at + n ==> is_digit(#[trigger] s@[k]),
{
    let mut end: usize = at;
    while end < s.len() && digit(s[end]).is_some()
        invariant
            at <= end <= s@.len(),
            digit_run(s@, at as int) == (end - at) + digit_run(s@, end as int),
            forall|k: int| at <= k < end ==> is_digit(#[trigger] s@[k]),
        decreases s@.len() - end,
    {
        end += 1;
    }
    end - at
}

/// Reads a decimal number.
pub fn parse_decimal(text: &str) -> (r: Option<Decimal>)
    ensures
        match r {
            Some(d) => decimal_of(text@) == Some(d@),
            None => decimal_of(text@).is_none(),
        },
{
    let s = chars_of(text);
    let n = count_digits(&s, 0);
    if n == 0 {
        return None;
    }
    let mut whole: u64 = 0;
    let mut i: usize = 0;
    while i < n
        invariant
            i <= n <= s@.len(),
            s@ == text@,
            n == digit_run(s@, 0),
            whole == digits_value(s@.take(i as int)),
            forall|k: int| 0 <= k < n ==> is_digit(#[trigger] s@[k]),
        decreases n - i,
    {
        proof {
            let next = s@.take(i + 1);
            assert(next.drop_last() =~= s@.take(i as int));
            assert(next.last() == s@[i as int]);
            assert(digits_value(next) == whole * 10 + digit_of(s@[i as int]));
            lemma_digits_value_grows(s@, i + 1, n as int);
        }
        let d: u8 = match digit(s[i]) {
            Some(d) => d,
            None => { return None; },
        };
        whole = match whole.checked_mul(10) {
            Some(v) => v,
            None => { return None; },
        };
        whole = match whole.checked_add(d as u64) {
            Some(v) => v,
            None => { return None; },
        };
        i += 1;
    }
    if n == s.len() {
        return Some(Decimal { whole, fraction: Vec::new() });
    }
    if s[n] != '.' {
        return None;
    }
    let m = count_digits(&s, n + 1);
    if n + 1 + m != s.len() {
        return None;
    }
    let mut fraction: Vec<u8> = Vec::new();
    let mut j: usize = n + 1;
    while j < s.len()
        invariant
            n + 1 <= j <= s@.len(),
            s@ == text@,
            fraction@ == digits_from(s@, n + 1).take(j - (n + 1)),
            forall|k: int| n + 1 <= k < s@.len() ==> is_digit(#[trigger] s@[k]),
        decreases s@.len() - j,
    {
        let d: u8 = match digit(s[j]) {
            Some(d) => d,
            None => { return None; },
        };
        fraction.push(d);
        j += 1;
        assert(fraction@ =~= digits_from(s@, n + 1).take(j - (n + 1)));
    }
    assert(fraction@ =~= digits_from(s@, n + 1));
    Some(Decimal { whole, fraction })
}

} // verus!
