//! The reminder lead time that the user types in.
use vstd::prelude::*;
use crate::text::{chars_of, decimal, digit_char};

verus! {

/// Minutes before a class that the reminder fires when the input is not a number.
pub const DEFAULT_REMINDER: i32 = 15;

pub open spec fn is_ascii_digit(c: char) -> bool {
    '0' <= c && c <= '9'
}

pub open spec fn all_digits(ds: Seq<char>) -> bool {
    forall|i: int| 0 <= i < ds.len() ==> is_ascii_digit(#[trigger] ds[i])
}

/// The number that a string of ASCII digits spells in base ten.
pub open spec fn digits_value(ds: Seq<char>) -> nat
    decreases ds.len(),
{
    if ds.len() == 0 {
        0
    } else {
        digits_value(ds.drop_last()) * 10 + ((ds.last() as u32) - 48) as nat
    }
}

/// The sign of an integer literal and the digits that follow it.
pub open spec fn split_sign(s: Seq<char>) -> (bool, Seq<char>) {
    if s.len() > 0 && s[0] == '-' {
        (true, s.skip(1))
    } else if s.len() > 0 && s[0] == '+' {
        (false, s.skip(1))
    } else {
        (false, s)
    }
}

/// `<i32 as FromStr>::from_str`: an optional `+` or `-`, then one or more
/// ASCII digits and nothing else, whose value fits in an `i32`.
pub open spec fn parse_i32(s: Seq<char>) -> Option<i32> {
    let (neg, ds) = split_sign(s);
    if ds.len() == 0 || !all_digits(ds) {
        None
    } else {
        let v: int = if neg { -(digits_value(ds) as int) } else { digits_value(ds) as int };
        if i32::MIN <= v <= i32::MAX {
            Some(v as i32)
        } else {
            None
        }
    }
}

/// What the reminder input means: the number it spells, or the default.
pub open spec fn reminder_of(s: Seq<char>) -> i32 {
    match parse_i32(s) {
        Some(v) => v,
        None => DEFAULT_REMINDER,
    }
}

pub proof fn lemma_digits_value_grows(ds: Seq<char>, i: int)
    requires
        0 <= i <= ds.len(),
        all_digits(ds),
    ensures
        digits_value(ds.take(i)) <= digits_value(ds),
    decreases ds.len() - i,
{
    if i < ds.len() {
        lemma_digits_value_grows(ds, i + 1);
        assert(ds.take(i + 1).drop_last() =~= ds.take(i));
        assert(is_ascii_digit(ds[i]));
    } else {
        assert(ds.take(i) =~= ds);
    }
}

/// An integer written in base ten, with a `-` when it is negative.
pub open spec fn signed_decimal(n: int) -> Seq<char> {
    if n < 0 {
        seq!['-'] + decimal((-n) as nat)
    } else {
        decimal(n as nat)
    }
}

proof fn lemma_decimal_digits(n: nat)
    ensures
        decimal(n).len() > 0,
        all_digits(decimal(n)),
        digits_value(decimal(n)) == n,
        is_ascii_digit(decimal(n)[0]),
    decreases n,
{
    let d = n % 10;
    assert(digit_char(d) as u32 == d + 48);
    if n >= 10 {
        lemma_decimal_digits(n / 10);
        let s = decimal(n);
        assert(s.drop_last() =~= decimal(n / 10));
        assert(s[0] == decimal(n / 10)[0]);
        assert(s.last() == digit_char(d));
        assert(digits_value(s) == digits_value(decimal(n / 10)) * 10 + d);
        vstd::arithmetic::div_mod::lemma_fundamental_div_mod(n as int, 10);
        assert(digits_value(s) == n);
    } else {
        let s = decimal(n);
        assert(s.drop_last() =~= Seq::<char>::empty());
        assert(digits_value(s.drop_last()) == 0);
        assert(s.last() == digit_char(n));
        assert(d == n);
        assert(digits_value(s) == n);
    }
}

/// A number written in base ten is read back as that number.
pub proof fn law_reminder_reads_back(n: i32)
    ensures
        reminder_of(signed_decimal(n as int)) == n,
{
    let m: nat = if n < 0 { (-n) as nat } else { n as nat };
    lemma_decimal_digits(m);
    let s = signed_decimal(n as int);
    if n < 0 {
        assert(s.skip(1) =~= decimal(m));
    }
}

/// The value of `cs[from..to]` when it is one or more ASCII digits worth at
/// most `limit`; `None` otherwise.
pub(crate) fn digits_within(cs: &Vec<char>, from: usize, to: usize, limit: u64) -> (r: Option<u64>)
    requires
        from <= to <= cs.len(),
        limit <= 0x1_0000_0000,
    ensures
        ({
            let t = cs@.subrange(from as int, to as int);
            match r {
                Some(v) => t.len() > 0 && all_digits(t) && v == digits_value(t) && v <= limit,
                None => t.len() == 0 || !all_digits(t) || digits_value(t) > limit,
            }
        }),
{
    let ghost t = cs@.subrange(from as int, to as int);
    if from == to {
        return None;
    }
    let mut acc: u64 = 0;
    let mut i: usize = from;
    assert(t.take(0) =~= Seq::<char>::empty());
    while i < to
        invariant
            from <= i <= to <= cs.len(),
            limit <= 0x1_0000_0000,
            t == cs@.subrange(from as int, to as int),
            acc <= limit,
            acc == digits_value(t.take(i - from)),
            all_digits(t.take(i - from)),
        decreases to - i,
    {
        let c = cs[i];
        assert(t.take(i - from + 1).drop_last() =~= t.take(i - from));
        assert(t.take(i - from + 1).last() == c);
        assert(t[i - from] == c);
        if !('0' <= c && c <= '9') {
            assert(!is_ascii_digit(t[i - from]));
            return None;
        }
        let next = acc * 10 + (c as u32 - 48) as u64;
        assert(digits_value(t.take(i - from + 1)) == next);
        assert(all_digits(t.take(i - from + 1)));
        if next > limit {
            proof {
                if all_digits(t) {
                    lemma_digits_value_grows(t, i - from + 1);
                }
            }
            return None;
        }
        acc = next;
        i = i + 1;
    }
    assert(t.take(to - from) =~= t);
    Some(acc)
}

/// Parses a decimal `i32` as `str::parse::<i32>` does.
pub fn parse_decimal_i32(s: &str) -> (r: Option<i32>)
    ensures
        r == parse_i32(s@),
{
    let cs = chars_of(s);
    let n = cs.len();
    let mut neg = false;
    let mut start: usize = 0;
    if n > 0 && cs[0] == '-' {
        neg = true;
        start = 1;
    } else if n > 0 && cs[0] == '+' {
        start = 1;
    }
    assert(cs@.subrange(start as int, n as int) =~= cs@.skip(start as int));
    assert(split_sign(s@) == (neg, cs@.skip(start as int)));
    match digits_within(&cs, start, n, 2147483648) {
        None => None,
        Some(v) => {
            if neg {
                Some((0 - v as i64) as i32)
            } else if v <= 2147483647 {
                Some(v as i32)
            } else {
                None
            }
        },
    }
}

/// The reminder lead time in minutes: the number that `reminder` spells,
/// or `DEFAULT_REMINDER` when it does not spell an `i32`.
pub fn get_reminder(reminder: &str) -> (r: i32)
    ensures
        r == reminder_of(reminder@),
{
    match parse_decimal_i32(reminder) {
        Some(v) => v,
        None => DEFAULT_REMINDER,
    }
}

} // verus!
