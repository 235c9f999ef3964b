//! Decimal text of integers, as Rust's `Display` writes it and as
//! `str::parse` reads it back.
use vstd::prelude::*;

verus! {

/// ASCII code of `'0'`.
pub open spec fn is_digit(b: u8) -> bool {
    48 <= b <= 57
}

/// Every byte is an ASCII digit.
pub open spec fn all_digits(s: Seq<u8>) -> bool {
    forall|i: int| 0 <= i < s.len() ==> is_digit(#[trigger] s[i])
}

/// The number that a run of ASCII digits denotes (most significant first).
pub open spec fn digits_value(s: Seq<u8>) -> nat
    decreases s.len(),
{
    if s.len() == 0 {
        0
    } else {
        digits_value(s.drop_last()) * 10 + (s.last() - 48) as nat
    }
}

/// The shortest decimal text of `n`: no sign, no leading zero.
pub open spec fn decimal_digits(n: nat) -> Seq<u8>
    decreases n,
{
    if n < 10 {
        seq![(48 + n) as u8]
    } else {
        decimal_digits(n / 10).push((48 + n % 10) as u8)
    }
}

/// The text that `Display` gives of a signed integer: a `-` before the
/// digits of a negative number.
pub open spec fn decimal_text(n: int) -> Seq<u8> {
    if n < 0 {
        seq![45u8] + decimal_digits((-n) as nat)
    } else {
        decimal_digits(n as nat)
    }
}

/// What `s.parse::<uN>()` gives for an unsigned type whose largest value is
/// `max`: an optional `+`, then at least one digit and nothing else.
pub open spec fn parse_unsigned(s: Seq<u8>, max: nat) -> Option<nat> {
    let digits = if s.len() > 0 && s[0] == 43 {
        s.drop_first()
    } else {
        s
    };
    if digits.len() == 0 || !all_digits(digits) || digits_value(digits) > max {
        None
    } else {
        Some(digits_value(digits))
    }
}

/// What `s.parse::<i64>()` gives: an optional `+` or `-`, then at least one
/// digit and nothing else, with the value in the range of `i64`.
pub open spec fn parse_i64_text(s: Seq<u8>) -> Option<int> {
    if s.len() > 0 && s[0] == 45 {
        let digits = s.drop_first();
        if digits.len() == 0 || !all_digits(digits) || digits_value(digits) > 0x8000_0000_0000_0000 {
            None
        } else {
            Some(-(digits_value(digits) as int))
        }
    } else {
        match parse_unsigned(s, 0x7fff_ffff_ffff_ffff) {
            Some(v) => Some(v as int),
            None => None,
        }
    }
}

/// The digits of `n` are digits, there is at least one, and they denote `n`.
pub proof fn lemma_decimal_digits(n: nat)
    ensures
        all_digits(decimal_digits(n)),
        decimal_digits(n).len() >= 1,
        digits_value(decimal_digits(n)) == n,
        is_digit(decimal_digits(n)[0]),
    decreases n,
{
    if n >= 10 {
        lemma_decimal_digits(n / 10);
        let s = decimal_digits(n);
        assert(s.drop_last() =~= decimal_digits(n / 10));
        assert(s[0] == decimal_digits(n / 10)[0]);
        assert(s.last() == (48 + n % 10) as u8);
        assert((n / 10) * 10 + n % 10 == n) by (nonlinear_arith);
        assert(digits_value(s) == digits_value(s.drop_last()) * 10 + (s.last() - 48) as nat);
    } else {
        let s = decimal_digits(n);
        assert(s.drop_last().len() == 0);
        assert(digits_value(s.drop_last()) == 0);
        assert(digits_value(s) == digits_value(s.drop_last()) * 10 + (s.last() - 48) as nat);
    }
}

/// Reading back the text of an unsigned value gives the value.
pub proof fn lemma_parse_unsigned_decimal(n: nat, max: nat)
    requires
        n <= max,
    ensures
        parse_unsigned(decimal_digits(n), max) == Some(n),
{
    lemma_decimal_digits(n);
}

/// Reading back the text of an `i64` gives the value.
pub proof fn lemma_parse_i64_decimal(n: int)
    requires
        i64::MIN <= n <= i64::MAX,
    ensures
        parse_i64_text(decimal_text(n)) == Some(n),
{
    if n < 0 {
        lemma_decimal_digits((-n) as nat);
        let s = decimal_text(n);
        assert(s.drop_first() =~= decimal_digits((-n) as nat));
    } else {
        lemma_decimal_digits(n as nat);
    }
}

/// Appending digits never makes the value smaller.
proof fn lemma_digits_value_prefix(s: Seq<u8>, k: int)
    requires
        0 <= k <= s.len(),
    ensures
        digits_value(s.take(k)) <= digits_value(s),
    decreases s.len(),
{
    if k < s.len() {
        lemma_digits_value_prefix(s.drop_last(), k);
        assert(s.drop_last().take(k) =~= s.take(k));
    } else {
        assert(s.take(k) =~= s);
    }
}

/// Appends the decimal digits of `n` to `out`.
pub fn push_decimal_u64(out: &mut Vec<u8>, n: u64)
    ensures
        final(out)@ == old(out)@ + decimal_digits(n as nat),
    decreases n,
{
    if n >= 10 {
        push_decimal_u64(out, n / 10);
    }
    out.push(48 + (n % 10) as u8);
    assert(final(out)@ =~= old(out)@ + decimal_digits(n as nat));
}

/// Appends the `Display` text of `n` to `out`.
pub fn push_decimal_i64(out: &mut Vec<u8>, n: i64)
    ensures
        final(out)@ == old(out)@ + decimal_text(n as int),
{
    if n < 0 {
        out.push(45);
        let magnitude: u64 = if n == i64::MIN {
            0x8000_0000_0000_0000u64
        } else {
            (-n) as u64
        };
        push_decimal_u64(out, magnitude);
    } else {
        push_decimal_u64(out, n as u64);
    }
    assert(final(out)@ =~= old(out)@ + decimal_text(n as int));
}

/// The value of the digits `s[start..end]`, or `None` where one of them is
/// not a digit or the value does not fit in a `u64`.
pub fn digits_value_u64(s: &[u8], start: usize, end: usize) -> (res: Option<u64>)
    requires
        start <= end <= s@.len(),
    ensures
        match res {
            Some(v) => all_digits(s@.subrange(start as int, end as int)) && v == digits_value(
                s@.subrange(start as int, end as int),
            ),
            None => !all_digits(s@.subrange(start as int, end as int)) || digits_value(
                s@.subrange(start as int, end as int),
            ) > u64::MAX,
        },
{
    let ghost whole = s@.subrange(start as int, end as int);
    let mut acc: u64 = 0;
    let mut i: usize = start;
    while i < end
        invariant
            start <= i <= end <= s@.len(),
            whole == s@.subrange(start as int, end as int),
            all_digits(s@.subrange(start as int, i as int)),
            acc == digits_value(s@.subrange(start as int, i as int)),
        decreases end - i,
    {
        let b = s[i];
        let ghost next = s@.subrange(start as int, i + 1);
        assert(next.drop_last() =~= s@.subrange(start as int, i as int));
        assert(whole.take(i + 1 - start) =~= next);
        if b < 48 || b > 57 {
            assert(!is_digit(whole[i - start]));
            return None;
        }
        let d: u64 = (b - 48) as u64;
        let grown = acc.checked_mul(10);
        match grown {
            None => {
                proof {
                    if all_digits(whole) {
                        lemma_digits_value_prefix(whole, i + 1 - start);
                    }
                }
                return None;
            },
            Some(g) => match g.checked_add(d) {
                None => {
                    proof {
                        if all_digits(whole) {
                            lemma_digits_value_prefix(whole, i + 1 - start);
                        }
                    }
                    return None;
                },
                Some(v) => {
                    acc = v;
                },
            },
        }
        i = i + 1;
    }
    assert(s@.subrange(start as int, i as int) =~= whole);
    Some(acc)
}

/// `s[start..end].parse::<usize>()`.
pub fn parse_usize_slice(s: &[u8], start: usize, end: usize) -> (res: Option<usize>)
    requires
        start <= end <= s@.len(),
    ensures
        match parse_unsigned(s@.subrange(start as int, end as int), usize::MAX as nat) {
            Some(v) => res == Some(v as usize),
            None => res is None,
        },
{
    let ghost text = s@.subrange(start as int, end as int);
    let mut first = start;
    if start < end && s[start] == 43 {
        first = start + 1;
    }
    assert(s@.subrange(first as int, end as int) =~= (if text.len() > 0 && text[0] == 43 {
        text.drop_first()
    } else {
        text
    }));
    if first == end {
        return None;
    }
    match digits_value_u64(s, first, end) {
        None => None,
        Some(v) => {
            if v > usize::MAX as u64 {
                None
            } else {
                Some(v as usize)
            }
        },
    }
}

/// `s[start..end].parse::<i64>()`.
pub fn parse_i64_slice(s: &[u8], start: usize, end: usize) -> (res: Option<i64>)
    requires
        start <= end <= s@.len(),
    ensures
        match parse_i64_text(s@.subrange(start as int, end as int)) {
            Some(v) => res == Some(v as i64),
            None => res is None,
        },
{
    let ghost text = s@.subrange(start as int, end as int);
    let negative = start < end && s[start] == 45;
    let positive = start < end && s[start] == 43;
    let first = if negative || positive {
        start + 1
    } else {
        start
    };
    assert(s@.subrange(first as int, end as int) =~= (if text.len() > 0 && (text[0] == 43
        || text[0] == 45) {
        text.drop_first()
    } else {
        text
    }));
    if first == end {
        return None;
    }
    match digits_value_u64(s, first, end) {
        None => None,
        Some(v) => {
            if negative {
                if v > 0x8000_0000_0000_0000u64 {
                    None
                } else if v == 0x8000_0000_0000_0000u64 {
                    Some(i64::MIN)
                } else {
                    Some(-(v as i64))
                }
            } else {
                if v > 0x7fff_ffff_ffff_ffffu64 {
                    None
                } else {
                    Some(v as i64)
                }
            }
        },
    }
}

} // verus!
