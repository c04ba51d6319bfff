//! Decimal numerals: the spec-level digit strings of integers, and the
//! executable emitter used by the settings codec and the presence line.

use vstd::prelude::*;
use crate::text::push_char;

verus! {

/// Whether `c` is a decimal digit.
pub open spec fn is_digit(c: char) -> bool {
    48 <= c as u32 && c as u32 <= 57
}

/// The numeric value of a decimal digit, 0 for anything else.
pub open spec fn digit_val(c: char) -> int {
    if is_digit(c) {
        c as u32 - 48
    } else {
        0
    }
}

/// The digit character of a value in 0..=9, '0' for anything else.
pub open spec fn digit_char(d: int) -> char {
    if d == 0 { '0' }
    else if d == 1 { '1' }
    else if d == 2 { '2' }
    else if d == 3 { '3' }
    else if d == 4 { '4' }
    else if d == 5 { '5' }
    else if d == 6 { '6' }
    else if d == 7 { '7' }
    else if d == 8 { '8' }
    else if d == 9 { '9' }
    else { '0' }
}

/// The decimal numeral of a nonnegative integer, most significant digit
/// first and without leading zeros.
pub open spec fn dec_digits(n: int) -> Seq<char>
    decreases n,
{
    if n < 10 {
        seq![digit_char(n)]
    } else {
        dec_digits(n / 10).push(digit_char(n % 10))
    }
}

/// The decimal numeral of a signed integer: a leading minus sign for a
/// negative value, the plain numeral otherwise.
pub open spec fn int_str(n: int) -> Seq<char> {
    if n < 0 {
        seq!['-'] + dec_digits(-n)
    } else {
        dec_digits(n)
    }
}

/// The value of a digit string read left to right.
pub open spec fn digits_val(s: Seq<char>) -> int
    decreases s.len(),
{
    if s.len() == 0 {
        0
    } else {
        digits_val(s.drop_last()) * 10 + digit_val(s.last())
    }
}

/// Whether every character of `s` is a decimal digit.
pub open spec fn all_digits(s: Seq<char>) -> bool {
    forall|i: int| 0 <= i < s.len() ==> is_digit(s[i])
}

/// A digit string never reads as a negative value.
pub proof fn lemma_digits_val_nonneg(s: Seq<char>)
    requires
        all_digits(s),
    ensures
        digits_val(s) >= 0,
    decreases s.len(),
{
    if s.len() > 0 {
        assert(all_digits(s.drop_last()));
        lemma_digits_val_nonneg(s.drop_last());
    }
}

/// The numeral of a nonnegative integer is all digits and reads back as
/// that integer.
pub proof fn lemma_dec_digits_val(n: int)
    requires
        n >= 0,
    ensures
        all_digits(dec_digits(n)),
        digits_val(dec_digits(n)) == n,
        dec_digits(n).len() >= 1,
    decreases n,
{
    if n < 10 {
        let s = seq![digit_char(n)];
        assert(s.drop_last() =~= Seq::<char>::empty());
        assert(digits_val(Seq::<char>::empty()) == 0);
        assert(s.last() == digit_char(n));
        assert(digit_val(digit_char(n)) == n);
        assert(digits_val(s) == n);
    } else {
        lemma_dec_digits_val(n / 10);
        let s = dec_digits(n);
        assert(s.drop_last() =~= dec_digits(n / 10));
        assert(s.last() == digit_char(n % 10));
        assert(digit_val(digit_char(n % 10)) == n % 10);
        assert(digits_val(s) == (n / 10) * 10 + n % 10);
    }
}

/// The numeral of a positive integer never starts with a zero.
pub proof fn lemma_dec_digits_no_leading_zero(n: int)
    requires
        n >= 1,
    ensures
        dec_digits(n)[0] != '0',
    decreases n,
{
    if n < 10 {
        assert(dec_digits(n)[0] == digit_char(n));
    } else {
        lemma_dec_digits_val(n / 10);
        lemma_dec_digits_no_leading_zero(n / 10);
        assert(dec_digits(n)[0] == dec_digits(n / 10)[0]);
    }
}

/// The index of the first non-digit character at or after `i`.
pub open spec fn digits_end(s: Seq<char>, i: int) -> int
    decreases s.len() - i,
{
    if 0 <= i < s.len() && is_digit(s[i]) {
        digits_end(s, i + 1)
    } else {
        i
    }
}

/// Where a digit run ends: within bounds, over digits only, and at a
/// non-digit character when one follows.
pub proof fn lemma_digits_end(s: Seq<char>, i: int)
    requires
        0 <= i <= s.len(),
    ensures
        i <= digits_end(s, i) <= s.len(),
        all_digits(s.subrange(i, digits_end(s, i))),
        digits_end(s, i) < s.len() ==> !is_digit(s[digits_end(s, i)]),
    decreases s.len() - i,
{
    let e = digits_end(s, i);
    if i < s.len() && is_digit(s[i]) {
        lemma_digits_end(s, i + 1);
        assert forall|k: int| 0 <= k < e - i implies is_digit(s.subrange(i, e)[k]) by {
            if k == 0 {
                assert(s.subrange(i, e)[0] == s[i]);
            } else {
                assert(s.subrange(i + 1, e)[k - 1] == s[i + k]);
                assert(is_digit(s.subrange(i + 1, e)[k - 1]));
            }
        }
    } else {
        assert(s.subrange(i, e).len() == 0);
    }
}

/// A digit run that stands between `i` and `j` ends exactly at `j`.
pub proof fn lemma_digits_end_of(s: Seq<char>, i: int, j: int)
    requires
        0 <= i <= j <= s.len(),
        forall|k: int| i <= k < j ==> is_digit(s[k]),
        j < s.len() ==> !is_digit(s[j]),
    ensures
        digits_end(s, i) == j,
    decreases j - i,
{
    if i < j {
        lemma_digits_end_of(s, i + 1, j);
    }
}

/// The parse of an optionally signed decimal integer at `i`: the value
/// and the index just past its digits, where the text holds a minus
/// sign followed by at least one digit, or at least one digit, and the
/// value fits a 32-bit signed integer; nothing otherwise.
pub open spec fn parse_i32(s: Seq<char>, i: int) -> Option<(int, int)> {
    let neg = 0 <= i < s.len() && s[i] == '-';
    let i1 = if neg { i + 1 } else { i };
    let j = digits_end(s, i1);
    if j == i1 {
        None
    } else {
        let v = digits_val(s.subrange(i1, j));
        let sv: int = if neg { -v } else { v };
        if i32::MIN as int <= sv <= i32::MAX as int {
            Some((sv, j))
        } else {
            None
        }
    }
}

/// Whether `c` is a decimal digit.
pub fn is_digit_exec(c: char) -> (r: bool)
    ensures
        r == is_digit(c),
{
    let u: u32 = c as u32;
    48 <= u && u <= 57
}

/// Parses an optionally signed decimal integer at `i`, as `parse_i32`
/// reads it.
pub fn parse_i32_exec(s: &str, i: usize, n: usize) -> (r: Option<(i32, usize)>)
    requires
        n == s@.len(),
        i <= n,
    ensures
        match r {
            Some((v, j)) => parse_i32(s@, i as int) == Some((v as int, j as int)) && i <= j <= n,
            None => parse_i32(s@, i as int) is None,
        },
{
    let mut idx: usize = i;
    let mut neg = false;
    if idx < n && s.get_char(idx) == '-' {
        neg = true;
        idx = idx + 1;
    }
    let start: usize = idx;
    let mut acc: u64 = 0;
    proof {
        lemma_digits_end(s@, start as int);
    }
    while idx < n && is_digit_exec(s.get_char(idx))
        invariant
            start <= idx <= n,
            n == s@.len(),
            digits_end(s@, start as int) == digits_end(s@, idx as int),
            all_digits(s@.subrange(start as int, idx as int)),
            acc <= 0x8000_0000 ==> acc == digits_val(s@.subrange(start as int, idx as int)),
            acc > 0x8000_0000 ==> acc == 0x8000_0001
                && digits_val(s@.subrange(start as int, idx as int)) > 0x8000_0000,
        decreases n - idx,
    {
        let c = s.get_char(idx);
        let d: u64 = (c as u32 - 48) as u64;
        let ghost pre = s@.subrange(start as int, idx as int);
        let ghost post = s@.subrange(start as int, idx as int + 1);
        proof {
            assert(digit_val(c) == d);
            assert(post.drop_last() =~= pre);
            assert(post.last() == s@[idx as int]);
            assert(digits_val(post) == digits_val(pre) * 10 + digit_val(c));
            lemma_digits_val_nonneg(pre);
            assert forall|k: int| 0 <= k < post.len() implies is_digit(post[k]) by {
                if k < pre.len() {
                    assert(post[k] == pre[k]);
                } else {
                    assert(post[k] == c);
                }
            }
        }
        if acc <= 0x8000_0000 {
            acc = acc * 10 + d;
            if acc > 0x8000_0000 {
                acc = 0x8000_0001;
            }
        } else {
            proof {
                assert(digits_val(post) > 0x8000_0000);
            }
        }
        idx = idx + 1;
    }
    proof {
        assert(digits_end(s@, idx as int) == idx as int);
    }
    if idx == start {
        return None;
    }
    let ghost v = digits_val(s@.subrange(start as int, idx as int));
    proof {
        lemma_digits_val_nonneg(s@.subrange(start as int, idx as int));
    }
    if neg {
        if acc <= 0x8000_0000 {
            let value: i32 = (-(acc as i64)) as i32;
            Some((value, idx))
        } else {
            None
        }
    } else {
        if acc <= 0x7fff_ffff {
            let value: i32 = acc as i32;
            Some((value, idx))
        } else {
            None
        }
    }
}

/// The digit character of `d`, for `d < 10`.
fn digit_char_exec(d: u8) -> (c: char)
    requires
        d < 10,
    ensures
        c == digit_char(d as int),
{
    match d {
        0 => '0',
        1 => '1',
        2 => '2',
        3 => '3',
        4 => '4',
        5 => '5',
        6 => '6',
        7 => '7',
        8 => '8',
        _ => '9',
    }
}

/// Appends the decimal numeral of `n` to `out`.
pub fn push_u32_dec(out: &mut String, n: u32)
    ensures
        final(out)@ == old(out)@ + dec_digits(n as int),
    decreases n,
{
    if n >= 10 {
        push_u32_dec(out, n / 10);
    }
    let d = (n % 10) as u8;
    push_char(out, digit_char_exec(d));
    proof {
        if n < 10 {
            assert(n % 10 == n);
            assert(old(out)@ + dec_digits(n as int) =~= old(out)@.push(digit_char(n as int)));
        } else {
            assert(old(out)@ + dec_digits(n as int)
                =~= (old(out)@ + dec_digits(n as int / 10)).push(digit_char(n as int % 10)));
        }
    }
}

/// Appends the decimal numeral of a signed value to `out`, with a
/// leading minus sign when it is negative.
pub fn push_i32_dec(out: &mut String, n: i32)
    ensures
        final(out)@ == old(out)@ + int_str(n as int),
{
    if n < 0 {
        push_char(out, '-');
        let mag: u32 = ((-(n as i64)) as u64) as u32;
        assert(mag as int == -(n as int));
        push_u32_dec(out, mag);
        proof {
            assert(old(out)@ + int_str(n as int)
                =~= old(out)@.push('-') + dec_digits(-(n as int)));
        }
    } else {
        push_u32_dec(out, n as u32);
    }
}

} // verus!
