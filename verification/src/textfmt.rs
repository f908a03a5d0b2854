//! Decimal text formatting for the reports: plain decimal numbers,
//! two-digit zero-padded fields, and four-digit zero-padded years.

use vstd::prelude::*;
use vstd::string::StringExecFns;

verus! {

/// The character for one decimal digit (digits outside 0..=9 are clamped;
/// every caller passes a genuine digit).
pub open spec fn digit_char(d: int) -> char {
    if d == 0 {
        '0'
    } else if d == 1 {
        '1'
    } else if d == 2 {
        '2'
    } else if d == 3 {
        '3'
    } else if d == 4 {
        '4'
    } else if d == 5 {
        '5'
    } else if d == 6 {
        '6'
    } else if d == 7 {
        '7'
    } else if d == 8 {
        '8'
    } else {
        '9'
    }
}

/// The decimal digits of `n`, most significant first, without leading
/// zeros (`0` is the single digit `"0"`).
pub open spec fn dec_digits(n: int) -> Seq<char>
    decreases n,
{
    if n < 10 {
        seq![digit_char(n)]
    } else {
        dec_digits(n / 10) + seq![digit_char(n % 10)]
    }
}

/// `n` zero-padded to exactly two digits (defined for 0 <= n < 100; the
/// modulus keeps it total).
pub open spec fn pad2(n: int) -> Seq<char> {
    seq![digit_char(n / 10 % 10), digit_char(n % 10)]
}

/// A non-negative year, zero-padded to at least four digits.
pub open spec fn fmt_year_nn(y: int) -> Seq<char> {
    if y < 10 {
        seq!['0', '0', '0'] + dec_digits(y)
    } else if y < 100 {
        seq!['0', '0'] + dec_digits(y)
    } else if y < 1000 {
        seq!['0'] + dec_digits(y)
    } else {
        dec_digits(y)
    }
}

/// A calendar year as the reports print it: at least four digits, zero
/// padded, with a leading minus sign for years before year zero.
pub open spec fn fmt_year(y: int) -> Seq<char> {
    if y < 0 {
        seq!['-'] + fmt_year_nn(-y)
    } else {
        fmt_year_nn(y)
    }
}

/// Append one decimal digit character.
pub fn push_digit(s: &mut String, d: u8)
    requires
        d < 10,
    ensures
        final(s)@ == old(s)@ + seq![digit_char(d as int)],
{
    proof {
        reveal_strlit("0");
        reveal_strlit("1");
        reveal_strlit("2");
        reveal_strlit("3");
        reveal_strlit("4");
        reveal_strlit("5");
        reveal_strlit("6");
        reveal_strlit("7");
        reveal_strlit("8");
        reveal_strlit("9");
    }
    if d == 0 {
        s.append("0");
    } else if d == 1 {
        s.append("1");
    } else if d == 2 {
        s.append("2");
    } else if d == 3 {
        s.append("3");
    } else if d == 4 {
        s.append("4");
    } else if d == 5 {
        s.append("5");
    } else if d == 6 {
        s.append("6");
    } else if d == 7 {
        s.append("7");
    } else if d == 8 {
        s.append("8");
    } else {
        s.append("9");
    }
    assert(s@ =~= old(s)@ + seq![digit_char(d as int)]);
}

/// Append `n` in plain decimal, most significant digit first.
pub fn push_decimal(s: &mut String, n: u64)
    ensures
        final(s)@ == old(s)@ + dec_digits(n as int),
    decreases n,
{
    if n < 10 {
        push_digit(s, n as u8);
    } else {
        push_decimal(s, n / 10);
        push_digit(s, (n % 10) as u8);
        assert(s@ =~= old(s)@ + dec_digits(n as int));
    }
}

/// Append `n % 100` as exactly two digits, zero padded.
pub fn push_pad2(s: &mut String, n: u32)
    ensures
        final(s)@ == old(s)@ + pad2(n as int),
{
    push_digit(s, (n / 10 % 10) as u8);
    push_digit(s, (n % 10) as u8);
    assert(s@ =~= old(s)@ + pad2(n as int));
}

/// Append a non-negative year, zero-padded to at least four digits.
fn push_year_nn(s: &mut String, y: u32)
    ensures
        final(s)@ == old(s)@ + fmt_year_nn(y as int),
{
    proof {
        reveal_strlit("0");
        reveal_strlit("00");
        reveal_strlit("000");
    }
    if y < 10 {
        s.append("000");
        assert(s@ =~= old(s)@ + seq!['0', '0', '0']);
    } else if y < 100 {
        s.append("00");
        assert(s@ =~= old(s)@ + seq!['0', '0']);
    } else if y < 1000 {
        s.append("0");
        assert(s@ =~= old(s)@ + seq!['0']);
    }
    push_decimal(s, y as u64);
    assert(s@ =~= old(s)@ + fmt_year_nn(y as int));
}

/// Append a calendar year as the reports print it.
pub fn push_year(s: &mut String, y: i32)
    ensures
        final(s)@ == old(s)@ + fmt_year(y as int),
{
    if y < 0 {
        proof {
            reveal_strlit("-");
        }
        s.append("-");
        assert(s@ =~= old(s)@ + seq!['-']);
        let m: i64 = -(y as i64);
        push_year_nn(s, m as u32);
        assert(s@ =~= old(s)@ + fmt_year(y as int));
    } else {
        push_year_nn(s, y as u32);
    }
}

} // verus!
