//! Dotted-quad IPv4 text: parsing a field such as `213.180.203.32` into
//! its 32-bit big-endian value, and printing an address back out. The
//! grammar matches std's address parser: exactly four groups of one to
//! three decimal digits, each at most 255, with no leading zeros.

use vstd::prelude::*;
use vstd::string::StringExecFns;
use crate::split::spec_splitn;
use crate::split::splitn;
use crate::split::views_of;
use crate::textfmt::dec_digits;
use crate::textfmt::push_decimal;

verus! {

/// The ASCII dot that separates the four octets.
pub const DOT: u8 = 46;

/// The decimal value of an all-digit byte string, most significant
/// digit first.
pub open spec fn dec_val(p: Seq<u8>) -> int
    decreases p.len(),
{
    if p.len() == 0 {
        0
    } else {
        dec_val(p.drop_last()) * 10 + (p.last() - 48)
    }
}

/// An all-digit byte string has a non-negative decimal value.
pub proof fn lemma_dec_val_nonneg(p: Seq<u8>)
    requires
        forall|k: int| 0 <= k < p.len() ==> 48 <= #[trigger] p[k] <= 57,
    ensures
        dec_val(p) >= 0,
    decreases p.len(),
{
    if p.len() > 0 {
        assert forall|k: int| 0 <= k < p.drop_last().len() implies 48 <= #[trigger] p.drop_last()[k]
            <= 57 by {
            assert(p.drop_last()[k] == p[k]);
        }
        lemma_dec_val_nonneg(p.drop_last());
    }
}

/// One valid octet group: one to three decimal digits, no leading zero
/// (unless the group is exactly `0`), value at most 255.
pub open spec fn is_octet(p: Seq<u8>) -> bool {
    &&& 1 <= p.len() <= 3
    &&& forall|k: int| 0 <= k < p.len() ==> 48 <= #[trigger] p[k] <= 57
    &&& (p.len() > 1 ==> p[0] != 48)
    &&& dec_val(p) <= 255
}

/// Parse a dotted quad: `Some` of the big-endian 32-bit address value
/// exactly when the text is four valid octet groups joined by dots,
/// `None` otherwise.
pub open spec fn spec_parse_ipv4(s: Seq<u8>) -> Option<u32> {
    let parts = spec_splitn(s, 5, DOT);
    if parts.len() == 4 && is_octet(parts[0]) && is_octet(parts[1]) && is_octet(parts[2])
        && is_octet(parts[3]) {
        Some(
            (dec_val(parts[0]) * 0x1000000 + dec_val(parts[1]) * 0x10000 + dec_val(parts[2]) * 0x100
                + dec_val(parts[3])) as u32,
        )
    } else {
        None
    }
}

/// Parse one octet group.
fn parse_octet(p: &Vec<u8>) -> (r: Option<u8>)
    ensures
        r == if is_octet(p@) {
            Some(dec_val(p@) as u8)
        } else {
            None::<u8>
        },
{
    let n = p.len();
    if n < 1 || n > 3 {
        return None;
    }
    if n > 1 && p[0] == 48 {
        return None;
    }
    let mut val: u32 = 0;
    let mut j: usize = 0;
    while j < n
        invariant
            j <= n,
            n == p@.len() <= 3,
            forall|k: int| 0 <= k < j ==> 48 <= #[trigger] p@[k] <= 57,
            val == dec_val(p@.take(j as int)),
            val < if j == 0 {
                1u32
            } else if j == 1 {
                10u32
            } else if j == 2 {
                100u32
            } else {
                1000u32
            },
        decreases n - j,
    {
        let b = p[j];
        if b < 48 || b > 57 {
            return None;
        }
        val = val * 10 + ((b - 48) as u32);
        proof {
            assert(p@.take(j + 1).drop_last() =~= p@.take(j as int));
            assert(p@.take(j + 1).last() == p@[j as int]);
        }
        j += 1;
    }
    proof {
        assert(p@.take(n as int) =~= p@);
    }
    if val > 255 {
        return None;
    }
    Some(val as u8)
}

/// Parse a dotted-quad IPv4 address field.
pub fn parse_ipv4(s: &Vec<u8>) -> (r: Option<u32>)
    ensures
        r == spec_parse_ipv4(s@),
{
    let parts = splitn(s, 5, DOT);
    proof {
        assert(views_of(parts@).len() == parts@.len());
    }
    if parts.len() != 4 {
        return None;
    }
    proof {
        assert forall|i: int| 0 <= i < 4 implies views_of(parts@)[i] == parts@[i]@ by {}
    }
    let o0 = match parse_octet(&parts[0]) {
        Some(v) => v,
        None => {
            return None;
        },
    };
    let o1 = match parse_octet(&parts[1]) {
        Some(v) => v,
        None => {
            return None;
        },
    };
    let o2 = match parse_octet(&parts[2]) {
        Some(v) => v,
        None => {
            return None;
        },
    };
    let o3 = match parse_octet(&parts[3]) {
        Some(v) => v,
        None => {
            return None;
        },
    };
    proof {
        let ps = spec_splitn(s@, 5, DOT);
        lemma_dec_val_nonneg(ps[0]);
        lemma_dec_val_nonneg(ps[1]);
        lemma_dec_val_nonneg(ps[2]);
        lemma_dec_val_nonneg(ps[3]);
    }
    Some((o0 as u32) * 0x1000000 + (o1 as u32) * 0x10000 + (o2 as u32) * 0x100 + (o3 as u32))
}

/// The dotted-quad text of a big-endian 32-bit address value.
pub open spec fn fmt_ipv4(a: int) -> Seq<char> {
    dec_digits(a / 0x1000000 % 0x100) + seq!['.'] + dec_digits(a / 0x10000 % 0x100) + seq!['.']
        + dec_digits(a / 0x100 % 0x100) + seq!['.'] + dec_digits(a % 0x100)
}

/// Append an address in standard dotted-quad notation.
pub fn push_ipv4(s: &mut String, a: u32)
    ensures
        final(s)@ == old(s)@ + fmt_ipv4(a as int),
{
    proof {
        reveal_strlit(".");
    }
    push_decimal(s, (a / 0x1000000 % 0x100) as u64);
    s.append(".");
    push_decimal(s, (a / 0x10000 % 0x100) as u64);
    s.append(".");
    push_decimal(s, (a / 0x100 % 0x100) as u64);
    s.append(".");
    push_decimal(s, (a % 0x100) as u64);
    assert("."@ =~= seq!['.']);
    assert(s@ =~= old(s)@ + fmt_ipv4(a as int));
}

} // verus!
