//! The access-log line parser and the text-to-binary converter. A line
//! such as
//!
//! ```text
//! 213.180.203.32 - - [31/Aug/2020:00:00:39 +0000] "GET ...
//! ```
//!
//! splits into at most six space-separated fields (the sixth keeps the
//! rest of the line); field 0 must be a dotted-quad IPv4 address and
//! fields 3 and 4, rejoined with one space, must be a bracketed
//! `[dd/Mon/YYYY:HH:MM:SS +ZZZZ]` timestamp, which chrono resolves to a
//! UTC epoch second.

use vstd::prelude::*;
use vstd::string::StringExecFns;
use crate::codec::Record;
use crate::codec::encode;
use crate::codec::signed32;
use crate::codec::spec_encode;
use crate::codec::wrap_i64_to_i32;
use crate::ipv4::parse_ipv4;
use crate::ipv4::spec_parse_ipv4;
use crate::split::spec_splitn;
use crate::split::splitn;
use crate::split::views_of;

verus! {

/// The ASCII space that separates log-line fields.
pub const SPACE: u8 = 32;

/// Why a log line was rejected. A rejected line is skipped with a
/// diagnostic; it never aborts a conversion run.
#[derive(Clone, Copy, PartialEq, Eq, Structural, Debug)]
pub enum ParseError {
    /// The line has fewer than 5 space-separated fields.
    TooFewFields,
    /// Field 0 is not a valid dotted-quad IPv4 address.
    BadAddress,
    /// Fields 3 and 4 are not a valid bracketed timestamp.
    BadTimestamp,
}

/// The diagnostic text for a rejected line.
pub open spec fn diag_of(e: ParseError) -> Seq<char> {
    match e {
        ParseError::TooFewFields => "skipping line: fewer than 5 fields"@,
        ParseError::BadAddress => "skipping line: not a valid IPv4 address"@,
        ParseError::BadTimestamp => "skipping line: not a valid timestamp"@,
    }
}

impl ParseError {
    /// The human-readable diagnostic for a rejected line.
    pub fn message(&self) -> (r: String)
        ensures
            r@ == diag_of(*self),
    {
        match self {
            ParseError::TooFewFields => String::from_str("skipping line: fewer than 5 fields"),
            ParseError::BadAddress => String::from_str("skipping line: not a valid IPv4 address"),
            ParseError::BadTimestamp => String::from_str("skipping line: not a valid timestamp"),
        }
    }
}

/// The epoch second chrono assigns to a bracketed access-log timestamp
/// text, or `None` when the text does not match the format. A fixed
/// mathematical function of the bytes alone: the format's month names
/// are chrono's fixed English abbreviations and the zone offset is part
/// of the text, so no locale or environment enters.
pub uninterp spec fn chrono_epoch_of(s: Seq<u8>) -> Option<i64>;

/// Relies on chrono: `DateTime::parse_from_str` with format
/// `[%d/%b/%Y:%H:%M:%S %z]`, then `timestamp()`, which give the UTC
/// epoch second of the parsed moment. `None` exactly when the text is
/// not UTF-8 (every text the format accepts is) or chrono cannot parse
/// it. chrono's datetimes span about +/-262,000 years around the epoch,
/// so a returned epoch second stays well within +/-2^47.
#[verifier::external_body]
fn epoch_of_datestr(s: &Vec<u8>) -> (r: Option<i64>)
    ensures
        r == chrono_epoch_of(s@),
        r matches Some(e) ==> -0x8000_0000_0000 <= e <= 0x8000_0000_0000,
{
    let text = match std::str::from_utf8(s) {
        Ok(t) => t,
        Err(_) => return None,
    };
    chrono::DateTime::parse_from_str(text, "[%d/%b/%Y:%H:%M:%S %z]").ok().map(|d| d.timestamp())
}

/// Fields 3 and 4 rejoined with a single space: the bracketed timestamp
/// text handed to chrono.
pub open spec fn spec_datestr(parts: Seq<Seq<u8>>) -> Seq<u8> {
    parts[3] + seq![SPACE] + parts[4]
}

/// What parsing one log line yields: the record for a well-formed line,
/// and for a rejected line exactly which check failed (too few fields,
/// then the address, then the timestamp). The parsed epoch second is
/// truncated two's-complement to 32 bits, the format's accepted
/// limitation.
pub open spec fn spec_parse_log_line(s: Seq<u8>) -> Result<Record, ParseError> {
    let parts = spec_splitn(s, 6, SPACE);
    if parts.len() < 5 {
        Err(ParseError::TooFewFields)
    } else {
        match spec_parse_ipv4(parts[0]) {
            None => Err(ParseError::BadAddress),
            Some(a) => match chrono_epoch_of(spec_datestr(parts)) {
                None => Err(ParseError::BadTimestamp),
                Some(e) => Ok(Record { t: signed32(e as int % 0x100000000) as i32, a }),
            },
        }
    }
}

/// Append a copy of `src`.
fn push_all(dst: &mut Vec<u8>, src: &Vec<u8>)
    ensures
        final(dst)@ == old(dst)@ + src@,
{
    let n = src.len();
    let mut j: usize = 0;
    while j < n
        invariant
            j <= n,
            n == src@.len(),
            dst@ == old(dst)@ + src@.take(j as int),
        decreases n - j,
    {
        dst.push(src[j]);
        assert(dst@ =~= old(dst)@ + src@.take(j + 1));
        j += 1;
    }
    assert(dst@ =~= old(dst)@ + src@);
}

/// Parse one log line into a record, or say exactly why it is rejected.
/// Total and deterministic: every byte string gets the one answer
/// `spec_parse_log_line` assigns it.
pub fn parse_log_line(line: &Vec<u8>) -> (r: Result<Record, ParseError>)
    ensures
        r == spec_parse_log_line(line@),
{
    let parts = splitn(line, 6, SPACE);
    proof {
        assert(views_of(parts@).len() == parts@.len());
    }
    if parts.len() < 5 {
        return Err(ParseError::TooFewFields);
    }
    proof {
        assert forall|i: int| 0 <= i < parts@.len() implies views_of(parts@)[i] == parts@[i]@ by {}
    }
    let a = match parse_ipv4(&parts[0]) {
        Some(a) => a,
        None => {
            return Err(ParseError::BadAddress);
        },
    };
    let mut datestr: Vec<u8> = Vec::new();
    push_all(&mut datestr, &parts[3]);
    datestr.push(SPACE);
    push_all(&mut datestr, &parts[4]);
    proof {
        assert(datestr@ =~= spec_datestr(views_of(parts@)));
    }
    let e = match epoch_of_datestr(&datestr) {
        Some(e) => e,
        None => {
            return Err(ParseError::BadTimestamp);
        },
    };
    let t = wrap_i64_to_i32(e);
    Ok(Record { t, a })
}

/// The binary stream a line sequence converts to: the 8-byte encoding of
/// each well-formed line's record, in input order; rejected lines
/// contribute nothing.
pub open spec fn spec_mlg_bytes(ls: Seq<Seq<u8>>) -> Seq<u8>
    decreases ls.len(),
{
    if ls.len() == 0 {
        Seq::empty()
    } else {
        spec_mlg_bytes(ls.drop_last()) + (match spec_parse_log_line(ls.last()) {
            Ok(r) => spec_encode(r),
            Err(_) => Seq::empty(),
        })
    }
}

/// The diagnostics a line sequence produces: one message per rejected
/// line, in input order.
pub open spec fn spec_diags(ls: Seq<Seq<u8>>) -> Seq<Seq<char>>
    decreases ls.len(),
{
    if ls.len() == 0 {
        Seq::empty()
    } else {
        spec_diags(ls.drop_last()) + (match spec_parse_log_line(ls.last()) {
            Ok(_) => Seq::empty(),
            Err(e) => seq![diag_of(e)],
        })
    }
}

/// Convert a text log, given as one byte string per line, to the binary
/// record stream: exactly one 8-byte record per well-formed line, in
/// input order, plus one diagnostic per rejected line. A malformed line
/// never aborts the run; the conversion is total.
pub fn log2mlg(lines: &Vec<Vec<u8>>) -> (r: (Vec<u8>, Vec<String>))
    ensures
        r.0@ == spec_mlg_bytes(views_of(lines@)),
        views_of(r.1@) == spec_diags(views_of(lines@)),
{
    let mut out: Vec<u8> = Vec::new();
    let mut diags: Vec<String> = Vec::new();
    let n = lines.len();
    let ghost lv = views_of(lines@);
    proof {
        assert(lv.take(0) =~= Seq::<Seq<u8>>::empty());
        assert(views_of(diags@) =~= spec_diags(lv.take(0)));
    }
    let mut i: usize = 0;
    while i < n
        invariant
            i <= n,
            n == lines@.len(),
            lv == views_of(lines@),
            out@ == spec_mlg_bytes(lv.take(i as int)),
            views_of(diags@) == spec_diags(lv.take(i as int)),
        decreases n - i,
    {
        proof {
            assert(lv.take(i + 1).drop_last() =~= lv.take(i as int));
            assert(lv.take(i + 1).last() == lv[i as int]);
            assert(lv[i as int] == lines@[i as int]@);
        }
        match parse_log_line(&lines[i]) {
            Ok(rec) => {
                let mut enc = encode(rec.t, rec.a);
                out.append(&mut enc);
                proof {
                    assert(out@ =~= spec_mlg_bytes(lv.take(i + 1)));
                    assert(views_of(diags@) =~= spec_diags(lv.take(i + 1)));
                }
            },
            Err(e) => {
                let msg = e.message();
                let ghost mstr: String = msg;
                let ghost prevd = diags@;
                diags.push(msg);
                proof {
                    assert(diags@ == prevd.push(mstr));
                    assert forall|j: int|
                        0 <= j < diags@.len() implies views_of(diags@)[j] == (views_of(prevd)
                        + seq![diag_of(e)])[j] by {
                        assert(views_of(diags@)[j] == diags@[j]@);
                        if j < prevd.len() {
                            assert(diags@[j] == prevd[j]);
                            assert(views_of(prevd)[j] == prevd[j]@);
                        } else {
                            assert(diags@[j] == mstr);
                        }
                    }
                    assert(views_of(diags@) =~= views_of(prevd) + seq![diag_of(e)]);
                    assert(views_of(diags@) =~= spec_diags(lv.take(i + 1)));
                    assert(out@ =~= spec_mlg_bytes(lv.take(i + 1)));
                }
            },
        }
        i += 1;
    }
    proof {
        assert(lv.take(n as int) =~= lv);
    }
    (out, diags)
}

} // verus!
