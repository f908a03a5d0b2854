//! The aggregation passes over the binary record stream: daily-unique
//! addresses, monthly-unique addresses (calendar months, merged from day
//! buckets), and the global unique-address listing. Each pass scans the
//! stream once and returns its report as one line per key, in ascending
//! key order.

use vstd::prelude::*;
use vstd::string::StringExecFns;
use crate::buckets::Buckets;
use crate::buckets::bucket_add;
use crate::calendar::civil_of;
use crate::calendar::civil_of_epoch;
use crate::calendar::day_key;
use crate::calendar::day_of;
use crate::codec::Record;
use crate::codec::decode_stream;
use crate::codec::records_of;
use crate::ipset::ip_set;
use crate::ipv4::fmt_ipv4;
use crate::ipv4::push_ipv4;
use crate::split::views_of;
use crate::textfmt::dec_digits;
use crate::textfmt::fmt_year;
use crate::textfmt::pad2;
use crate::textfmt::push_decimal;
use crate::textfmt::push_pad2;
use crate::textfmt::push_year;

verus! {

/// The day keys that occur in a record sequence.
pub open spec fn day_keys(rs: Seq<Record>) -> Set<int> {
    Set::new(|d: int| exists|i: int| 0 <= i < rs.len() && day_key(rs[i].t as int) == d)
}

/// The distinct addresses of the records that fall on day `d`.
pub open spec fn addrs_for_day(rs: Seq<Record>, d: int) -> Set<u32> {
    Set::new(
        |a: u32|
            exists|i: int|
                0 <= i < rs.len() && day_key(rs[i].t as int) == d && rs[i].a == a,
    )
}

/// Every distinct address of the stream.
pub open spec fn all_addrs(rs: Seq<Record>) -> Set<u32> {
    Set::new(|a: u32| exists|i: int| 0 <= i < rs.len() && rs[i].a == a)
}

/// The day-bucket map of a record sequence.
pub open spec fn day_map(rs: Seq<Record>) -> Map<int, Set<u32>> {
    Map::new(|d: int| day_keys(rs).contains(d), |d: int| addrs_for_day(rs, d))
}

/// The calendar month of a day key, encoded order-preservingly as one
/// integer: `(year + 0x80000) * 32 + month`. The offset keeps the code
/// non-negative over chrono's whole year range, and months (1..=12)
/// never collide across years.
pub open spec fn month_code_of_day(d: int) -> int {
    (civil_of(d).0 + 0x80000) * 32 + civil_of(d).1
}

/// The encoded calendar months that occur in a record sequence.
pub open spec fn month_codes(rs: Seq<Record>) -> Set<int> {
    Set::new(
        |c: int|
            exists|i: int|
                0 <= i < rs.len() && month_code_of_day(day_key(rs[i].t as int)) == c,
    )
}

/// The distinct addresses of the records that fall in encoded month `c`:
/// the union of that month's day buckets.
pub open spec fn addrs_for_month(rs: Seq<Record>, c: int) -> Set<u32> {
    Set::new(
        |a: u32|
            exists|i: int|
                0 <= i < rs.len() && month_code_of_day(day_key(rs[i].t as int)) == c && rs[i].a
                    == a,
    )
}

/// A strictly ascending integer sequence.
pub open spec fn strictly_sorted(s: Seq<int>) -> bool {
    forall|i: int, j: int| 0 <= i < j < s.len() ==> s[i] < s[j]
}

/// A strictly ascending address sequence.
pub open spec fn strictly_sorted_u32(s: Seq<u32>) -> bool {
    forall|i: int, j: int| 0 <= i < j < s.len() ==> s[i] < s[j]
}

/// One line of the daily report: `YYYY-MM-DD: N` for day key `d` with
/// `n` distinct addresses.
pub open spec fn date_line(d: int, n: int) -> Seq<char> {
    fmt_year(civil_of(d).0) + "-"@ + pad2(civil_of(d).1) + "-"@ + pad2(civil_of(d).2) + ": "@
        + dec_digits(n)
}

/// One line of the monthly report: `YYYY-MM: N` for encoded month `c`
/// with `n` distinct addresses.
pub open spec fn month_line(c: int, n: int) -> Seq<char> {
    fmt_year(c / 32 - 0x80000) + "-"@ + pad2(c % 32) + ": "@ + dec_digits(n)
}

/// `lines` is the daily report of `rs` enumerated along key sequence
/// `ks`.
pub open spec fn is_dau_report_with(rs: Seq<Record>, lines: Seq<Seq<char>>, ks: Seq<int>) -> bool {
    &&& strictly_sorted(ks)
    &&& forall|d: int| ks.contains(d) <==> day_keys(rs).contains(d)
    &&& lines.len() == ks.len()
    &&& forall|i: int|
        0 <= i < ks.len() ==> lines[i] == date_line(ks[i], addrs_for_day(rs, ks[i]).len() as int)
}

/// `lines` is the daily report of `rs`: one `YYYY-MM-DD: N` line per
/// occurring day, in ascending day order. The enumeration is unique, so
/// this pins the report exactly.
pub open spec fn is_dau_report(rs: Seq<Record>, lines: Seq<Seq<char>>) -> bool {
    exists|ks: Seq<int>| is_dau_report_with(rs, lines, ks)
}

/// `lines` is the monthly report of `rs` enumerated along encoded month
/// sequence `cs`.
pub open spec fn is_mau_report_with(rs: Seq<Record>, lines: Seq<Seq<char>>, cs: Seq<int>) -> bool {
    &&& strictly_sorted(cs)
    &&& forall|c: int| cs.contains(c) <==> month_codes(rs).contains(c)
    &&& lines.len() == cs.len()
    &&& forall|i: int|
        0 <= i < cs.len() ==> lines[i] == month_line(cs[i], addrs_for_month(rs, cs[i]).len() as int)
}

/// `lines` is the monthly report of `rs`: one `YYYY-MM: N` line per
/// occurring calendar month, in ascending month order.
pub open spec fn is_mau_report(rs: Seq<Record>, lines: Seq<Seq<char>>) -> bool {
    exists|cs: Seq<int>| is_mau_report_with(rs, lines, cs)
}

/// `lines` lists the distinct addresses of `rs` along address sequence
/// `addrs`.
pub open spec fn is_uniq_report_with(
    rs: Seq<Record>,
    lines: Seq<Seq<char>>,
    addrs: Seq<u32>,
) -> bool {
    &&& strictly_sorted_u32(addrs)
    &&& forall|a: u32| addrs.contains(a) <==> all_addrs(rs).contains(a)
    &&& lines.len() == addrs.len()
    &&& forall|i: int| 0 <= i < addrs.len() ==> lines[i] == fmt_ipv4(addrs[i] as int)
}

/// `lines` is the unique-address report of `rs`: every distinct address
/// once, in dotted-quad notation, in ascending address order (this
/// library's explicit, deterministic choice of enumeration order).
pub open spec fn is_uniq_report(rs: Seq<Record>, lines: Seq<Seq<char>>) -> bool {
    exists|addrs: Seq<u32>| is_uniq_report_with(rs, lines, addrs)
}

/// Folding one more record into the day-bucket map adds its address to
/// its day's bucket.
proof fn lemma_day_map_step(rs: Seq<Record>, i: int)
    requires
        0 <= i < rs.len(),
    ensures
        day_map(rs.take(i + 1)) == bucket_add(
            day_map(rs.take(i)),
            day_key(rs[i].t as int),
            Set::empty().insert(rs[i].a),
        ),
{
    let pre = rs.take(i);
    let post = rs.take(i + 1);
    let d0 = day_key(rs[i].t as int);
    let m2 = bucket_add(day_map(pre), d0, Set::empty().insert(rs[i].a));
    assert forall|d: int| day_keys(post).contains(d) implies m2.dom().contains(d) by {
        let j = choose|j: int| 0 <= j < post.len() && day_key(post[j].t as int) == d;
        if j < i {
            assert(pre[j] == rs[j]);
            assert(day_keys(pre).contains(d));
        } else {
            assert(d == d0);
        }
    }
    assert forall|d: int| m2.dom().contains(d) implies day_keys(post).contains(d) by {
        if d == d0 {
            assert(post[i] == rs[i]);
        } else {
            let j = choose|j: int| 0 <= j < pre.len() && day_key(pre[j].t as int) == d;
            assert(post[j] == rs[j]);
        }
    }
    assert forall|d: int| day_keys(post).contains(d) implies addrs_for_day(post, d) == m2[d] by {
        if d == d0 {
            let s0 = if day_map(pre).dom().contains(d0) {
                day_map(pre)[d0]
            } else {
                Set::<u32>::empty()
            };
            assert forall|a: u32| addrs_for_day(post, d0).contains(a) implies s0.union(
                Set::empty().insert(rs[i].a),
            ).contains(a) by {
                let j = choose|j: int|
                    0 <= j < post.len() && day_key(post[j].t as int) == d0 && post[j].a == a;
                if j < i {
                    assert(pre[j] == rs[j]);
                    assert(addrs_for_day(pre, d0).contains(a));
                    assert(day_keys(pre).contains(d0));
                } else {
                    assert(post[j] == rs[i]);
                }
            }
            assert forall|a: u32|
                s0.union(Set::empty().insert(rs[i].a)).contains(a) implies addrs_for_day(
                post,
                d0,
            ).contains(a) by {
                if s0.contains(a) {
                    let j = choose|j: int|
                        0 <= j < pre.len() && day_key(pre[j].t as int) == d0 && pre[j].a == a;
                    assert(post[j] == rs[j]);
                } else {
                    assert(a == rs[i].a);
                    assert(post[i] == rs[i]);
                }
            }
            assert(addrs_for_day(post, d0) =~= s0.union(Set::empty().insert(rs[i].a)));
        } else {
            assert forall|a: u32| addrs_for_day(post, d).contains(a) implies addrs_for_day(
                pre,
                d,
            ).contains(a) by {
                let j = choose|j: int|
                    0 <= j < post.len() && day_key(post[j].t as int) == d && post[j].a == a;
                assert(j < i);
                assert(pre[j] == rs[j]);
            }
            assert forall|a: u32| addrs_for_day(pre, d).contains(a) implies addrs_for_day(
                post,
                d,
            ).contains(a) by {
                let j = choose|j: int|
                    0 <= j < pre.len() && day_key(pre[j].t as int) == d && pre[j].a == a;
                assert(post[j] == rs[j]);
            }
            assert(addrs_for_day(post, d) =~= addrs_for_day(pre, d));
            assert(day_keys(pre).contains(d));
        }
    }
    assert(day_map(post) =~~= m2);
}

/// Build the day buckets of a record stream: one ordered bucket per
/// occurring day, holding that day's distinct addresses.
fn build_day_buckets(rs: &Vec<Record>) -> (b: Buckets)
    ensures
        b.wf(),
        b.as_map() == day_map(rs@),
{
    let mut b = Buckets::new();
    let n = rs.len();
    proof {
        assert(b.as_map() =~~= day_map(rs@.take(0)));
    }
    let mut i: usize = 0;
    while i < n
        invariant
            b.wf(),
            n == rs@.len(),
            i <= n,
            b.as_map() == day_map(rs@.take(i as int)),
        decreases n - i,
    {
        let r = rs[i];
        let d = day_of(r.t);
        b.add(d, r.a);
        proof {
            lemma_day_map_step(rs@, i as int);
        }
        i += 1;
    }
    proof {
        assert(rs@.take(n as int) =~= rs@);
    }
    b
}

/// The daily-unique report of a binary record stream: one line
/// `YYYY-MM-DD: N` per occurring 86400-second UTC day, in ascending day
/// order, where `N` counts the day's distinct addresses.
pub fn mlg2dau(data: &Vec<u8>) -> (lines: Vec<String>)
    ensures
        is_dau_report(records_of(data@), views_of(lines@)),
{
    let rs = decode_stream(data);
    let b = build_day_buckets(&rs);
    let mut lines: Vec<String> = Vec::new();
    let n = b.keys.len();
    let mut i: usize = 0;
    while i < n
        invariant
            b.wf(),
            n == b.keys@.len(),
            i <= n,
            b.as_map() == day_map(rs@),
            rs@ == records_of(data@),
            lines@.len() == i,
            forall|j: int|
                0 <= j < i ==> views_of(lines@)[j] == date_line(
                    b.keys@[j] as int,
                    addrs_for_day(rs@, b.keys@[j] as int).len() as int,
                ),
        decreases n - i,
    {
        let k = b.keys[i];
        let c = civil_of_epoch(k);
        proof {
            b.lemma_key_index(i as int);
            assert(day_map(rs@).dom().contains(k as int));
            assert(ip_set(b.sets@[i as int]) == addrs_for_day(rs@, k as int));
        }
        let cnt = b.sets[i].len();
        let mut line = String::new();
        push_year(&mut line, c.0);
        line.append("-");
        push_pad2(&mut line, c.1);
        line.append("-");
        push_pad2(&mut line, c.2);
        line.append(": ");
        push_decimal(&mut line, cnt as u64);
        proof {
            assert("-"@ =~= seq!['-']) by {
                reveal_strlit("-");
            }
            assert(line@ =~= date_line(k as int, cnt as int));
        }
        let ghost lstr: String = line;
        let ghost prev = lines@;
        lines.push(line);
        proof {
            assert(lines@ == prev.push(lstr));
            assert forall|j: int|
                0 <= j < i + 1 implies views_of(lines@)[j] == date_line(
                b.keys@[j] as int,
                addrs_for_day(rs@, b.keys@[j] as int).len() as int,
            ) by {
                assert(views_of(lines@)[j] == lines@[j]@);
                if j < i {
                    assert(lines@[j] == prev[j]);
                    assert(views_of(prev)[j] == prev[j]@);
                } else {
                    assert(lines@[j] == lstr);
                }
            }
        }
        i += 1;
    }
    proof {
        let ks = b.keys@.map_values(|x: i64| x as int);
        assert forall|d: int| ks.contains(d) <==> day_keys(rs@).contains(d) by {
            if ks.contains(d) {
                let j = choose|j: int| 0 <= j < ks.len() && ks[j] == d;
                assert(b.keys@[j] == d);
                assert(b.has_key(d));
                assert(day_map(rs@).dom().contains(d));
            }
            if day_keys(rs@).contains(d) {
                assert(day_map(rs@).dom().contains(d));
                assert(b.has_key(d));
                let j = choose|j: int| 0 <= j < b.keys@.len() && b.keys@[j] == d;
                assert(ks[j] == d);
                assert(ks.contains(d));
            }
        }
        assert(is_dau_report_with(records_of(data@), views_of(lines@), ks));
    }
    lines
}

/// The month-bucket map of a record sequence.
pub open spec fn month_map(rs: Seq<Record>) -> Map<int, Set<u32>> {
    Map::new(|c: int| month_codes(rs).contains(c), |c: int| addrs_for_month(rs, c))
}

/// The month buckets after folding in the first `j` day buckets, whose
/// keys are `dks`.
spec fn month_partial(rs: Seq<Record>, dks: Seq<i64>, j: int) -> Map<int, Set<u32>> {
    Map::new(
        |c: int|
            exists|p: int|
                0 <= p < j && p < dks.len() && month_code_of_day(dks[p] as int) == c,
        |c: int|
            Set::new(
                |a: u32|
                    exists|p: int|
                        0 <= p < j && p < dks.len() && month_code_of_day(dks[p] as int) == c
                            && addrs_for_day(rs, dks[p] as int).contains(a),
            ),
    )
}

/// Folding one more day bucket into the month map unions its addresses
/// into its month's bucket.
proof fn lemma_month_partial_step(rs: Seq<Record>, dks: Seq<i64>, j: int)
    requires
        0 <= j < dks.len(),
    ensures
        month_partial(rs, dks, j + 1) == bucket_add(
            month_partial(rs, dks, j),
            month_code_of_day(dks[j] as int),
            addrs_for_day(rs, dks[j] as int),
        ),
{
    let pre = month_partial(rs, dks, j);
    let post = month_partial(rs, dks, j + 1);
    let c0 = month_code_of_day(dks[j] as int);
    let m2 = bucket_add(pre, c0, addrs_for_day(rs, dks[j] as int));
    assert forall|c: int| post.dom().contains(c) implies m2.dom().contains(c) by {
        let p = choose|p: int| 0 <= p < j + 1 && p < dks.len() && month_code_of_day(dks[p] as int)
            == c;
        if p < j {
            assert(pre.dom().contains(c));
        }
    }
    assert forall|c: int| post.dom().contains(c) implies post[c] == m2[c] by {
        let s0 = if pre.dom().contains(c) {
            pre[c]
        } else {
            Set::<u32>::empty()
        };
        if c == c0 {
            assert forall|a: u32| post[c].contains(a) implies s0.union(
                addrs_for_day(rs, dks[j] as int),
            ).contains(a) by {
                let p = choose|p: int|
                    0 <= p < j + 1 && p < dks.len() && month_code_of_day(dks[p] as int) == c
                        && addrs_for_day(rs, dks[p] as int).contains(a);
                if p < j {
                    assert(pre.dom().contains(c));
                    assert(pre[c].contains(a));
                }
            }
            assert forall|a: u32|
                s0.union(addrs_for_day(rs, dks[j] as int)).contains(a) implies post[c].contains(
                a,
            ) by {
                if s0.contains(a) {
                    let p = choose|p: int|
                        0 <= p < j && p < dks.len() && month_code_of_day(dks[p] as int) == c
                            && addrs_for_day(rs, dks[p] as int).contains(a);
                    assert(0 <= p < j + 1);
                }
            }
            assert(post[c] =~= s0.union(addrs_for_day(rs, dks[j] as int)));
        } else {
            assert forall|a: u32| post[c].contains(a) implies pre[c].contains(a) by {
                let p = choose|p: int|
                    0 <= p < j + 1 && p < dks.len() && month_code_of_day(dks[p] as int) == c
                        && addrs_for_day(rs, dks[p] as int).contains(a);
                assert(p < j);
                assert(pre.dom().contains(c));
            }
            assert forall|a: u32| pre[c].contains(a) implies post[c].contains(a) by {
                let p = choose|p: int|
                    0 <= p < j && p < dks.len() && month_code_of_day(dks[p] as int) == c
                        && addrs_for_day(rs, dks[p] as int).contains(a);
                assert(0 <= p < j + 1);
            }
            assert(post[c] =~= pre[c]);
            assert(pre.dom().contains(c));
        }
    }
    assert forall|c: int| m2.dom().contains(c) implies post.dom().contains(c) by {
        if c == c0 {
            assert(0 <= j < j + 1 && month_code_of_day(dks[j] as int) == c);
        } else {
            let p = choose|p: int|
                0 <= p < j && p < dks.len() && month_code_of_day(dks[p] as int) == c;
            assert(0 <= p < j + 1);
        }
    }
    assert(post =~~= m2);
}

/// Once every day bucket is folded in, the month buckets are exactly the
/// month map of the records.
proof fn lemma_month_partial_full(rs: Seq<Record>, dks: Seq<i64>)
    requires
        forall|d: int|
            (exists|p: int| 0 <= p < dks.len() && dks[p] == d) <==> day_keys(rs).contains(d),
    ensures
        month_partial(rs, dks, dks.len() as int) == month_map(rs),
{
    let mp = month_partial(rs, dks, dks.len() as int);
    let mm = month_map(rs);
    assert forall|c: int| mp.dom().contains(c) implies mm.dom().contains(c) by {
        let p = choose|p: int|
            0 <= p < dks.len() && month_code_of_day(dks[p] as int) == c;
        assert(exists|q: int| 0 <= q < dks.len() && dks[q] == dks[p] as int);
        assert(day_keys(rs).contains(dks[p] as int));
        let i = choose|i: int| 0 <= i < rs.len() && day_key(rs[i].t as int) == dks[p] as int;
        assert(month_codes(rs).contains(c));
    }
    assert forall|c: int| mm.dom().contains(c) implies mp.dom().contains(c) by {
        let i = choose|i: int|
            0 <= i < rs.len() && month_code_of_day(day_key(rs[i].t as int)) == c;
        let d = day_key(rs[i].t as int);
        assert(day_keys(rs).contains(d));
        let p = choose|p: int| 0 <= p < dks.len() && dks[p] == d;
        assert(month_code_of_day(dks[p] as int) == c);
    }
    assert forall|c: int| mp.dom().contains(c) implies mp[c] == mm[c] by {
        assert forall|a: u32| mp[c].contains(a) implies addrs_for_month(rs, c).contains(a) by {
            let p = choose|p: int|
                0 <= p < dks.len() && month_code_of_day(dks[p] as int) == c && addrs_for_day(
                    rs,
                    dks[p] as int,
                ).contains(a);
            let i = choose|i: int|
                0 <= i < rs.len() && day_key(rs[i].t as int) == dks[p] as int && rs[i].a == a;
            assert(month_code_of_day(day_key(rs[i].t as int)) == c);
        }
        assert forall|a: u32| addrs_for_month(rs, c).contains(a) implies mp[c].contains(a) by {
            let i = choose|i: int|
                0 <= i < rs.len() && month_code_of_day(day_key(rs[i].t as int)) == c && rs[i].a
                    == a;
            let d = day_key(rs[i].t as int);
            assert(day_keys(rs).contains(d));
            let p = choose|p: int| 0 <= p < dks.len() && dks[p] == d;
            assert(month_code_of_day(dks[p] as int) == c);
            assert(addrs_for_day(rs, d).contains(a));
        }
        assert(mp[c] =~= mm[c]);
    }
    assert(mp =~~= mm);
}

/// The monthly-unique report of a binary record stream: one line
/// `YYYY-MM: N` per occurring UTC calendar month, in ascending month
/// order, where `N` counts the distinct addresses of that month's day
/// buckets (months are merged from day buckets, since calendar months
/// have no fixed length).
pub fn mlg2mau(data: &Vec<u8>) -> (lines: Vec<String>)
    ensures
        is_mau_report(records_of(data@), views_of(lines@)),
{
    let rs = decode_stream(data);
    let db = build_day_buckets(&rs);
    let mut mb = Buckets::new();
    let dn = db.keys.len();
    proof {
        assert(mb.as_map() =~~= month_partial(rs@, db.keys@, 0));
    }
    let mut j: usize = 0;
    while j < dn
        invariant
            db.wf(),
            mb.wf(),
            dn == db.keys@.len(),
            j <= dn,
            db.as_map() == day_map(rs@),
            rs@ == records_of(data@),
            mb.as_map() == month_partial(rs@, db.keys@, j as int),
            forall|c: int| mb.as_map().dom().contains(c) ==> c >= 1,
        decreases dn - j,
    {
        let k = db.keys[j];
        let c = civil_of_epoch(k);
        let code: i64 = (c.0 as i64 + 0x80000) * 32 + (c.1 as i64);
        proof {
            db.lemma_key_index(j as int);
            assert(day_map(rs@).dom().contains(k as int));
            assert(ip_set(db.sets@[j as int]) == addrs_for_day(rs@, k as int));
            assert(code as int == month_code_of_day(k as int));
            lemma_month_partial_step(rs@, db.keys@, j as int);
        }
        mb.merge(code, &db.sets[j]);
        j += 1;
    }
    proof {
        assert forall|d: int|
            (exists|p: int| 0 <= p < db.keys@.len() && db.keys@[p] == d) <==> day_keys(
                rs@,
            ).contains(d) by {
            if exists|p: int| 0 <= p < db.keys@.len() && db.keys@[p] == d {
                assert(db.has_key(d));
                assert(day_map(rs@).dom().contains(d));
            }
            if day_keys(rs@).contains(d) {
                assert(day_map(rs@).dom().contains(d));
                assert(db.has_key(d));
            }
        }
        lemma_month_partial_full(rs@, db.keys@);
        assert(mb.as_map() == month_map(rs@));
    }
    let mut lines: Vec<String> = Vec::new();
    let n = mb.keys.len();
    let mut i: usize = 0;
    while i < n
        invariant
            mb.wf(),
            n == mb.keys@.len(),
            i <= n,
            mb.as_map() == month_map(rs@),
            rs@ == records_of(data@),
            forall|c: int| mb.as_map().dom().contains(c) ==> c >= 1,
            lines@.len() == i,
            forall|j2: int|
                0 <= j2 < i ==> views_of(lines@)[j2] == month_line(
                    mb.keys@[j2] as int,
                    addrs_for_month(rs@, mb.keys@[j2] as int).len() as int,
                ),
        decreases n - i,
    {
        let code = mb.keys[i];
        proof {
            mb.lemma_key_index(i as int);
            assert(month_map(rs@).dom().contains(code as int));
            assert(ip_set(mb.sets@[i as int]) == addrs_for_month(rs@, code as int));
            assert(code >= 1);
        }
        let cnt = mb.sets[i].len();
        let y: i32 = (code / 32 - 0x80000) as i32;
        let m: u32 = (code % 32) as u32;
        let mut line = String::new();
        push_year(&mut line, y);
        line.append("-");
        push_pad2(&mut line, m);
        line.append(": ");
        push_decimal(&mut line, cnt as u64);
        proof {
            assert("-"@ =~= seq!['-']) by {
                reveal_strlit("-");
            }
            assert(line@ =~= month_line(code as int, cnt as int));
        }
        let ghost lstr: String = line;
        let ghost prev = lines@;
        lines.push(line);
        proof {
            assert(lines@ == prev.push(lstr));
            assert forall|j2: int|
                0 <= j2 < i + 1 implies views_of(lines@)[j2] == month_line(
                mb.keys@[j2] as int,
                addrs_for_month(rs@, mb.keys@[j2] as int).len() as int,
            ) by {
                assert(views_of(lines@)[j2] == lines@[j2]@);
                if j2 < i {
                    assert(lines@[j2] == prev[j2]);
                    assert(views_of(prev)[j2] == prev[j2]@);
                } else {
                    assert(lines@[j2] == lstr);
                }
            }
        }
        i += 1;
    }
    proof {
        let cs = mb.keys@.map_values(|x: i64| x as int);
        assert forall|c: int| cs.contains(c) <==> month_codes(rs@).contains(c) by {
            if cs.contains(c) {
                let p = choose|p: int| 0 <= p < cs.len() && cs[p] == c;
                assert(mb.keys@[p] == c);
                assert(mb.has_key(c));
                assert(month_map(rs@).dom().contains(c));
            }
            if month_codes(rs@).contains(c) {
                assert(month_map(rs@).dom().contains(c));
                assert(mb.has_key(c));
                let p = choose|p: int| 0 <= p < mb.keys@.len() && mb.keys@[p] == c;
                assert(cs[p] == c);
                assert(cs.contains(c));
            }
        }
        assert(is_mau_report_with(records_of(data@), views_of(lines@), cs));
    }
    lines
}

/// The first position whose address is at least `a`.
fn addr_lower_bound(v: &Vec<u32>, a: u32) -> (i: usize)
    ensures
        i <= v@.len(),
        forall|j: int| 0 <= j < i ==> #[trigger] v@[j] < a,
        i < v@.len() ==> v@[i as int] >= a,
{
    let n = v.len();
    let mut i: usize = 0;
    while i < n
        invariant
            i <= n,
            n == v@.len(),
            forall|j: int| 0 <= j < i ==> #[trigger] v@[j] < a,
        decreases n - i,
    {
        if v[i] >= a {
            return i;
        }
        i += 1;
    }
    i
}

/// Insert an address into an ascending deduplicated vector, keeping it
/// ascending; already-present addresses are left alone.
fn insert_sorted(v: &mut Vec<u32>, a: u32)
    requires
        strictly_sorted_u32(old(v)@),
    ensures
        strictly_sorted_u32(final(v)@),
        forall|x: u32| final(v)@.contains(x) <==> (old(v)@.contains(x) || x == a),
{
    let i = addr_lower_bound(v, a);
    let n = v.len();
    if i < n && v[i] == a {
        proof {
            assert(old(v)@[i as int] == a);
            assert(old(v)@.contains(a));
        }
        return ;
    }
    v.insert(i, a);
    proof {
        let ov = old(v)@;
        let nv = v@;
        assert forall|p: int, q: int| 0 <= p < q < nv.len() implies #[trigger] nv[p]
            < #[trigger] nv[q] by {
            if p < i && q < i {
                assert(nv[p] == ov[p] && nv[q] == ov[q]);
            } else if p < i && q == i {
                assert(nv[p] == ov[p] && nv[q] == a);
            } else if p < i && q > i {
                assert(nv[p] == ov[p] && nv[q] == ov[q - 1]);
                if i < ov.len() {
                    assert(ov[i as int] > a);
                }
            } else if p == i && q > i {
                assert(nv[p] == a && nv[q] == ov[q - 1]);
                if i < ov.len() {
                    assert(ov[i as int] > a);
                    if q - 1 > i {
                        assert(ov[i as int] < ov[q - 1]);
                    }
                }
            } else {
                assert(p > i && q > i);
                assert(nv[p] == ov[p - 1] && nv[q] == ov[q - 1]);
            }
        }
        assert forall|x: u32| nv.contains(x) <==> (ov.contains(x) || x == a) by {
            if nv.contains(x) {
                let j = choose|j: int| 0 <= j < nv.len() && nv[j] == x;
                if j < i {
                    assert(ov[j] == x);
                    assert(ov.contains(x));
                } else if j == i {
                } else {
                    assert(ov[j - 1] == x);
                    assert(ov.contains(x));
                }
            }
            if ov.contains(x) {
                let j = choose|j: int| 0 <= j < ov.len() && ov[j] == x;
                if j < i {
                    assert(nv[j] == x);
                } else {
                    assert(nv[j + 1] == x);
                }
                assert(nv.contains(x));
            }
            if x == a {
                assert(nv[i as int] == a);
                assert(nv.contains(x));
            }
        }
    }
}

/// The unique-address report of a binary record stream: every distinct
/// address of the stream exactly once, in standard dotted-quad notation,
/// in ascending address order (an explicit, deterministic enumeration
/// order).
pub fn mlg2uniq(data: &Vec<u8>) -> (lines: Vec<String>)
    ensures
        is_uniq_report(records_of(data@), views_of(lines@)),
{
    let rs = decode_stream(data);
    let n = rs.len();
    let mut addrs: Vec<u32> = Vec::new();
    let mut i: usize = 0;
    while i < n
        invariant
            i <= n,
            n == rs@.len(),
            rs@ == records_of(data@),
            strictly_sorted_u32(addrs@),
            forall|a: u32| addrs@.contains(a) <==> all_addrs(rs@.take(i as int)).contains(a),
        decreases n - i,
    {
        let r = rs[i];
        let ghost prev = addrs@;
        insert_sorted(&mut addrs, r.a);
        proof {
            assert forall|a: u32|
                addrs@.contains(a) <==> all_addrs(rs@.take(i + 1)).contains(a) by {
                if addrs@.contains(a) {
                    if prev.contains(a) {
                        let j = choose|j: int|
                            0 <= j < rs@.take(i as int).len() && (#[trigger] rs@.take(i as int)[j]).a
                                == a;
                        assert(rs@.take(i + 1)[j] == rs@[j]);
                        assert(all_addrs(rs@.take(i + 1)).contains(a));
                    } else {
                        assert(a == r.a);
                        assert(rs@.take(i + 1)[i as int] == rs@[i as int]);
                        assert(all_addrs(rs@.take(i + 1)).contains(a));
                    }
                }
                if all_addrs(rs@.take(i + 1)).contains(a) {
                    let j = choose|j: int|
                        0 <= j < rs@.take(i + 1).len() && (#[trigger] rs@.take(i + 1)[j]).a == a;
                    if j < i {
                        assert(rs@.take(i as int)[j] == rs@[j]);
                        assert(all_addrs(rs@.take(i as int)).contains(a));
                        assert(prev.contains(a));
                    } else {
                        assert(a == r.a);
                    }
                    assert(addrs@.contains(a));
                }
            }
        }
        i += 1;
    }
    proof {
        assert(rs@.take(n as int) =~= rs@);
    }
    let an = addrs.len();
    let mut lines: Vec<String> = Vec::new();
    let mut p: usize = 0;
    while p < an
        invariant
            p <= an,
            an == addrs@.len(),
            rs@ == records_of(data@),
            strictly_sorted_u32(addrs@),
            forall|a: u32| addrs@.contains(a) <==> all_addrs(rs@).contains(a),
            lines@.len() == p,
            forall|j: int| 0 <= j < p ==> views_of(lines@)[j] == fmt_ipv4(addrs@[j] as int),
        decreases an - p,
    {
        let mut line = String::new();
        push_ipv4(&mut line, addrs[p]);
        let ghost lstr: String = line;
        let ghost prev = lines@;
        lines.push(line);
        proof {
            assert(lines@ == prev.push(lstr));
            assert forall|j: int|
                0 <= j < p + 1 implies views_of(lines@)[j] == fmt_ipv4(addrs@[j] as int) by {
                assert(views_of(lines@)[j] == lines@[j]@);
                if j < p {
                    assert(lines@[j] == prev[j]);
                    assert(views_of(prev)[j] == prev[j]@);
                } else {
                    assert(lines@[j] == lstr);
                }
            }
        }
        p += 1;
    }
    proof {
        assert(is_uniq_report_with(records_of(data@), views_of(lines@), addrs@));
    }
    lines
}

} // verus!
