//! Laws the aggregation reports obey: a report is uniquely determined by
//! the record stream (so re-running a pass reproduces it byte for byte),
//! a single-day single-address stream reports exactly one line with
//! count 1 however many records it holds, and merging day buckets into a
//! month counts the union of their address sets.

use vstd::prelude::*;
use vstd::set_lib::lemma_len_subset;
use crate::calendar::day_key;
use crate::codec::Record;
use crate::passes::addrs_for_day;
use crate::passes::addrs_for_month;
use crate::passes::date_line;
use crate::passes::day_keys;
use crate::passes::is_dau_report;
use crate::passes::is_dau_report_with;
use crate::passes::is_mau_report;
use crate::passes::is_mau_report_with;
use crate::passes::is_uniq_report;
use crate::passes::is_uniq_report_with;
use crate::passes::month_code_of_day;
use crate::passes::strictly_sorted;
use crate::passes::strictly_sorted_u32;

verus! {

/// A set has exactly one strictly ascending enumeration: two sorted
/// sequences with the same elements are equal.
pub proof fn lemma_sorted_unique(s1: Seq<int>, s2: Seq<int>)
    requires
        strictly_sorted(s1),
        strictly_sorted(s2),
        forall|x: int| s1.contains(x) <==> s2.contains(x),
    ensures
        s1 == s2,
    decreases s1.len(),
{
    if s1.len() == 0 {
        if s2.len() > 0 {
            assert(s2.contains(s2[0]));
            assert(false);
        }
        assert(s1 =~= s2);
    } else {
        assert(s1.contains(s1[0]));
        assert(s2.contains(s1[0]));
        assert(s2.len() > 0);
        assert(s2.contains(s2[0]));
        assert(s1.contains(s2[0]));
        let j2 = choose|j: int| 0 <= j < s2.len() && s2[j] == s1[0];
        if j2 > 0 {
            assert(s2[0] < s2[j2]);
        }
        let j1 = choose|j: int| 0 <= j < s1.len() && s1[j] == s2[0];
        if j1 > 0 {
            assert(s1[0] < s1[j1]);
        }
        assert(s1[0] == s2[0]);
        let t1 = s1.skip(1);
        let t2 = s2.skip(1);
        assert forall|p: int, q: int| 0 <= p < q < t1.len() implies t1[p] < t1[q] by {
            assert(t1[p] == s1[p + 1] && t1[q] == s1[q + 1]);
        }
        assert forall|p: int, q: int| 0 <= p < q < t2.len() implies t2[p] < t2[q] by {
            assert(t2[p] == s2[p + 1] && t2[q] == s2[q + 1]);
        }
        assert forall|x: int| t1.contains(x) <==> t2.contains(x) by {
            if t1.contains(x) {
                let p = choose|p: int| 0 <= p < t1.len() && t1[p] == x;
                assert(s1[p + 1] == x);
                assert(s1[0] < s1[p + 1]);
                assert(s1.contains(x));
                let q = choose|q: int| 0 <= q < s2.len() && s2[q] == x;
                assert(q != 0);
                assert(t2[q - 1] == x);
                assert(t2.contains(x));
            }
            if t2.contains(x) {
                let p = choose|p: int| 0 <= p < t2.len() && t2[p] == x;
                assert(s2[p + 1] == x);
                assert(s2[0] < s2[p + 1]);
                assert(s2.contains(x));
                let q = choose|q: int| 0 <= q < s1.len() && s1[q] == x;
                assert(q != 0);
                assert(t1[q - 1] == x);
                assert(t1.contains(x));
            }
        }
        lemma_sorted_unique(t1, t2);
        assert forall|p: int| 0 <= p < s1.len() implies s1[p] == s2[p] by {
            if p > 0 {
                assert(t1[p - 1] == s1[p] && t2[p - 1] == s2[p]);
            }
        }
        assert(s1 =~= s2);
    }
}

/// The same uniqueness for ascending address sequences.
pub proof fn lemma_sorted_unique_u32(s1: Seq<u32>, s2: Seq<u32>)
    requires
        strictly_sorted_u32(s1),
        strictly_sorted_u32(s2),
        forall|x: u32| s1.contains(x) <==> s2.contains(x),
    ensures
        s1 == s2,
    decreases s1.len(),
{
    if s1.len() == 0 {
        if s2.len() > 0 {
            assert(s2.contains(s2[0]));
            assert(false);
        }
        assert(s1 =~= s2);
    } else {
        assert(s1.contains(s1[0]));
        assert(s2.contains(s1[0]));
        assert(s2.len() > 0);
        assert(s2.contains(s2[0]));
        assert(s1.contains(s2[0]));
        let j2 = choose|j: int| 0 <= j < s2.len() && s2[j] == s1[0];
        if j2 > 0 {
            assert(s2[0] < s2[j2]);
        }
        let j1 = choose|j: int| 0 <= j < s1.len() && s1[j] == s2[0];
        if j1 > 0 {
            assert(s1[0] < s1[j1]);
        }
        assert(s1[0] == s2[0]);
        let t1 = s1.skip(1);
        let t2 = s2.skip(1);
        assert forall|p: int, q: int| 0 <= p < q < t1.len() implies t1[p] < t1[q] by {
            assert(t1[p] == s1[p + 1] && t1[q] == s1[q + 1]);
        }
        assert forall|p: int, q: int| 0 <= p < q < t2.len() implies t2[p] < t2[q] by {
            assert(t2[p] == s2[p + 1] && t2[q] == s2[q + 1]);
        }
        assert forall|x: u32| t1.contains(x) <==> t2.contains(x) by {
            if t1.contains(x) {
                let p = choose|p: int| 0 <= p < t1.len() && t1[p] == x;
                assert(s1[p + 1] == x);
                assert(s1[0] < s1[p + 1]);
                assert(s1.contains(x));
                let q = choose|q: int| 0 <= q < s2.len() && s2[q] == x;
                assert(q != 0);
                assert(t2[q - 1] == x);
                assert(t2.contains(x));
            }
            if t2.contains(x) {
                let p = choose|p: int| 0 <= p < t2.len() && t2[p] == x;
                assert(s2[p + 1] == x);
                assert(s2[0] < s2[p + 1]);
                assert(s2.contains(x));
                let q = choose|q: int| 0 <= q < s1.len() && s1[q] == x;
                assert(q != 0);
                assert(t1[q - 1] == x);
                assert(t1.contains(x));
            }
        }
        lemma_sorted_unique_u32(t1, t2);
        assert forall|p: int| 0 <= p < s1.len() implies s1[p] == s2[p] by {
            if p > 0 {
                assert(t1[p - 1] == s1[p] && t2[p - 1] == s2[p]);
            }
        }
        assert(s1 =~= s2);
    }
}

/// Aggregation is a function of the stream: any two daily reports of the
/// same records are byte-identical, so re-running the pass over an
/// unmodified binary file reproduces its output exactly.
pub proof fn lemma_dau_deterministic(rs: Seq<Record>, l1: Seq<Seq<char>>, l2: Seq<Seq<char>>)
    requires
        is_dau_report(rs, l1),
        is_dau_report(rs, l2),
    ensures
        l1 == l2,
{
    let ks1 = choose|ks: Seq<int>| is_dau_report_with(rs, l1, ks);
    let ks2 = choose|ks: Seq<int>| is_dau_report_with(rs, l2, ks);
    lemma_sorted_unique(ks1, ks2);
    assert forall|i: int| 0 <= i < l1.len() implies l1[i] == l2[i] by {}
    assert(l1 =~= l2);
}

/// The same determinism for the monthly report.
pub proof fn lemma_mau_deterministic(rs: Seq<Record>, l1: Seq<Seq<char>>, l2: Seq<Seq<char>>)
    requires
        is_mau_report(rs, l1),
        is_mau_report(rs, l2),
    ensures
        l1 == l2,
{
    let cs1 = choose|cs: Seq<int>| is_mau_report_with(rs, l1, cs);
    let cs2 = choose|cs: Seq<int>| is_mau_report_with(rs, l2, cs);
    lemma_sorted_unique(cs1, cs2);
    assert forall|i: int| 0 <= i < l1.len() implies l1[i] == l2[i] by {}
    assert(l1 =~= l2);
}

/// The same determinism for the unique-address listing.
pub proof fn lemma_uniq_deterministic(rs: Seq<Record>, l1: Seq<Seq<char>>, l2: Seq<Seq<char>>)
    requires
        is_uniq_report(rs, l1),
        is_uniq_report(rs, l2),
    ensures
        l1 == l2,
{
    let a1 = choose|a: Seq<u32>| is_uniq_report_with(rs, l1, a);
    let a2 = choose|a: Seq<u32>| is_uniq_report_with(rs, l2, a);
    lemma_sorted_unique_u32(a1, a2);
    assert forall|i: int| 0 <= i < l1.len() implies l1[i] == l2[i] by {}
    assert(l1 =~= l2);
}

/// When every record of a non-empty stream shares one day and one
/// address, the daily report is exactly one line with count 1, however
/// many records the stream holds.
pub proof fn lemma_dau_single_day(rs: Seq<Record>, lines: Seq<Seq<char>>, d: int, a: u32)
    requires
        rs.len() > 0,
        forall|i: int|
            0 <= i < rs.len() ==> day_key((#[trigger] rs[i]).t as int) == d && rs[i].a == a,
        is_dau_report(rs, lines),
    ensures
        lines == seq![date_line(d, 1)],
{
    let ks = choose|ks: Seq<int>| is_dau_report_with(rs, lines, ks);
    assert(day_keys(rs).contains(d)) by {
        assert(day_key(rs[0].t as int) == d);
    }
    assert forall|x: int| ks.contains(x) <==> seq![d].contains(x) by {
        if ks.contains(x) {
            assert(day_keys(rs).contains(x));
            let i = choose|i: int| 0 <= i < rs.len() && day_key(rs[i].t as int) == x;
            assert(x == d);
            assert(seq![d][0] == d);
        }
        if seq![d].contains(x) {
            assert(x == d);
            assert(ks.contains(d));
        }
    }
    lemma_sorted_unique(ks, seq![d]);
    assert forall|a2: u32|
        addrs_for_day(rs, d).contains(a2) <==> Set::<u32>::empty().insert(a).contains(a2) by {
        if addrs_for_day(rs, d).contains(a2) {
            let i = choose|i: int|
                0 <= i < rs.len() && day_key(rs[i].t as int) == d && rs[i].a == a2;
            assert(a2 == a);
        }
        if a2 == a {
            assert(day_key(rs[0].t as int) == d && rs[0].a == a2);
            assert(addrs_for_day(rs, d).contains(a2));
        }
    }
    assert(addrs_for_day(rs, d) =~= Set::<u32>::empty().insert(a));
    assert(Set::<u32>::empty().insert(a).len() == 1);
    assert(lines =~= seq![date_line(d, 1)]);
}

/// Exact inclusion-exclusion for finite sets.
pub proof fn lemma_union_len_exact<A>(s1: Set<A>, s2: Set<A>)
    requires
        s1.finite(),
        s2.finite(),
    ensures
        s1.union(s2).len() == s1.len() + s2.len() - s1.intersect(s2).len(),
        s1.union(s2).finite(),
    decreases s1.len(),
{
    if s1.len() == 0 {
        s1.lemma_len0_is_empty();
        assert(s1.union(s2) =~= s2);
        assert(s1.intersect(s2) =~= Set::<A>::empty());
    } else {
        let x = s1.choose();
        assert(s1.contains(x));
        let s1r = s1.remove(x);
        lemma_union_len_exact(s1r, s2);
        assert(s1r.intersect(s2).subset_of(s1r));
        lemma_len_subset(s1r.intersect(s2), s1r);
        if s2.contains(x) {
            assert(s1.union(s2) =~= s1r.union(s2));
            assert(s1.intersect(s2) =~= s1r.intersect(s2).insert(x));
            assert(!s1r.intersect(s2).contains(x));
        } else {
            assert(s1.union(s2) =~= s1r.union(s2).insert(x));
            assert(!s1r.union(s2).contains(x));
            assert(s1.intersect(s2) =~= s1r.intersect(s2));
        }
    }
}

/// Day buckets are finite: a stream holds finitely many addresses per
/// day.
pub proof fn lemma_addrs_for_day_finite(rs: Seq<Record>, d: int)
    ensures
        addrs_for_day(rs, d).finite(),
    decreases rs.len(),
{
    if rs.len() == 0 {
        assert(addrs_for_day(rs, d) =~= Set::<u32>::empty());
    } else {
        let pre = rs.drop_last();
        lemma_addrs_for_day_finite(pre, d);
        let r = rs.last();
        assert forall|a: u32|
            addrs_for_day(rs, d).contains(a) implies addrs_for_day(pre, d).insert(
            r.a,
        ).contains(a) by {
            let i = choose|i: int|
                0 <= i < rs.len() && day_key(rs[i].t as int) == d && rs[i].a == a;
            if i < rs.len() - 1 {
                assert(pre[i] == rs[i]);
                assert(addrs_for_day(pre, d).contains(a));
            } else {
                assert(a == r.a);
            }
        }
        assert(addrs_for_day(rs, d).subset_of(addrs_for_day(pre, d).insert(r.a)));
        lemma_len_subset(addrs_for_day(rs, d), addrs_for_day(pre, d).insert(r.a));
    }
}

/// Month merge: when a stream's records fall on exactly two days of one
/// calendar month, whose day buckets hold 3 and 2 distinct addresses
/// sharing exactly 1, the month bucket holds their union and counts 4.
pub proof fn lemma_month_merge(rs: Seq<Record>, d1: int, d2: int, c: int)
    requires
        month_code_of_day(d1) == c,
        month_code_of_day(d2) == c,
        forall|i: int|
            0 <= i < rs.len() ==> day_key((#[trigger] rs[i]).t as int) == d1 || day_key(
                rs[i].t as int,
            ) == d2,
        addrs_for_day(rs, d1).len() == 3,
        addrs_for_day(rs, d2).len() == 2,
        addrs_for_day(rs, d1).intersect(addrs_for_day(rs, d2)).len() == 1,
    ensures
        addrs_for_month(rs, c).len() == 4,
{
    let s1 = addrs_for_day(rs, d1);
    let s2 = addrs_for_day(rs, d2);
    lemma_addrs_for_day_finite(rs, d1);
    lemma_addrs_for_day_finite(rs, d2);
    assert forall|a: u32| addrs_for_month(rs, c).contains(a) implies s1.union(s2).contains(a) by {
        let i = choose|i: int|
            0 <= i < rs.len() && month_code_of_day(day_key(rs[i].t as int)) == c && rs[i].a == a;
        if day_key(rs[i].t as int) == d1 {
            assert(s1.contains(a));
        } else {
            assert(s2.contains(a));
        }
    }
    assert forall|a: u32| s1.union(s2).contains(a) implies addrs_for_month(rs, c).contains(a) by {
        if s1.contains(a) {
            let i = choose|i: int|
                0 <= i < rs.len() && day_key(rs[i].t as int) == d1 && rs[i].a == a;
            assert(month_code_of_day(day_key(rs[i].t as int)) == c);
        } else {
            let i = choose|i: int|
                0 <= i < rs.len() && day_key(rs[i].t as int) == d2 && rs[i].a == a;
            assert(month_code_of_day(day_key(rs[i].t as int)) == c);
        }
    }
    assert(addrs_for_month(rs, c) =~= s1.union(s2));
    lemma_union_len_exact(s1, s2);
}

} // verus!
