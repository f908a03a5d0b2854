//! Byte-string splitting: the log-line field splitter (`splitn`-style,
//! with a field limit, so the trailing request text stays in one piece)
//! and the dotted-quad separator split both reduce to it.

use vstd::prelude::*;

verus! {

/// The views of a sequence of viewable values (`Vec<u8>` to `Seq<u8>`,
/// `String` to `Seq<char>`).
pub open spec fn views_of<T: View>(s: Seq<T>) -> Seq<T::V> {
    s.map_values(|x: T| x@)
}

/// The index of the first occurrence of `c` in `s`, or -1 when absent.
pub open spec fn spec_find(s: Seq<u8>, c: u8) -> int
    decreases s.len(),
{
    if s.len() == 0 {
        -1
    } else if s[0] == c {
        0
    } else if spec_find(s.skip(1), c) < 0 {
        -1
    } else {
        1 + spec_find(s.skip(1), c)
    }
}

/// `spec_find` is the first occurrence: position `i` holds `c` and no
/// earlier position does.
proof fn lemma_find_at(s: Seq<u8>, c: u8, i: int)
    requires
        0 <= i < s.len(),
        s[i] == c,
        forall|k: int| 0 <= k < i ==> s[k] != c,
    ensures
        spec_find(s, c) == i,
    decreases i,
{
    if i == 0 {
    } else {
        assert(s[0] != c);
        assert forall|k: int| 0 <= k < i - 1 implies s.skip(1)[k] != c by {
            assert(s.skip(1)[k] == s[k + 1]);
        }
        assert(s.skip(1)[i - 1] == s[i]);
        lemma_find_at(s.skip(1), c, i - 1);
    }
}

/// When no position holds `c`, `spec_find` reports -1.
proof fn lemma_find_none(s: Seq<u8>, c: u8)
    requires
        forall|k: int| 0 <= k < s.len() ==> s[k] != c,
    ensures
        spec_find(s, c) == -1,
    decreases s.len(),
{
    if s.len() == 0 {
    } else {
        assert forall|k: int| 0 <= k < s.len() - 1 implies s.skip(1)[k] != c by {
            assert(s.skip(1)[k] == s[k + 1]);
        }
        lemma_find_none(s.skip(1), c);
    }
}

/// `s` split on `c` into at most `n` fields: each separator starts a new
/// field until `n` fields exist; the last field keeps the rest of `s`
/// unsplit. Splitting never fails and an absent separator yields one
/// field, possibly empty.
pub open spec fn spec_splitn(s: Seq<u8>, n: int, c: u8) -> Seq<Seq<u8>>
    decreases n,
{
    if n <= 1 || spec_find(s, c) < 0 {
        seq![s]
    } else {
        seq![s.take(spec_find(s, c))] + spec_splitn(s.skip(spec_find(s, c) + 1), n - 1, c)
    }
}

/// The first position of `c` at or after `start`, scanning left to right.
fn find_byte(s: &Vec<u8>, start: usize, c: u8) -> (r: Option<usize>)
    requires
        start <= s@.len(),
    ensures
        match r {
            Some(j) => start <= j < s@.len() && spec_find(s@.skip(start as int), c) == j - start,
            None => spec_find(s@.skip(start as int), c) == -1,
        },
{
    let n = s.len();
    let mut j = start;
    while j < n
        invariant
            start <= j <= n,
            n == s@.len(),
            forall|k: int| start <= k < j ==> s@[k] != c,
        decreases n - j,
    {
        if s[j] == c {
            proof {
                let tail = s@.skip(start as int);
                assert(tail[j - start] == s@[j as int]);
                assert forall|k: int| 0 <= k < j - start implies tail[k] != c by {
                    assert(tail[k] == s@[start + k]);
                }
                lemma_find_at(tail, c, j - start);
            }
            return Some(j);
        }
        j += 1;
    }
    proof {
        let tail = s@.skip(start as int);
        assert forall|k: int| 0 <= k < tail.len() implies tail[k] != c by {
            assert(tail[k] == s@[start + k]);
        }
        lemma_find_none(tail, c);
    }
    None
}

/// A copy of bytes `[from, to)`.
fn copy_range(s: &Vec<u8>, from: usize, to: usize) -> (r: Vec<u8>)
    requires
        from <= to <= s@.len(),
    ensures
        r@ == s@.subrange(from as int, to as int),
{
    let mut r: Vec<u8> = Vec::new();
    let mut j = from;
    while j < to
        invariant
            from <= j <= to,
            to <= s@.len(),
            r@ == s@.subrange(from as int, j as int),
        decreases to - j,
    {
        r.push(s[j]);
        assert(r@ =~= s@.subrange(from as int, j as int + 1));
        j += 1;
    }
    r
}

/// Split the suffix of `s` that starts at `start` into at most `n`
/// fields on separator `c`.
fn split_from(s: &Vec<u8>, start: usize, n: usize, c: u8) -> (parts: Vec<Vec<u8>>)
    requires
        start <= s@.len(),
        n >= 1,
    ensures
        views_of(parts@) == spec_splitn(s@.skip(start as int), n as int, c),
    decreases n,
{
    let slen = s.len();
    let found = find_byte(s, start, c);
    if n > 1 {
        if let Some(j) = found {
            let head = copy_range(s, start, j);
            let mut parts = split_from(s, j + 1, n - 1, c);
            parts.insert(0, head);
            proof {
                let tail = s@.skip(start as int);
                let f = spec_find(tail, c);
                assert(head@ =~= tail.take(f));
                assert(s@.skip(j + 1) =~= tail.skip(f + 1));
                assert(views_of(parts@) =~~= spec_splitn(tail, n as int, c));
            }
            return parts;
        }
    }
    let head = copy_range(s, start, slen);
    let mut parts: Vec<Vec<u8>> = Vec::new();
    parts.push(head);
    proof {
        assert(head@ =~= s@.skip(start as int));
        assert(views_of(parts@) =~~= seq![s@.skip(start as int)]);
    }
    parts
}

/// Split `s` into at most `n` fields on separator `c`.
pub fn splitn(s: &Vec<u8>, n: usize, c: u8) -> (parts: Vec<Vec<u8>>)
    requires
        n >= 1,
    ensures
        views_of(parts@) == spec_splitn(s@, n as int, c),
{
    let parts = split_from(s, 0, n, c);
    proof {
        assert(s@.skip(0) =~= s@);
    }
    parts
}

} // verus!
