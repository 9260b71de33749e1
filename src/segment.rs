//! Splitting a possibly corrupted byte stream into candidate copies at the
//! occurrences of a four-byte delimiter, working from the tail.
use vstd::prelude::*;
use vstd::arithmetic::div_mod::{lemma_fundamental_div_mod, lemma_fundamental_div_mod_converse};
use vstd::slice::slice_subrange;
use crate::bits::tiled;

verus! {

/// Length of a delimiter.
pub const DELIMITER_LEN: usize = 4;

/// The delimiter occurs in `b` at position `i`.
pub open spec fn occurs_at(b: Seq<u8>, delim: Seq<u8>, i: int) -> bool {
    0 <= i && i + 4 <= b.len() && b.subrange(i, i + 4) == delim
}

/// The last occurrence of the delimiter that starts before `k`, or -1.
pub open spec fn last_before(b: Seq<u8>, delim: Seq<u8>, k: int) -> int
    decreases k,
{
    if k <= 0 {
        -1
    } else if occurs_at(b, delim, k - 1) {
        k - 1
    } else {
        last_before(b, delim, k - 1)
    }
}

/// The candidates that the delimiters of the prefix `b[0..cur]` close, tail
/// first: the bytes after its last delimiter, then the candidates of what
/// stands before that delimiter. What stands before the first delimiter taken
/// is no candidate.
pub open spec fn segments_upto(b: Seq<u8>, delim: Seq<u8>, cur: int) -> Seq<Seq<u8>>
    decreases cur,
{
    let i = last_before(b, delim, cur - 3);
    if 0 <= i < cur {
        seq![b.subrange(i + 4, cur)] + segments_upto(b, delim, i)
    } else {
        Seq::empty()
    }
}

/// The candidates of a whole stream, tail first; a stream without any
/// delimiter is one candidate, the whole stream.
pub open spec fn segments(b: Seq<u8>, delim: Seq<u8>) -> Seq<Seq<u8>> {
    if last_before(b, delim, b.len() - 3) < 0 {
        seq![b]
    } else {
        segments_upto(b, delim, b.len() as int)
    }
}

/// `pos` lists delimiter occurrences in `b`, in increasing order, none
/// overlapping the next, all ending by `cur`.
pub open spec fn disjoint_occurrences(b: Seq<u8>, delim: Seq<u8>, pos: Seq<int>, cur: int) -> bool {
    &&& forall|k: int| 0 <= k < pos.len() ==> #[trigger] occurs_at(b, delim, pos[k]) && pos[k] + 4 <= cur
    &&& forall|k: int| 0 <= k < pos.len() - 1 ==> #[trigger] pos[k] + 4 <= pos[k + 1]
}

proof fn lemma_last_before(b: Seq<u8>, delim: Seq<u8>, k: int)
    ensures
        last_before(b, delim, k) == -1 || (0 <= last_before(b, delim, k) < k && occurs_at(
            b,
            delim,
            last_before(b, delim, k),
        )),
        forall|j: int| 0 <= j < k && #[trigger] occurs_at(b, delim, j) ==> j <= last_before(b, delim, k),
    decreases k,
{
    if k > 0 {
        lemma_last_before(b, delim, k - 1);
    }
}

proof fn lemma_segments_len(b: Seq<u8>, delim: Seq<u8>, pos: Seq<int>, cur: int)
    requires
        disjoint_occurrences(b, delim, pos, cur),
    ensures
        segments_upto(b, delim, cur).len() >= pos.len(),
    decreases cur,
{
    let i = last_before(b, delim, cur - 3);
    lemma_last_before(b, delim, cur - 3);
    if pos.len() > 0 {
        let p = pos.last();
        assert(occurs_at(b, delim, pos[pos.len() - 1]));
        assert(p <= i);
        let rest = pos.drop_last();
        assert forall|k: int| 0 <= k < rest.len() implies #[trigger] occurs_at(b, delim, rest[k])
            && rest[k] + 4 <= i by {
            assert(occurs_at(b, delim, pos[k]));
            if k < rest.len() - 1 {
                assert(pos[k] + 4 <= pos[k + 1]);
            }
            assert(pos[rest.len() - 1] + 4 <= pos[rest.len() as int]);
            assert forall|a: int, c: int| 0 <= a <= c < pos.len() implies pos[a] <= pos[c] by {
                lemma_sorted(pos, a, c);
            }
        }
        assert forall|k: int| 0 <= k < rest.len() - 1 implies #[trigger] rest[k] + 4 <= rest[k + 1] by {
            assert(pos[k] + 4 <= pos[k + 1]);
        }
        lemma_segments_len(b, delim, rest, i);
    }
}

proof fn lemma_sorted(pos: Seq<int>, a: int, c: int)
    requires
        0 <= a <= c < pos.len(),
        forall|k: int| 0 <= k < pos.len() - 1 ==> #[trigger] pos[k] + 4 <= pos[k + 1],
    ensures
        pos[a] <= pos[c],
    decreases c - a,
{
    if a < c {
        lemma_sorted(pos, a, c - 1);
        assert(pos[c - 1] + 4 <= pos[c]);
    }
}

/// A stream with `m` non-overlapping delimiter occurrences splits into at
/// least `m` candidates, and every stream into at least one.
pub proof fn lemma_segmentation_complete(b: Seq<u8>, delim: Seq<u8>, pos: Seq<int>)
    requires
        disjoint_occurrences(b, delim, pos, b.len() as int),
    ensures
        segments(b, delim).len() >= pos.len(),
        segments(b, delim).len() >= 1,
{
    lemma_segments_len(b, delim, pos, b.len() as int);
    lemma_last_before(b, delim, b.len() - 3);
    if pos.len() > 0 {
        assert(occurs_at(b, delim, pos[0]));
    }
}

/// A stream without any delimiter occurrence is a single candidate: the whole stream.
pub proof fn lemma_no_delimiter(b: Seq<u8>, delim: Seq<u8>)
    requires
        forall|i: int| !#[trigger] occurs_at(b, delim, i),
    ensures
        segments(b, delim) == seq![b],
{
    lemma_last_before(b, delim, b.len() - 3);
}

/// In two consecutive copies of the unit `e ++ delim`, the delimiter occurs only
/// where it was placed: inside `e`, and across its edges, it does not occur.
pub open spec fn only_placed_delimiters(e: Seq<u8>, delim: Seq<u8>) -> bool {
    let u = e + delim;
    forall|q: int| #[trigger] occurs_at(u + u, delim, q) ==> q == e.len() || q == u.len() + e.len()
}

proof fn lemma_window_of_repeats(u: Seq<u8>, delim: Seq<u8>, len: nat, i: int)
    requires
        u.len() >= 4,
        delim.len() == 4,
        0 <= i,
        i + 4 <= len,
    ensures
        occurs_at(tiled(u, len), delim, i) == occurs_at(u + u, delim, i % (u.len() as int)),
{
    let b = tiled(u, len);
    let n = u.len() as int;
    let q = i % n;
    lemma_fundamental_div_mod(i, n);
    assert(0 <= q < n) by (nonlinear_arith)
        requires q == i % n, n > 0;
    let w1 = b.subrange(i, i + 4);
    let w2 = (u + u).subrange(q, q + 4);
    assert forall|t: int| 0 <= t < 4 implies w1[t] == w2[t] by {
        let m = i / n;
        assert(i + t == n * m + (q + t));
        if q + t < n {
            assert(i + t == m * n + (q + t)) by (nonlinear_arith)
                requires i + t == n * m + (q + t);
            lemma_fundamental_div_mod_converse(i + t, n, m, q + t);
        } else {
            assert(i + t == (m + 1) * n + (q + t - n)) by (nonlinear_arith)
                requires i + t == n * m + (q + t);
            lemma_fundamental_div_mod_converse(i + t, n, m + 1, q + t - n);
        }
    }
    assert(w1 =~= w2);
}

proof fn lemma_occurrence_in_repeats(e: Seq<u8>, delim: Seq<u8>, len: nat, i: int)
    requires
        delim.len() == 4,
        only_placed_delimiters(e, delim),
        0 <= i,
        i + 4 <= len,
    ensures
        occurs_at(tiled(e + delim, len), delim, i) <==> i % ((e + delim).len() as int) == e.len(),
{
    let u = e + delim;
    let n = u.len() as int;
    lemma_window_of_repeats(u, delim, len, i);
    let q = i % n;
    assert(0 <= q < n) by (nonlinear_arith)
        requires q == i % n, n > 0;
    if q == e.len() {
        assert((u + u).subrange(q, q + 4) =~= delim);
    }
}

proof fn lemma_copies_before(e: Seq<u8>, delim: Seq<u8>, len: nat, j: int)
    requires
        delim.len() == 4,
        only_placed_delimiters(e, delim),
        1 <= j,
        j * (e.len() + 4) <= len,
    ensures
        segments_upto(tiled(e + delim, len), delim, j * (e.len() + 4) - 4) == Seq::new((j - 1) as nat, |k: int| e),
    decreases j,
{
    let u = e + delim;
    let n = u.len() as int;
    let b = tiled(u, len);
    let cur = j * n - 4;
    assert(n * j == j * n) by (nonlinear_arith);
    assert(cur >= e.len()) by (nonlinear_arith)
        requires cur == j * n - 4, j >= 1, n == e.len() + 4;
    lemma_last_before(b, delim, cur - 3);
    let r = last_before(b, delim, cur - 3);
    assert forall|i: int| 0 <= i < cur - 3 && #[trigger] occurs_at(b, delim, i) implies i <= (j - 1) * n - 4 by {
        lemma_occurrence_in_repeats(e, delim, len, i);
        lemma_fundamental_div_mod(i, n);
        let m = i / n;
        assert(i <= (j - 1) * n - 4) by (nonlinear_arith)
            requires i == n * m + (n - 4), i < j * n - 7, n >= 4;
    }
    if j == 1 {
        assert(cur == e.len()) by (nonlinear_arith)
            requires j == 1, cur == j * n - 4, n == e.len() + 4;
        assert((j - 1) * n - 4 == -4) by (nonlinear_arith)
            requires j == 1;
        if r != -1 {
            assert(occurs_at(b, delim, r));
            assert(r <= (j - 1) * n - 4);
        }
        assert(r == -1);
        assert(segments_upto(b, delim, cur) == Seq::<Seq<u8>>::empty());
        assert(Seq::new((j - 1) as nat, |k: int| e) =~= Seq::<Seq<u8>>::empty());
    } else {
        let d = (j - 1) * n - 4;
        assert(d >= 0 && d < cur - 3) by (nonlinear_arith)
            requires d == (j - 1) * n - 4, cur == j * n - 4, j >= 2, n >= 4;
        assert(d + 4 <= len) by (nonlinear_arith)
            requires d == (j - 1) * n - 4, j * n <= len, n >= 4;
        lemma_occurrence_in_repeats(e, delim, len, d);
        assert(d == (j - 2) * n + (n - 4)) by (nonlinear_arith)
            requires d == (j - 1) * n - 4;
        lemma_fundamental_div_mod_converse(d, n, j - 2, n - 4);
        assert(d + 4 <= cur) by (nonlinear_arith)
            requires d == (j - 1) * n - 4, cur == j * n - 4, n >= 4;
        assert(r == d);
        assert((j - 1) * n <= len) by (nonlinear_arith)
            requires j * n <= len, n >= 4, j >= 2;
        lemma_copies_before(e, delim, len, j - 1);
        assert(cur - (d + 4) == e.len()) by (nonlinear_arith)
            requires d == (j - 1) * n - 4, cur == j * n - 4, n == e.len() + 4;
        assert forall|t: int| 0 <= t < e.len() implies #[trigger] b.subrange(d + 4, cur)[t] == e[t] by {
            lemma_fundamental_div_mod_converse(d + 4 + t, n, j - 1, t);
        }
        assert(b.subrange(d + 4, cur) =~= e);
        assert(seq![e] + Seq::new((j - 2) as nat, |k: int| e) =~= Seq::new((j - 1) as nat, |k: int| e));
    }
}

/// A stream of `len` bytes made of whole copies of `e ++ delim` and then part
/// of one more splits into the trailing part first and then one candidate `e`
/// for each whole copy but the first, which no delimiter precedes, provided the
/// delimiter occurs only where it was placed.
pub proof fn lemma_segments_of_repeats(e: Seq<u8>, delim: Seq<u8>, len: nat)
    requires
        delim.len() == 4,
        only_placed_delimiters(e, delim),
        len >= e.len() + 4,
    ensures
        ({
            let n = e.len() + 4;
            let k = len / n;
            segments(tiled(e + delim, len), delim) == seq![tiled(e + delim, len).subrange((k * n) as int, len as int)]
                + Seq::new((k - 1) as nat, |i: int| e)
        }),
{
    let u = e + delim;
    let n = u.len() as int;
    let b = tiled(u, len);
    let k = (len / (n as nat)) as int;
    lemma_fundamental_div_mod(len as int, n);
    assert(k >= 1 && k * n <= len && len < (k + 1) * n) by (nonlinear_arith)
        requires len == n * k + (len as int) % n, 0 <= (len as int) % n < n, len >= n, n >= 4;
    let cur = len as int;
    lemma_last_before(b, delim, cur - 3);
    let r = last_before(b, delim, cur - 3);
    let d = k * n - 4;
    assert(d >= 0) by (nonlinear_arith)
        requires d == k * n - 4, k >= 1, n >= 4;
    lemma_occurrence_in_repeats(e, delim, len, d);
    assert(d == (k - 1) * n + (n - 4)) by (nonlinear_arith)
        requires d == k * n - 4;
    lemma_fundamental_div_mod_converse(d, n, k - 1, n - 4);
    assert forall|i: int| 0 <= i < cur - 3 && #[trigger] occurs_at(b, delim, i) implies i <= d by {
        lemma_occurrence_in_repeats(e, delim, len, i);
        lemma_fundamental_div_mod(i, n);
        let m = i / n;
        assert(i <= d) by (nonlinear_arith)
            requires i == n * m + (n - 4), i + 4 <= len, len < (k + 1) * n, d == k * n - 4, n >= 4;
    }
    assert(r == d);
    lemma_copies_before(e, delim, len, k);
}

/// Where each candidate of the prefix `b[0..cur]` lies: start and end offsets,
/// in the order of `segments_upto`.
pub open spec fn bounds_upto(b: Seq<u8>, delim: Seq<u8>, cur: int) -> Seq<(int, int)>
    decreases cur,
{
    let i = last_before(b, delim, cur - 3);
    if 0 <= i < cur {
        seq![(i + 4, cur)] + bounds_upto(b, delim, i)
    } else {
        Seq::empty()
    }
}

/// Where each candidate of a whole stream lies, in the order of `segments`.
pub open spec fn bounds(b: Seq<u8>, delim: Seq<u8>) -> Seq<(int, int)> {
    if last_before(b, delim, b.len() - 3) < 0 {
        seq![(0, b.len() as int)]
    } else {
        bounds_upto(b, delim, b.len() as int)
    }
}

proof fn lemma_bounds_upto(b: Seq<u8>, delim: Seq<u8>, cur: int)
    requires
        0 <= cur <= b.len(),
    ensures
        bounds_upto(b, delim, cur).len() == segments_upto(b, delim, cur).len(),
        forall|m: int| 0 <= m < bounds_upto(b, delim, cur).len() ==> {
            let (s, e) = #[trigger] bounds_upto(b, delim, cur)[m];
            &&& 0 <= s <= e <= cur
            &&& segments_upto(b, delim, cur)[m] == b.subrange(s, e)
        },
        forall|m: int, l: int| 0 <= m < l < bounds_upto(b, delim, cur).len()
            ==> #[trigger] bounds_upto(b, delim, cur)[l].1 <= #[trigger] bounds_upto(b, delim, cur)[m].0,
    decreases cur,
{
    let i = last_before(b, delim, cur - 3);
    lemma_last_before(b, delim, cur - 3);
    if 0 <= i < cur {
        lemma_bounds_upto(b, delim, i);
        let bs = bounds_upto(b, delim, cur);
        let rest = bounds_upto(b, delim, i);
        assert forall|m: int| 0 <= m < bs.len() implies {
            let (s, e) = #[trigger] bs[m];
            &&& 0 <= s <= e <= cur
            &&& segments_upto(b, delim, cur)[m] == b.subrange(s, e)
        } by {
            if m > 0 {
                assert(bs[m] == rest[m - 1]);
            }
        }
        assert forall|m: int, l: int| 0 <= m < l < bs.len() implies #[trigger] bs[l].1 <= #[trigger] bs[m].0 by {
            assert(bs[l] == rest[l - 1]);
            if m > 0 {
                assert(bs[m] == rest[m - 1]);
            }
        }
    }
}

/// The candidates are slices of the stream that do not overlap, listed from
/// the tail: a later candidate ends before an earlier one starts.
pub proof fn lemma_segments_tail_first(b: Seq<u8>, delim: Seq<u8>)
    ensures
        ({
            let bs = bounds(b, delim);
            &&& bs.len() == segments(b, delim).len()
            &&& forall|m: int| 0 <= m < bs.len() ==> {
                let (s, e) = #[trigger] bs[m];
                &&& 0 <= s <= e <= b.len()
                &&& segments(b, delim)[m] == b.subrange(s, e)
            }
            &&& forall|m: int, l: int| 0 <= m < l < bs.len() ==> #[trigger] bs[l].1 <= #[trigger] bs[m].0
        }),
{
    lemma_bounds_upto(b, delim, b.len() as int);
    if last_before(b, delim, b.len() - 3) < 0 {
        assert(b.subrange(0, b.len() as int) =~= b);
    }
}

proof fn lemma_zero_segments(b: Seq<u8>, delim: Seq<u8>, cur: int)
    requires
        delim == seq![0u8, 0u8, 0u8, 0u8],
        forall|i: int| 0 <= i < b.len() ==> #[trigger] b[i] == 0,
        0 <= cur <= b.len(),
    ensures
        segments_upto(b, delim, cur) == Seq::new((cur / 4) as nat, |i: int| Seq::<u8>::empty()),
    decreases cur,
{
    if cur >= 4 {
        assert(b.subrange(cur - 4, cur) =~= delim);
        assert(occurs_at(b, delim, cur - 4));
        assert(last_before(b, delim, cur - 3) == cur - 4);
        lemma_zero_segments(b, delim, cur - 4);
        assert(b.subrange(cur, cur) =~= Seq::<u8>::empty());
        assert((cur - 4) / 4 == cur / 4 - 1 && (cur - 4) % 4 == cur % 4);
        assert(seq![Seq::<u8>::empty()] + Seq::new(((cur - 4) / 4) as nat, |i: int| Seq::<u8>::empty())
            =~= Seq::new((cur / 4) as nat, |i: int| Seq::<u8>::empty()));
    } else {
        lemma_last_before(b, delim, cur - 3);
        assert(Seq::new((cur / 4) as nat, |i: int| Seq::<u8>::empty()) =~= Seq::<Seq<u8>>::empty());
    }
}

/// A stream of at least four zero bytes, where every window is the delimiter,
/// splits into one empty candidate per four whole bytes, taken from the tail.
pub proof fn lemma_all_zero_segments(b: Seq<u8>)
    requires
        b.len() >= 4,
        forall|i: int| 0 <= i < b.len() ==> #[trigger] b[i] == 0,
    ensures
        segments(b, seq![0u8, 0u8, 0u8, 0u8]) == Seq::new((b.len() / 4) as nat, |i: int| Seq::<u8>::empty()),
{
    let d = seq![0u8, 0u8, 0u8, 0u8];
    let n = b.len() as int;
    assert(b.subrange(n - 4, n) =~= d);
    assert(occurs_at(b, d, n - 4));
    assert(last_before(b, d, n - 3) == n - 4);
    lemma_zero_segments(b, d, n);
}

fn window_matches(bytes: &[u8], delim: &[u8], i: usize) -> (r: bool)
    requires
        delim@.len() == DELIMITER_LEN,
        i + 4 <= bytes@.len(),
    ensures
        r == occurs_at(bytes@, delim@, i as int),
{
    let r = bytes[i] == delim[0] && bytes[i + 1] == delim[1] && bytes[i + 2] == delim[2] && bytes[i + 3]
        == delim[3];
    proof {
        if r {
            assert(bytes@.subrange(i as int, i + 4) =~= delim@);
        } else if occurs_at(bytes@, delim@, i as int) {
            assert(bytes@.subrange(i as int, i + 4)[0] == delim@[0]);
            assert(bytes@.subrange(i as int, i + 4)[1] == delim@[1]);
            assert(bytes@.subrange(i as int, i + 4)[2] == delim@[2]);
            assert(bytes@.subrange(i as int, i + 4)[3] == delim@[3]);
        }
    }
    r
}

fn copy_range(bytes: &[u8], a: usize, b: usize) -> (r: Vec<u8>)
    requires
        a <= b <= bytes@.len(),
    ensures
        r@ == bytes@.subrange(a as int, b as int),
{
    let s = slice_subrange(bytes, a, b);
    let mut r: Vec<u8> = Vec::new();
    let mut i: usize = 0;
    while i < s.len()
        invariant
            i <= s@.len(),
            r@ == s@.take(i as int),
        decreases s@.len() - i,
    {
        r.push(s[i]);
        i = i + 1;
        assert(r@ =~= s@.take(i as int));
    }
    assert(r@ =~= s@);
    r
}

/// The views of a list of candidates.
pub open spec fn views(parts: Seq<Vec<u8>>) -> Seq<Seq<u8>> {
    parts.map_values(|p: Vec<u8>| p@)
}

/// Splits `bytes` at the occurrences of `delimeter`, from the tail: for the
/// last occurrence that fits in the part not yet consumed, the bytes after it
/// form a candidate and the part before it is what remains. What precedes the
/// first delimiter taken is no candidate; a stream without a delimiter is one
/// candidate, the whole stream. Overlapping occurrences are skipped.
pub fn split_bytes(bytes: &[u8], delimeter: &[u8]) -> (parts: Vec<Vec<u8>>)
    requires
        delimeter@.len() == DELIMITER_LEN,
    ensures
        views(parts@) == segments(bytes@, delimeter@),
{
    let ghost b = bytes@;
    let ghost d = delimeter@;
    let n = bytes.len();
    let mut parts: Vec<Vec<u8>> = Vec::new();
    let mut cur: usize = n;
    let mut k: usize = if n >= 3 { n - 3 } else { 0 };
    proof {
        lemma_last_before(b, d, k as int);
        lemma_last_before(b, d, n - 3);
        assert(views(parts@) + segments_upto(b, d, n as int) =~= segments_upto(b, d, n as int));
    }
    while k > 0
        invariant
            b == bytes@,
            d == delimeter@,
            d.len() == DELIMITER_LEN,
            cur <= n == b.len(),
            k as int <= cur - 3 || k == 0,
            last_before(b, d, k as int) == last_before(b, d, cur - 3),
            views(parts@) + segments_upto(b, d, cur as int) == segments_upto(b, d, n as int),
            parts@.len() == 0 ==> cur == n,
        decreases k,
    {
        let j = k - 1;
        if window_matches(bytes, delimeter, j) {
            let part = copy_range(bytes, j + 4, cur);
            proof {
                assert(last_before(b, d, k as int) == j);
                let tail = segments_upto(b, d, j as int);
                assert(segments_upto(b, d, cur as int) == seq![b.subrange(j + 4, cur as int)] + tail);
                assert(views(parts@.push(part)) =~= views(parts@).push(part@));
                assert(views(parts@) + segments_upto(b, d, cur as int) =~= views(parts@).push(part@) + tail);
            }
            parts.push(part);
            cur = j;
            k = if j >= 3 { j - 3 } else { 0 };
            proof {
                if j < 3 {
                    lemma_last_before(b, d, cur - 3);
                    assert(last_before(b, d, cur - 3) == -1);
                }
            }
        } else {
            k = j;
        }
    }
    proof {
        lemma_last_before(b, d, cur - 3);
        assert(segments_upto(b, d, cur as int) == Seq::<Seq<u8>>::empty());
        assert(views(parts@) + Seq::<Seq<u8>>::empty() =~= views(parts@));
    }
    if parts.len() == 0 {
        let whole = copy_range(bytes, 0, n);
        proof {
            assert(b.subrange(0, n as int) =~= b);
            assert(views(parts@.push(whole)) =~= seq![b]);
        }
        parts.push(whole);
    }
    parts
}

} // verus!
