//! Choosing the most frequent of the texts decoded from the candidates.
use vstd::prelude::*;
use crate::segment::views;

verus! {

/// How many times `t` occurs in `s`.
pub open spec fn count_in(s: Seq<Seq<u8>>, t: Seq<u8>) -> nat
    decreases s.len(),
{
    if s.len() == 0 {
        0
    } else {
        count_in(s.drop_last(), t) + if s.last() == t { 1nat } else { 0nat }
    }
}

/// `w` occurs in `s`, and no sequence occurs in `s` more often.
pub open spec fn is_plurality(s: Seq<Seq<u8>>, w: Seq<u8>) -> bool {
    &&& count_in(s, w) > 0
    &&& forall|t: Seq<u8>| #[trigger] count_in(s, t) <= count_in(s, w)
}

/// A sequence occurs in `s` at most `s.len()` times, and at least once only
/// where it is one of its elements.
pub proof fn lemma_count_bound(s: Seq<Seq<u8>>, t: Seq<u8>)
    ensures
        count_in(s, t) <= s.len(),
        count_in(s, t) > 0 ==> exists|k: int| 0 <= k < s.len() && s[k] == t,
    decreases s.len(),
{
    if s.len() > 0 {
        lemma_count_bound(s.drop_last(), t);
        if count_in(s.drop_last(), t) > 0 {
            let k = choose|k: int| 0 <= k < s.drop_last().len() && s.drop_last()[k] == t;
            assert(s[k] == t);
        }
    }
}

proof fn lemma_count_two(s: Seq<Seq<u8>>, t: Seq<u8>, w: Seq<u8>)
    requires
        t != w,
    ensures
        count_in(s, t) + count_in(s, w) <= s.len(),
    decreases s.len(),
{
    if s.len() > 0 {
        lemma_count_two(s.drop_last(), t, w);
    }
}

/// Where one text makes up more than half of the decoded texts, it is the only
/// plurality among them.
pub proof fn lemma_majority_wins(s: Seq<Seq<u8>>, t: Seq<u8>, w: Seq<u8>)
    requires
        2 * count_in(s, t) > s.len(),
        is_plurality(s, w),
    ensures
        w == t,
{
    if w != t {
        lemma_count_two(s, t, w);
        assert(count_in(s, t) <= count_in(s, w));
    }
}

/// Whether two byte sequences are equal.
pub fn bytes_eq(a: &[u8], b: &[u8]) -> (r: bool)
    ensures
        r == (a@ == b@),
{
    if a.len() != b.len() {
        return false;
    }
    let mut i: usize = 0;
    while i < a.len()
        invariant
            a@.len() == b@.len(),
            i <= a@.len(),
            forall|k: int| 0 <= k < i ==> a@[k] == b@[k],
        decreases a@.len() - i,
    {
        if a[i] != b[i] {
            return false;
        }
        i = i + 1;
    }
    assert(a@ =~= b@);
    true
}

/// How many of `texts` equal `t`.
pub fn count_of(texts: &Vec<Vec<u8>>, t: &[u8]) -> (c: usize)
    ensures
        c == count_in(views(texts@), t@),
{
    let ghost s = views(texts@);
    let mut c: usize = 0;
    let mut j: usize = 0;
    while j < texts.len()
        invariant
            s == views(texts@),
            j <= texts@.len(),
            c == count_in(s.take(j as int), t@),
        decreases texts@.len() - j,
    {
        proof {
            assert(s.take(j + 1).drop_last() =~= s.take(j as int));
            lemma_count_bound(s.take(j as int), t@);
        }
        if bytes_eq(texts[j].as_slice(), t) {
            c = c + 1;
        }
        j = j + 1;
    }
    assert(s.take(j as int) =~= s);
    c
}

/// The most frequent of `texts`, the earliest of them on a tie; `None` for no texts.
pub fn most_frequent(texts: &Vec<Vec<u8>>) -> (r: Option<Vec<u8>>)
    ensures
        r is None <==> texts@.len() == 0,
        r matches Some(w) ==> is_plurality(views(texts@), w@),
{
    if texts.len() == 0 {
        return None;
    }
    let ghost s = views(texts@);
    let mut best: usize = 0;
    let mut best_count: usize = count_of(texts, texts[0].as_slice());
    let mut i: usize = 1;
    while i < texts.len()
        invariant
            s == views(texts@),
            1 <= i <= texts@.len(),
            best < texts@.len(),
            best_count == count_in(s, s[best as int]),
            forall|k: int| 0 <= k < i ==> #[trigger] count_in(s, s[k]) <= best_count,
        decreases texts@.len() - i,
    {
        let c = count_of(texts, texts[i].as_slice());
        if c > best_count {
            best = i;
            best_count = c;
        }
        i = i + 1;
    }
    proof {
        assert forall|t: Seq<u8>| #[trigger] count_in(s, t) <= count_in(s, s[best as int]) by {
            lemma_count_bound(s, t);
            if count_in(s, t) > 0 {
                let k = choose|k: int| 0 <= k < s.len() && s[k] == t;
                assert(count_in(s, s[k]) <= best_count);
            }
        }
        lemma_count_bound(s.take(best + 1), s[best as int]);
        lemma_count_pos(s, best as int);
    }
    Some(texts[best].clone())
}

proof fn lemma_count_pos(s: Seq<Seq<u8>>, k: int)
    requires
        0 <= k < s.len(),
    ensures
        count_in(s, s[k]) > 0,
    decreases s.len(),
{
    if k < s.len() - 1 {
        lemma_count_pos(s.drop_last(), k);
    }
}

} // verus!
