//! Turning a decoded byte stream into the text it carries.
use vstd::prelude::*;

verus! {

/// A continuation byte of a multi-byte sequence.
pub open spec fn is_cont(x: u8) -> bool {
    0x80 <= x <= 0xbf
}

/// The length of the well-formed UTF-8 sequence that starts at `i`, or 0
/// where none does (no overlong forms, no surrogates, nothing past U+10FFFF).
pub open spec fn char_width(b: Seq<u8>, i: int) -> int {
    let c = b[i];
    let n = b.len();
    if c < 0x80 {
        1
    } else if 0xc2 <= c <= 0xdf {
        if i + 1 < n && is_cont(b[i + 1]) { 2 } else { 0 }
    } else if 0xe0 <= c <= 0xef {
        if i + 2 < n && is_cont(b[i + 1]) && is_cont(b[i + 2]) && (c != 0xe0 || b[i + 1] >= 0xa0) && (c
            != 0xed || b[i + 1] <= 0x9f) { 3 } else { 0 }
    } else if 0xf0 <= c <= 0xf4 {
        if i + 3 < n && is_cont(b[i + 1]) && is_cont(b[i + 2]) && is_cont(b[i + 3]) && (c != 0xf0 || b[i
            + 1] >= 0x90) && (c != 0xf4 || b[i + 1] <= 0x8f) { 4 } else { 0 }
    } else {
        0
    }
}

/// `b[i..]` is a sequence of well-formed UTF-8 characters.
pub open spec fn utf8_from(b: Seq<u8>, i: int) -> bool
    decreases b.len() - i,
{
    if i < 0 || i >= b.len() {
        true
    } else {
        let w = char_width(b, i);
        w > 0 && utf8_from(b, i + w)
    }
}

/// Whether a byte sequence is well-formed UTF-8.
pub open spec fn is_utf8(b: Seq<u8>) -> bool {
    utf8_from(b, 0)
}

fn width_at(b: &[u8], i: usize) -> (w: usize)
    requires
        i < b@.len(),
    ensures
        w == char_width(b@, i as int),
{
    let n = b.len();
    let c = b[i];
    if c < 0x80 {
        1
    } else if 0xc2 <= c && c <= 0xdf {
        if i + 1 < n && 0x80 <= b[i + 1] && b[i + 1] <= 0xbf { 2 } else { 0 }
    } else if 0xe0 <= c && c <= 0xef {
        if n - i > 2 && 0x80 <= b[i + 1] && b[i + 1] <= 0xbf && 0x80 <= b[i + 2] && b[i + 2] <= 0xbf && (c
            != 0xe0 || b[i + 1] >= 0xa0) && (c != 0xed || b[i + 1] <= 0x9f) { 3 } else { 0 }
    } else if 0xf0 <= c && c <= 0xf4 {
        if n - i > 3 && 0x80 <= b[i + 1] && b[i + 1] <= 0xbf && 0x80 <= b[i + 2] && b[i + 2] <= 0xbf && 0x80
            <= b[i + 3] && b[i + 3] <= 0xbf && (c != 0xf0 || b[i + 1] >= 0x90) && (c != 0xf4 || b[i + 1]
            <= 0x8f) { 4 } else { 0 }
    } else {
        0
    }
}

/// Whether `b` is well-formed UTF-8.
pub fn utf8_valid(b: &[u8]) -> (r: bool)
    ensures
        r == is_utf8(b@),
{
    let mut i: usize = 0;
    while i < b.len()
        invariant
            i <= b@.len(),
            is_utf8(b@) == utf8_from(b@, i as int),
        decreases b@.len() - i,
    {
        let w = width_at(b, i);
        if w == 0 {
            return false;
        }
        i = i + w;
    }
    true
}

/// `b` with every zero byte removed, the others kept in order.
pub open spec fn without_nul(b: Seq<u8>) -> Seq<u8>
    decreases b.len(),
{
    if b.len() == 0 {
        b
    } else if b.last() == 0 {
        without_nul(b.drop_last())
    } else {
        without_nul(b.drop_last()).push(b.last())
    }
}

/// The text carried by a decoded stream: none where it is not UTF-8, else the
/// stream without its NUL characters, none where that leaves nothing.
pub open spec fn text_of(b: Seq<u8>) -> Option<Seq<u8>> {
    if !is_utf8(b) || without_nul(b).len() == 0 {
        None
    } else {
        Some(without_nul(b))
    }
}

/// Nothing is left of a stream of zero bytes, so it carries no text.
pub proof fn lemma_zero_bytes_no_text(b: Seq<u8>)
    requires
        crate::compress::zero_bytes(b),
    ensures
        without_nul(b).len() == 0,
        text_of(b) is None,
    decreases b.len(),
{
    if b.len() > 0 {
        lemma_zero_bytes_no_text(b.drop_last());
    }
}

/// Removes every zero byte.
pub fn strip_nul(b: &[u8]) -> (r: Vec<u8>)
    ensures
        r@ == without_nul(b@),
{
    let mut r: Vec<u8> = Vec::new();
    let mut i: usize = 0;
    while i < b.len()
        invariant
            i <= b@.len(),
            r@ == without_nul(b@.take(i as int)),
        decreases b@.len() - i,
    {
        assert(b@.take(i + 1).drop_last() =~= b@.take(i as int));
        if b[i] != 0 {
            r.push(b[i]);
        }
        i = i + 1;
    }
    assert(b@.take(i as int) =~= b@);
    r
}

/// The text of a decoded stream: `None` for malformed UTF-8 or where nothing
/// but NUL characters is left.
pub fn to_text(b: &[u8]) -> (r: Option<Vec<u8>>)
    ensures
        r matches Some(t) ==> text_of(b@) == Some(t@),
        r is None ==> text_of(b@) is None,
{
    if !utf8_valid(b) {
        return None;
    }
    let t = strip_nul(b);
    if t.len() == 0 {
        None
    } else {
        Some(t)
    }
}

} // verus!
