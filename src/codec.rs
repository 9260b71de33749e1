//! The message channel codec: a payload becomes a bit stream that fills the
//! channel's capacity, and a received bit stream becomes the most probable payload.
use vstd::prelude::*;
use crate::bits::{all_bits, bit_of, bits_of, lemma_bits_determine_byte, packs_group, bits_to_bytes, bytes_to_bits, is_packing, tile, tiled, lemma_bits_of_all_bits};
use crate::compress::{compress, decompress, deflate_of, inflate_of, zero_bytes};
use crate::fec::{
    fec_decode, fec_decoded, fec_encode, fec_encoded, lemma_encoded_is_near, lemma_prefix_of_padded, near_encoding,
    parity_ok, CHUNK_SIZE, ENCODED_SIZE,
};
use crate::segment::{lemma_all_zero_segments, lemma_no_delimiter, occurs_at, lemma_segments_of_repeats, only_placed_delimiters, segments, split_bytes, views};
use vstd::arithmetic::div_mod::{lemma_fundamental_div_mod, lemma_fundamental_div_mod_converse};
use crate::text::{lemma_zero_bytes_no_text, text_of, to_text};
use crate::vote::{count_in, is_plurality, lemma_majority_wins, most_frequent};

verus! {

/// Number of bits in the delimiter that closes each unit.
pub const DELIMITER_BITS: usize = 32;

/// The delimiter: four zero bytes.
pub open spec fn delimiter() -> Seq<u8> {
    seq![0u8, 0u8, 0u8, 0u8]
}

/// The bits of the encoded message of a payload: compressed, then block coded.
pub open spec fn encoded_bits(payload: Seq<u8>) -> Seq<u8> {
    bits_of(fec_encoded(deflate_of(payload)))
}

/// The unit that fills the channel: the encoded message, then the delimiter's zero bits.
pub open spec fn unit_bits(payload: Seq<u8>) -> Seq<u8> {
    encoded_bits(payload) + Seq::new(DELIMITER_BITS as nat, |i: int| 0u8)
}

/// The text that one candidate decodes to, if any: block decoded, inflated,
/// then read as text.
pub open spec fn candidate_text(part: Seq<u8>) -> Option<Seq<u8>> {
    text_of(inflate_of(fec_decoded(part)))
}

/// The texts of those candidates that decode, in order.
pub open spec fn decoded_texts(parts: Seq<Seq<u8>>) -> Seq<Seq<u8>>
    decreases parts.len(),
{
    if parts.len() == 0 {
        Seq::empty()
    } else {
        match candidate_text(parts.last()) {
            Some(t) => decoded_texts(parts.drop_last()).push(t),
            None => decoded_texts(parts.drop_last()),
        }
    }
}

/// What the decoder made of a candidate: one that is the encoding of a
/// payload's deflate stream, with at most `ECC_LEN / 2` bytes substituted in each
/// codeword, decodes to that payload's text; one whose block decoded bytes are
/// all zero decodes to no text.
pub open spec fn decodes_payloads(part: Seq<u8>) -> bool {
    &&& forall|p: Seq<u8>| #[trigger] near_encoding(part, deflate_of(p)) ==> candidate_text(part) == text_of(p)
    &&& zero_bytes(fec_decoded(part)) ==> candidate_text(part) is None
}

/// A received bit stream is exactly the noiseless channel output for `payload`:
/// at least three whole units, or exactly two (no copy precedes the first
/// delimiter, so two interior copies, or one without a cut tail, outvote the
/// tail), a whole number of bytes, a delimiter found only
/// where it was placed, and a payload that reads back as itself as text
/// (UTF-8, non-empty, without NUL characters).
pub open spec fn noiseless_units(payload: Seq<u8>, bits: Seq<u8>) -> bool {
    &&& bits == tiled(unit_bits(payload), bits.len())
    &&& bits.len() % 8 == 0
    &&& (bits.len() >= 3 * unit_bits(payload).len() || bits.len() == 2 * unit_bits(payload).len())
    &&& only_placed_delimiters(fec_encoded(deflate_of(payload)), delimiter())
    &&& parity_ok(deflate_of(payload))
    &&& text_of(payload) == Some(payload)
}

/// Compresses a payload, block codes it, and expands the result into bits.
pub fn bytes_to_encoded_bits(data: &[u8]) -> (r: Vec<u8>)
    ensures
        r@ == encoded_bits(data@),
        r@.len() > 0,
        parity_ok(deflate_of(data@)),
        r@.len() == 8 * (ENCODED_SIZE as int) * ((deflate_of(data@).len() + 4) as int / (CHUNK_SIZE as int)),
{
    let compressed = compress(data);
    let encoded = fec_encode(compressed.as_slice());
    let r = bytes_to_bits(encoded.as_slice());
    proof {
        let q = (compressed@.len() + 4) as int / (CHUNK_SIZE as int);
        assert(8 * ((ENCODED_SIZE as int) * q) == 8 * (ENCODED_SIZE as int) * q) by (nonlinear_arith);
    }
    r
}

/// Block decodes a stream and inflates the result. Where the block decoded
/// bytes begin with the deflate stream of a payload, that payload comes back.
pub fn encoded_bytes_to_data(bytes: &[u8]) -> (r: Vec<u8>)
    ensures
        r@ == inflate_of(fec_decoded(bytes@)),
        forall|p: Seq<u8>| #[trigger] deflate_of(p).is_prefix_of(fec_decoded(bytes@)) ==> r@ == p,
        forall|p: Seq<u8>| #[trigger] near_encoding(bytes@, deflate_of(p)) ==> r@ == p,
        forall|p: Seq<u8>|
            bytes@ == #[trigger] fec_encoded(deflate_of(p)) && parity_ok(deflate_of(p)) ==> r@ == p,
        zero_bytes(fec_decoded(bytes@)) ==> zero_bytes(r@),
{
    let decoded = fec_decode(bytes);
    let r = decompress(decoded.as_slice());
    proof {
        assert forall|p: Seq<u8>| #[trigger] near_encoding(bytes@, deflate_of(p)) implies r@ == p by {
            lemma_prefix_of_padded(deflate_of(p));
        }
        assert forall|p: Seq<u8>|
            bytes@ == #[trigger] fec_encoded(deflate_of(p)) && parity_ok(deflate_of(p)) implies r@ == p by {
            lemma_encoded_is_near(deflate_of(p));
            lemma_prefix_of_padded(deflate_of(p));
        }
    }
    r
}

/// The bit stream for a channel of `capacity` bits: the payload's unit repeated
/// end to end and cut to exactly `capacity` bits.
pub fn encode_payload(data: &[u8], capacity: usize) -> (r: Vec<u8>)
    ensures
        r@ == tiled(unit_bits(data@), capacity as nat),
        r@.len() == capacity,
        all_bits(r@),
        parity_ok(deflate_of(data@)),
{
    let mut unit = bytes_to_encoded_bits(data);
    let ghost msg = unit@;
    let mut i: usize = 0;
    while i < DELIMITER_BITS
        invariant
            i <= DELIMITER_BITS,
            unit@ == msg + Seq::new(i as nat, |k: int| 0u8),
        decreases DELIMITER_BITS - i,
    {
        unit.push(0);
        i = i + 1;
        assert(unit@ =~= msg + Seq::new(i as nat, |k: int| 0u8));
    }
    let r = tile(unit.as_slice(), capacity);
    proof {
        lemma_bits_of_all_bits(fec_encoded(deflate_of(data@)));
        let u = unit@;
        assert(all_bits(u));
        assert forall|k: int| 0 <= k < r@.len() implies #[trigger] r@[k] <= 1 by {
            assert(r@[k] == u[k % (u.len() as int)]);
        }
    }
    r
}

/// Decodes one candidate to its text: `None` where the decoded bytes are not
/// UTF-8 or hold nothing but NUL characters. A candidate whose block decoded
/// bytes begin with a payload's deflate stream decodes to that payload's text.
pub fn decode_candidate(part: &[u8]) -> (r: Option<Vec<u8>>)
    ensures
        r matches Some(t) ==> candidate_text(part@) == Some(t@),
        r is None ==> candidate_text(part@) is None,
        forall|p: Seq<u8>| #[trigger] deflate_of(p).is_prefix_of(fec_decoded(part@)) ==> candidate_text(part@)
            == text_of(p),
        decodes_payloads(part@),
{
    let data = encoded_bytes_to_data(part);
    proof {
        if zero_bytes(fec_decoded(part@)) {
            lemma_zero_bytes_no_text(data@);
        }
    }
    to_text(data.as_slice())
}

/// Recovers the payload from a received bit stream: packs it into bytes,
/// splits them at the delimiter, decodes each candidate on its own, and returns
/// the most frequent text; `None` where no candidate decodes.
pub fn decode_bits(bits: &[u8]) -> (r: Option<Vec<u8>>)
    requires
        all_bits(bits@),
    ensures
        forall|bytes: Seq<u8>| #[trigger] is_packing(bytes, bits@) ==> {
            let texts = decoded_texts(segments(bytes, delimiter()));
            &&& (r is None <==> texts.len() == 0)
            &&& (r matches Some(w) ==> is_plurality(texts, w@))
            &&& forall|m: int| 0 <= m < segments(bytes, delimiter()).len()
                ==> decodes_payloads(#[trigger] segments(bytes, delimiter())[m])
        },
        forall|p: Seq<u8>| #[trigger] noiseless_units(p, bits@) ==> (r matches Some(w) && w@ == p),
        zero_bytes(bits@) ==> r is None,
{
    let bytes = bits_to_bytes(bits);
    let delim: Vec<u8> = vec![0u8, 0u8, 0u8, 0u8];
    assert(delim@ =~= delimiter());
    let parts = split_bytes(bytes.as_slice(), delim.as_slice());
    let ghost cands = views(parts@);
    let mut texts: Vec<Vec<u8>> = Vec::new();
    let mut i: usize = 0;
    while i < parts.len()
        invariant
            cands == views(parts@),
            i <= parts@.len(),
            views(texts@) == decoded_texts(cands.take(i as int)),
            forall|m: int| 0 <= m < i ==> decodes_payloads(#[trigger] cands[m]),
        decreases parts@.len() - i,
    {
        proof {
            assert(cands.take(i + 1).drop_last() =~= cands.take(i as int));
        }
        match decode_candidate(parts[i].as_slice()) {
            Some(t) => {
                proof {
                    assert(views(texts@.push(t)) =~= views(texts@).push(t@));
                }
                texts.push(t);
            },
            None => {},
        }
        i = i + 1;
    }
    proof {
        assert(cands.take(i as int) =~= cands);
        assert forall|b: Seq<u8>| #[trigger] is_packing(b, bits@) implies b == bytes@ by {
            lemma_packing_unique(b, bytes@, bits@);
        }
    }
    let r = most_frequent(&texts);
    proof {
        assert forall|p: Seq<u8>| #[trigger] noiseless_units(p, bits@) implies (r matches Some(w) && w@ == p) by {
            lemma_noiseless_units_decode(p, bits@, bytes@);
            crate::vote::lemma_count_bound(views(texts@), p);
        }
        if zero_bytes(bits@) {
            lemma_zero_packing(bytes@, bits@);
            lemma_zero_stream(bytes@);
        }
    }
    r
}

proof fn lemma_decoded_texts_len(parts: Seq<Seq<u8>>)
    ensures
        decoded_texts(parts).len() <= parts.len(),
    decreases parts.len(),
{
    if parts.len() > 0 {
        lemma_decoded_texts_len(parts.drop_last());
    }
}

/// Where strictly more than half of the candidates decode to the same text,
/// that text is the only plurality of the decoded texts, and so what
/// `decode_bits` returns.
pub proof fn lemma_majority_of_candidates(parts: Seq<Seq<u8>>, t: Seq<u8>, w: Seq<u8>)
    requires
        2 * count_in(decoded_texts(parts), t) > parts.len(),
        is_plurality(decoded_texts(parts), w),
    ensures
        w == t,
{
    lemma_decoded_texts_len(parts);
    lemma_majority_wins(decoded_texts(parts), t, w);
}

proof fn lemma_bits_of_concat(a: Seq<u8>, b: Seq<u8>)
    ensures
        bits_of(a + b) == bits_of(a) + bits_of(b),
{
    let l = bits_of(a + b);
    let r = bits_of(a) + bits_of(b);
    assert forall|i: int| 0 <= i < l.len() implies l[i] == r[i] by {
        lemma_fundamental_div_mod(i, 8);
        if i >= 8 * a.len() {
            let i2 = i - 8 * a.len();
            lemma_fundamental_div_mod(i2, 8);
            lemma_fundamental_div_mod_converse(i, 8, i2 / 8 + a.len(), i2 % 8);
        } else {
            assert(i / 8 < a.len());
        }
    }
    assert(l =~= r);
}

/// The unit's bits are the bits of the encoded message followed by the delimiter.
proof fn lemma_unit_bits(payload: Seq<u8>)
    ensures
        unit_bits(payload) == bits_of(fec_encoded(deflate_of(payload)) + delimiter()),
{
    let e = fec_encoded(deflate_of(payload));
    lemma_bits_of_concat(e, delimiter());
    assert forall|i: int| 0 <= i < 32 implies #[trigger] bits_of(delimiter())[i] == 0u8 by {
        let s = (i % 8) as u8;
        assert((0u8 >> s) & 1u8 == 0u8) by (bit_vector);
    }
    assert(bits_of(delimiter()) =~= Seq::new(DELIMITER_BITS as nat, |i: int| 0u8));
}

/// The bytes that the tiling of a unit's bits packs into are the tiling of the
/// unit's bytes, where the capacity is a whole number of bytes.
proof fn lemma_packed_tiling(u: Seq<u8>, len: nat, bytes: Seq<u8>)
    requires
        u.len() > 0,
        is_packing(bytes, tiled(bits_of(u), 8 * len)),
    ensures
        bytes == tiled(u, len),
{
    let bits = tiled(bits_of(u), 8 * len);
    let n = u.len() as int;
    assert((8 * len + 7) / 8 == len) by (nonlinear_arith);
    assert forall|j: int| 0 <= j < len implies bytes[j] == tiled(u, len)[j] by {
        assert(packs_group(bytes[j], bits, j));
        lemma_fundamental_div_mod(j, n);
        let m = j / n;
        let q = j % n;
        assert(0 <= q < n) by (nonlinear_arith)
            requires q == j % n, n > 0;
        assert forall|t: int| 0 <= t < 8 implies #[trigger] bit_of(bytes[j], t) == bit_of(u[q], t) by {
            let k = 8 * j + t;
            assert(k < 8 * len);
            assert(k == m * (8 * n) + (8 * q + t)) by (nonlinear_arith)
                requires j == n * m + q, k == 8 * j + t;
            assert(8 * q + t < 8 * n);
            lemma_fundamental_div_mod_converse(k, 8 * n, m, 8 * q + t);
            lemma_fundamental_div_mod_converse(8 * q + t, 8, q, t);
            assert(bits[k] == bits_of(u)[8 * q + t]);
        }
        lemma_bits_determine_byte(bytes[j], u[q]);
    }
    assert(bytes =~= tiled(u, len));
}

proof fn lemma_count_copies(pre: Seq<Seq<u8>>, e: Seq<u8>, t: Seq<u8>, k: nat)
    requires
        candidate_text(e) == Some(t),
    ensures
        count_in(decoded_texts(pre + Seq::new(k, |i: int| e)), t) >= k,
    decreases k,
{
    if k > 0 {
        lemma_count_copies(pre, e, t, (k - 1) as nat);
        let s = pre + Seq::new(k, |i: int| e);
        assert(s.drop_last() =~= pre + Seq::new((k - 1) as nat, |i: int| e));
        assert(decoded_texts(s) == decoded_texts(s.drop_last()).push(t));
        assert(decoded_texts(s).drop_last() =~= decoded_texts(s.drop_last()));
    }
}

/// A noiseless stream of units decodes to its payload: every whole copy
/// after the first is a candidate that decodes to the payload, and they outnumber
/// the other candidates, so the payload is the only plurality of the decoded texts.
pub proof fn lemma_noiseless_units_decode(payload: Seq<u8>, bits: Seq<u8>, bytes: Seq<u8>)
    requires
        noiseless_units(payload, bits),
        is_packing(bytes, bits),
        forall|m: int| 0 <= m < segments(bytes, delimiter()).len()
            ==> decodes_payloads(#[trigger] segments(bytes, delimiter())[m]),
    ensures
        count_in(decoded_texts(segments(bytes, delimiter())), payload) >= 1,
        forall|w: Seq<u8>| is_plurality(decoded_texts(segments(bytes, delimiter())), w) ==> w == payload,
{
    let capacity = bits.len();
    let e = fec_encoded(deflate_of(payload));
    let u = e + delimiter();
    let len = capacity / 8;
    lemma_unit_bits(payload);
    assert(8 * len == capacity);
    lemma_packed_tiling(u, len, bytes);
    let n = u.len();
    assert(unit_bits(payload).len() == 8 * n);
    assert(len >= 3 * n || len == 2 * n);
    lemma_segments_of_repeats(e, delimiter(), len);
    let k = len / n;
    assert(k >= 3 || (k == 2 && k * n == len)) by (nonlinear_arith)
        requires k == len / n, len >= 3 * n || len == 2 * n, n > 0;
    let tail = seq![tiled(u, len).subrange((k * n) as int, len as int)];
    let copies = Seq::new((k - 1) as nat, |i: int| e);
    let parts = tail + copies;
    assert(segments(bytes, delimiter()) == parts);
    assert(parts[1] == e);
    assert(decodes_payloads(parts[1]));
    lemma_encoded_is_near(deflate_of(payload));
    assert(candidate_text(e) == Some(payload));
    lemma_count_copies(tail, e, payload, (k - 1) as nat);
    let texts = decoded_texts(parts);
    if k >= 3 {
        lemma_decoded_texts_len(parts);
    } else {
        assert(tail[0] =~= Seq::<u8>::empty());
        assert(decodes_payloads(parts[0]));
        assert(parts[0] == tail[0]);
        assert(fec_decoded(tail[0]) =~= Seq::<u8>::empty());
        assert(parts.drop_last() =~= tail);
        assert(tail.drop_last() =~= Seq::<Seq<u8>>::empty());
        assert(decoded_texts(tail) == decoded_texts(Seq::<Seq<u8>>::empty()));
        assert(texts.len() == 1);
    }
    assert forall|w: Seq<u8>| is_plurality(texts, w) implies w == payload by {
        lemma_majority_wins(texts, payload, w);
    }
}

/// The byte that eight zero bits pack into is zero.
proof fn lemma_zero_packing(bytes: Seq<u8>, bits: Seq<u8>)
    requires
        is_packing(bytes, bits),
        zero_bytes(bits),
    ensures
        zero_bytes(bytes),
{
    assert forall|j: int| 0 <= j < bytes.len() implies #[trigger] bytes[j] == 0 by {
        assert(packs_group(bytes[j], bits, j));
        assert forall|t: int| 0 <= t < 8 implies #[trigger] bit_of(bytes[j], t) == bit_of(0u8, t) by {
            let s = t as u8;
            assert((0u8 >> s) & 1u8 == 0u8) by (bit_vector);
            assert(crate::bits::bit_or_zero(bits, 8 * j + t) == 0);
        }
        lemma_bits_determine_byte(bytes[j], 0u8);
    }
}

proof fn lemma_no_texts(parts: Seq<Seq<u8>>)
    requires
        forall|m: int| 0 <= m < parts.len() ==> #[trigger] candidate_text(parts[m]) is None,
    ensures
        decoded_texts(parts).len() == 0,
    decreases parts.len(),
{
    if parts.len() > 0 {
        let rest = parts.drop_last();
        assert forall|m: int| 0 <= m < rest.len() implies #[trigger] candidate_text(rest[m]) is None by {
            assert(rest[m] == parts[m]);
        }
        lemma_no_texts(rest);
        assert(candidate_text(parts[parts.len() - 1]) is None);
    }
}

/// An all-zero stream yields no text: its candidates are empty, or the whole
/// stream where it is shorter than a delimiter, and all decode to zero bytes.
proof fn lemma_zero_stream(bytes: Seq<u8>)
    requires
        zero_bytes(bytes),
        forall|m: int| 0 <= m < segments(bytes, delimiter()).len()
            ==> decodes_payloads(#[trigger] segments(bytes, delimiter())[m]),
    ensures
        decoded_texts(segments(bytes, delimiter())).len() == 0,
{
    let segs = segments(bytes, delimiter());
    if bytes.len() >= 4 {
        lemma_all_zero_segments(bytes);
        assert forall|m: int| 0 <= m < segs.len() implies #[trigger] candidate_text(segs[m]) is None by {
            assert(decodes_payloads(segs[m]));
            assert(segs[m] == Seq::<u8>::empty());
            assert(fec_decoded(segs[m]) =~= Seq::<u8>::empty());
        }
    } else {
        assert forall|i: int| !#[trigger] occurs_at(bytes, delimiter(), i) by {}
        lemma_no_delimiter(bytes, delimiter());
        assert forall|m: int| 0 <= m < segs.len() implies #[trigger] candidate_text(segs[m]) is None by {
            assert(decodes_payloads(segs[m]));
            assert(segs[m] == bytes);
            if bytes.len() > 0 {
                assert(bytes.take(bytes.len() as int) =~= bytes);
                assert(fec_decoded(bytes) == bytes);
            }
        }
    }
    lemma_no_texts(segs);
}

proof fn lemma_packing_unique(a: Seq<u8>, b: Seq<u8>, bits: Seq<u8>)
    requires
        is_packing(a, bits),
        is_packing(b, bits),
    ensures
        a == b,
{
    assert forall|j: int| 0 <= j < a.len() implies a[j] == b[j] by {
        assert(crate::bits::packs_group(a[j], bits, j));
        assert(crate::bits::packs_group(b[j], bits, j));
        lemma_bits_determine_byte(a[j], b[j]);
    }
    assert(a =~= b);
}

} // verus!
