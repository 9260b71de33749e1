//! Byte and bit streams, least-significant bit first, and the tiling of a
//! unit of bits over a fixed capacity.
use vstd::prelude::*;

verus! {

/// Bit `t` of byte `x`.
pub open spec fn bit_of(x: u8, t: int) -> u8 {
    ((x >> (t as u8)) & 1u8) as u8
}

/// The bit stream of a byte stream: each byte gives eight bits, lowest first.
pub open spec fn bits_of(b: Seq<u8>) -> Seq<u8> {
    Seq::new(8 * b.len(), |i: int| bit_of(b[i / 8], i % 8))
}

/// The bit at position `i` of a stream, or zero past its end.
pub open spec fn bit_or_zero(bits: Seq<u8>, i: int) -> u8 {
    if i < bits.len() { bits[i] } else { 0 }
}

/// Number of bytes that a bit stream packs into: one per started group of eight.
pub open spec fn packed_len(n: nat) -> nat {
    ((n + 7) / 8) as nat
}

/// Byte `x` packs the group of bits that starts at `8 * j`.
pub open spec fn packs_group(x: u8, bits: Seq<u8>, j: int) -> bool {
    forall|t: int| 0 <= t < 8 ==> #[trigger] bit_of(x, t) == bit_or_zero(bits, 8 * j + t)
}

/// `r` is the byte stream of a bit stream: bit `i` of the group adds `bit << i`.
pub open spec fn is_packing(r: Seq<u8>, bits: Seq<u8>) -> bool {
    &&& r.len() == packed_len(bits.len())
    &&& forall|j: int| 0 <= j < r.len() ==> packs_group(#[trigger] r[j], bits, j)
}

/// Every element of a stream is a bit.
pub open spec fn all_bits(bits: Seq<u8>) -> bool {
    forall|i: int| 0 <= i < bits.len() ==> #[trigger] bits[i] <= 1
}

/// `unit` repeated end to end and cut to exactly `capacity` elements.
pub open spec fn tiled(unit: Seq<u8>, capacity: nat) -> Seq<u8> {
    Seq::new(capacity, |i: int| unit[i % (unit.len() as int)])
}

proof fn lemma_set_bit(v: u8, b: u8, t: u8)
    requires
        t < 8,
        b <= 1,
        v >> t == 0,
    ensures
        ((v | (b << t)) >> t) & 1 == b,
        t < 7 ==> (v | (b << t)) >> ((t + 1) as u8) == 0,
        forall|s: u8| s < t ==> #[trigger] (((v | (b << t)) >> s) & 1) == (v >> s) & 1,
{
    assert(((v | (b << t)) >> t) & 1 == b) by (bit_vector)
        requires t < 8, b <= 1, v >> t == 0;
    assert(t < 7 ==> (v | (b << t)) >> ((t + 1) as u8) == 0) by (bit_vector)
        requires t < 8, b <= 1, v >> t == 0;
    assert forall|s: u8| s < t implies #[trigger] (((v | (b << t)) >> s) & 1) == (v >> s) & 1 by {
        assert((((v | (b << t)) >> s) & 1) == (v >> s) & 1) by (bit_vector)
            requires s < t, t < 8, b <= 1;
    }
}

proof fn lemma_bit_is_bit(x: u8, t: int)
    requires
        0 <= t < 8,
    ensures
        bit_of(x, t) <= 1,
{
    let s = t as u8;
    assert(((x >> s) & 1u8) <= 1) by (bit_vector);
}

/// Two bytes with the same eight bits are the same byte.
pub proof fn lemma_bits_determine_byte(x: u8, y: u8)
    requires
        forall|t: int| 0 <= t < 8 ==> #[trigger] bit_of(x, t) == bit_of(y, t),
    ensures
        x == y,
{
    assert(bit_of(x, 0) == bit_of(y, 0));
    assert(bit_of(x, 1) == bit_of(y, 1));
    assert(bit_of(x, 2) == bit_of(y, 2));
    assert(bit_of(x, 3) == bit_of(y, 3));
    assert(bit_of(x, 4) == bit_of(y, 4));
    assert(bit_of(x, 5) == bit_of(y, 5));
    assert(bit_of(x, 6) == bit_of(y, 6));
    assert(bit_of(x, 7) == bit_of(y, 7));
    assert(x == y) by (bit_vector)
        requires
            (x >> 0u8) & 1u8 == (y >> 0u8) & 1u8,
            (x >> 1u8) & 1u8 == (y >> 1u8) & 1u8,
            (x >> 2u8) & 1u8 == (y >> 2u8) & 1u8,
            (x >> 3u8) & 1u8 == (y >> 3u8) & 1u8,
            (x >> 4u8) & 1u8 == (y >> 4u8) & 1u8,
            (x >> 5u8) & 1u8 == (y >> 5u8) & 1u8,
            (x >> 6u8) & 1u8 == (y >> 6u8) & 1u8,
            (x >> 7u8) & 1u8 == (y >> 7u8) & 1u8,
    ;
}

/// Expands each byte into its eight bits, least-significant bit first.
pub fn bytes_to_bits(data: &[u8]) -> (r: Vec<u8>)
    ensures
        r@ == bits_of(data@),
{
    let mut r: Vec<u8> = Vec::new();
    let mut i: usize = 0;
    while i < data.len()
        invariant
            i <= data@.len(),
            r@.len() == 8 * i,
            forall|k: int| 0 <= k < r@.len() ==> #[trigger] r@[k] == bit_of(data@[k / 8], k % 8),
        decreases data@.len() - i,
    {
        let byte = data[i];
        let mut t: u8 = 0;
        while t < 8
            invariant
                i < data@.len(),
                byte == data@[i as int],
                t <= 8,
                r@.len() == 8 * i + t,
                forall|k: int| 0 <= k < r@.len() ==> #[trigger] r@[k] == bit_of(data@[k / 8], k % 8),
            decreases 8 - t,
        {
            proof {
                let k = 8 * i + t;
                assert(k / 8 == i && k % 8 == t) by (nonlinear_arith)
                    requires k == 8 * i + t, 0 <= t < 8;
            }
            r.push((byte >> t) & 1);
            t = t + 1;
        }
        i = i + 1;
    }
    assert(r@ =~= bits_of(data@));
    r
}

/// Packs groups of eight bits into bytes, bit `i` of a group weighing `1 << i`;
/// a short last group packs as if padded with zero bits.
pub fn bits_to_bytes(bits: &[u8]) -> (r: Vec<u8>)
    requires
        all_bits(bits@),
    ensures
        is_packing(r@, bits@),
{
    let n = bits.len();
    let mut r: Vec<u8> = Vec::new();
    let mut start: usize = 0;
    let mut rem: usize = n;
    while rem > 0
        invariant
            n == bits@.len(),
            all_bits(bits@),
            rem > 0 ==> start == 8 * r@.len() && start + rem == n,
            rem == 0 ==> 8 * r@.len() >= n,
            r@.len() <= packed_len(n as nat),
            forall|j: int| 0 <= j < r@.len() ==> packs_group(#[trigger] r@[j], bits@, j),
        decreases rem,
    {
        let mut v: u8 = 0;
        let mut t: u8 = 0;
        assert(0u8 >> 0u8 == 0) by (bit_vector);
        while t < 8
            invariant
                n == bits@.len(),
                all_bits(bits@),
                start + rem == n,
                rem > 0,
                t <= 8,
                t < 8 ==> v >> t == 0,
                forall|s: int| 0 <= s < t ==> #[trigger] bit_of(v, s) == bit_or_zero(bits@, start + s),
            decreases 8 - t,
        {
            let b: u8 = if (t as usize) < rem { bits[start + t as usize] } else { 0 };
            proof {
                lemma_set_bit(v, b, t);
                assert forall|s: int| 0 <= s < t + 1 implies #[trigger] bit_of(v | (b << t), s)
                    == bit_or_zero(bits@, start + s) by {
                    if s < t {
                        assert(bit_of(v | (b << t), s) == bit_of(v, s));
                    }
                }
            }
            v = v | (b << t);
            t = t + 1;
        }
        proof {
            let j = r@.len() as int;
            assert((n + 7) / 8 >= j + 1) by (nonlinear_arith)
                requires start == 8 * j, start < n;
        }
        r.push(v);
        if rem <= 8 {
            rem = 0;
            proof {
                let m = r@.len() as int;
                assert(m >= (n + 7) / 8) by (nonlinear_arith)
                    requires 8 * m >= n;
            }
        } else {
            rem = rem - 8;
            start = start + 8;
        }
    }
    proof {
        let m = r@.len() as int;
        assert(m >= (n + 7) / 8) by (nonlinear_arith)
            requires 8 * m >= n;
    }
    r
}

/// Packing the bits of a byte stream gives the byte stream back.
pub proof fn lemma_pack_bits_of(b: Seq<u8>, r: Seq<u8>)
    requires
        is_packing(r, bits_of(b)),
    ensures
        r == b,
{
    let bits = bits_of(b);
    assert(bits.len() == 8 * b.len());
    assert(packed_len(bits.len()) == b.len()) by (nonlinear_arith)
        requires bits.len() == 8 * b.len();
    assert forall|j: int| 0 <= j < b.len() implies r[j] == b[j] by {
        assert forall|t: int| 0 <= t < 8 implies #[trigger] bit_of(r[j], t) == bit_of(b[j], t) by {
            assert(packs_group(r[j], bits, j));
            let k = 8 * j + t;
            assert(k / 8 == j && k % 8 == t && k < 8 * b.len()) by (nonlinear_arith)
                requires k == 8 * j + t, 0 <= t < 8, 0 <= j < b.len();
            assert(bit_or_zero(bits, k) == bit_of(b[j], t));
        }
        lemma_bits_determine_byte(r[j], b[j]);
    }
    assert(r =~= b);
}

/// The bit stream of a byte stream holds bits only.
pub proof fn lemma_bits_of_all_bits(b: Seq<u8>)
    ensures
        all_bits(bits_of(b)),
{
    assert forall|i: int| 0 <= i < bits_of(b).len() implies #[trigger] bits_of(b)[i] <= 1 by {
        lemma_bit_is_bit(b[i / 8], i % 8);
    }
}

/// Repeats `unit` end to end until exactly `capacity` elements are filled; a
/// capacity below the unit's length gives a prefix of the unit.
pub fn tile(unit: &[u8], capacity: usize) -> (r: Vec<u8>)
    requires
        unit@.len() > 0,
    ensures
        r@ == tiled(unit@, capacity as nat),
        r@.len() == capacity,
{
    let mut r: Vec<u8> = Vec::new();
    let mut i: usize = 0;
    let mut k: usize = 0;
    while i < capacity
        invariant
            unit@.len() > 0,
            i <= capacity,
            k < unit@.len(),
            k as int == i as int % (unit@.len() as int),
            r@.len() == i,
            forall|m: int| 0 <= m < i ==> #[trigger] r@[m] == unit@[m % (unit@.len() as int)],
        decreases capacity - i,
    {
        r.push(unit[k]);
        proof {
            let u = unit@.len() as int;
            let ii = i as int;
            let kk = k as int;
            if kk + 1 == u {
                assert((ii + 1) % u == 0) by (nonlinear_arith)
                    requires kk == ii % u, kk + 1 == u, u > 0, ii >= 0;
            } else {
                assert((ii + 1) % u == kk + 1) by (nonlinear_arith)
                    requires kk == ii % u, kk + 1 < u, u > 0, ii >= 0;
            }
        }
        k = if k + 1 == unit.len() { 0 } else { k + 1 };
        i = i + 1;
    }
    assert(r@ =~= tiled(unit@, capacity as nat));
    r
}

} // verus!
