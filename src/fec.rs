//! Reed-Solomon block coding of a byte stream: groups of `CHUNK_SIZE` data
//! bytes, each followed by `ECC_LEN` parity bytes.
use vstd::prelude::*;
use vstd::slice::slice_subrange;

verus! {

/// Data bytes per codeword.
pub const CHUNK_SIZE: usize = 5;

/// Bytes per full codeword.
pub const ENCODED_SIZE: usize = 30;

/// Parity bytes per codeword.
pub const ECC_LEN: usize = 25;

#[verifier::external_type_specification]
#[verifier::external_body]
pub struct ExDecoderError(reed_solomon::DecoderError);

/// The parity bytes that the Reed-Solomon encoder appends to a data group.
pub uninterp spec fn rs_parity(data: Seq<u8>) -> Seq<u8>;

/// What the Reed-Solomon decoder makes of a received block: the corrected
/// block, or `None` where it reports too many errors.
pub uninterp spec fn rs_corrected(received: Seq<u8>) -> Option<Seq<u8>>;

/// The codeword of a data group: the data, then its parity.
pub open spec fn codeword(data: Seq<u8>) -> Seq<u8> {
    data + rs_parity(data)
}

/// Number of positions at which two blocks of equal length differ.
pub open spec fn distance(a: Seq<u8>, b: Seq<u8>) -> nat
    decreases a.len(),
{
    if a.len() == 0 || b.len() == 0 {
        0
    } else {
        distance(a.drop_last(), b.drop_last()) + if a.last() != b.last() { 1nat } else { 0nat }
    }
}

pub open spec fn min(a: int, b: int) -> int {
    if a < b { a } else { b }
}

/// `received` is `data`'s codeword with at most `ECC_LEN / 2` bytes substituted.
pub open spec fn correctable(received: Seq<u8>, data: Seq<u8>) -> bool {
    &&& data.len() + ECC_LEN == received.len()
    &&& codeword(data).len() == received.len()
    &&& distance(received, codeword(data)) <= ECC_LEN / 2
}

/// The data bytes recovered from one received block: the first `CHUNK_SIZE`
/// bytes of the corrected block, or of the block as received where it is too
/// short to decode or the decoder gives up.
pub open spec fn chunk_data(received: Seq<u8>) -> Seq<u8> {
    let fixed = if ECC_LEN <= received.len() { rs_corrected(received) } else { None };
    match fixed {
        Some(v) => v.take(min(CHUNK_SIZE as int, v.len() as int)),
        None => received.take(min(CHUNK_SIZE as int, received.len() as int)),
    }
}

/// The first group of a data stream: its first `CHUNK_SIZE` bytes, padded with
/// zero bytes where the stream is shorter.
pub open spec fn group(data: Seq<u8>) -> Seq<u8> {
    let g = data.take(min(CHUNK_SIZE as int, data.len() as int));
    g + Seq::new((CHUNK_SIZE - g.len()) as nat, |i: int| 0u8)
}

/// A data stream padded with zero bytes to a whole number of groups.
pub open spec fn padded(data: Seq<u8>) -> Seq<u8>
    decreases data.len(),
{
    if data.len() == 0 {
        Seq::empty()
    } else if data.len() <= CHUNK_SIZE {
        group(data)
    } else {
        group(data) + padded(data.skip(CHUNK_SIZE as int))
    }
}

/// The encoded stream: each group of `CHUNK_SIZE` bytes (the last one padded
/// with zero bytes) replaced by its codeword, in order.
pub open spec fn fec_encoded(data: Seq<u8>) -> Seq<u8>
    decreases data.len(),
{
    if data.len() == 0 {
        Seq::empty()
    } else if data.len() <= CHUNK_SIZE {
        codeword(group(data))
    } else {
        codeword(group(data)) + fec_encoded(data.skip(CHUNK_SIZE as int))
    }
}

/// Every group of the stream has `ECC_LEN` parity bytes, so that every
/// codeword of its encoding has `ENCODED_SIZE` bytes.
pub open spec fn parity_ok(data: Seq<u8>) -> bool
    decreases data.len(),
{
    if data.len() == 0 {
        true
    } else {
        &&& rs_parity(group(data)).len() == ECC_LEN
        &&& (data.len() <= CHUNK_SIZE || parity_ok(data.skip(CHUNK_SIZE as int)))
    }
}

/// `bytes` is the encoding of `data` with at most `ECC_LEN / 2` bytes
/// substituted in each codeword.
pub open spec fn near_encoding(bytes: Seq<u8>, data: Seq<u8>) -> bool
    decreases data.len(),
{
    if data.len() == 0 {
        bytes.len() == 0
    } else if data.len() <= CHUNK_SIZE {
        bytes.len() == ENCODED_SIZE && correctable(bytes, group(data))
    } else {
        &&& bytes.len() > ENCODED_SIZE
        &&& correctable(bytes.take(ENCODED_SIZE as int), group(data))
        &&& near_encoding(bytes.skip(ENCODED_SIZE as int), data.skip(CHUNK_SIZE as int))
    }
}

/// What the decoder did with a block: a block that is correctable to some
/// data gives back the leading bytes of that data's codeword.
pub open spec fn block_decodes(block: Seq<u8>) -> bool {
    forall|d: Seq<u8>| #[trigger] correctable(block, d)
        ==> chunk_data(block) == codeword(d).take(min(CHUNK_SIZE as int, block.len() as int))
}

/// `block_decodes` holds of every block of the stream.
pub open spec fn blocks_decode(bytes: Seq<u8>) -> bool
    decreases bytes.len(),
{
    if bytes.len() == 0 {
        true
    } else if bytes.len() <= ENCODED_SIZE {
        block_decodes(bytes)
    } else {
        block_decodes(bytes.take(ENCODED_SIZE as int)) && blocks_decode(bytes.skip(ENCODED_SIZE as int))
    }
}

proof fn lemma_distance_self(a: Seq<u8>)
    ensures
        distance(a, a) == 0,
    decreases a.len(),
{
    if a.len() > 0 {
        lemma_distance_self(a.drop_last());
    }
}

/// A noiseless encoding is near its data, where the parity lengths are right.
pub proof fn lemma_encoded_is_near(data: Seq<u8>)
    requires
        parity_ok(data),
    ensures
        near_encoding(fec_encoded(data), data),
        fec_encoded(data).len() == (ENCODED_SIZE as int) * ((data.len() + 4) as int / (CHUNK_SIZE as int)),
    decreases data.len(),
{
    if data.len() > 0 {
        let g = group(data);
        lemma_distance_self(codeword(g));
        assert(g.len() == CHUNK_SIZE);
        if data.len() > CHUNK_SIZE {
            let rest = data.skip(CHUNK_SIZE as int);
            lemma_encoded_is_near(rest);
            let e = fec_encoded(data);
            assert(e.take(ENCODED_SIZE as int) =~= codeword(g));
            assert(e.skip(ENCODED_SIZE as int) =~= fec_encoded(rest));
            assert((data.len() + 4) / 5 == (rest.len() + 4) / 5 + 1);
        }
    }
}

/// A stream within `ECC_LEN / 2` substitutions per codeword of the encoding of
/// `data`, all of whose blocks the decoder handled as stated, decodes to `data`
/// padded to whole groups.
pub proof fn lemma_decode_near(bytes: Seq<u8>, data: Seq<u8>)
    requires
        near_encoding(bytes, data),
        blocks_decode(bytes),
    ensures
        fec_decoded(bytes) == padded(data),
    decreases data.len(),
{
    if data.len() > 0 {
        let g = group(data);
        assert(g.len() == CHUNK_SIZE);
        if data.len() <= CHUNK_SIZE {
            assert(codeword(g).take(CHUNK_SIZE as int) =~= g);
        } else {
            let b = bytes.take(ENCODED_SIZE as int);
            assert(correctable(b, g));
            assert(codeword(g).take(CHUNK_SIZE as int) =~= g);
            lemma_decode_near(bytes.skip(ENCODED_SIZE as int), data.skip(CHUNK_SIZE as int));
        }
    }
}

/// A stream is the first part of its padding.
pub proof fn lemma_prefix_of_padded(data: Seq<u8>)
    ensures
        data.is_prefix_of(padded(data)),
    decreases data.len(),
{
    if data.len() > CHUNK_SIZE {
        let rest = data.skip(CHUNK_SIZE as int);
        lemma_prefix_of_padded(rest);
        assert(group(data).len() == CHUNK_SIZE);
        assert forall|i: int| 0 <= i < data.len() implies padded(data)[i] == data[i] by {
            if i >= CHUNK_SIZE {
                assert(padded(data)[i] == padded(rest)[i - CHUNK_SIZE]);
                assert(rest[i - CHUNK_SIZE] == data[i]);
            } else {
                assert(padded(data)[i] == group(data)[i]);
            }
        }
    }
}

/// The decoded stream: each block of `ENCODED_SIZE` bytes (the last possibly
/// short) replaced by the data recovered from it, in order.
pub open spec fn fec_decoded(bytes: Seq<u8>) -> Seq<u8>
    decreases bytes.len(),
{
    if bytes.len() == 0 {
        Seq::empty()
    } else if bytes.len() <= ENCODED_SIZE {
        chunk_data(bytes)
    } else {
        chunk_data(bytes.take(ENCODED_SIZE as int)) + fec_decoded(bytes.skip(ENCODED_SIZE as int))
    }
}

/// Relies on reed_solomon::Encoder::encode with `ECC_LEN` parity bytes: the
/// returned buffer holds the data, then the parity.
#[verifier::external_body]
fn rs_encode(data: &[u8]) -> (r: Vec<u8>)
    requires
        data@.len() <= CHUNK_SIZE,
    ensures
        r@ == data@ + rs_parity(data@),
        r@.len() == data@.len() + ECC_LEN,
{
    reed_solomon::Encoder::new(ECC_LEN).encode(data).to_vec()
}

/// Relies on reed_solomon::Decoder::correct with `ECC_LEN` parity bytes and no
/// erasures: a corrected block has the received block's length, and a block
/// within `ECC_LEN / 2` substitutions of a codeword is corrected to it. The
/// decoder subtracts `ECC_LEN` from the length and asserts a length under 256.
#[verifier::external_body]
fn rs_correct(received: &[u8]) -> (r: Result<Vec<u8>, reed_solomon::DecoderError>)
    requires
        ECC_LEN <= received@.len() < 256,
    ensures
        match r {
            Ok(v) => {
                &&& rs_corrected(received@) == Some(v@)
                &&& v@.len() == received@.len()
                &&& forall|d: Seq<u8>| #[trigger] correctable(received@, d) ==> v@ == d + rs_parity(d)
            },
            Err(_) => {
                &&& rs_corrected(received@) is None
                &&& forall|d: Seq<u8>| !#[trigger] correctable(received@, d)
            },
        },
{
    match reed_solomon::Decoder::new(ECC_LEN).correct(received, None) {
        Ok(buf) => Ok(buf.to_vec()),
        Err(e) => Err(e),
    }
}

/// The first `n` bytes of `src`, or all of it where it is shorter.
fn leading(src: &[u8], n: usize) -> (r: Vec<u8>)
    ensures
        r@ == src@.take(min(n as int, src@.len() as int)),
{
    let m: usize = if src.len() < n { src.len() } else { n };
    let mut r: Vec<u8> = Vec::new();
    let mut i: usize = 0;
    while i < m
        invariant
            m <= src@.len(),
            i <= m,
            r@ == src@.take(i as int),
        decreases m - i,
    {
        r.push(src[i]);
        i = i + 1;
        assert(r@ =~= src@.take(i as int));
    }
    r
}

/// Recovers the data bytes of one received block. A block of a codeword with at
/// most `ECC_LEN / 2` substituted bytes gives back that codeword's data.
pub fn correct_chunk(chunk: &[u8]) -> (r: Vec<u8>)
    requires
        chunk@.len() <= ENCODED_SIZE,
    ensures
        r@ == chunk_data(chunk@),
        forall|d: Seq<u8>| #[trigger] correctable(chunk@, d)
            ==> r@ == codeword(d).take(min(CHUNK_SIZE as int, chunk@.len() as int)),
        forall|d: Seq<u8>| d.len() == CHUNK_SIZE && #[trigger] correctable(chunk@, d) ==> r@ == d,
{
    let fixed = if ECC_LEN <= chunk.len() {
        match rs_correct(chunk) {
            Ok(v) => Some(v),
            Err(_) => None,
        }
    } else {
        None
    };
    let r = match fixed {
        Some(v) => leading(v.as_slice(), CHUNK_SIZE),
        None => leading(chunk, CHUNK_SIZE),
    };
    proof {
        assert forall|d: Seq<u8>| d.len() == CHUNK_SIZE && #[trigger] correctable(chunk@, d) implies r@ == d by {
            assert(codeword(d).take(CHUNK_SIZE as int) =~= d);
        }
    }
    r
}

/// The first group of `data[i..]`, padded with zero bytes to `CHUNK_SIZE`.
fn group_at(data: &[u8], i: usize) -> (g: Vec<u8>)
    requires
        i < data@.len(),
    ensures
        g@ == group(data@.skip(i as int)),
{
    let mut g: Vec<u8> = Vec::new();
    let mut k: usize = 0;
    let ghost s = data@.skip(i as int);
    let ghost m = min(CHUNK_SIZE as int, s.len() as int);
    while k < CHUNK_SIZE
        invariant
            s == data@.skip(i as int),
            m == min(CHUNK_SIZE as int, s.len() as int),
            i < data@.len(),
            k <= CHUNK_SIZE,
            g@.len() == k,
            forall|t: int| 0 <= t < k ==> #[trigger] g@[t] == group(s)[t],
        decreases CHUNK_SIZE - k,
    {
        if k < data.len() - i {
            g.push(data[i + k]);
        } else {
            g.push(0);
        }
        k = k + 1;
    }
    assert(g@ =~= group(s));
    g
}

/// Encodes a byte stream group by group: `CHUNK_SIZE` data bytes (the last
/// group padded with zero bytes) followed by their `ECC_LEN` parity bytes, so
/// that every codeword has `ENCODED_SIZE` bytes.
pub fn fec_encode(data: &[u8]) -> (r: Vec<u8>)
    ensures
        r@ == fec_encoded(data@),
        parity_ok(data@),
        r@.len() == (ENCODED_SIZE as int) * ((data@.len() + 4) as int / (CHUNK_SIZE as int)),
{
    let mut r: Vec<u8> = Vec::new();
    let mut i: usize = 0;
    proof {
        assert(data@.skip(0) =~= data@);
        assert(r@ + fec_encoded(data@) =~= fec_encoded(data@));
    }
    while i < data.len()
        invariant
            i <= data@.len(),
            r@ + fec_encoded(data@.skip(i as int)) == fec_encoded(data@),
            parity_ok(data@.skip(i as int)) ==> parity_ok(data@),
        decreases data@.len() - i,
    {
        let rest = data.len() - i;
        let j: usize = if rest <= CHUNK_SIZE { data.len() } else { i + CHUNK_SIZE };
        let g = group_at(data, i);
        let mut cw = rs_encode(g.as_slice());
        proof {
            let s = data@.skip(i as int);
            if rest > CHUNK_SIZE {
                assert(s.skip(CHUNK_SIZE as int) =~= data@.skip(j as int));
            } else {
                assert(data@.skip(j as int) =~= Seq::<u8>::empty());
            }
        }
        let ghost old_r = r@;
        r.append(&mut cw);
        proof {
            assert(r@ + fec_encoded(data@.skip(j as int)) =~= old_r + (fec_encoded(data@.skip(i as int))));
        }
        i = j;
    }
    proof {
        assert(data@.skip(i as int) =~= Seq::<u8>::empty());
        assert(r@ + Seq::<u8>::empty() =~= r@);
        lemma_encoded_is_near(data@);
    }
    r
}

/// Decodes a stream block by block (`ENCODED_SIZE` bytes, the last block
/// possibly short), keeping the data recovered from each; a block that cannot
/// be corrected gives its first bytes as received.
pub fn fec_decode(bytes: &[u8]) -> (r: Vec<u8>)
    ensures
        r@ == fec_decoded(bytes@),
        blocks_decode(bytes@),
        forall|x: Seq<u8>| #[trigger] near_encoding(bytes@, x) ==> r@ == padded(x),
{
    let mut r: Vec<u8> = Vec::new();
    let mut i: usize = 0;
    proof {
        assert(bytes@.skip(0) =~= bytes@);
        assert(r@ + fec_decoded(bytes@) =~= fec_decoded(bytes@));
    }
    while i < bytes.len()
        invariant
            i <= bytes@.len(),
            r@ + fec_decoded(bytes@.skip(i as int)) == fec_decoded(bytes@),
            blocks_decode(bytes@.skip(i as int)) ==> blocks_decode(bytes@),
        decreases bytes@.len() - i,
    {
        let rest = bytes.len() - i;
        let j: usize = if rest <= ENCODED_SIZE { bytes.len() } else { i + ENCODED_SIZE };
        let block = slice_subrange(bytes, i, j);
        let mut data = correct_chunk(block);
        proof {
            let s = bytes@.skip(i as int);
            if rest > ENCODED_SIZE {
                assert(block@ =~= s.take(ENCODED_SIZE as int));
                assert(s.skip(ENCODED_SIZE as int) =~= bytes@.skip(j as int));
            } else {
                assert(block@ =~= s);
                assert(bytes@.skip(j as int) =~= Seq::<u8>::empty());
            }
        }
        let ghost old_r = r@;
        r.append(&mut data);
        proof {
            assert(r@ + fec_decoded(bytes@.skip(j as int)) =~= old_r + (fec_decoded(bytes@.skip(i as int))));
            assert(block_decodes(block@));
        }
        i = j;
    }
    proof {
        assert(bytes@.skip(i as int) =~= Seq::<u8>::empty());
        assert(r@ + Seq::<u8>::empty() =~= r@);
        assert forall|x: Seq<u8>| #[trigger] near_encoding(bytes@, x) implies r@ == padded(x) by {
            lemma_decode_near(bytes@, x);
        }
    }
    r
}

} // verus!
