use stegcodec::bits::{bits_to_bytes, bytes_to_bits, tile};
use stegcodec::codec::{bytes_to_encoded_bits, decode_bits, decode_candidate, encode_payload, encoded_bytes_to_data};
use stegcodec::fec::{correct_chunk, fec_decode, fec_encode, CHUNK_SIZE, ECC_LEN, ENCODED_SIZE};
use stegcodec::segment::split_bytes;
use stegcodec::text::{strip_nul, to_text, utf8_valid};
use stegcodec::vote::{bytes_eq, count_of, most_frequent};

fn unit_len_bits(payload: &[u8]) -> usize {
    bytes_to_encoded_bits(payload).len() + 32
}

#[test]
fn test() {
    let data = vec![1, 2, 3, 4, 5, 6];
    let bits = bytes_to_encoded_bits(&data);
    assert_eq!(data, encoded_bytes_to_data(&bits_to_bytes(&bits)));
}

#[test]
fn bits_are_least_significant_first() {
    assert_eq!(bytes_to_bits(&[0b1000_0101]), vec![1, 0, 1, 0, 0, 0, 0, 1]);
    assert_eq!(bytes_to_bits(&[1, 2]), vec![1, 0, 0, 0, 0, 0, 0, 0, 0, 1, 0, 0, 0, 0, 0, 0]);
    assert_eq!(bytes_to_bits(&[]), Vec::<u8>::new());
}

#[test]
fn bits_pack_back_into_bytes() {
    let data: Vec<u8> = vec![0, 1, 127, 128, 200, 255];
    assert_eq!(bits_to_bytes(&bytes_to_bits(&data)), data);
    assert_eq!(bits_to_bytes(&[1, 1, 1]), vec![7]);
    assert_eq!(bits_to_bytes(&[0, 0, 0, 0, 0, 0, 0, 1, 1]), vec![128, 1]);
    assert_eq!(bits_to_bytes(&[]), Vec::<u8>::new());
}

#[test]
fn tile_repeats_and_truncates() {
    assert_eq!(tile(&[1, 2, 3], 7), vec![1, 2, 3, 1, 2, 3, 1]);
    assert_eq!(tile(&[1, 2, 3], 2), vec![1, 2]);
    assert_eq!(tile(&[1, 2, 3], 0), Vec::<u8>::new());
}

#[test]
fn encode_fills_exact_capacity() {
    let payload = b"capacity";
    for capacity in [1usize, 7, 8, 100, 1000, 4099] {
        let bits = encode_payload(payload, capacity);
        assert_eq!(bits.len(), capacity);
        assert!(bits.iter().all(|b| *b <= 1));
    }
}

#[test]
fn encode_begins_with_unit_and_delimiter() {
    let payload = b"abc";
    let message = bytes_to_encoded_bits(payload);
    let unit = message.len() + 32;
    let bits = encode_payload(payload, 2 * unit + 5);
    assert_eq!(&bits[..message.len()], &message[..]);
    assert!(bits[message.len()..unit].iter().all(|b| *b == 0));
    assert_eq!(&bits[unit..unit + message.len()], &message[..]);
    assert_eq!(&bits[2 * unit..], &message[..5]);
}

#[test]
fn round_trip_two_units() {
    let payload = vec![1u8, 2, 3, 4, 5, 6];
    let capacity = 2 * unit_len_bits(&payload);
    let bits = encode_payload(&payload, capacity);
    assert_eq!(decode_bits(&bits), Some(payload));
}

#[test]
fn round_trip_three_units_and_a_cut_tail() {
    let payload = vec![1u8, 2, 3, 4, 5, 6];
    let capacity = 3 * unit_len_bits(&payload) + 40;
    let bits = encode_payload(&payload, capacity);
    assert_eq!(decode_bits(&bits), Some(payload));
}

#[test]
fn round_trip_text_many_units() {
    let payload = b"hello, world".to_vec();
    let capacity = 64 * 64 * 8;
    let bits = encode_payload(&payload, capacity);
    assert_eq!(decode_bits(&bits), Some(payload));
}

#[test]
fn capacity_under_one_unit_gives_a_prefix() {
    let payload = b"hello";
    let message = bytes_to_encoded_bits(payload);
    let capacity = unit_len_bits(payload) - 8;
    let bits = encode_payload(payload, capacity);
    assert_eq!(bits.len(), capacity);
    assert_eq!(&bits[..message.len()], &message[..]);
    // Recovery may fail here; it must not panic.
    let _ = decode_bits(&bits);
}

#[test]
fn no_delimiter_gives_whole_stream() {
    let stream: Vec<u8> = vec![1, 0, 0, 0, 2, 0, 0, 3];
    assert_eq!(split_bytes(&stream, &[0, 0, 0, 0]), vec![stream.clone()]);
    assert_eq!(split_bytes(&[], &[0, 0, 0, 0]), vec![Vec::<u8>::new()]);
}

#[test]
fn segments_come_tail_first() {
    let stream: Vec<u8> = vec![9, 9, 0, 0, 0, 0, 7, 7, 7, 0, 0, 0, 0, 5];
    let parts = split_bytes(&stream, &[0, 0, 0, 0]);
    assert_eq!(parts, vec![vec![5], vec![7, 7, 7]]);
    let parts = split_bytes(&[9, 0, 0, 0, 0, 7, 8, 0, 0, 0, 0, 5], &[0, 0, 0, 0]);
    assert_eq!(parts, vec![vec![5], vec![7, 8]]);
}

#[test]
fn segments_count_at_least_delimiters() {
    let mut stream: Vec<u8> = vec![9];
    for m in 0..6u8 {
        stream.extend([m + 1, m + 2]);
        stream.extend([0, 0, 0, 0]);
    }
    let parts = split_bytes(&stream, &[0, 0, 0, 0]);
    assert_eq!(parts.len(), 6);
    assert_eq!(parts[0], Vec::<u8>::new());
    assert_eq!(parts[1], vec![6, 7]);
}

#[test]
fn overlapping_delimiters_are_skipped() {
    let stream: Vec<u8> = vec![1, 0, 0, 0, 0, 0, 2];
    let parts = split_bytes(&stream, &[0, 0, 0, 0]);
    assert_eq!(parts, vec![vec![2]]);
}

#[test]
fn all_zero_stream_yields_no_data() {
    let bits = vec![0u8; 8 * 203];
    assert_eq!(decode_bits(&bits), None);
    let parts = split_bytes(&vec![0u8; 203], &[0, 0, 0, 0]);
    assert_eq!(parts.len(), 50);
    assert!(parts.iter().all(|p| p.is_empty()));
    assert_eq!(split_bytes(&[0, 0, 0, 0], &[0, 0, 0, 0]), vec![Vec::<u8>::new()]);
    assert_eq!(split_bytes(&[0, 0, 0], &[0, 0, 0, 0]), vec![vec![0, 0, 0]]);
    assert_eq!(decode_bits(&[0u8; 16]), None);
}

#[test]
fn empty_bits_yield_no_data() {
    assert_eq!(decode_bits(&[]), None);
}

#[test]
fn fec_codewords_have_fixed_size() {
    let data: Vec<u8> = (1..=12).collect();
    let encoded = fec_encode(&data);
    assert_eq!(encoded.len(), 3 * ENCODED_SIZE);
    assert_eq!(&encoded[..CHUNK_SIZE], &data[..CHUNK_SIZE]);
    assert_eq!(&encoded[ENCODED_SIZE..ENCODED_SIZE + CHUNK_SIZE], &data[CHUNK_SIZE..2 * CHUNK_SIZE]);
    assert_eq!(&encoded[2 * ENCODED_SIZE..2 * ENCODED_SIZE + CHUNK_SIZE], &[11, 12, 0, 0, 0]);
    assert_ne!(&encoded[CHUNK_SIZE..ENCODED_SIZE], &[0u8; ECC_LEN][..]);
    let mut padded = data.clone();
    padded.extend([0, 0, 0]);
    assert_eq!(fec_decode(&encoded), padded);
    assert_eq!(fec_encode(&[]), Vec::<u8>::new());
}

#[test]
fn fec_stream_corrects_each_codeword() {
    let data: Vec<u8> = (1..=15).collect();
    let mut received = fec_encode(&data);
    for block in 0..3 {
        for i in 0..ECC_LEN / 2 {
            received[block * ENCODED_SIZE + 2 * i + 1] ^= 0xa5;
        }
    }
    assert_eq!(fec_decode(&received), data);
}

#[test]
fn fec_corrects_up_to_half_the_parity() {
    let data: Vec<u8> = vec![10, 20, 30, 40, 50];
    let codeword = fec_encode(&data);
    assert_eq!(codeword.len(), ENCODED_SIZE);
    let mut received = codeword.clone();
    for i in 0..ECC_LEN / 2 {
        received[2 * i] ^= 0x5a;
    }
    assert_eq!(correct_chunk(&received), data);
    assert_eq!(correct_chunk(&codeword), data);
}

#[test]
fn fec_beyond_capacity_does_not_panic() {
    let data: Vec<u8> = vec![10, 20, 30, 40, 50];
    let mut received = fec_encode(&data);
    for b in received.iter_mut() {
        *b = b.wrapping_add(1);
    }
    assert_eq!(correct_chunk(&received).len(), CHUNK_SIZE);
}

#[test]
fn short_block_falls_back_to_raw_bytes() {
    assert_eq!(correct_chunk(&[1, 2, 3]), vec![1, 2, 3]);
    assert_eq!(correct_chunk(&[1, 2, 3, 4, 5, 6, 7]), vec![1, 2, 3, 4, 5]);
    assert_eq!(fec_decode(&[]), Vec::<u8>::new());
}

#[test]
fn compression_round_trips() {
    let data: Vec<u8> = b"aaaaaaaaaaaaaaaaaaaaaaaaaaaaaaaaaaaaaaaaaaaaaaaaaaaaaaaaaaaa".to_vec();
    let bits = bytes_to_encoded_bits(&data);
    assert!(bits.len() < bytes_to_bits(&fec_encode(&data)).len());
    let mut bytes = bits_to_bytes(&bits);
    assert_eq!(encoded_bytes_to_data(&bytes), data);
    bytes.extend([1, 2, 3]);
    assert_eq!(encoded_bytes_to_data(&bytes), data);
    let empty = bits_to_bytes(&bytes_to_encoded_bits(&[]));
    assert!(!empty.is_empty());
    assert_eq!(encoded_bytes_to_data(&empty), Vec::<u8>::new());
}

#[test]
fn truncated_stream_does_not_fail() {
    let data: Vec<u8> = b"the quick brown fox jumps over the lazy dog".to_vec();
    let bytes = bits_to_bytes(&bytes_to_encoded_bits(&data));
    let _ = encoded_bytes_to_data(&bytes[..bytes.len() / 2]);
    let _ = encoded_bytes_to_data(&[0xff, 0xff, 0xff]);
}

#[test]
fn text_strips_nul_and_rejects_bad_utf8() {
    assert_eq!(strip_nul(&[0, 97, 0, 98, 0]), vec![97, 98]);
    assert_eq!(to_text(&[97, 0, 98]), Some(vec![97, 98]));
    assert_eq!(to_text(&[0, 0]), None);
    assert_eq!(to_text(&[]), None);
    assert_eq!(to_text(&[0xff, 97]), None);
    assert_eq!(to_text("é".as_bytes()), Some("é".as_bytes().to_vec()));
}

#[test]
fn candidate_decodes_its_message() {
    let payload = b"candidate";
    let message = bits_to_bytes(&bytes_to_encoded_bits(payload));
    assert_eq!(decode_candidate(&message), Some(payload.to_vec()));
    assert_eq!(decode_candidate(&[]), None);
}

#[test]
fn majority_text_wins() {
    let texts = vec![b"b".to_vec(), b"a".to_vec(), b"a".to_vec(), b"c".to_vec(), b"a".to_vec()];
    assert_eq!(most_frequent(&texts), Some(b"a".to_vec()));
    assert_eq!(count_of(&texts, b"a"), 3);
    assert_eq!(count_of(&texts, b"z"), 0);
    assert_eq!(most_frequent(&Vec::new()), None);
    let tie = vec![b"x".to_vec(), b"y".to_vec()];
    assert_eq!(most_frequent(&tie), Some(b"x".to_vec()));
}

#[test]
fn corrupted_copy_is_outvoted() {
    let payload = b"vote".to_vec();
    let unit = unit_len_bits(&payload);
    let mut bits = encode_payload(&payload, 4 * unit);
    for i in 0..unit / 2 {
        bits[unit + 2 * i] ^= 1;
    }
    assert_eq!(decode_bits(&bits), Some(payload));
}

#[test]
fn byte_equality() {
    assert!(bytes_eq(&[1, 2, 3], &[1, 2, 3]));
    assert!(!bytes_eq(&[1, 2, 3], &[1, 2, 4]));
    assert!(!bytes_eq(&[1, 2], &[1, 2, 3]));
}

#[test]
fn utf8_check_agrees_with_std() {
    let cases: Vec<Vec<u8>> = vec![
        vec![],
        vec![1, 2, 3, 4, 5, 6],
        "héllo".as_bytes().to_vec(),
        "€".as_bytes().to_vec(),
        "𝄞".as_bytes().to_vec(),
        vec![0xc0, 0x80],
        vec![0xc2],
        vec![0xe0, 0x80, 0x80],
        vec![0xe0, 0xa0, 0x80],
        vec![0xed, 0xa0, 0x80],
        vec![0xed, 0x9f, 0xbf],
        vec![0xf0, 0x8f, 0xbf, 0xbf],
        vec![0xf0, 0x90, 0x80, 0x80],
        vec![0xf4, 0x8f, 0xbf, 0xbf],
        vec![0xf4, 0x90, 0x80, 0x80],
        vec![0xf5, 0x80, 0x80, 0x80],
        vec![0x80],
        vec![0xff],
        vec![0x61, 0xe2, 0x82],
    ];
    for c in cases {
        assert_eq!(utf8_valid(&c), std::str::from_utf8(&c).is_ok(), "{:?}", c);
    }
}
