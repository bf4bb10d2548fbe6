use receptor::bits::{bits_to_string, parse_bits, CodecError};
use receptor::crc32::{append_crc32_poly, verify_crc32_poly};
use receptor::hamming::{decode_stream, encode_stream};

fn flip(s: &str, idx: usize) -> String {
    let mut v: Vec<char> = s.chars().collect();
    v[idx] = if v[idx] == '1' { '0' } else { '1' };
    v.into_iter().collect()
}

#[test]
fn hamming_concrete_scenario_n7() {
    // n = 7 carries 4 data bits per block: "1011" becomes one 7-bit codeword.
    let codeword = encode_stream("1011", 7).expect("encode");
    assert_eq!(codeword, "0110011");
    assert_eq!(codeword.len(), 7);

    let clean = decode_stream(&codeword, 7).expect("decode");
    assert_eq!(clean.data_bits, "1011");
    assert_eq!(clean.corrected_positions, Vec::<(usize, usize)>::new());

    // One inverted bit (0-based index 3) is corrected inside block 0.
    let tampered = flip(&codeword, 3);
    let fixed = decode_stream(&tampered, 7).expect("decode tampered");
    assert_eq!(fixed.data_bits, "1011");
    assert_eq!(fixed.corrected_positions.len(), 1);
    assert_eq!(fixed.corrected_positions[0], (0, 4));
}

#[test]
fn hamming_minimal_block_length() {
    // n = 3 is the smallest code: 2 check bits, 1 data bit.
    assert_eq!(encode_stream("1", 3).expect("encode"), "111");
    assert_eq!(encode_stream("0", 3).expect("encode"), "000");
    let res = decode_stream("111", 3).expect("decode");
    assert_eq!(res.data_bits, "1");
    assert!(res.corrected_positions.is_empty());
}

#[test]
fn hamming_small_n_rejected() {
    assert_eq!(
        decode_stream("01", 2).unwrap_err(),
        CodecError::BlockSizeTooSmall { n: 2 }
    );
    assert_eq!(
        decode_stream("", 0).unwrap_err(),
        CodecError::BlockSizeTooSmall { n: 0 }
    );
    assert_eq!(
        encode_stream("1", 1).unwrap_err(),
        CodecError::BlockSizeTooSmall { n: 1 }
    );
}

#[test]
fn hamming_length_mismatch_rejected() {
    assert_eq!(
        decode_stream("01101", 7).unwrap_err(),
        CodecError::LengthMismatch { len: 5, expected: 7 }
    );
    // n = 7 encodes groups of 4 data bits.
    assert_eq!(
        encode_stream("101", 7).unwrap_err(),
        CodecError::LengthMismatch { len: 3, expected: 4 }
    );
}

#[test]
fn hamming_invalid_character_rejected() {
    assert_eq!(
        decode_stream("0110x11", 7).unwrap_err(),
        CodecError::InvalidCharacter
    );
    assert_eq!(
        encode_stream("10 1", 7).unwrap_err(),
        CodecError::InvalidCharacter
    );
}

#[test]
fn hamming_uncorrectable_block_reported() {
    // n = 10 is not one less than a power of two, so a syndrome can fall
    // outside 1..=n.  Two inverted bits at 1-based positions 3 and 8 give
    // syndrome 3 xor 8 = 11 > 10.
    let block = "0010000100";
    assert_eq!(
        decode_stream(block, 10).unwrap_err(),
        CodecError::UncorrectableBlock { block: 1, syndrome: 11, n: 10 }
    );
    // Fail-fast: a healthy block in front does not change the outcome, only
    // the reported (1-based) block index.
    let healthy = encode_stream("100101", 10).expect("encode");
    assert_eq!(healthy.len(), 10);
    let two = format!("{}{}", healthy, block);
    assert_eq!(
        decode_stream(&two, 10).unwrap_err(),
        CodecError::UncorrectableBlock { block: 2, syndrome: 11, n: 10 }
    );
}

#[test]
fn crc_exact_codewords() {
    assert_eq!(
        append_crc32_poly("1").expect("append"),
        "100000100110000010001110110110111"
    );
    assert_eq!(
        append_crc32_poly("10101").expect("append"),
        "1010101011011110101001011000000011011"
    );
}

#[test]
fn crc_short_frame_rejected() {
    assert_eq!(
        verify_crc32_poly("0101").unwrap_err(),
        CodecError::ShortFrame { len: 4 }
    );
    // 32 bits is still one short of a message bit plus the 32 check bits.
    let thirty_two = "01010101010101010101010101010101";
    assert_eq!(
        verify_crc32_poly(thirty_two).unwrap_err(),
        CodecError::ShortFrame { len: 32 }
    );
}

#[test]
fn crc_invalid_character_rejected() {
    assert_eq!(
        verify_crc32_poly("10x").unwrap_err(),
        CodecError::InvalidCharacter
    );
    assert_eq!(
        append_crc32_poly("2").unwrap_err(),
        CodecError::InvalidCharacter
    );
}

#[test]
fn crc_single_bit_detection_every_position() {
    let codeword = append_crc32_poly("1110001110001").expect("append");
    for idx in 0..codeword.len() {
        let tampered = flip(&codeword, idx);
        let v = verify_crc32_poly(&tampered).expect("verify");
        assert!(!v.valid, "a single inverted bit must be detected");
        assert!(v.original_message.is_none());
    }
}

#[test]
fn crc_invalid_checksum_is_not_an_error() {
    // 33 zeros divide evenly; the all-ones frame of the same length does not.
    let zeros: String = std::iter::repeat('0').take(33).collect();
    let v = verify_crc32_poly(&zeros).expect("verify");
    assert!(v.valid);
    assert_eq!(v.original_message.unwrap(), "0");

    let ones: String = std::iter::repeat('1').take(33).collect();
    let v = verify_crc32_poly(&ones).expect("verify");
    assert!(!v.valid);
    assert!(v.original_message.is_none());
}

#[test]
fn bit_text_round_trip() {
    let bits = parse_bits("100110").expect("parse");
    assert_eq!(bits, vec![1u8, 0, 0, 1, 1, 0]);
    assert_eq!(bits_to_string(&bits), "100110");
    assert_eq!(parse_bits("10a").unwrap_err(), CodecError::InvalidCharacter);
}
