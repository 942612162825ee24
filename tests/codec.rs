use base62::{
    array_buffer_to_base62, base62_to_array_buffer, chunk_bytes, chunk_width, is_valid_alphabet,
    DecodeError, MAX_CHUNK_BYTES,
};

fn vectors() -> Vec<(Vec<u8>, &'static str)> {
    vec![
        (vec![229, 249, 55, 36, 154, 19, 199, 251, 228, 200, 180, 30, 74], "GKMXoLWxKIJ9nRvcvA"),
        (vec![230, 74, 40, 40, 202, 187, 186, 98, 246, 218, 86, 0, 214, 220, 187], "BrPC0abXu43ZDOQcgprT9"),
        (vec![184, 18, 214, 143, 66, 141, 218, 172, 133, 82], "EVa0q8AvOp25jU"),
        (vec![38, 85, 227, 221, 135, 81, 235], "AxaEi0ahmD"),
        (vec![169, 154, 142, 36], "DGjU5e"),
        (vec![241, 120], "QFC"),
        (vec![129, 157, 167, 119, 175], "Jxoyu5Z"),
        (vec![33, 253, 92, 67, 78, 200, 186], "ArysuVaSTY"),
        (vec![253, 111, 239, 94, 255, 211, 191], "FQsqiz7S1J"),
        (vec![], ""),
        (vec![9, 215, 175], "ACrx1"),
        (vec![213, 247, 82, 99, 184, 41, 29], "Ebz0T7Bvjf"),
        (vec![216, 116, 150, 56, 17, 237, 75, 133, 218, 204, 191, 22], "BZHmuNXvQ7QD6vPbI"),
        (vec![57, 151, 80, 63, 162, 108, 40, 140, 113, 195, 243], "FmEJc8i3gfA89d5"),
        (vec![222, 14, 24], "A9DxW"),
        (vec![126, 159, 129, 64, 253, 19, 174, 76, 46, 153, 27, 162], "Ay71uYPlpFKTWXd5Y"),
        (vec![167, 64, 75, 68, 135], "MoGF6Bp"),
        (vec![152, 139, 251, 121, 188, 18, 128, 101], "NGALxVBEJVb"),
    ]
}

const LEX: &str = "0123456789ABCDEFGHIJKLMNOPQRSTUVWXYZabcdefghijklmnopqrstuvwxyz";

#[test]
fn test_array_buffer_to_base62() {
    for (buffer, expected) in vectors() {
        let encoded = array_buffer_to_base62(&buffer, "");
        assert_eq!(encoded, expected);
    }
}

#[test]
fn test_base62_to_array_buffer() {
    for (expected, base62_string) in vectors() {
        let decoded = base62_to_array_buffer(base62_string, "").unwrap();
        assert_eq!(decoded, expected);
    }
}

#[test]
fn concrete_vectors_both_directions() {
    let cases: Vec<(Vec<u8>, &str)> = vec![
        (vec![], ""),
        (vec![241, 120], "QFC"),
        (vec![169, 154, 142, 36], "DGjU5e"),
        (vec![38, 85, 227, 221, 135, 81, 235], "AxaEi0ahmD"),
        (vec![184, 18, 214, 143, 66, 141, 218, 172, 133, 82], "EVa0q8AvOp25jU"),
    ];
    for (bytes, text) in cases {
        assert_eq!(array_buffer_to_base62(&bytes, ""), text);
        assert_eq!(base62_to_array_buffer(text, "").unwrap(), bytes);
    }
}

#[test]
fn several_chunks_encode_and_decode() {
    let bytes: Vec<u8> = (0u8..40).collect();
    let text = array_buffer_to_base62(&bytes, "");
    assert_eq!(text, "AADkevdTMH3tvMdatC4XeDWPkqMhQJVbUbm6QuLSNvpCvBe8XxcEgH");
    assert_eq!(base62_to_array_buffer(&text, "").unwrap(), bytes);

    let ones = vec![255u8; 33];
    let text = array_buffer_to_base62(&ones, "");
    assert_eq!(text, "8rt2u6nKGYjBKVBiwRgjgwIVVQHRtx4MKCtF1Y6IhzBEH");
    assert_eq!(base62_to_array_buffer(&text, "").unwrap(), ones);
}

#[test]
fn round_trip_many_lengths() {
    for len in [0usize, 1, 2, 31, 32, 33, 63, 64, 65, 100, 257] {
        for fill in [0u8, 1, 127, 255] {
            let bytes: Vec<u8> = (0..len).map(|i| fill.wrapping_add((i * 37) as u8)).collect();
            let text = array_buffer_to_base62(&bytes, "");
            assert_eq!(base62_to_array_buffer(&text, "").unwrap(), bytes);
            let text = array_buffer_to_base62(&bytes, LEX);
            assert_eq!(base62_to_array_buffer(&text, LEX).unwrap(), bytes);
        }
    }
}

#[test]
fn custom_alphabet() {
    assert_eq!(array_buffer_to_base62(&[241, 120], LEX), "G52");
    assert_eq!(base62_to_array_buffer("G52", LEX).unwrap(), vec![241, 120]);
}

#[test]
fn fixed_width_for_every_chunk_size() {
    for c in 1..=MAX_CHUNK_BYTES {
        let width = chunk_width(c);
        for fill in [0u8, 1, 128, 255] {
            let bytes = vec![fill; c];
            let text = array_buffer_to_base62(&bytes, "");
            assert_eq!(text.chars().count(), width);
        }
    }
}

#[test]
fn all_zero_chunk_is_all_pad() {
    assert_eq!(array_buffer_to_base62(&[0, 0, 0], ""), "AAAAA");
    assert_eq!(base62_to_array_buffer("AAAAA", "").unwrap(), vec![0, 0, 0]);
}

#[test]
fn width_table_values_and_order() {
    let expected = [
        2, 3, 5, 6, 7, 9, 10, 11, 13, 14, 15, 17, 18, 19, 21, 22, 23, 25, 26, 27, 29, 30, 31, 33,
        34, 35, 37, 38, 39, 41, 42, 43,
    ];
    for x in 1..=MAX_CHUNK_BYTES {
        assert_eq!(chunk_width(x), expected[x - 1]);
        assert_eq!(chunk_bytes(chunk_width(x)), Some(x));
        if x > 1 {
            assert!(chunk_width(x - 1) < chunk_width(x));
        }
    }
    assert_eq!(chunk_bytes(4), None);
    assert_eq!(chunk_bytes(1), None);
    assert_eq!(chunk_bytes(44), None);
}

#[test]
fn foreign_character_rejected_anywhere() {
    let text = "EVa0q8AvOp25jU";
    for i in 0..text.len() {
        let mut bad: Vec<char> = text.chars().collect();
        bad[i] = '-';
        let bad: String = bad.into_iter().collect();
        assert_eq!(base62_to_array_buffer(&bad, ""), Err(DecodeError::InvalidCharacter));
    }
    assert_eq!(base62_to_array_buffer("QF=", ""), Err(DecodeError::InvalidCharacter));
    assert_eq!(base62_to_array_buffer("QFé", ""), Err(DecodeError::InvalidCharacter));
}

#[test]
fn overflow_rejected() {
    // Two digits give one byte; "99" is 3843, more than 255.
    assert_eq!(base62_to_array_buffer("99", ""), Err(DecodeError::Overflow));
    // "ED" is 4 * 62 + 3 = 251 and fits; "EJ" is 257 and does not.
    assert_eq!(base62_to_array_buffer("ED", "").unwrap(), vec![251]);
    assert_eq!(base62_to_array_buffer("EJ", ""), Err(DecodeError::Overflow));
    // A full group of 43 nines is beyond 32 bytes.
    let nines = "9".repeat(43);
    assert_eq!(base62_to_array_buffer(&nines, ""), Err(DecodeError::Overflow));
}

#[test]
fn bad_grouping_rejected() {
    assert_eq!(base62_to_array_buffer("A", ""), Err(DecodeError::InvalidGrouping));
    assert_eq!(base62_to_array_buffer("AAAA", ""), Err(DecodeError::InvalidGrouping));
    let text = format!("{}{}", "A".repeat(43), "B");
    assert_eq!(base62_to_array_buffer(&text, ""), Err(DecodeError::InvalidGrouping));
}

#[test]
fn alphabet_validation() {
    assert!(is_valid_alphabet(""));
    assert!(is_valid_alphabet(LEX));
    assert!(is_valid_alphabet("ABCDEFGHIJKLMNOPQRSTUVWXYZabcdefghijklmnopqrstuvwxyz0123456789"));
    // Too short, too long, and a repeated character.
    assert!(!is_valid_alphabet("0123456789"));
    assert!(!is_valid_alphabet(&format!("{}!", LEX)));
    assert!(!is_valid_alphabet(&format!("{}0", &LEX[..61])));
}

#[test]
fn text_from_other_alphabet_is_rejected_or_differs() {
    // '0' to '9' are digits 0 to 9 in the lexical alphabet but 52 to 61 in the default one.
    assert_eq!(base62_to_array_buffer("00", LEX).unwrap(), vec![0]);
    assert_eq!(base62_to_array_buffer("00", ""), Err(DecodeError::Overflow));
}
