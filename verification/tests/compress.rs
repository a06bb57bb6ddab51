use csv2sav::compress::{encode_chunk, encode_number};

#[test]
fn eight_spaces_are_one_opcode() {
    assert_eq!(encode_chunk(b"        "), (254, vec![]));
}

#[test]
fn other_eight_bytes_are_stored_raw() {
    assert_eq!(encode_chunk(b"abcdefgh"), (0, b"abcdefgh".to_vec()));
    assert_eq!(encode_chunk(b"       x"), (0, b"       x".to_vec()));
    assert_eq!(encode_chunk(&[0u8; 8]), (0, vec![0u8; 8]));
}

#[test]
fn a_short_chunk_is_padded_with_spaces() {
    assert_eq!(encode_chunk(b"hello"), (0, b"hello   ".to_vec()));
    assert_eq!(encode_chunk(b"x"), (0, b"x       ".to_vec()));
    assert_eq!(encode_chunk(b"  y"), (0, b"  y     ".to_vec()));
    assert_eq!(encode_chunk(b"   "), (254, vec![]));
    assert_eq!(encode_chunk(b""), (254, vec![]));
}

#[test]
fn numbers_are_a_code_or_raw() {
    assert_eq!(encode_number(None), (255, vec![]));
    assert_eq!(encode_number(Some(0f64.to_bits())), (100, vec![]));
    assert_eq!(encode_number(Some((-99f64).to_bits())), (1, vec![]));
    assert_eq!(encode_number(Some(151f64.to_bits())), (251, vec![]));
    assert_eq!(encode_number(Some(1.5f64.to_bits())), (0, 1.5f64.to_le_bytes().to_vec()));
    assert_eq!(encode_number(Some(152f64.to_bits())), (0, 152f64.to_le_bytes().to_vec()));
    assert_eq!(encode_number(Some(f64::NAN.to_bits())), (0, f64::NAN.to_le_bytes().to_vec()));
}
