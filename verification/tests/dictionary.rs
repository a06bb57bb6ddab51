use csv2sav::bytes::{write_le_i32, write_le_i64, write_le_u64, write_padded};
use csv2sav::dictionary::{
    col_segments, row_width, write_dict_terminator, write_header, write_variable_records,
};
use csv2sav::error::EncodeError;
use csv2sav::sav_writer::{ColDef, ColType, SavWriter};

#[test]
fn segments_are_the_width_over_eight_rounded_up() {
    for w in 1..=32767u32 {
        let n = col_segments(&ColType::String(w as u16)) as u32;
        assert_eq!(n, w.div_ceil(8));
        assert!(8 * (n - 1) < w && w <= 8 * n);
    }
    assert_eq!(col_segments(&ColType::String(32767)), 4096);
}

#[test]
fn little_endian_numbers() {
    let mut out = vec![0xaa];
    write_le_i32(&mut out, 2);
    write_le_i32(&mut out, -1);
    write_le_i32(&mut out, i32::MIN);
    write_le_i32(&mut out, 0x0102_0304);
    assert_eq!(
        out,
        [0xaa, 2, 0, 0, 0, 255, 255, 255, 255, 0, 0, 0, 0x80, 4, 3, 2, 1]
    );
    let mut wide = Vec::new();
    write_le_i64(&mut wide, -100);
    write_le_i64(&mut wide, i64::MIN);
    write_le_u64(&mut wide, 100f64.to_bits());
    let mut expected = Vec::new();
    expected.extend((-100i64).to_le_bytes());
    expected.extend(i64::MIN.to_le_bytes());
    expected.extend(100f64.to_le_bytes());
    assert_eq!(wide, expected);
}

#[test]
fn padded_text_is_cut_or_filled() {
    let mut out = Vec::new();
    write_padded(&mut out, b"abc", 5);
    write_padded(&mut out, b"abcdefgh", 5);
    write_padded(&mut out, b"", 2);
    write_padded(&mut out, b"xyz", 0);
    assert_eq!(out, b"abc  abcde  ");
}

#[test]
fn header_alone() {
    let mut out = Vec::new();
    write_header(&mut out, 7);
    assert_eq!(out.len(), 176);
    assert_eq!(&out[0..4], b"$FL2");
    assert_eq!(i32::from_le_bytes(out[68..72].try_into().unwrap()), 7);
    assert_eq!(i32::from_le_bytes(out[80..84].try_into().unwrap()), -1);
}

#[test]
fn records_and_terminator_alone() {
    let cols = vec![
        ColDef { name: "V1".into(), label: "".into(), col_type: ColType::Numeric },
        ColDef { name: "V2".into(), label: "label".into(), col_type: ColType::String(17) },
    ];
    let mut out = Vec::new();
    write_variable_records(&mut out, &cols);
    assert_eq!(out.len(), 32 + (32 + 4 + 8) + 2 * 32);
    write_dict_terminator(&mut out);
    assert_eq!(&out[out.len() - 8..], &[0xe7, 3, 0, 0, 0, 0, 0, 0]);
    assert_eq!(row_width(&cols), Some(4));
}

#[test]
fn a_case_size_beyond_32_bits_is_refused() {
    let wide = ColDef { name: String::new(), label: String::new(), col_type: ColType::String(32767) };
    let mut cols = vec![wide; 524_287];
    cols.push(ColDef { name: String::new(), label: String::new(), col_type: ColType::String(32759) });
    assert_eq!(row_width(&cols), Some(i32::MAX as usize));
    cols.push(ColDef { name: String::new(), label: String::new(), col_type: ColType::Numeric });
    assert_eq!(row_width(&cols), None);
    assert!(matches!(SavWriter::new(cols), Err(EncodeError::TooLarge)));
}
