use csv2sav::error::EncodeError;
use csv2sav::sav_writer::{encode_format, ColDef, ColType, SavWriter, Value};

fn col(name: &str, label: &str, col_type: ColType) -> ColDef {
    ColDef { name: name.into(), label: label.into(), col_type }
}

fn num(n: f64) -> Value {
    Value::Number(Some(n.to_bits()))
}

fn text(s: &str) -> Value {
    Value::String(s.as_bytes().to_vec())
}

fn file(cols: Vec<ColDef>, rows: Vec<Vec<Value>>) -> Vec<u8> {
    let mut w = SavWriter::new(cols).unwrap();
    for row in rows {
        w.write_row(&row).unwrap();
    }
    w.finish()
}

fn i32_at(buf: &[u8], at: usize) -> i32 {
    i32::from_le_bytes(buf[at..at + 4].try_into().unwrap())
}

#[test]
fn empty_data_one_numeric_column() {
    let buf = file(vec![col("V1", "age", ColType::Numeric)], vec![]);
    assert_eq!(&buf[0..4], b"$FL2");
    assert_eq!(i32_at(&buf, 64), 2);
    assert_eq!(i32_at(&buf, 68), 1);
    assert_eq!(i32_at(&buf, 72), 1);
    assert_eq!(i32_at(&buf, 76), 0);
    assert_eq!(i32_at(&buf, 80), -1);
    assert_eq!(f64::from_le_bytes(buf[84..92].try_into().unwrap()), 100.0);
    assert_eq!(i32_at(&buf, 176), 2);
    assert_eq!(i32_at(&buf, 180), 0);
    assert_eq!(i32_at(&buf, 184), 1);
    assert_eq!(i32_at(&buf, 188), 0);
    assert_eq!(&buf[200..208], b"V1      ");
    assert_eq!(i32_at(&buf, 208), 3);
    assert_eq!(&buf[212..216], b"age\0");
    assert_eq!(i32_at(&buf, 216), 999);
    assert_eq!(i32_at(&buf, 220), 0);
    assert_eq!(buf.len(), 224);
}

#[test]
fn header_text_fields() {
    let buf = file(vec![col("V1", "", ColType::Numeric)], vec![]);
    let mut product = b"@(#) SPSS DATA FILE csv2sav".to_vec();
    product.resize(60, b' ');
    assert_eq!(&buf[4..64], &product[..]);
    assert_eq!(&buf[92..101], b"01 Jan 70");
    assert_eq!(&buf[101..109], b"00:00:00");
    assert!(buf[109..173].iter().all(|&b| b == b' '));
    assert_eq!(&buf[173..176], &[0, 0, 0]);
}

#[test]
fn two_numeric_rows_share_one_block() {
    let buf = file(vec![col("V", "", ColType::Numeric)], vec![vec![num(1.0)], vec![num(2.0)]]);
    let d = buf.len() - 8;
    assert_eq!(&buf[d..], &[101, 102, 0, 0, 0, 0, 0, 0]);
    assert_eq!(i32_at(&buf, d - 8), 999);
}

#[test]
fn fraction_is_stored_raw() {
    let buf = file(vec![col("V", "", ColType::Numeric)], vec![vec![num(1.5)]]);
    let d = buf.len() - 16;
    assert_eq!(&buf[d..d + 8], &[0, 0, 0, 0, 0, 0, 0, 0]);
    assert_eq!(&buf[d + 8..], &1.5f64.to_le_bytes());
}

#[test]
fn missing_number_has_no_payload() {
    let buf = file(vec![col("V", "", ColType::Numeric)], vec![vec![Value::Number(None)]]);
    let d = buf.len() - 8;
    assert_eq!(&buf[d..], &[255, 0, 0, 0, 0, 0, 0, 0]);
    assert_eq!(i32_at(&buf, d - 8), 999);
}

#[test]
fn strings_of_width_eight() {
    let buf = file(
        vec![col("V", "", ColType::String(8))],
        vec![vec![text("hello")], vec![text("")], vec![text("        ")]],
    );
    let d = buf.len() - 16;
    assert_eq!(&buf[d..d + 8], &[0, 254, 254, 0, 0, 0, 0, 0]);
    assert_eq!(&buf[d + 8..], b"hello   ");
}

#[test]
fn string_of_width_nine_has_two_segments() {
    let cols = vec![col("V", "", ColType::String(9))];
    let buf = file(cols, vec![vec![text("abcdefghij")]]);
    assert_eq!(i32_at(&buf, 68), 2);
    assert_eq!(i32_at(&buf, 176), 2);
    assert_eq!(i32_at(&buf, 180), 9);
    // the continuation record
    assert_eq!(i32_at(&buf, 208), 2);
    assert_eq!(i32_at(&buf, 212), -1);
    assert_eq!(i32_at(&buf, 216), 0);
    assert_eq!(i32_at(&buf, 220), 0);
    assert_eq!(i32_at(&buf, 224), 0);
    assert_eq!(i32_at(&buf, 228), 0);
    assert_eq!(&buf[232..240], b"        ");
    assert_eq!(i32_at(&buf, 240), 999);
    // two opcodes, both raw; the tenth byte is cut
    let d = 248;
    assert_eq!(&buf[d..d + 8], &[0, 0, 0, 0, 0, 0, 0, 0]);
    assert_eq!(&buf[d + 8..d + 16], b"abcdefgh");
    assert_eq!(&buf[d + 16..d + 24], b"i       ");
    assert_eq!(buf.len(), d + 24);
}

#[test]
fn payloads_follow_their_block_in_order() {
    let cols: Vec<ColDef> = (0..10).map(|_| col("V", "", ColType::Numeric)).collect();
    let row: Vec<Value> =
        [0.5, 1.0, 2.5, 3.0, 4.5, 5.0, 6.5, 7.0, 8.5, 9.0].iter().map(|&n| num(n)).collect();
    let buf = file(cols.clone(), vec![row]);
    let mut d = 176 + 32 * 10 + 8;
    assert_eq!(&buf[d..d + 8], &[0, 101, 0, 103, 0, 105, 0, 107]);
    d += 8;
    for n in [0.5f64, 2.5, 4.5, 6.5] {
        assert_eq!(&buf[d..d + 8], &n.to_le_bytes());
        d += 8;
    }
    assert_eq!(&buf[d..d + 8], &[0, 109, 0, 0, 0, 0, 0, 0]);
    assert_eq!(&buf[d + 8..d + 16], &8.5f64.to_le_bytes());
    assert_eq!(buf.len(), d + 16);
}

#[test]
fn numbers_that_are_not_finite_are_stored_raw() {
    for n in [f64::NAN, f64::INFINITY, f64::NEG_INFINITY] {
        let buf = file(vec![col("V", "", ColType::Numeric)], vec![vec![num(n)]]);
        let d = buf.len() - 16;
        assert_eq!(buf[d], 0);
        assert_eq!(&buf[d + 8..], &n.to_le_bytes());
    }
}

#[test]
fn codes_cover_minus_99_to_151() {
    for (n, code) in [(-99.0, 1u8), (151.0, 251), (0.0, 100), (-0.0, 100), (42.0, 142)] {
        let buf = file(vec![col("V", "", ColType::Numeric)], vec![vec![num(n)]]);
        assert_eq!(buf[buf.len() - 8], code);
    }
    for n in [-100.0, 152.0] {
        let buf = file(vec![col("V", "", ColType::Numeric)], vec![vec![num(n)]]);
        assert_eq!(buf[buf.len() - 16], 0);
        assert_eq!(&buf[buf.len() - 8..], &f64::to_le_bytes(n));
    }
}

#[test]
fn long_label_is_cut_to_255_bytes() {
    let label = "L".repeat(300);
    let buf = file(vec![col("V1", &label, ColType::Numeric)], vec![]);
    assert_eq!(i32_at(&buf, 208), 255);
    assert!(buf[212..212 + 255].iter().all(|&b| b == b'L'));
    assert_eq!(buf[212 + 255], 0);
    assert_eq!(i32_at(&buf, 212 + 256), 999);
}

#[test]
fn label_is_padded_to_a_multiple_of_four() {
    for (label, pad) in [("abcd", 0usize), ("abcde", 3), ("ab", 2), ("a", 3)] {
        let buf = file(vec![col("V1", label, ColType::Numeric)], vec![]);
        let end = 212 + label.len();
        assert!(buf[end..end + pad].iter().all(|&b| b == 0));
        assert_eq!(i32_at(&buf, end + pad), 999);
    }
}

#[test]
fn long_name_is_cut_to_eight_bytes() {
    let buf = file(vec![col("VARIABLE_ONE", "", ColType::Numeric)], vec![]);
    assert_eq!(&buf[200..208], b"VARIABLE");
}

#[test]
fn formats_are_packed() {
    assert_eq!(encode_format(&ColType::Numeric), (5 << 16) | (8 << 8) | 2);
    assert_eq!(encode_format(&ColType::String(10)), (1 << 16) | (10 << 8));
    assert_eq!(encode_format(&ColType::String(255)), (1 << 16) | (255 << 8));
    assert_eq!(encode_format(&ColType::String(256)), (1 << 16) | (255 << 8));
    assert_eq!(encode_format(&ColType::String(32767)), (1 << 16) | (255 << 8));
    let buf = file(vec![col("V1", "", ColType::String(300))], vec![]);
    assert_eq!(i32_at(&buf, 192), (1 << 16) | (255 << 8));
    assert_eq!(i32_at(&buf, 196), (1 << 16) | (255 << 8));
}

#[test]
fn row_of_wrong_length_is_refused() {
    let mut w = SavWriter::new(vec![col("V1", "", ColType::Numeric)]).unwrap();
    assert_eq!(w.write_row(&[]), Err(EncodeError::RowArity { expected: 1, found: 0 }));
    assert_eq!(
        w.write_row(&[num(1.0), num(2.0)]),
        Err(EncodeError::RowArity { expected: 1, found: 2 })
    );
    assert_eq!(w.finish().len(), 176 + 32 + 8);
}

#[test]
fn value_of_wrong_kind_is_refused_and_nothing_is_written() {
    let cols = vec![
        col("V1", "", ColType::Numeric),
        col("V2", "", ColType::String(8)),
        col("V3", "", ColType::Numeric),
    ];
    let mut w = SavWriter::new(cols.clone()).unwrap();
    assert_eq!(
        w.write_row(&[num(1.0), num(2.0), text("x")]),
        Err(EncodeError::ValueType { column: 1 })
    );
    assert_eq!(
        w.write_row(&[text("a"), text("b"), num(1.0)]),
        Err(EncodeError::ValueType { column: 0 })
    );
    w.write_row(&[num(1.0), text("b"), num(3.0)]).unwrap();
    let with_errors = w.finish();
    let clean = file(cols, vec![vec![num(1.0), text("b"), num(3.0)]]);
    assert_eq!(with_errors, clean);
}

#[test]
fn taking_output_in_pieces_gives_the_same_file() {
    let cols = vec![col("V1", "x", ColType::Numeric), col("V2", "y", ColType::String(20))];
    let rows: Vec<Vec<Value>> = (0..50)
        .map(|i| vec![num(i as f64 * 0.5), text(&format!("row {i}"))])
        .collect();
    let whole = file(cols.clone(), rows.clone());
    let mut w = SavWriter::new(cols).unwrap();
    let mut pieces = w.take_output();
    assert_eq!(pieces.len(), 176 + 2 * (32 + 8) + 2 * 32 + 8);
    for (i, row) in rows.iter().enumerate() {
        w.write_row(row).unwrap();
        if i % 7 == 0 {
            pieces.extend(w.take_output());
        }
    }
    assert!(w.take_output().len() < whole.len());
    pieces.extend(w.finish());
    assert_eq!(pieces, whole);
}

#[test]
fn no_columns_give_a_bare_dictionary() {
    let buf = file(vec![], vec![vec![], vec![]]);
    assert_eq!(buf.len(), 184);
    assert_eq!(i32_at(&buf, 68), 0);
    assert_eq!(i32_at(&buf, 176), 999);
}

#[test]
fn bytes_of_strings_pass_through() {
    let raw = vec![0xffu8, 0x00, 0xc3, 0x28, b' ', 0x80];
    let buf = file(vec![col("V1", "", ColType::String(6))], vec![vec![Value::String(raw.clone())]]);
    let d = buf.len() - 8;
    assert_eq!(&buf[d..d + 6], &raw[..]);
    assert_eq!(&buf[d + 6..], b"  ");
}
