use csv2sav::error::EncodeError;
use csv2sav::zsav::{write_data_section, ZBlock};
use csv2sav::zsav_writer::{ColDef, ColType, Value, Writer};
use miniz_oxide::inflate::decompress_to_vec_zlib;

fn col(name: &str, col_type: ColType) -> ColDef {
    ColDef { name: name.into(), label: String::new(), col_type }
}

fn num(n: f64) -> Value {
    Value::Number(Some(n.to_bits()))
}

fn text(s: &str) -> Value {
    Value::String(s.as_bytes().to_vec())
}

fn i32_at(buf: &[u8], at: usize) -> i32 {
    i32::from_le_bytes(buf[at..at + 4].try_into().unwrap())
}

fn i64_at(buf: &[u8], at: usize) -> i64 {
    i64::from_le_bytes(buf[at..at + 8].try_into().unwrap())
}

fn zsav(cols: &[ColDef], rows: &[Vec<Value>]) -> Vec<u8> {
    let mut w = Writer::new_zsav(cols, rows.len()).unwrap();
    for row in rows {
        w.write_row(row).unwrap();
    }
    w.finish().unwrap()
}

// Reads the data section back: checks the index and returns the rows' image.
fn inflate_all(buf: &[u8], dict_len: usize) -> Vec<u8> {
    let zheader_ofs = i64_at(buf, dict_len);
    let ztrailer_ofs = i64_at(buf, dict_len + 8) as usize;
    let ztrailer_len = i64_at(buf, dict_len + 16) as usize;
    assert_eq!(zheader_ofs, dict_len as i64);
    assert_eq!(ztrailer_ofs + ztrailer_len, buf.len());
    assert_eq!(i64_at(buf, ztrailer_ofs), -100);
    assert_eq!(i64_at(buf, ztrailer_ofs + 8), 0);
    assert_eq!(i32_at(buf, ztrailer_ofs + 16), 0x3ff000);
    let n_blocks = i32_at(buf, ztrailer_ofs + 20) as usize;
    assert_eq!(ztrailer_len, 24 + 24 * n_blocks);
    let mut image = Vec::new();
    let mut expect_unc = zheader_ofs;
    let mut expect_cmp = zheader_ofs + 24;
    for b in 0..n_blocks {
        let at = ztrailer_ofs + 24 + 24 * b;
        let unc_ofs = i64_at(buf, at);
        let cmp_ofs = i64_at(buf, at + 8);
        let unc_size = i32_at(buf, at + 16) as usize;
        let cmp_size = i32_at(buf, at + 20) as usize;
        assert_eq!(unc_ofs, expect_unc);
        assert_eq!(cmp_ofs, expect_cmp);
        if b + 1 < n_blocks {
            assert_eq!(unc_size, 0x3ff000);
        }
        let block = &buf[cmp_ofs as usize..cmp_ofs as usize + cmp_size];
        let plain = decompress_to_vec_zlib(block).unwrap();
        assert_eq!(plain.len(), unc_size);
        image.extend(plain);
        expect_unc += unc_size as i64;
        expect_cmp += cmp_size as i64;
    }
    assert_eq!(expect_cmp as usize, ztrailer_ofs);
    image
}

#[test]
fn test_zsav_magic_bytes() {
    let data = zsav(&[col("V1", ColType::Numeric)], &[vec![num(1.0)]]);
    let magic = &data[..4];
    assert_eq!(magic, b"$FL3", "ZSAV file must start with $FL3, got {:?}", std::str::from_utf8(magic));
}

#[test]
fn zsav_header_states_compression_and_row_count() {
    let rows: Vec<Vec<Value>> = (0..7).map(|i| vec![num(i as f64), text("ab")]).collect();
    let buf = zsav(&[col("V1", ColType::Numeric), col("V2", ColType::String(9))], &rows);
    assert_eq!(i32_at(&buf, 64), 2);
    assert_eq!(i32_at(&buf, 68), 3);
    assert_eq!(i32_at(&buf, 72), 2);
    assert_eq!(i32_at(&buf, 80), 7);
    assert_eq!(f64::from_le_bytes(buf[84..92].try_into().unwrap()), 100.0);
}

#[test]
fn zsav_rows_are_deflated_uncompressed_images() {
    let cols = [col("V1", ColType::Numeric), col("V2", ColType::String(9))];
    let rows = vec![
        vec![num(1.5), text("hello")],
        vec![Value::Number(None), text("")],
        vec![num(-3.0), text("0123456789")],
    ];
    let buf = zsav(&cols, &rows);
    let dict_len = 176 + 32 + 32 + 32 + 8;
    assert_eq!(i32_at(&buf, dict_len - 8), 999);
    let image = inflate_all(&buf, dict_len);
    let mut expected = Vec::new();
    expected.extend(1.5f64.to_le_bytes());
    expected.extend(b"hello           ");
    expected.extend((-f64::MAX).to_le_bytes());
    expected.extend(b"                ");
    expected.extend((-3.0f64).to_le_bytes());
    expected.extend(b"012345678       ");
    assert_eq!(image, expected);
    // what lies in the file is deflated, not the image itself
    let first_block = i64_at(&buf, dict_len) as usize + 24;
    assert_ne!(&buf[first_block..first_block + 8], &1.5f64.to_le_bytes());
    assert_eq!(buf[first_block] & 0x0f, 8);
}

#[test]
fn zsav_without_rows_has_no_blocks() {
    let buf = zsav(&[col("V1", ColType::Numeric)], &[]);
    let dict_len = 176 + 32 + 8;
    assert_eq!(i32_at(&buf, 80), 0);
    assert_eq!(buf.len(), dict_len + 24 + 24);
    assert_eq!(i64_at(&buf, dict_len + 8), dict_len as i64 + 24);
    assert_eq!(i64_at(&buf, dict_len + 16), 24);
    assert_eq!(i32_at(&buf, dict_len + 24 + 20), 0);
    assert!(inflate_all(&buf, dict_len).is_empty());
}

#[test]
fn zsav_cuts_the_image_into_blocks() {
    let width = 32767u16;
    let cols = [col("V1", ColType::String(width))];
    let row_bytes = 4096 * 8;
    let n_rows = 2 * 0x3ff000 / row_bytes + 3;
    let rows: Vec<Vec<Value>> = (0..n_rows)
        .map(|i| vec![Value::String(format!("{i:08}").repeat(5000).into_bytes())])
        .collect();
    let buf = zsav(&cols, &rows);
    let dict_len = 176 + 32 + 4095 * 32 + 8;
    let ztrailer_ofs = i64_at(&buf, dict_len + 8) as usize;
    assert_eq!(i32_at(&buf, ztrailer_ofs + 20), 3);
    let image = inflate_all(&buf, dict_len);
    assert_eq!(image.len(), n_rows * row_bytes);
    for (i, row) in image.chunks(row_bytes).enumerate() {
        let source = format!("{i:08}").repeat(5000).into_bytes();
        assert_eq!(&row[..32767], &source[..32767]);
        assert_eq!(row[32767], b' ');
    }
}

#[test]
fn zsav_refuses_rows_beyond_the_declared_count() {
    let mut w = Writer::new_zsav(&[col("V1", ColType::Numeric)], 1).unwrap();
    w.write_row(&[num(1.0)]).unwrap();
    assert_eq!(
        w.write_row(&[num(2.0)]),
        Err(EncodeError::RowCount { declared: 1, written: 2 })
    );
    let buf = w.finish().unwrap();
    assert_eq!(inflate_all(&buf, 216), 1.0f64.to_le_bytes());
}

#[test]
fn zsav_refuses_to_finish_with_too_few_rows() {
    let mut w = Writer::new_zsav(&[col("V1", ColType::Numeric)], 3).unwrap();
    w.write_row(&[num(1.0)]).unwrap();
    assert_eq!(w.finish(), Err(EncodeError::RowCount { declared: 3, written: 1 }));
}

#[test]
fn zsav_refuses_misfit_rows() {
    let mut w = Writer::new_zsav(&[col("V1", ColType::Numeric)], 2).unwrap();
    assert_eq!(w.write_row(&[]), Err(EncodeError::RowArity { expected: 1, found: 0 }));
    assert_eq!(w.write_row(&[text("x")]), Err(EncodeError::ValueType { column: 0 }));
    w.write_row(&[num(1.0)]).unwrap();
    w.write_row(&[num(2.0)]).unwrap();
    assert!(w.finish().is_ok());
}

#[test]
fn zsav_refuses_a_row_count_beyond_32_bits() {
    assert!(matches!(
        Writer::new_zsav(&[col("V1", ColType::Numeric)], i32::MAX as usize + 1),
        Err(EncodeError::TooLarge)
    ));
    assert!(Writer::new_zsav(&[col("V1", ColType::Numeric)], i32::MAX as usize).is_ok());
}

#[test]
fn data_section_of_given_blocks() {
    let blocks = vec![
        ZBlock { uncompressed_size: 0x3ff000, compressed: vec![1, 2, 3] },
        ZBlock { uncompressed_size: 16, compressed: vec![9, 8] },
    ];
    let bytes = write_data_section(1000, &blocks).unwrap();
    let mut expected: Vec<u8> = Vec::new();
    expected.extend(1000i64.to_le_bytes());
    expected.extend(1029i64.to_le_bytes());
    expected.extend(72i64.to_le_bytes());
    expected.extend([1, 2, 3, 9, 8]);
    expected.extend((-100i64).to_le_bytes());
    expected.extend(0i64.to_le_bytes());
    expected.extend(0x3ff000i32.to_le_bytes());
    expected.extend(2i32.to_le_bytes());
    expected.extend(1000i64.to_le_bytes());
    expected.extend(1024i64.to_le_bytes());
    expected.extend(0x3ff000i32.to_le_bytes());
    expected.extend(3i32.to_le_bytes());
    expected.extend((1000i64 + 0x3ff000).to_le_bytes());
    expected.extend(1027i64.to_le_bytes());
    expected.extend(16i32.to_le_bytes());
    expected.extend(2i32.to_le_bytes());
    assert_eq!(bytes, expected);
}

#[test]
fn data_section_refuses_what_does_not_fit() {
    assert_eq!(write_data_section(u64::MAX, &[]), Err(EncodeError::TooLarge));
    assert_eq!(write_data_section(i64::MAX as u64 - 23, &[]), Err(EncodeError::TooLarge));
    assert!(write_data_section(i64::MAX as u64 - 24, &[]).is_ok());
    let big = vec![ZBlock { uncompressed_size: i32::MAX as usize + 1, compressed: vec![] }];
    assert_eq!(write_data_section(0, &big), Err(EncodeError::TooLarge));
}

#[test]
fn zsav_reports_a_misfit_row_whatever_the_count() {
    let mut w = Writer::new_zsav(&[col("V1", ColType::Numeric)], 1).unwrap();
    w.write_row(&[num(1.0)]).unwrap();
    assert_eq!(w.write_row(&[]), Err(EncodeError::RowArity { expected: 1, found: 0 }));
    assert_eq!(
        w.write_row(&[num(1.0), num(2.0)]),
        Err(EncodeError::RowArity { expected: 1, found: 2 })
    );
    assert_eq!(w.write_row(&[text("x")]), Err(EncodeError::ValueType { column: 0 }));
    assert_eq!(w.write_row(&[num(2.0)]), Err(EncodeError::RowCount { declared: 1, written: 2 }));
    assert_eq!(
        EncodeError::RowArity { expected: 1, found: 0 }.message(),
        "Expected 1 values, got 0"
    );
    assert!(w.finish().is_ok());
}
