use csv2sav::sav_writer::{col_segments, ColDef, ColType, SavWriter, Value};

fn num_col(name: &str, label: &str) -> ColDef {
    ColDef { name: name.into(), label: label.into(), col_type: ColType::Numeric }
}

fn str_col(name: &str, label: &str, width: u16) -> ColDef {
    ColDef { name: name.into(), label: label.into(), col_type: ColType::String(width) }
}

fn number(n: f64) -> Value {
    Value::Number(Some(n.to_bits()))
}

fn build(cols: Vec<ColDef>, rows: Vec<Vec<Value>>) -> Vec<u8> {
    let mut w = SavWriter::new(cols).unwrap();
    for row in rows {
        w.write_row(&row).unwrap();
    }
    w.finish()
}

fn read_i32(buf: &[u8], offset: usize) -> i32 {
    i32::from_le_bytes(buf[offset..offset + 4].try_into().unwrap())
}

fn read_f64(buf: &[u8], offset: usize) -> f64 {
    f64::from_le_bytes(buf[offset..offset + 8].try_into().unwrap())
}

fn data_offset(buf: &[u8]) -> usize {
    let mut i = 0;
    while i + 4 <= buf.len() {
        if read_i32(buf, i) == 999 {
            return i + 8;
        }
        i += 1;
    }
    panic!("dict terminator not found");
}

#[test]
fn header_magic_bytes() {
    let buf = build(vec![num_col("V1", "")], vec![]);
    assert_eq!(&buf[0..4], b"$FL2");
}

#[test]
fn header_layout_code_is_2() {
    let buf = build(vec![num_col("V1", "")], vec![]);
    assert_eq!(read_i32(&buf, 64), 2);
}

#[test]
fn header_compression_is_1() {
    let buf = build(vec![num_col("V1", "")], vec![]);
    assert_eq!(read_i32(&buf, 72), 1);
}

#[test]
fn header_bias_is_100() {
    let buf = build(vec![num_col("V1", "")], vec![]);
    assert_eq!(read_f64(&buf, 84), 100.0);
}

#[test]
fn header_nominal_case_size_numeric() {
    let buf = build(vec![num_col("V1", ""), num_col("V2", "")], vec![]);
    assert_eq!(read_i32(&buf, 68), 2);
}

#[test]
fn header_nominal_case_size_string() {
    let buf = build(vec![str_col("V1", "", 8), str_col("V2", "", 9)], vec![]);
    assert_eq!(read_i32(&buf, 68), 3);
}

#[test]
fn col_segments_numeric_is_1() {
    assert_eq!(col_segments(&ColType::Numeric), 1);
}

#[test]
fn col_segments_string_rounds_up() {
    assert_eq!(col_segments(&ColType::String(1)), 1);
    assert_eq!(col_segments(&ColType::String(8)), 1);
    assert_eq!(col_segments(&ColType::String(9)), 2);
    assert_eq!(col_segments(&ColType::String(16)), 2);
    assert_eq!(col_segments(&ColType::String(17)), 3);
}

#[test]
fn integer_in_range_uses_opcode() {
    let buf = build(vec![num_col("V1", "")], vec![vec![number(0.0)]]);
    let d = data_offset(&buf);
    assert_eq!(buf[d], 100);
}

#[test]
fn missing_numeric_uses_sysmis_opcode() {
    let buf = build(vec![num_col("V1", "")], vec![vec![Value::Number(None)]]);
    let d = data_offset(&buf);
    assert_eq!(buf[d], 255);
}

#[test]
fn float_out_of_range_uses_raw_opcode() {
    let buf = build(vec![num_col("V1", "")], vec![vec![number(1.5)]]);
    let d = data_offset(&buf);
    assert_eq!(buf[d], 0);
    let raw_val = read_f64(&buf, d + 8);
    assert_eq!(raw_val, 1.5);
}

#[test]
fn all_spaces_string_uses_spaces_opcode() {
    let buf = build(
        vec![str_col("V1", "", 8)],
        vec![vec![Value::String(b"        ".to_vec())]],
    );
    let d = data_offset(&buf);
    assert_eq!(buf[d], 254);
}

#[test]
fn non_space_string_uses_raw_opcode() {
    let buf = build(vec![str_col("V1", "", 8)], vec![vec![Value::String(b"hello".to_vec())]]);
    let d = data_offset(&buf);
    assert_eq!(buf[d], 0);
    assert_eq!(&buf[d + 8..d + 16], b"hello   ");
}

#[test]
fn empty_string_uses_spaces_opcode() {
    let buf = build(vec![str_col("V1", "", 8)], vec![vec![Value::String(vec![])]]);
    let d = data_offset(&buf);
    assert_eq!(buf[d], 254);
}

#[test]
fn opcode_block_is_8_bytes() {
    let cols: Vec<ColDef> = (1..=8).map(|i| num_col(&format!("V{i}"), "")).collect();
    let row: Vec<Value> = (1..=8).map(|_| number(1.0)).collect();
    let buf = build(cols, vec![row]);
    let d = data_offset(&buf);
    assert_eq!(buf.len() - d, 8);
    assert!(buf[d..d + 8].iter().all(|&b| b == 101));
}

#[test]
fn nine_cols_produce_two_opcode_blocks() {
    let cols: Vec<ColDef> = (1..=9).map(|i| num_col(&format!("V{i}"), "")).collect();
    let row: Vec<Value> = (1..=9).map(|_| number(2.0)).collect();
    let buf = build(cols, vec![row]);
    let d = data_offset(&buf);
    assert!(buf[d..d + 8].iter().all(|&b| b == 102));
    assert_eq!(buf[d + 8], 102);
}

#[test]
fn variable_record_type_is_2() {
    let buf = build(vec![num_col("V1", "")], vec![]);
    assert_eq!(read_i32(&buf, 176), 2);
}

#[test]
fn numeric_col_type_code_is_0() {
    let buf = build(vec![num_col("V1", "")], vec![]);
    assert_eq!(read_i32(&buf, 180), 0);
}

#[test]
fn string_col_type_code_equals_width() {
    let buf = build(vec![str_col("V1", "", 10)], vec![]);
    assert_eq!(read_i32(&buf, 180), 10);
}

#[test]
fn label_written_when_present() {
    let buf = build(vec![num_col("V1", "My Label")], vec![]);
    assert_eq!(read_i32(&buf, 184), 1);
    let label_len = read_i32(&buf, 208) as usize;
    assert_eq!(label_len, 8);
    assert_eq!(&buf[212..212 + 8], b"My Label");
}

#[test]
fn no_label_when_empty() {
    let buf = build(vec![num_col("V1", "")], vec![]);
    assert_eq!(read_i32(&buf, 184), 0);
}

#[test]
fn dict_terminator_record_type_is_999() {
    let buf = build(vec![num_col("V1", "")], vec![]);
    let d = data_offset(&buf);
    assert_eq!(read_i32(&buf, d - 8), 999);
}

#[test]
fn two_rows_produce_correct_opcodes() {
    let buf = build(vec![num_col("V1", "")], vec![vec![number(1.0)], vec![number(2.0)]]);
    let d = data_offset(&buf);
    assert_eq!(buf[d], 101);
    assert_eq!(buf[d + 1], 102);
}
