use csv2sav::converter::{Conversion, Format};
use csv2sav::sav_writer::ColType;
use csv2sav::schema::SchemaScan;

const SOURCE: &str = "id,name,score,note\n\
1,alice, 3.5 ,\"first, with comma\"\n\
2,bob,,\"two\nlines\"\n\
3,\"carol \"\"c\"\"\",-7,\n\
4,dave,151,x\n";

fn records(text: &str) -> (Vec<String>, Vec<Vec<String>>) {
    let mut reader = csv::Reader::from_reader(text.as_bytes());
    let headers = reader.headers().unwrap().iter().map(String::from).collect();
    let rows = reader
        .records()
        .map(|r| r.unwrap().iter().map(String::from).collect())
        .collect();
    (headers, rows)
}

fn numbers(fields: &[String]) -> Vec<Option<u64>> {
    fields.iter().map(|f| f.trim().parse::<f64>().ok().map(f64::to_bits)).collect()
}

fn convert(format: Format) -> Vec<u8> {
    let (headers, rows) = records(SOURCE);
    let mut scan = SchemaScan::begin(headers, usize::MAX).unwrap();
    for row in &rows {
        scan.record(row, false).unwrap();
    }
    let schema = scan.finish(SOURCE.len() as u64);
    assert_eq!(
        schema.col_types,
        vec![ColType::Numeric, ColType::String(9), ColType::Numeric, ColType::String(17)]
    );
    let mut conversion = Conversion::begin(&schema, format, rows.len()).unwrap();
    let mut out = conversion.take_output();
    for row in &rows {
        conversion.record(row, &numbers(row), false).unwrap();
        out.extend(conversion.take_output());
    }
    let (rest, count) = conversion.finish().unwrap();
    assert_eq!(count, 4);
    out.extend(rest);
    out
}

fn i32_at(buf: &[u8], at: usize) -> i32 {
    i32::from_le_bytes(buf[at..at + 4].try_into().unwrap())
}

#[test]
fn a_csv_text_becomes_a_sav_file() {
    let buf = convert(Format::Sav);
    assert_eq!(&buf[0..4], b"$FL2");
    assert_eq!(i32_at(&buf, 68), 1 + 2 + 1 + 3);
    assert_eq!(i32_at(&buf, 80), -1);
    // V1 "id", V2 "name" with one continuation, V3 "score", V4 "note" with two
    let dict = 176 + (32 + 8) + (32 + 8) + 32 + (32 + 12) + (32 + 8) + 64 + 8;
    assert_eq!(i32_at(&buf, dict - 8), 999);
    let data = &buf[dict..];
    // Seven segments a row: id, name in two, score, note in three.
    // Block 1: row 1 and the id of row 2.
    assert_eq!(&data[0..8], &[101, 0, 254, 0, 0, 0, 0, 102]);
    assert_eq!(&data[8..16], b"alice   ");
    assert_eq!(&data[16..24], &3.5f64.to_le_bytes());
    assert_eq!(&data[24..32], b"first, w");
    assert_eq!(&data[32..40], b"ith comm");
    assert_eq!(&data[40..48], b"a       ");
    // Block 2: the rest of row 2, the id and the first half of the name of row 3.
    assert_eq!(&data[48..56], &[0, 254, 255, 0, 0, 254, 103, 0]);
    assert_eq!(&data[56..64], b"bob     ");
    assert_eq!(&data[64..72], b"two\nline");
    assert_eq!(&data[72..80], b"s       ");
    assert_eq!(&data[80..88], b"carol \"c");
    // Block 3: the rest of row 3, the id and the name of row 4.
    assert_eq!(&data[88..96], &[0, 93, 254, 254, 254, 104, 0, 254]);
    assert_eq!(&data[96..104], b"\"       ");
    assert_eq!(&data[104..112], b"dave    ");
    // Block 4: the rest of row 4, zero-padded.
    assert_eq!(&data[112..120], &[251, 0, 254, 254, 0, 0, 0, 0]);
    assert_eq!(&data[120..128], b"x       ");
    assert_eq!(data.len(), 128);
}

#[test]
fn a_csv_text_becomes_a_zsav_file() {
    let buf = convert(Format::Zsav);
    assert_eq!(&buf[0..4], b"$FL3");
    assert_eq!(i32_at(&buf, 72), 2);
    assert_eq!(i32_at(&buf, 80), 4);
    let dict = 176 + (32 + 8) + (32 + 8) + 32 + (32 + 12) + (32 + 8) + 64 + 8;
    let first = dict + 24;
    let trailer = i64::from_le_bytes(buf[dict + 8..dict + 16].try_into().unwrap()) as usize;
    let image = miniz_oxide::inflate::decompress_to_vec_zlib(&buf[first..trailer]).unwrap();
    assert_eq!(image.len(), 4 * 7 * 8);
    assert_eq!(&image[0..8], &1f64.to_le_bytes());
    assert_eq!(&image[8..24], b"alice           ");
    assert_eq!(&image[24..32], &3.5f64.to_le_bytes());
    assert_eq!(&image[32..56], b"first, with comma       ");
    assert_eq!(&image[56 + 24..56 + 32], &(-f64::MAX).to_le_bytes());
}

#[test]
fn generate_zsav_for_validation() {
    let buf = convert(Format::Zsav);
    let dict = 176 + (32 + 8) + (32 + 8) + 32 + (32 + 12) + (32 + 8) + 64 + 8;
    let trailer = i64::from_le_bytes(buf[dict + 8..dict + 16].try_into().unwrap()) as usize;
    let trailer_len = i64::from_le_bytes(buf[dict + 16..dict + 24].try_into().unwrap()) as usize;
    assert_eq!(trailer + trailer_len, buf.len());
    println!("Generated ZSAV of {} bytes", buf.len());
}
