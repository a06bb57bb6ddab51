//! The dictionary of a system file: the 176-byte file header, one variable
//! record per column (with continuation records for wide strings) and the
//! dictionary terminator.
//!
//! The layout is stated once, as specification functions that build the
//! bytes of each part; the executable writers are proved to append exactly
//! those bytes.

use crate::bytes::{
    le_i32, le_u64, lemma_append_assoc, lemma_le_bytes_len, lemma_padded_len, padded, repeat,
    write_le_i32, write_le_u64, write_padded, write_repeat, SPACE,
};
use vstd::prelude::*;
use vstd::string::StringSliceAdditionalSpecFns;
use vstd::utf8::encode_utf8;

verus! {

/// Record type of a variable record.
pub const REC_TYPE_VARIABLE: i32 = 2;

/// Record type of the dictionary terminator.
pub const REC_TYPE_DICT_TERMINATOR: i32 = 999;

/// The compression bias, 100.0, as the bits of an IEEE 754 double.
pub const BIAS_BITS: u64 = 0x4059_0000_0000_0000;

/// Length of the file header in bytes.
pub const HEADER_LEN: usize = 176;

/// Widest string column, in bytes.
pub const MAX_STRING_WIDTH: usize = 32767;

/// Longest variable label that a variable record holds, in bytes.
pub const MAX_LABEL_LEN: usize = 255;

/// Compression code of a file whose data is byte-code compressed.
pub const COMPRESSION_SIMPLE: i32 = 1;

/// Compression code of a file whose data is zlib compressed.
pub const COMPRESSION_ZLIB: i32 = 2;

/// How a column is stored.
#[derive(Debug, Clone, Copy, PartialEq, Eq)]
pub enum ColType {
    Numeric,
    /// Width in bytes, 1 to 32767.
    String(u16),
}

/// One column of the dictionary.
#[derive(Debug, Clone)]
pub struct ColDef {
    /// Short name, at most 8 ASCII bytes.
    pub name: String,
    /// Display label; empty for none.
    pub label: String,
    pub col_type: ColType,
}

/// What the dictionary layout reads of a column: its name and label as
/// bytes, and its type.
pub struct ColView {
    pub name: Seq<u8>,
    pub label: Seq<u8>,
    pub col_type: ColType,
}

impl View for ColDef {
    type V = ColView;

    open spec fn view(&self) -> ColView {
        ColView {
            name: encode_utf8(self.name@),
            label: encode_utf8(self.label@),
            col_type: self.col_type,
        }
    }
}

impl ColType {
    /// A string width is between 1 and 32767 bytes.
    pub open spec fn valid(self) -> bool {
        match self {
            ColType::Numeric => true,
            ColType::String(w) => 1 <= w <= MAX_STRING_WIDTH,
        }
    }
}

/// The views of a list of columns, in order.
pub open spec fn col_views(cols: Seq<ColDef>) -> Seq<ColView> {
    Seq::new(cols.len(), |i: int| cols[i]@)
}

/// The types of a list of columns, in order.
pub open spec fn col_types(cols: Seq<ColView>) -> Seq<ColType> {
    Seq::new(cols.len(), |i: int| cols[i].col_type)
}

/// Number of 8-byte segments that a column occupies in a row: one for a
/// number, the width divided by 8 and rounded up for a string.
pub open spec fn segments(col_type: ColType) -> nat {
    match col_type {
        ColType::Numeric => 1,
        ColType::String(w) => ((w + 7) / 8) as nat,
    }
}

/// Number of segments in one row: the sum over the columns.
pub open spec fn case_size(types: Seq<ColType>) -> nat
    decreases types.len(),
{
    if types.len() == 0 {
        0
    } else {
        case_size(types.drop_last()) + segments(types.last())
    }
}

/// The packed print and write format of a column: format type in bits 16
/// and up, width in bits 8 to 15, decimals in the low byte. Numbers are
/// F8.2; strings are A with the column's width, at most 255.
pub open spec fn format_code(col_type: ColType) -> int {
    match col_type {
        ColType::Numeric => 5int * 65536 + 8 * 256 + 2,
        ColType::String(w) => 1int * 65536 + (if w <= 255 { w as int } else { 255 }) * 256,
    }
}

/// The type code of a variable record: 0 for a number, the width for a
/// string.
pub open spec fn type_code(col_type: ColType) -> int {
    match col_type {
        ColType::Numeric => 0,
        ColType::String(w) => w as int,
    }
}

/// The product name of the file header, before padding.
pub open spec fn product_name() -> Seq<u8> {
    "@(#) SPSS DATA FILE csv2sav".spec_bytes()
}

/// The creation date of the file header.
pub open spec fn creation_date() -> Seq<u8> {
    "01 Jan 70".spec_bytes()
}

/// The creation time of the file header.
pub open spec fn creation_time() -> Seq<u8> {
    "00:00:00".spec_bytes()
}

/// The magic of a file with byte-code compression, `$FL2`.
pub open spec fn magic_sav() -> Seq<u8> {
    seq![0x24u8, 0x46u8, 0x4cu8, 0x32u8]
}

/// The magic of a file with zlib compression, `$FL3`.
pub open spec fn magic_zsav() -> Seq<u8> {
    seq![0x24u8, 0x46u8, 0x4cu8, 0x33u8]
}

/// The 176 bytes of a file header.
///
/// `zlib` selects the magic and the compression code; `row_width` is the
/// nominal case size; `ncases` is the number of rows, or -1 for unknown.
pub open spec fn header_bytes(zlib: bool, row_width: i32, ncases: i32) -> Seq<u8> {
    (if zlib { magic_zsav() } else { magic_sav() })
        + padded(product_name(), 60)
        + le_i32(2)
        + le_i32(row_width)
        + le_i32(if zlib { COMPRESSION_ZLIB } else { COMPRESSION_SIMPLE })
        + le_i32(0)
        + le_i32(ncases)
        + le_u64(BIAS_BITS)
        + padded(creation_date(), 9)
        + padded(creation_time(), 8)
        + padded(Seq::empty(), 64)
        + repeat(0, 3)
}

/// The label part of a variable record: nothing for an empty label, else
/// the length (at most 255), that many bytes of the label, and zeros up to
/// the next multiple of four.
pub open spec fn label_bytes(label: Seq<u8>) -> Seq<u8> {
    if label.len() == 0 {
        Seq::empty()
    } else {
        let n: int = if label.len() <= MAX_LABEL_LEN {
            label.len() as int
        } else {
            MAX_LABEL_LEN as int
        };
        le_i32(n as i32) + label.subrange(0, n) + repeat(0, ((4 - n % 4) % 4) as nat)
    }
}

/// One continuation record: a variable record of type -1 with a blank name.
pub open spec fn continuation_record() -> Seq<u8> {
    le_i32(REC_TYPE_VARIABLE) + le_i32(-1i32) + le_i32(0) + le_i32(0) + le_i32(0) + le_i32(0)
        + repeat(SPACE, 8)
}

/// `n` continuation records.
pub open spec fn continuation_records(n: nat) -> Seq<u8>
    decreases n,
{
    if n == 0 {
        Seq::empty()
    } else {
        continuation_records((n - 1) as nat) + continuation_record()
    }
}

/// The records of one column: the primary record, its label part, and one
/// continuation record for every segment after the first.
pub open spec fn variable_record(col: ColView) -> Seq<u8> {
    le_i32(REC_TYPE_VARIABLE)
        + le_i32(type_code(col.col_type) as i32)
        + le_i32(if col.label.len() == 0 { 0i32 } else { 1i32 })
        + le_i32(0)
        + le_i32(format_code(col.col_type) as i32)
        + le_i32(format_code(col.col_type) as i32)
        + padded(col.name, 8)
        + label_bytes(col.label)
        + continuation_records(
            if segments(col.col_type) == 0 { 0 } else { (segments(col.col_type) - 1) as nat },
        )
}

/// The records of all columns, in order.
pub open spec fn variable_records(cols: Seq<ColView>) -> Seq<u8>
    decreases cols.len(),
{
    if cols.len() == 0 {
        Seq::empty()
    } else {
        variable_records(cols.drop_last()) + variable_record(cols.last())
    }
}

/// The dictionary terminator: record type 999 and a zero filler.
pub open spec fn dict_terminator() -> Seq<u8> {
    le_i32(REC_TYPE_DICT_TERMINATOR) + le_i32(0)
}

/// The whole dictionary: header, variable records, terminator.
pub open spec fn dictionary(zlib: bool, cols: Seq<ColView>, ncases: i32) -> Seq<u8> {
    header_bytes(zlib, case_size(col_types(cols)) as i32, ncases) + variable_records(cols)
        + dict_terminator()
}

/// The segment count of a string column is its width divided by 8 and
/// rounded up: the least count of 8-byte segments that hold the width.
pub proof fn lemma_segments_ceiling(w: u16)
    requires
        1 <= w <= MAX_STRING_WIDTH,
    ensures
        segments(ColType::Numeric) == 1,
        8 * (segments(ColType::String(w)) - 1) < w <= 8 * segments(ColType::String(w)),
        1 <= segments(ColType::String(w)) <= 4096,
{
}

/// Where the fields of a file header lie: the magic in bytes 0 to 3, the
/// layout code 2 at 64, the nominal case size at 68, the compression code
/// at 72, the number of rows at 80 and the bias at 84, in a header of 176
/// bytes.
pub proof fn lemma_header_layout(zlib: bool, row_width: i32, ncases: i32)
    ensures
        header_bytes(zlib, row_width, ncases).len() == HEADER_LEN,
        header_bytes(zlib, row_width, ncases).subrange(0, 4) == if zlib {
            magic_zsav()
        } else {
            magic_sav()
        },
        header_bytes(zlib, row_width, ncases).subrange(4, 64) == padded(product_name(), 60),
        header_bytes(zlib, row_width, ncases).subrange(64, 68) == le_i32(2),
        header_bytes(zlib, row_width, ncases).subrange(68, 72) == le_i32(row_width),
        header_bytes(zlib, row_width, ncases).subrange(72, 76) == le_i32(
            if zlib { COMPRESSION_ZLIB } else { COMPRESSION_SIMPLE },
        ),
        header_bytes(zlib, row_width, ncases).subrange(76, 80) == le_i32(0),
        header_bytes(zlib, row_width, ncases).subrange(80, 84) == le_i32(ncases),
        header_bytes(zlib, row_width, ncases).subrange(84, 92) == le_u64(BIAS_BITS),
{
    let h = header_bytes(zlib, row_width, ncases);
    let code: i32 = if zlib { COMPRESSION_ZLIB } else { COMPRESSION_SIMPLE };
    lemma_padded_len(product_name(), 60);
    lemma_padded_len(creation_date(), 9);
    lemma_padded_len(creation_time(), 8);
    lemma_padded_len(Seq::empty(), 64);
    lemma_le_bytes_len(crate::bytes::i32_bits(2), 4);
    lemma_le_bytes_len(crate::bytes::i32_bits(row_width), 4);
    lemma_le_bytes_len(crate::bytes::i32_bits(code), 4);
    lemma_le_bytes_len(crate::bytes::i32_bits(0), 4);
    lemma_le_bytes_len(crate::bytes::i32_bits(ncases), 4);
    lemma_le_bytes_len(BIAS_BITS as nat, 8);
    assert(h.len() == 176);
    assert(h.subrange(0, 4) =~= (if zlib { magic_zsav() } else { magic_sav() }));
    assert(h.subrange(4, 64) =~= padded(product_name(), 60));
    assert(h.subrange(64, 68) =~= le_i32(2));
    assert(h.subrange(68, 72) =~= le_i32(row_width));
    assert(h.subrange(72, 76) =~= le_i32(code));
    assert(h.subrange(76, 80) =~= le_i32(0));
    assert(h.subrange(80, 84) =~= le_i32(ncases));
    assert(h.subrange(84, 92) =~= le_u64(BIAS_BITS));
}

/// The header is the start of the dictionary.
pub proof fn lemma_dictionary_starts_with_header(zlib: bool, cols: Seq<ColView>, ncases: i32)
    ensures
        dictionary(zlib, cols, ncases).len() >= HEADER_LEN,
        dictionary(zlib, cols, ncases).subrange(0, HEADER_LEN as int) == header_bytes(
            zlib,
            case_size(col_types(cols)) as i32,
            ncases,
        ),
{
    let h = header_bytes(zlib, case_size(col_types(cols)) as i32, ncases);
    lemma_header_layout(zlib, case_size(col_types(cols)) as i32, ncases);
    assert(dictionary(zlib, cols, ncases).subrange(0, HEADER_LEN as int) =~= h);
}

/// Number of 8-byte segments a column occupies in the data record.
pub fn col_segments(col_type: &ColType) -> (n: usize)
    ensures
        n == segments(*col_type),
        n <= 8192,
{
    match col_type {
        ColType::Numeric => 1,
        ColType::String(w) => ((*w as usize) + 7) / 8,
    }
}

/// The packed print and write format of a column.
pub fn encode_format(col_type: &ColType) -> (code: i32)
    ensures
        code == format_code(*col_type),
{
    match col_type {
        ColType::Numeric => 5 * 65536 + 8 * 256 + 2,
        ColType::String(w) => {
            let width: i32 = if *w <= 255 { *w as i32 } else { 255 };
            65536 + width * 256
        },
    }
}

/// A partial sum of segment counts never exceeds the whole sum.
pub proof fn lemma_case_size_prefix(types: Seq<ColType>, i: int)
    requires
        0 <= i <= types.len(),
    ensures
        case_size(types.subrange(0, i)) <= case_size(types),
    decreases types.len() - i,
{
    if i == types.len() {
        assert(types.subrange(0, i) =~= types);
    } else {
        lemma_case_size_prefix(types, i + 1);
        assert(types.subrange(0, i + 1).drop_last() =~= types.subrange(0, i));
    }
}

/// The nominal case size of `cols`, or `None` where it does not fit the
/// header's 32-bit field.
pub fn row_width(cols: &[ColDef]) -> (width: Option<usize>)
    ensures
        match width {
            Some(n) => n == case_size(col_types(col_views(cols@))) && n <= i32::MAX,
            None => case_size(col_types(col_views(cols@))) > i32::MAX,
        },
{
    let ghost types = col_types(col_views(cols@));
    let mut sum: usize = 0;
    let mut i: usize = 0;
    while i < cols.len()
        invariant
            i <= cols.len(),
            types == col_types(col_views(cols@)),
            sum == case_size(types.subrange(0, i as int)),
            sum <= i32::MAX,
        decreases cols.len() - i,
    {
        let n = col_segments(&cols[i].col_type);
        proof {
            assert(types.subrange(0, i + 1).drop_last() =~= types.subrange(0, i as int));
            assert(types.subrange(0, i + 1).last() == cols@[i as int].col_type);
            lemma_case_size_prefix(types, i + 1);
        }
        if sum + n > i32::MAX as usize {
            return None;
        }
        sum = sum + n;
        i += 1;
    }
    assert(types.subrange(0, i as int) =~= types);
    Some(sum)
}

/// Appends a file header.
pub fn write_file_header(out: &mut Vec<u8>, zlib: bool, row_width: i32, ncases: i32)
    ensures
        final(out)@ == old(out)@ + header_bytes(zlib, row_width, ncases),
{
    let ghost base = out@;
    out.push(0x24);
    out.push(0x46);
    out.push(0x4c);
    out.push(if zlib { 0x33 } else { 0x32 });
    let ghost a0 = if zlib { magic_zsav() } else { magic_sav() };
    assert(out@ =~= base + a0);
    write_padded(out, "@(#) SPSS DATA FILE csv2sav".as_bytes(), 60);
    let ghost a1 = a0 + padded(product_name(), 60);
    proof { lemma_append_assoc(base, a0, padded(product_name(), 60)); }
    write_le_i32(out, 2);
    let ghost a2 = a1 + le_i32(2);
    proof { lemma_append_assoc(base, a1, le_i32(2)); }
    write_le_i32(out, row_width);
    let ghost a3 = a2 + le_i32(row_width);
    proof { lemma_append_assoc(base, a2, le_i32(row_width)); }
    let code: i32 = if zlib { COMPRESSION_ZLIB } else { COMPRESSION_SIMPLE };
    write_le_i32(out, code);
    let ghost a4 = a3 + le_i32(code);
    proof { lemma_append_assoc(base, a3, le_i32(code)); }
    write_le_i32(out, 0);
    let ghost a5 = a4 + le_i32(0);
    proof { lemma_append_assoc(base, a4, le_i32(0)); }
    write_le_i32(out, ncases);
    let ghost a6 = a5 + le_i32(ncases);
    proof { lemma_append_assoc(base, a5, le_i32(ncases)); }
    write_le_u64(out, BIAS_BITS);
    let ghost a7 = a6 + le_u64(BIAS_BITS);
    proof { lemma_append_assoc(base, a6, le_u64(BIAS_BITS)); }
    write_padded(out, "01 Jan 70".as_bytes(), 9);
    let ghost a8 = a7 + padded(creation_date(), 9);
    proof { lemma_append_assoc(base, a7, padded(creation_date(), 9)); }
    write_padded(out, "00:00:00".as_bytes(), 8);
    let ghost a9 = a8 + padded(creation_time(), 8);
    proof { lemma_append_assoc(base, a8, padded(creation_time(), 8)); }
    let empty: Vec<u8> = Vec::new();
    assert(empty@ =~= Seq::<u8>::empty());
    write_padded(out, empty.as_slice(), 64);
    let ghost a10 = a9 + padded(Seq::empty(), 64);
    proof { lemma_append_assoc(base, a9, padded(Seq::empty(), 64)); }
    write_repeat(out, 0, 3);
    proof { lemma_append_assoc(base, a10, repeat(0, 3)); }
    assert(a10 + repeat(0, 3) == header_bytes(zlib, row_width, ncases));
}

/// Appends the header of a file with byte-code compression and an unknown
/// number of rows.
pub fn write_header(out: &mut Vec<u8>, row_width: usize)
    requires
        row_width <= i32::MAX,
    ensures
        final(out)@ == old(out)@ + header_bytes(false, row_width as i32, -1i32),
{
    write_file_header(out, false, row_width as i32, -1);
}

/// Appends the label part of a variable record.
fn write_label(out: &mut Vec<u8>, label: &[u8])
    ensures
        final(out)@ == old(out)@ + label_bytes(label@),
{
    if label.len() == 0 {
        assert(out@ =~= old(out)@ + label_bytes(label@));
    } else {
        let n: usize = if label.len() <= MAX_LABEL_LEN { label.len() } else { MAX_LABEL_LEN };
        write_le_i32(out, n as i32);
        let ghost mid = out@;
        let mut i: usize = 0;
        while i < n
            invariant
                i <= n,
                n <= label.len(),
                out@ == mid + label@.subrange(0, i as int),
            decreases n - i,
        {
            out.push(label[i]);
            i += 1;
        }
        let pad: usize = (4 - n % 4) % 4;
        write_repeat(out, 0, pad);
        assert(out@ =~= old(out)@ + label_bytes(label@));
    }
}

/// Appends `n` continuation records.
fn write_continuations(out: &mut Vec<u8>, n: usize)
    ensures
        final(out)@ == old(out)@ + continuation_records(n as nat),
{
    let mut i: usize = 0;
    assert(out@ =~= old(out)@ + continuation_records(0));
    while i < n
        invariant
            i <= n,
            out@ == old(out)@ + continuation_records(i as nat),
        decreases n - i,
    {
        let ghost before = out@;
        write_le_i32(out, REC_TYPE_VARIABLE);
        write_le_i32(out, -1);
        write_le_i32(out, 0);
        write_le_i32(out, 0);
        write_le_i32(out, 0);
        write_le_i32(out, 0);
        write_repeat(out, SPACE, 8);
        assert(out@ =~= before + continuation_record());
        i += 1;
        assert(out@ =~= old(out)@ + continuation_records(i as nat));
    }
}

/// Appends the records of one column.
fn write_variable_record(out: &mut Vec<u8>, col: &ColDef)
    ensures
        final(out)@ == old(out)@ + variable_record(col@),
{
    let ghost base = out@;
    let ghost v = col@;
    let count = col_segments(&col.col_type);
    let code: i32 = match col.col_type {
        ColType::Numeric => 0,
        ColType::String(w) => w as i32,
    };
    let label = col.label.as_str().as_bytes();
    let has_label: i32 = if label.len() == 0 { 0 } else { 1 };
    let fmt = encode_format(&col.col_type);
    write_le_i32(out, REC_TYPE_VARIABLE);
    let ghost a0 = le_i32(REC_TYPE_VARIABLE);
    write_le_i32(out, code);
    let ghost a1 = a0 + le_i32(code);
    proof { lemma_append_assoc(base, a0, le_i32(code)); }
    write_le_i32(out, has_label);
    let ghost a2 = a1 + le_i32(has_label);
    proof { lemma_append_assoc(base, a1, le_i32(has_label)); }
    write_le_i32(out, 0);
    let ghost a3 = a2 + le_i32(0);
    proof { lemma_append_assoc(base, a2, le_i32(0)); }
    write_le_i32(out, fmt);
    let ghost a4 = a3 + le_i32(fmt);
    proof { lemma_append_assoc(base, a3, le_i32(fmt)); }
    write_le_i32(out, fmt);
    let ghost a5 = a4 + le_i32(fmt);
    proof { lemma_append_assoc(base, a4, le_i32(fmt)); }
    write_padded(out, col.name.as_str().as_bytes(), 8);
    let ghost a6 = a5 + padded(v.name, 8);
    proof { lemma_append_assoc(base, a5, padded(v.name, 8)); }
    write_label(out, label);
    let ghost a7 = a6 + label_bytes(v.label);
    proof { lemma_append_assoc(base, a6, label_bytes(v.label)); }
    let extra: usize = if count == 0 { 0 } else { count - 1 };
    write_continuations(out, extra);
    proof { lemma_append_assoc(base, a7, continuation_records(extra as nat)); }
    assert(a7 + continuation_records(extra as nat) == variable_record(v));
}

/// Appends the variable records of all columns, in order.
pub fn write_variable_records(out: &mut Vec<u8>, cols: &[ColDef])
    ensures
        final(out)@ == old(out)@ + variable_records(col_views(cols@)),
{
    let ghost views = col_views(cols@);
    let mut i: usize = 0;
    assert(out@ =~= old(out)@ + variable_records(views.subrange(0, 0)));
    while i < cols.len()
        invariant
            i <= cols.len(),
            views == col_views(cols@),
            out@ == old(out)@ + variable_records(views.subrange(0, i as int)),
        decreases cols.len() - i,
    {
        write_variable_record(out, &cols[i]);
        proof {
            assert(views.subrange(0, i + 1).drop_last() =~= views.subrange(0, i as int));
            assert(views.subrange(0, i + 1).last() == cols@[i as int]@);
            assert(out@ =~= old(out)@ + variable_records(views.subrange(0, i + 1)));
        }
        i += 1;
    }
    assert(views.subrange(0, i as int) =~= views);
}

/// Appends the dictionary terminator.
pub fn write_dict_terminator(out: &mut Vec<u8>)
    ensures
        final(out)@ == old(out)@ + dict_terminator(),
{
    write_le_i32(out, REC_TYPE_DICT_TERMINATOR);
    write_le_i32(out, 0);
    assert(out@ =~= old(out)@ + dict_terminator());
}

/// The types of some columns, in order.
pub fn types_of(cols: &[ColDef]) -> (types: Vec<ColType>)
    ensures
        types@ == col_types(col_views(cols@)),
{
    let mut types: Vec<ColType> = Vec::new();
    let mut i: usize = 0;
    while i < cols.len()
        invariant
            i <= cols.len(),
            types@.len() == i,
            forall|j: int| 0 <= j < i ==> #[trigger] types@[j] == cols@[j].col_type,
        decreases cols.len() - i,
    {
        types.push(cols[i].col_type);
        i += 1;
    }
    assert(types@ =~= col_types(col_views(cols@)));
    types
}

/// Appends a whole dictionary.
pub fn write_dictionary(out: &mut Vec<u8>, zlib: bool, cols: &[ColDef], width: usize, ncases: i32)
    requires
        width == case_size(col_types(col_views(cols@))),
        width <= i32::MAX,
    ensures
        final(out)@ == old(out)@ + dictionary(zlib, col_views(cols@), ncases),
{
    write_file_header(out, zlib, width as i32, ncases);
    write_variable_records(out, cols);
    write_dict_terminator(out);
    assert(out@ =~= old(out)@ + dictionary(zlib, col_views(cols@), ncases));
}

} // verus!
