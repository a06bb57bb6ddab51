//! The data section of a system file with zlib compression.
//!
//! The rows are laid out uncompressed, one after the other, and cut into
//! blocks of `ZLIB_BLOCK_SIZE` bytes; each block is deflated on its own.
//! The section is a header of three offsets, the deflated blocks, and a
//! trailer that lists for each block where it lies and how large it is,
//! deflated and not.

use crate::bytes::{
    le_i32, le_i64, lemma_append_assoc, write_bytes, write_le_i32, write_le_i64,
};
use crate::dictionary::{case_size, segments, ColType};
use crate::error::EncodeError;
use crate::ieee::SYSMIS_BITS;
use crate::row::{fits, row_valid, string_image, Value};
use vstd::prelude::*;

verus! {

/// Uncompressed size of every block but the last.
pub const ZLIB_BLOCK_SIZE: usize = 0x3ff000;

/// Compression level handed to the deflater.
pub const ZLIB_LEVEL: u8 = 6;

/// Length of the header of the data section: three 8-byte offsets.
pub const ZHEADER_LEN: u64 = 24;

/// The zlib stream that the deflater makes of `input` at `level`.
pub uninterp spec fn deflated(input: Seq<u8>, level: u8) -> Seq<u8>;

/// Deflates `input` into a zlib stream.
///
/// Calls `miniz_oxide::deflate::compress_to_vec_zlib`, which compresses
/// the whole input at the given level and wraps it as a zlib stream. The
/// result depends on the input and the level alone; the contract gives it
/// a name and claims nothing else of it.
#[verifier::external_body]
pub(crate) fn deflate_zlib(input: &[u8], level: u8) -> (out: Vec<u8>)
    ensures
        out@ == deflated(input@, level),
{
    miniz_oxide::deflate::compress_to_vec_zlib(input, level)
}

/// One deflated block and the size it had before.
pub struct ZBlock {
    pub uncompressed_size: usize,
    pub compressed: Vec<u8>,
}

/// A block as a value of specifications.
pub struct ZBlockView {
    pub uncompressed_size: nat,
    pub compressed: Seq<u8>,
}

impl View for ZBlock {
    type V = ZBlockView;

    open spec fn view(&self) -> ZBlockView {
        ZBlockView {
            uncompressed_size: self.uncompressed_size as nat,
            compressed: self.compressed@,
        }
    }
}

/// The views of some blocks.
pub open spec fn block_views(blocks: Seq<ZBlock>) -> Seq<ZBlockView> {
    Seq::new(blocks.len(), |i: int| blocks[i]@)
}

/// The image of one value in a row that is not compressed: the eight bytes
/// of a number, those of the system-missing value for a missing one, or
/// the space-padded segments of a string.
pub open spec fn value_image(col_type: ColType, value: Value) -> Seq<u8> {
    match (col_type, value) {
        (ColType::Numeric, Value::Number(Some(bits))) => crate::bytes::le_u64(bits),
        (ColType::Numeric, Value::Number(None)) => crate::bytes::le_u64(SYSMIS_BITS),
        (ColType::String(w), Value::String(b)) => string_image(b@, w),
        _ => Seq::empty(),
    }
}

/// The image of the first `n` values of a row.
pub open spec fn row_image_upto(types: Seq<ColType>, values: Seq<Value>, n: nat) -> Seq<u8>
    decreases n,
{
    if n == 0 {
        Seq::empty()
    } else {
        row_image_upto(types, values, (n - 1) as nat) + value_image(types[n - 1], values[n - 1])
    }
}

/// The image of a row.
pub open spec fn row_image(types: Seq<ColType>, values: Seq<Value>) -> Seq<u8> {
    row_image_upto(types, values, types.len())
}

/// The image of some rows, one after the other.
pub open spec fn rows_image(types: Seq<ColType>, rows: Seq<Seq<Value>>) -> Seq<u8>
    decreases rows.len(),
{
    if rows.len() == 0 {
        Seq::empty()
    } else {
        rows_image(types, rows.drop_last()) + row_image(types, rows.last())
    }
}

/// The number of blocks that `len` bytes make.
pub open spec fn block_count(len: nat) -> nat {
    (len + ZLIB_BLOCK_SIZE - 1) as nat / (ZLIB_BLOCK_SIZE as nat)
}

/// Block `i` of `data`, before compression.
pub open spec fn chunk(data: Seq<u8>, i: int) -> Seq<u8> {
    data.subrange(
        i * ZLIB_BLOCK_SIZE,
        if (i + 1) * ZLIB_BLOCK_SIZE <= data.len() {
            (i + 1) * ZLIB_BLOCK_SIZE
        } else {
            data.len() as int
        },
    )
}

/// Block `i` of `data`, deflated.
pub open spec fn deflated_chunk(data: Seq<u8>, i: int) -> ZBlockView {
    ZBlockView {
        uncompressed_size: chunk(data, i).len(),
        compressed: deflated(chunk(data, i), ZLIB_LEVEL),
    }
}

/// All blocks of `data`, deflated.
pub open spec fn deflated_blocks(data: Seq<u8>) -> Seq<ZBlockView> {
    Seq::new(block_count(data.len()), |i: int| deflated_chunk(data, i))
}

/// Bytes in the first `n` blocks before compression.
pub open spec fn uncompressed_total(blocks: Seq<ZBlockView>, n: nat) -> nat
    decreases n,
{
    if n == 0 {
        0
    } else {
        uncompressed_total(blocks, (n - 1) as nat) + blocks[n - 1].uncompressed_size
    }
}

/// Bytes in the first `n` blocks after compression.
pub open spec fn compressed_total(blocks: Seq<ZBlockView>, n: nat) -> nat
    decreases n,
{
    if n == 0 {
        0
    } else {
        compressed_total(blocks, (n - 1) as nat) + blocks[n - 1].compressed.len()
    }
}

/// The first `n` blocks, one after the other.
pub open spec fn blocks_bytes(blocks: Seq<ZBlockView>, n: nat) -> Seq<u8>
    decreases n,
{
    if n == 0 {
        Seq::empty()
    } else {
        blocks_bytes(blocks, (n - 1) as nat) + blocks[n - 1].compressed
    }
}

/// The trailer's entry for block `i`: the offset the block would have in
/// a file without zlib compression, its offset in this file, and its two
/// sizes. Both offsets start at the header of the data section; the
/// second counts the 24 bytes of that header too.
pub open spec fn descriptor(start: u64, blocks: Seq<ZBlockView>, i: int) -> Seq<u8> {
    le_i64((start + uncompressed_total(blocks, i as nat)) as i64) + le_i64(
        (start + ZHEADER_LEN + compressed_total(blocks, i as nat)) as i64,
    ) + le_i32(blocks[i].uncompressed_size as i32) + le_i32(blocks[i].compressed.len() as i32)
}

/// The trailer's entries for the first `n` blocks.
pub open spec fn descriptors(start: u64, blocks: Seq<ZBlockView>, n: nat) -> Seq<u8>
    decreases n,
{
    if n == 0 {
        Seq::empty()
    } else {
        descriptors(start, blocks, (n - 1) as nat) + descriptor(start, blocks, n - 1)
    }
}

/// The header of the data section: its own offset, the offset of the
/// trailer and the length of the trailer.
pub open spec fn zheader(start: u64, blocks: Seq<ZBlockView>) -> Seq<u8> {
    le_i64(start as i64) + le_i64(
        (start + ZHEADER_LEN + compressed_total(blocks, blocks.len())) as i64,
    ) + le_i64((24 + 24 * blocks.len()) as i64)
}

/// The trailer: the bias as a negative whole number, a zero, the block
/// size, the number of blocks and one entry per block.
pub open spec fn ztrailer(start: u64, blocks: Seq<ZBlockView>) -> Seq<u8> {
    le_i64(-100i64) + le_i64(0) + le_i32(ZLIB_BLOCK_SIZE as i32) + le_i32(blocks.len() as i32)
        + descriptors(start, blocks, blocks.len())
}

/// The whole data section, for a section that starts at offset `start`.
pub open spec fn data_section(start: u64, blocks: Seq<ZBlockView>) -> Seq<u8> {
    zheader(start, blocks) + blocks_bytes(blocks, blocks.len()) + ztrailer(start, blocks)
}

/// Whether every count, size and offset of the section fits its field:
/// 32 bits for the sizes and the count, 64 bits for the offsets, signed.
pub open spec fn layout_fits(start: u64, blocks: Seq<ZBlockView>) -> bool {
    &&& blocks.len() <= i32::MAX
    &&& forall|i: int|
        0 <= i < blocks.len() ==> (#[trigger] blocks[i]).uncompressed_size <= i32::MAX
            && blocks[i].compressed.len() <= i32::MAX
    &&& start + ZHEADER_LEN + compressed_total(blocks, blocks.len()) <= i64::MAX
    &&& start + uncompressed_total(blocks, blocks.len()) <= i64::MAX
}

/// The image of the first `n` values of a valid row has eight bytes for
/// each segment of the first `n` columns.
pub proof fn lemma_row_image_upto_len(types: Seq<ColType>, values: Seq<Value>, n: nat)
    requires
        row_valid(types, values),
        n <= types.len(),
    ensures
        row_image_upto(types, values, n).len() == 8 * case_size(types.subrange(0, n as int)),
    decreases n,
{
    if n > 0 {
        lemma_row_image_upto_len(types, values, (n - 1) as nat);
        assert(fits(types[n - 1], values[n - 1]));
        crate::bytes::lemma_le_bytes_len(SYSMIS_BITS as nat, 8);
        if let Value::Number(Some(bits)) = values[n - 1] {
            crate::bytes::lemma_le_bytes_len(bits as nat, 8);
        }
        assert(value_image(types[n - 1], values[n - 1]).len() == 8 * segments(types[n - 1]));
        assert(types.subrange(0, n as int).drop_last() =~= types.subrange(0, n - 1));
    }
}

/// The image of a valid row has eight bytes for each segment that the
/// nominal case size counts.
pub proof fn lemma_row_image_len(types: Seq<ColType>, values: Seq<Value>)
    requires
        row_valid(types, values),
    ensures
        row_image(types, values).len() == 8 * case_size(types),
{
    lemma_row_image_upto_len(types, values, types.len());
    assert(types.subrange(0, types.len() as int) =~= types);
}

/// The totals of more blocks are no less.
pub proof fn lemma_totals_grow(blocks: Seq<ZBlockView>, i: nat, n: nat)
    requires
        i <= n,
    ensures
        uncompressed_total(blocks, i) <= uncompressed_total(blocks, n),
        compressed_total(blocks, i) <= compressed_total(blocks, n),
    decreases n - i,
{
    if i < n {
        lemma_totals_grow(blocks, i, (n - 1) as nat);
    }
}

/// The sizes of the blocks, summed, or `None` where the layout does not
/// fit.
fn measure(start: u64, blocks: &[ZBlock]) -> (totals: Option<(u64, u64)>)
    ensures
        match totals {
            Some((u, c)) => layout_fits(start, block_views(blocks@)) && u == uncompressed_total(
                block_views(blocks@),
                blocks@.len(),
            ) && c == compressed_total(block_views(blocks@), blocks@.len()),
            None => !layout_fits(start, block_views(blocks@)),
        },
{
    let ghost views = block_views(blocks@);
    let n = blocks.len();
    if n > i32::MAX as usize || start > i64::MAX as u64 {
        return None;
    }
    let mut u: u64 = 0;
    let mut c: u64 = 0;
    let mut i: usize = 0;
    while i < n
        invariant
            i <= n,
            n == blocks.len(),
            n <= i32::MAX,
            views == block_views(blocks@),
            u == uncompressed_total(views, i as nat),
            c == compressed_total(views, i as nat),
            u <= i * 0x7fff_ffff,
            c <= i * 0x7fff_ffff,
            forall|j: int|
                0 <= j < i ==> (#[trigger] views[j]).uncompressed_size <= i32::MAX
                    && views[j].compressed.len() <= i32::MAX,
        decreases n - i,
    {
        let block = &blocks[i];
        assert(views[i as int] == block@);
        if block.uncompressed_size > i32::MAX as usize
            || block.compressed.len() > i32::MAX as usize
        {
            return None;
        }
        u = u + block.uncompressed_size as u64;
        c = c + block.compressed.len() as u64;
        i += 1;
    }
    if start + ZHEADER_LEN + c > i64::MAX as u64 || start + u > i64::MAX as u64 {
        return None;
    }
    Some((u, c))
}

/// Lays out the data section of deflated blocks, for a section that
/// starts at offset `start` of its file.
///
/// Fails where a size or an offset does not fit its field.
pub fn write_data_section(start: u64, blocks: &[ZBlock]) -> (section: Result<
    Vec<u8>,
    EncodeError,
>)
    ensures
        match section {
            Ok(bytes) => layout_fits(start, block_views(blocks@)) && bytes@ == data_section(
                start,
                block_views(blocks@),
            ),
            Err(e) => e == EncodeError::TooLarge && !layout_fits(start, block_views(blocks@)),
        },
{
    let ghost views = block_views(blocks@);
    let n = blocks.len();
    let (total_u, total_c) = match measure(start, blocks) {
        None => {
            return Err(EncodeError::TooLarge);
        },
        Some(totals) => totals,
    };
    let mut out: Vec<u8> = Vec::new();
    write_le_i64(&mut out, start as i64);
    write_le_i64(&mut out, (start + ZHEADER_LEN + total_c) as i64);
    write_le_i64(&mut out, 24 + 24 * (n as i64));
    assert(out@ =~= zheader(start, views));
    let ghost head = out@;
    let mut i: usize = 0;
    assert(out@ =~= head + blocks_bytes(views, 0));
    while i < n
        invariant
            i <= n,
            n == blocks.len(),
            views == block_views(blocks@),
            out@ == head + blocks_bytes(views, i as nat),
        decreases n - i,
    {
        write_bytes(&mut out, blocks[i].compressed.as_slice());
        proof {
            assert(views[i as int] == blocks@[i as int]@);
            lemma_append_assoc(head, blocks_bytes(views, i as nat), views[i as int].compressed);
        }
        i += 1;
    }
    let ghost body = out@;
    write_le_i64(&mut out, -100);
    write_le_i64(&mut out, 0);
    write_le_i32(&mut out, ZLIB_BLOCK_SIZE as i32);
    write_le_i32(&mut out, n as i32);
    let ghost fixed = le_i64(-100i64) + le_i64(0) + le_i32(ZLIB_BLOCK_SIZE as i32) + le_i32(
        n as i32,
    );
    assert(out@ =~= body + fixed);
    let mut u: u64 = start;
    let mut c: u64 = start + ZHEADER_LEN;
    let mut k: usize = 0;
    assert(out@ =~= body + (fixed + descriptors(start, views, 0)));
    while k < n
        invariant
            k <= n,
            n == blocks.len(),
            views == block_views(blocks@),
            layout_fits(start, views),
            u == start + uncompressed_total(views, k as nat),
            c == start + ZHEADER_LEN + compressed_total(views, k as nat),
            out@ == body + (fixed + descriptors(start, views, k as nat)),
        decreases n - k,
    {
        let block = &blocks[k];
        proof {
            assert(views[k as int] == block@);
            lemma_totals_grow(views, (k + 1) as nat, n as nat);
        }
        let ghost before = out@;
        write_le_i64(&mut out, u as i64);
        write_le_i64(&mut out, c as i64);
        write_le_i32(&mut out, block.uncompressed_size as i32);
        write_le_i32(&mut out, block.compressed.len() as i32);
        proof {
            let d = descriptor(start, views, k as int);
            assert(out@ =~= before + d);
            lemma_append_assoc(body, fixed + descriptors(start, views, k as nat), d);
            lemma_append_assoc(fixed, descriptors(start, views, k as nat), d);
        }
        u = u + block.uncompressed_size as u64;
        c = c + block.compressed.len() as u64;
        k += 1;
    }
    proof {
        assert(fixed + descriptors(start, views, n as nat) == ztrailer(start, views));
        lemma_append_assoc(head, blocks_bytes(views, n as nat), ztrailer(start, views));
    }
    Ok(out)
}

} // verus!
