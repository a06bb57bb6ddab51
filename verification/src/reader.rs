//! What a reader makes of a byte-code compressed data stream.
//!
//! The library writes system files and does not read them. This module
//! states the reader's rules as specification functions and proves that
//! they give back the segments that were written: the opcodes and the
//! payloads stay aligned, whatever the mix of segments.

use crate::bytes::repeat;
use crate::compress::{
    all_segments, block_bytes, blocks_upto, chunk_segment, data_stream, final_block, flushed,
    lemma_all_segments_len, numeric_segment, opcodes, payloads, pending, row_segments,
    row_segments_upto, string_segments, value_segments, Segment, OP_RAW,
};
use crate::dictionary::{case_size, col_types, dictionary, ColType, ColView};
use crate::row::{fits, row_valid, string_image, Value};
use crate::sav_writer::sav_file;
use vstd::prelude::*;

verus! {

/// A segment as the writer makes them: eight bytes of payload for
/// `OP_RAW`, none for any other opcode.
pub open spec fn well_formed(s: Segment) -> bool {
    s.payload.len() == if s.opcode == OP_RAW {
        8int
    } else {
        0int
    }
}

/// Whether all segments are well-formed.
pub open spec fn all_well_formed(segs: Seq<Segment>) -> bool {
    forall|i: int| 0 <= i < segs.len() ==> well_formed(#[trigger] segs[i])
}

/// The segment of opcode `op`, where the payloads not yet read start at
/// `at` of `rest`.
pub open spec fn read_segment(op: u8, rest: Seq<u8>, at: int) -> Segment {
    if op == OP_RAW {
        Segment { opcode: op, payload: rest.subrange(at, at + 8) }
    } else {
        Segment { opcode: op, payload: Seq::empty() }
    }
}

/// The first `m` segments of a block with the opcodes `ops`, followed by
/// the bytes `rest`: each `OP_RAW` takes the next eight bytes.
pub open spec fn read_block(ops: Seq<u8>, rest: Seq<u8>, m: nat) -> Seq<Segment>
    decreases m,
{
    if m == 0 {
        Seq::empty()
    } else {
        let before = read_block(ops, rest, (m - 1) as nat);
        before.push(read_segment(ops[m - 1], rest, payloads(before).len() as int))
    }
}

/// The first `n` segments of a data stream: block by block, eight opcodes
/// and then their payloads.
pub open spec fn read_stream(bytes: Seq<u8>, n: nat) -> Seq<Segment>
    decreases n,
{
    if n == 0 {
        Seq::empty()
    } else {
        let m: nat = if n < 8 {
            n
        } else {
            8
        };
        let block = read_block(bytes.subrange(0, 8), bytes.subrange(8, bytes.len() as int), m);
        block + read_stream(
            bytes.subrange(8 + payloads(block).len() as int, bytes.len() as int),
            (n - m) as nat,
        )
    }
}

/// The segments of numbers and of strings are well-formed.
pub proof fn lemma_written_segments_well_formed(n: Option<u64>, chunk: Seq<u8>)
    requires
        chunk.len() == 8,
    ensures
        well_formed(numeric_segment(n)),
        well_formed(chunk_segment(chunk)),
{
    if let Some(bits) = n {
        crate::bytes::lemma_le_bytes_len(bits as nat, 8);
        if exists|k: int| crate::ieee::has_opcode(bits, k) {
            let k = choose|k: int| crate::ieee::has_opcode(bits, k);
        }
    }
}

/// The payloads of the first segments are the first of the payloads.
proof fn lemma_payloads_prefix(b: Seq<Segment>, m: int)
    requires
        0 <= m <= b.len(),
    ensures
        payloads(b.subrange(0, m)).len() <= payloads(b).len(),
        payloads(b).subrange(0, payloads(b.subrange(0, m)).len() as int) == payloads(
            b.subrange(0, m),
        ),
    decreases b.len() - m,
{
    if m == b.len() {
        assert(b.subrange(0, m) =~= b);
        assert(payloads(b).subrange(0, payloads(b).len() as int) =~= payloads(b));
    } else {
        lemma_payloads_prefix(b, m + 1);
        let longer = b.subrange(0, m + 1);
        assert(longer.drop_last() =~= b.subrange(0, m));
        let p = payloads(b.subrange(0, m));
        assert(payloads(longer) == p + b[m].payload);
        assert(payloads(b).subrange(0, p.len() as int) =~= p);
    }
}

/// A reader gets the segments of a block back from its bytes.
proof fn lemma_read_block(b: Seq<Segment>, ops: Seq<u8>, rest: Seq<u8>, m: nat)
    requires
        all_well_formed(b),
        m <= b.len() <= ops.len(),
        ops.subrange(0, b.len() as int) == opcodes(b),
        payloads(b).len() <= rest.len(),
        rest.subrange(0, payloads(b).len() as int) == payloads(b),
    ensures
        read_block(ops, rest, m) == b.subrange(0, m as int),
    decreases m,
{
    if m == 0 {
        assert(b.subrange(0, 0) =~= Seq::<Segment>::empty());
    } else {
        lemma_read_block(b, ops, rest, (m - 1) as nat);
        let before = b.subrange(0, m - 1);
        let upto = b.subrange(0, m as int);
        lemma_payloads_prefix(b, m - 1);
        lemma_payloads_prefix(b, m as int);
        assert(upto.drop_last() =~= before);
        assert(payloads(upto) == payloads(before) + b[m - 1].payload);
        let at = payloads(before).len() as int;
        assert(ops[m - 1] == ops.subrange(0, b.len() as int)[m - 1]);
        assert(well_formed(b[m - 1]));
        if b[m - 1].opcode == OP_RAW {
            assert(rest.subrange(at, at + 8) =~= payloads(b).subrange(at, at + 8));
            assert(payloads(b).subrange(at, at + 8) =~= payloads(upto).subrange(at, at + 8));
            assert(payloads(upto).subrange(at, at + 8) =~= b[m - 1].payload);
        } else {
            assert(b[m - 1].payload =~= Seq::<u8>::empty());
        }
        assert(read_segment(ops[m - 1], rest, at) == b[m - 1]);
        assert(upto =~= before.push(b[m - 1]));
    }
}

/// The full blocks of a stream of at least `8 * n` segments, `n` at least
/// one, are the first block and the full blocks of the rest.
proof fn lemma_blocks_upto_front(segs: Seq<Segment>, n: nat)
    requires
        1 <= n,
        8 * n <= segs.len(),
    ensures
        blocks_upto(segs, n) == block_bytes(segs.subrange(0, 8)) + blocks_upto(
            segs.subrange(8, segs.len() as int),
            (n - 1) as nat,
        ),
    decreases n,
{
    let rest = segs.subrange(8, segs.len() as int);
    let first = block_bytes(segs.subrange(0, 8));
    if n == 1 {
        assert(blocks_upto(segs, 0) =~= Seq::<u8>::empty());
        assert(blocks_upto(rest, 0) =~= Seq::<u8>::empty());
        assert(blocks_upto(segs, 1) =~= first + blocks_upto(rest, 0));
    } else {
        lemma_blocks_upto_front(segs, (n - 1) as nat);
        assert(segs.subrange(8 * (n - 1), 8 * n as int) =~= rest.subrange(
            8 * (n - 2),
            8 * (n - 1),
        ));
        let last = block_bytes(rest.subrange(8 * (n - 2), 8 * (n - 1)));
        assert((first + blocks_upto(rest, (n - 2) as nat)) + last =~= first + (blocks_upto(
            rest,
            (n - 2) as nat,
        ) + last));
    }
}

/// A stream of eight segments or more is its first block and the stream
/// of the rest.
proof fn lemma_data_stream_front(segs: Seq<Segment>)
    requires
        segs.len() >= 8,
    ensures
        data_stream(segs) == block_bytes(segs.subrange(0, 8)) + data_stream(
            segs.subrange(8, segs.len() as int),
        ),
{
    let rest = segs.subrange(8, segs.len() as int);
    let first = block_bytes(segs.subrange(0, 8));
    let n = (segs.len() / 8) as nat;
    assert(rest.len() / 8 == n - 1);
    lemma_blocks_upto_front(segs, n);
    assert(pending(segs) =~= pending(rest));
    assert((first + flushed(rest)) + final_block(rest) =~= first + (flushed(rest) + final_block(
        rest,
    )));
}

/// A reader gets back from a finished data stream the segments that were
/// written, in their order.
pub proof fn lemma_read_stream_roundtrip(segs: Seq<Segment>)
    requires
        all_well_formed(segs),
    ensures
        read_stream(data_stream(segs), segs.len()) == segs,
    decreases segs.len(),
{
    let bytes = data_stream(segs);
    let n = segs.len();
    if n == 0 {
        assert(segs =~= Seq::<Segment>::empty());
    } else if n < 8 {
        assert(pending(segs) =~= segs);
        assert(flushed(segs) =~= Seq::<u8>::empty());
        assert(bytes =~= block_bytes(segs));
        let ops = bytes.subrange(0, 8);
        let rest = bytes.subrange(8, bytes.len() as int);
        assert(ops.subrange(0, n as int) =~= opcodes(segs));
        assert(rest =~= payloads(segs));
        assert(rest.subrange(0, payloads(segs).len() as int) =~= payloads(segs));
        lemma_read_block(segs, ops, rest, n);
        assert(segs.subrange(0, n as int) =~= segs);
        let block = read_block(ops, rest, n);
        assert(read_stream(bytes.subrange(8 + payloads(block).len() as int, bytes.len() as int), 0)
            =~= Seq::<Segment>::empty());
        assert(block + Seq::<Segment>::empty() =~= segs);
    } else {
        let first = segs.subrange(0, 8);
        let later = segs.subrange(8, n as int);
        lemma_data_stream_front(segs);
        let head = block_bytes(first);
        assert(repeat(0, 0) =~= Seq::<u8>::empty());
        assert(head =~= opcodes(first) + payloads(first));
        let ops = bytes.subrange(0, 8);
        let rest = bytes.subrange(8, bytes.len() as int);
        assert(ops =~= opcodes(first));
        assert(ops.subrange(0, 8) =~= opcodes(first));
        assert(rest =~= payloads(first) + data_stream(later));
        assert(rest.subrange(0, payloads(first).len() as int) =~= payloads(first));
        lemma_read_block(first, ops, rest, 8);
        assert(first.subrange(0, 8) =~= first);
        let block = read_block(ops, rest, 8);
        assert(bytes.subrange(8 + payloads(block).len() as int, bytes.len() as int) =~= data_stream(
            later,
        ));
        lemma_read_stream_roundtrip(later);
        assert(first + later =~= segs);
    }
}

/// The segments of a value that fits its column are well-formed.
pub proof fn lemma_value_segments_well_formed(col_type: ColType, value: Value)
    requires
        fits(col_type, value),
    ensures
        all_well_formed(value_segments(col_type, value)),
{
    match (col_type, value) {
        (ColType::Numeric, Value::Number(n)) => {
            lemma_written_segments_well_formed(n, Seq::new(8, |i: int| 0u8));
        },
        (ColType::String(w), Value::String(b)) => {
            let image = string_image(b@, w);
            let segs = string_segments(b@, w);
            assert forall|c: int| 0 <= c < segs.len() implies well_formed(#[trigger] segs[c]) by {
                lemma_written_segments_well_formed(None, image.subrange(8 * c, 8 * c + 8));
            }
        },
        _ => {},
    }
}

/// The segments of the first `n` values of a valid row are well-formed.
proof fn lemma_row_segments_upto_well_formed(types: Seq<ColType>, values: Seq<Value>, n: nat)
    requires
        row_valid(types, values),
        n <= types.len(),
    ensures
        all_well_formed(row_segments_upto(types, values, n)),
    decreases n,
{
    if n > 0 {
        lemma_row_segments_upto_well_formed(types, values, (n - 1) as nat);
        lemma_value_segments_well_formed(types[n - 1], values[n - 1]);
    }
}

/// The segments of valid rows are well-formed.
pub proof fn lemma_all_segments_well_formed(types: Seq<ColType>, rows: Seq<Seq<Value>>)
    requires
        forall|i: int| 0 <= i < rows.len() ==> row_valid(types, #[trigger] rows[i]),
    ensures
        all_well_formed(all_segments(types, rows)),
    decreases rows.len(),
{
    if rows.len() > 0 {
        lemma_all_segments_well_formed(types, rows.drop_last());
        lemma_row_segments_upto_well_formed(types, rows.last(), types.len());
    }
}

/// A reader who knows the dictionary gets back from the file of valid rows
/// the segments of the rows: it reads, after the dictionary, as many
/// segments as the nominal case size times the number of rows.
pub proof fn lemma_sav_file_roundtrip(cols: Seq<ColView>, rows: Seq<Seq<Value>>)
    requires
        forall|i: int| 0 <= i < rows.len() ==> row_valid(col_types(cols), #[trigger] rows[i]),
    ensures
        read_stream(
            sav_file(cols, rows).subrange(
                dictionary(false, cols, -1i32).len() as int,
                sav_file(cols, rows).len() as int,
            ),
            case_size(col_types(cols)) * rows.len(),
        ) == all_segments(col_types(cols), rows),
{
    let types = col_types(cols);
    let dict = dictionary(false, cols, -1i32);
    let segs = all_segments(types, rows);
    lemma_all_segments_well_formed(types, rows);
    lemma_all_segments_len(types, rows);
    lemma_read_stream_roundtrip(segs);
    assert(sav_file(cols, rows).subrange(dict.len() as int, sav_file(cols, rows).len() as int)
        =~= data_stream(segs));
}

} // verus!
