//! Byte-code compression of the data stream.
//!
//! Every 8-byte segment of a row becomes one opcode and, where the opcode
//! is `OP_RAW`, one 8-byte payload. Opcodes travel in blocks of eight; the
//! payloads of a block follow it, in order, before the next block begins.

use crate::bytes::{
    le_u64, le_value, lemma_le_u64_roundtrip, padded, repeat, write_bytes, write_le_u64,
    write_repeat, SPACE,
};
use crate::dictionary::{case_size, segments, ColType};
use crate::ieee::{
    biased_opcode, has_opcode, is_finite, is_integer, lemma_integer_opcode, lemma_opcode_unique,
    opcode, scaled_value,
};
use crate::row::{fits, row_valid, string_image, Value};
use vstd::arithmetic::power2::pow2;
use vstd::prelude::*;

verus! {

/// Opcode: the value is the next raw 8-byte payload.
pub const OP_RAW: u8 = 0;

/// Opcode: eight spaces.
pub const OP_SPACES: u8 = 254;

/// Opcode: the system-missing number.
pub const OP_SYSMIS: u8 = 255;

/// One encoded segment: its opcode and, for `OP_RAW`, its eight bytes.
pub struct Segment {
    pub opcode: u8,
    pub payload: Seq<u8>,
}

/// The segment of a number: `OP_SYSMIS` for a missing one; the one-byte
/// code where the number has one; else `OP_RAW` and the eight bytes of the
/// double.
pub open spec fn numeric_segment(n: Option<u64>) -> Segment {
    match n {
        None => Segment { opcode: OP_SYSMIS, payload: Seq::empty() },
        Some(bits) => match opcode(bits) {
            Some(k) => Segment { opcode: k, payload: Seq::empty() },
            None => Segment { opcode: OP_RAW, payload: le_u64(bits) },
        },
    }
}

/// Whether every byte is an ASCII space.
pub open spec fn all_spaces(chunk: Seq<u8>) -> bool {
    forall|i: int| 0 <= i < chunk.len() ==> chunk[i] == 0x20
}

/// The segment of eight bytes of a string: `OP_SPACES` where all are
/// spaces, else `OP_RAW` and the bytes.
pub open spec fn chunk_segment(chunk: Seq<u8>) -> Segment {
    if all_spaces(chunk) {
        Segment { opcode: OP_SPACES, payload: Seq::empty() }
    } else {
        Segment { opcode: OP_RAW, payload: chunk }
    }
}

/// The opcode and the payload of a number: `OP_SYSMIS` for a missing one,
/// the one-byte code where the number has one, else `OP_RAW` and the
/// eight bytes of the double. Any opcode but `OP_RAW` comes without
/// payload.
pub fn encode_number(number: Option<u64>) -> (code: (u8, Vec<u8>))
    ensures
        code.0 == numeric_segment(number).opcode,
        code.1@ == numeric_segment(number).payload,
        code.0 != OP_RAW ==> code.1@.len() == 0,
        code.0 == OP_RAW ==> code.1@.len() == 8,
{
    let mut payload: Vec<u8> = Vec::new();
    match number {
        None => (OP_SYSMIS, payload),
        Some(bits) => match biased_opcode(bits) {
            Some(k) => (k, payload),
            None => {
                write_le_u64(&mut payload, bits);
                proof {
                    assert(payload@ =~= le_u64(bits));
                    crate::bytes::lemma_le_bytes_len(bits as nat, 8);
                }
                (OP_RAW, payload)
            },
        },
    }
}

/// The opcode and the payload of up to eight bytes of a string. The
/// bytes are padded with spaces to eight; eight spaces are `OP_SPACES`
/// without payload, and anything else is `OP_RAW` with the eight bytes.
pub fn encode_chunk(chunk: &[u8]) -> (code: (u8, Vec<u8>))
    requires
        chunk@.len() <= 8,
    ensures
        code.0 == chunk_segment(padded(chunk@, 8)).opcode,
        code.1@ == chunk_segment(padded(chunk@, 8)).payload,
        all_spaces(chunk@) ==> code.0 == OP_SPACES && code.1@.len() == 0,
        !all_spaces(chunk@) ==> code.0 == OP_RAW && code.1@ == padded(chunk@, 8),
{
    let mut blank: bool = true;
    let mut i: usize = 0;
    while i < chunk.len()
        invariant
            i <= chunk.len(),
            blank == (forall|j: int| 0 <= j < i ==> chunk@[j] == 0x20),
        decreases chunk.len() - i,
    {
        if chunk[i] != SPACE {
            blank = false;
        }
        i += 1;
    }
    let ghost block = padded(chunk@, 8);
    proof {
        if all_spaces(chunk@) {
            assert(all_spaces(block));
        } else {
            let j = choose|j: int| 0 <= j < chunk@.len() && chunk@[j] != 0x20;
            assert(block[j] == chunk@[j]);
        }
    }
    let mut payload: Vec<u8> = Vec::new();
    if blank {
        (OP_SPACES, payload)
    } else {
        write_bytes(&mut payload, chunk);
        write_repeat(&mut payload, SPACE, 8 - chunk.len());
        assert(payload@ =~= block);
        (OP_RAW, payload)
    }
}

/// The segments of a string in a column of width `w`: one for each eight
/// bytes of its image.
pub open spec fn string_segments(bytes: Seq<u8>, w: u16) -> Seq<Segment> {
    Seq::new(
        segments(ColType::String(w)),
        |c: int| chunk_segment(string_image(bytes, w).subrange(8 * c, 8 * c + 8)),
    )
}

/// The segments of one value in its column.
pub open spec fn value_segments(col_type: ColType, value: Value) -> Seq<Segment> {
    match (col_type, value) {
        (ColType::Numeric, Value::Number(n)) => seq![numeric_segment(n)],
        (ColType::String(w), Value::String(b)) => string_segments(b@, w),
        _ => Seq::empty(),
    }
}

/// The segments of the first `n` values of a row.
pub open spec fn row_segments_upto(types: Seq<ColType>, values: Seq<Value>, n: nat) -> Seq<
    Segment,
>
    decreases n,
{
    if n == 0 {
        Seq::empty()
    } else {
        row_segments_upto(types, values, (n - 1) as nat) + value_segments(
            types[n - 1],
            values[n - 1],
        )
    }
}

/// The segments of a row, column by column.
pub open spec fn row_segments(types: Seq<ColType>, values: Seq<Value>) -> Seq<Segment> {
    row_segments_upto(types, values, types.len())
}

/// The segments of a sequence of rows, row by row.
pub open spec fn all_segments(types: Seq<ColType>, rows: Seq<Seq<Value>>) -> Seq<Segment>
    decreases rows.len(),
{
    if rows.len() == 0 {
        Seq::empty()
    } else {
        all_segments(types, rows.drop_last()) + row_segments(types, rows.last())
    }
}

/// The opcodes of some segments, in order.
pub open spec fn opcodes(segs: Seq<Segment>) -> Seq<u8> {
    Seq::new(segs.len(), |i: int| segs[i].opcode)
}

/// The payloads of some segments, one after the other.
pub open spec fn payloads(segs: Seq<Segment>) -> Seq<u8>
    decreases segs.len(),
{
    if segs.len() == 0 {
        Seq::empty()
    } else {
        payloads(segs.drop_last()) + segs.last().payload
    }
}

/// A block of at most eight segments: eight opcode bytes, unused ones
/// zero, then the payloads.
pub open spec fn block_bytes(segs: Seq<Segment>) -> Seq<u8> {
    opcodes(segs) + repeat(0, (8 - segs.len()) as nat) + payloads(segs)
}

/// The first `n` full blocks of a segment stream.
pub open spec fn blocks_upto(segs: Seq<Segment>, n: nat) -> Seq<u8>
    decreases n,
{
    if n == 0 {
        Seq::empty()
    } else {
        blocks_upto(segs, (n - 1) as nat) + block_bytes(segs.subrange(8 * (n - 1), 8 * n as int))
    }
}

/// The bytes of all full blocks of a segment stream.
pub open spec fn flushed(segs: Seq<Segment>) -> Seq<u8> {
    blocks_upto(segs, segs.len() / 8)
}

/// The segments after the last full block: fewer than eight.
pub open spec fn pending(segs: Seq<Segment>) -> Seq<Segment> {
    segs.subrange(8 * (segs.len() as int / 8), segs.len() as int)
}

/// The last block of a finished stream: nothing where no segment is
/// pending, else the pending segments as a zero-padded block.
pub open spec fn final_block(segs: Seq<Segment>) -> Seq<u8> {
    if pending(segs).len() == 0 {
        Seq::empty()
    } else {
        block_bytes(pending(segs))
    }
}

/// The finished data stream of a sequence of segments.
pub open spec fn data_stream(segs: Seq<Segment>) -> Seq<u8> {
    flushed(segs) + final_block(segs)
}

/// What a reader makes of a numeric segment: the number times `2^1074`,
/// or `None` for a missing one. An opcode `b` from 1 to 251 is the number
/// `b - 100`.
pub open spec fn decoded_number(seg: Segment) -> Option<int> {
    if seg.opcode == OP_RAW {
        Some(scaled_value(le_value(seg.payload) as u64))
    } else if 1 <= seg.opcode <= 251 {
        Some((seg.opcode - 100) * pow2(1074))
    } else {
        None
    }
}

/// A finite number is written either as its one-byte code or raw, and a
/// reader gets the same number back: from the raw bytes bit for bit, from
/// a code `b` as `b - 100`.
///
/// The sum of the number and 100 is rounded as doubles are, so a number
/// that is no whole number can still have a code. Such numbers are left
/// out here: for them the code stands for the nearest whole number.
pub proof fn lemma_number_roundtrip(bits: u64)
    requires
        is_finite(bits),
        forall|k: int| has_opcode(bits, k) ==> is_integer(bits, k - 100),
    ensures
        match opcode(bits) {
            Some(k) => numeric_segment(Some(bits)) == (Segment {
                opcode: k,
                payload: Seq::empty(),
            }) && has_opcode(bits, k as int),
            None => numeric_segment(Some(bits)) == (Segment {
                opcode: OP_RAW,
                payload: le_u64(bits),
            }) && le_value(le_u64(bits)) == bits,
        },
        decoded_number(numeric_segment(Some(bits))) == Some(scaled_value(bits)),
{
    lemma_le_u64_roundtrip(bits);
    if exists|k: int| has_opcode(bits, k) {
        let k = choose|k: int| has_opcode(bits, k);
        assert(is_integer(bits, k - 100));
    }
}

/// A whole number from -99 to 151 is written as the single byte that is
/// 100 more, and no other number of that magnitude is written so unless
/// it rounds to one.
pub proof fn lemma_small_integer_segment(bits: u64, n: int)
    requires
        is_integer(bits, n),
        -99 <= n <= 151,
    ensures
        numeric_segment(Some(bits)) == (Segment {
            opcode: (n + 100) as u8,
            payload: Seq::empty(),
        }),
{
    lemma_integer_opcode(bits, n);
    lemma_opcode_unique(bits, n + 100, choose|k: int| has_opcode(bits, k));
}

/// A number that is missing, not finite or without a code is never
/// written as a code from 1 to 251.
pub proof fn lemma_segment_kinds(n: Option<u64>)
    ensures
        n is None ==> numeric_segment(n).opcode == OP_SYSMIS && numeric_segment(n).payload.len()
            == 0,
        n is Some && !is_finite(n->0) ==> numeric_segment(n) == (Segment {
            opcode: OP_RAW,
            payload: le_u64(n->0),
        }),
        numeric_segment(n).opcode == OP_RAW || numeric_segment(n).opcode == OP_SYSMIS || 1
            <= numeric_segment(n).opcode <= 251,
{
    if let Some(bits) = n {
        if exists|k: int| has_opcode(bits, k) {
            let k = choose|k: int| has_opcode(bits, k);
        }
    }
}

/// Eight spaces are written as `OP_SPACES`; any other eight bytes are
/// written as `OP_RAW` and the bytes themselves.
pub proof fn lemma_chunk_segment(chunk: Seq<u8>)
    ensures
        all_spaces(chunk) ==> chunk_segment(chunk) == (Segment {
            opcode: OP_SPACES,
            payload: Seq::empty(),
        }),
        !all_spaces(chunk) ==> chunk_segment(chunk) == (Segment { opcode: OP_RAW, payload: chunk }),
{
}

/// The opcodes of one more segment.
pub proof fn lemma_opcodes_push(segs: Seq<Segment>, s: Segment)
    ensures
        opcodes(segs.push(s)) == opcodes(segs).push(s.opcode),
{
    assert(opcodes(segs.push(s)) =~= opcodes(segs).push(s.opcode));
}

/// The payloads of one more segment.
pub proof fn lemma_payloads_push(segs: Seq<Segment>, s: Segment)
    ensures
        payloads(segs.push(s)) == payloads(segs) + s.payload,
{
    assert(segs.push(s).drop_last() =~= segs);
}

/// Full blocks do not change when a segment is added after them.
pub proof fn lemma_blocks_upto_push(segs: Seq<Segment>, s: Segment, n: nat)
    requires
        8 * n <= segs.len(),
    ensures
        blocks_upto(segs.push(s), n) == blocks_upto(segs, n),
    decreases n,
{
    if n > 0 {
        lemma_blocks_upto_push(segs, s, (n - 1) as nat);
        assert(segs.push(s).subrange(8 * (n - 1), 8 * n as int) =~= segs.subrange(
            8 * (n - 1),
            8 * n as int,
        ));
    }
}

/// Fewer than eight segments are pending.
pub proof fn lemma_pending_len(segs: Seq<Segment>)
    ensures
        pending(segs).len() == segs.len() % 8,
        pending(segs).len() < 8,
{
}

/// What one more segment does to a stream: it joins the pending ones,
/// and where it is the eighth, the eight become one more full block.
pub proof fn lemma_push_segment(segs: Seq<Segment>, s: Segment)
    ensures
        pending(segs).len() < 7 ==> {
            &&& flushed(segs.push(s)) == flushed(segs)
            &&& pending(segs.push(s)) == pending(segs).push(s)
        },
        pending(segs).len() == 7 ==> {
            &&& flushed(segs.push(s)) == flushed(segs) + block_bytes(pending(segs).push(s))
            &&& pending(segs.push(s)) == Seq::<Segment>::empty()
        },
{
    let q = segs.len() as int / 8;
    let more = segs.push(s);
    lemma_blocks_upto_push(segs, s, q as nat);
    if pending(segs).len() < 7 {
        assert(more.len() / 8 == q);
        assert(pending(more) =~= pending(segs).push(s));
    } else {
        assert(more.len() / 8 == q + 1);
        assert(more.subrange(8 * q, 8 * (q + 1)) =~= pending(segs).push(s));
        assert(pending(more) =~= Seq::<Segment>::empty());
    }
}

/// A value that fits its column has as many segments as the column.
pub proof fn lemma_value_segments_len(col_type: ColType, value: Value)
    requires
        fits(col_type, value),
    ensures
        value_segments(col_type, value).len() == segments(col_type),
{
}

/// The first `n` values of a valid row have as many segments as the first
/// `n` columns.
pub proof fn lemma_row_segments_upto_len(types: Seq<ColType>, values: Seq<Value>, n: nat)
    requires
        row_valid(types, values),
        n <= types.len(),
    ensures
        row_segments_upto(types, values, n).len() == case_size(types.subrange(0, n as int)),
    decreases n,
{
    if n > 0 {
        lemma_row_segments_upto_len(types, values, (n - 1) as nat);
        lemma_value_segments_len(types[n - 1], values[n - 1]);
        assert(types.subrange(0, n as int).drop_last() =~= types.subrange(0, n - 1));
    }
}

/// A valid row has as many segments as the nominal case size says.
pub proof fn lemma_row_segments_len(types: Seq<ColType>, values: Seq<Value>)
    requires
        row_valid(types, values),
    ensures
        row_segments(types, values).len() == case_size(types),
{
    lemma_row_segments_upto_len(types, values, types.len());
    assert(types.subrange(0, types.len() as int) =~= types);
}

/// The data of valid rows has the nominal case size times the number of
/// rows in segments: what the dictionary promises of the data.
pub proof fn lemma_all_segments_len(types: Seq<ColType>, rows: Seq<Seq<Value>>)
    requires
        forall|i: int| 0 <= i < rows.len() ==> row_valid(types, #[trigger] rows[i]),
    ensures
        all_segments(types, rows).len() == case_size(types) * rows.len(),
    decreases rows.len(),
{
    if rows.len() > 0 {
        lemma_all_segments_len(types, rows.drop_last());
        lemma_row_segments_len(types, rows.last());
        assert(case_size(types) * rows.len() == case_size(types) * (rows.len() - 1) + case_size(
            types,
        )) by (nonlinear_arith);
    }
}

/// One more row after some rows.
pub proof fn lemma_all_segments_push(types: Seq<ColType>, rows: Seq<Seq<Value>>, row: Seq<Value>)
    ensures
        all_segments(types, rows.push(row)) == all_segments(types, rows) + row_segments(
            types,
            row,
        ),
{
    assert(rows.push(row).drop_last() =~= rows);
}

} // verus!
