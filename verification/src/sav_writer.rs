//! Writer of system files with byte-code compression.
//!
//! A `SavWriter` is made from the columns, takes the rows one by one and is
//! finished once. It writes into a buffer of its own; `take_output` hands
//! over what has gathered there, so that a caller can stream a file of any
//! size. The bytes handed over and the bytes still buffered are, together,
//! always the dictionary followed by the full opcode blocks of the
//! segments written so far.

use crate::bytes::{
    le_i32, le_value, lemma_le_i32_roundtrip, padded, repeat, write_bytes, write_repeat, SPACE,
};
use crate::compress::{
    all_segments, block_bytes, chunk_segment, data_stream, encode_chunk, encode_number, flushed,
    lemma_opcodes_push, lemma_payloads_push, lemma_pending_len, lemma_push_segment,
    numeric_segment, opcodes, payloads, pending, row_segments, row_segments_upto,
    string_segments, Segment, OP_RAW,
};
use crate::dictionary::{
    case_size, col_types, col_views, dictionary, header_bytes,
    lemma_dictionary_starts_with_header, lemma_header_layout, magic_sav, row_width, types_of,
    write_dictionary, ColView,
};
use crate::error::EncodeError;
use crate::row::{check_row, row_verdict, string_image};
use vstd::prelude::*;

pub use crate::dictionary::{col_segments, encode_format, ColDef, ColType};
pub use crate::row::Value;

verus! {

/// The bytes of a whole file with byte-code compression: the dictionary of
/// the columns, with -1 for the unknown number of rows, and the finished
/// data stream of the rows.
pub open spec fn sav_file(cols: Seq<ColView>, rows: Seq<Seq<Value>>) -> Seq<u8> {
    dictionary(false, cols, -1i32) + data_stream(all_segments(col_types(cols), rows))
}

/// A file with byte-code compression starts with `$FL2`, says -1 for its
/// number of rows, and has as nominal case size the sum of the segment
/// counts of its columns.
pub proof fn lemma_sav_file_header(cols: Seq<ColView>, rows: Seq<Seq<Value>>)
    requires
        case_size(col_types(cols)) <= i32::MAX,
    ensures
        sav_file(cols, rows).len() >= 176,
        sav_file(cols, rows).subrange(0, 4) == magic_sav(),
        sav_file(cols, rows).subrange(80, 84) == le_i32(-1i32),
        sav_file(cols, rows).subrange(68, 72) == le_i32(case_size(col_types(cols)) as i32),
        le_value(sav_file(cols, rows).subrange(68, 72)) == case_size(col_types(cols)),
{
    let width = case_size(col_types(cols)) as i32;
    let dict = dictionary(false, cols, -1i32);
    let file = sav_file(cols, rows);
    lemma_dictionary_starts_with_header(false, cols, -1i32);
    lemma_header_layout(false, width, -1i32);
    lemma_le_i32_roundtrip(width);
    let header = header_bytes(false, width, -1i32);
    assert(file.subrange(0, 176) =~= header);
    assert(file.subrange(0, 4) =~= header.subrange(0, 4));
    assert(file.subrange(80, 84) =~= header.subrange(80, 84));
    assert(file.subrange(68, 72) =~= header.subrange(68, 72));
}

/// Writer of a system file with byte-code compression.
pub struct SavWriter {
    /// Bytes written and not yet taken.
    out: Vec<u8>,
    types: Vec<ColType>,
    /// The columns that the dictionary was written for.
    cols: Ghost<Seq<ColView>>,
    /// Opcodes of the block in the making: fewer than eight.
    opcode_buf: Vec<u8>,
    /// Payloads that follow the block in the making.
    raw_buf: Vec<u8>,
    /// Bytes that `take_output` has handed over.
    taken: Ghost<Seq<u8>>,
    /// Segments written so far.
    segs: Ghost<Seq<Segment>>,
}

impl SavWriter {
    /// The columns that the writer was made with.
    pub closed spec fn columns(&self) -> Seq<ColView> {
        self.cols@
    }

    /// The segments of all rows written so far.
    pub closed spec fn segments(&self) -> Seq<Segment> {
        self.segs@
    }

    /// The bytes that `take_output` has handed over so far.
    pub closed spec fn taken(&self) -> Seq<u8> {
        self.taken@
    }

    /// The bytes written and not yet taken.
    pub closed spec fn buffered(&self) -> Seq<u8> {
        self.out@
    }

    /// All bytes written so far.
    pub open spec fn emitted(&self) -> Seq<u8> {
        self.taken() + self.buffered()
    }

    /// The types of the columns.
    pub open spec fn types(&self) -> Seq<ColType> {
        col_types(self.columns())
    }

    /// The block in the making holds the pending segments.
    pub closed spec fn staged(&self) -> bool {
        &&& self.types@ == col_types(self.cols@)
        &&& self.opcode_buf@ == opcodes(pending(self.segs@))
        &&& self.raw_buf@ == payloads(pending(self.segs@))
    }

    /// The invariant of a writer: what it has written is the dictionary
    /// and the full blocks of its segments, and the rest is staged.
    pub open spec fn wf(&self) -> bool {
        &&& self.emitted() == dictionary(false, self.columns(), -1i32) + flushed(
            self.segments(),
        )
        &&& self.staged()
    }

    /// Starts a file: writes the dictionary of `cols`.
    ///
    /// Fails where the nominal case size does not fit its 32-bit field.
    pub fn new(cols: Vec<ColDef>) -> (made: Result<SavWriter, EncodeError>)
        ensures
            match made {
                Ok(w) => {
                    &&& case_size(col_types(col_views(cols@))) <= i32::MAX
                    &&& w.wf()
                    &&& w.columns() == col_views(cols@)
                    &&& w.segments() == Seq::<Segment>::empty()
                    &&& w.taken() == Seq::<u8>::empty()
                },
                Err(e) => e == EncodeError::TooLarge && case_size(col_types(col_views(cols@)))
                    > i32::MAX,
            },
    {
        match row_width(cols.as_slice()) {
            None => Err(EncodeError::TooLarge),
            Some(width) => {
                let mut out: Vec<u8> = Vec::new();
                write_dictionary(&mut out, false, cols.as_slice(), width, -1);
                let w = SavWriter {
                    out,
                    types: types_of(cols.as_slice()),
                    cols: Ghost(col_views(cols@)),
                    opcode_buf: Vec::new(),
                    raw_buf: Vec::with_capacity(64),
                    taken: Ghost(Seq::empty()),
                    segs: Ghost(Seq::empty()),
                };
                proof {
                    let dict = dictionary(false, w.cols@, -1i32);
                    assert(pending(w.segs@) =~= Seq::<Segment>::empty());
                    assert(w.opcode_buf@ =~= opcodes(pending(w.segs@)));
                    assert(flushed(w.segs@) =~= Seq::<u8>::empty());
                    assert(w.emitted() =~= dict + flushed(w.segs@));
                }
                Ok(w)
            },
        }
    }

    /// Writes one row: one value per column, in the columns' order.
    ///
    /// A row that does not fit the columns is refused and nothing of it is
    /// written.
    pub fn write_row(&mut self, values: &[Value]) -> (done: Result<(), EncodeError>)
        requires
            old(self).wf(),
        ensures
            final(self).wf(),
            final(self).columns() == old(self).columns(),
            final(self).taken() == old(self).taken(),
            row_verdict(old(self).types(), values@, done),
            done is Ok ==> final(self).segments() == old(self).segments() + row_segments(
                old(self).types(),
                values@,
            ),
            done is Err ==> final(self).segments() == old(self).segments()
                && final(self).buffered() == old(self).buffered(),
    {
        match check_row(self.types.as_slice(), values) {
            Err(e) => {
                return Err(e);
            },
            Ok(_) => {},
        }
        let ghost types = self.types();
        let ghost before = self.segs@;
        let n = self.types.len();
        let mut i: usize = 0;
        assert(before =~= before + row_segments_upto(types, values@, 0));
        while i < n
            invariant
                i <= n,
                n == self.types.len(),
                n == values.len(),
                self.wf(),
                self.cols@ == old(self).cols@,
                self.types@ == old(self).types@,
                self.taken@ == old(self).taken@,
                types == self.types(),
                before == old(self).segs@,
                crate::row::row_valid(types, values@),
                self.segs@ == before + row_segments_upto(types, values@, i as nat),
            decreases n - i,
        {
            let col_type = self.types[i];
            let ghost so_far = self.segs@;
            assert(types[i as int] == col_type);
            assert(crate::row::fits(types[i as int], values@[i as int]));
            match &values[i] {
                Value::Number(number) => {
                    self.push_numeric(*number);
                },
                Value::String(bytes) => {
                    match col_type {
                        ColType::String(w) => {
                            self.push_string(bytes.as_slice(), w);
                        },
                        ColType::Numeric => {},
                    }
                },
            }
            proof {
                let step = crate::compress::value_segments(types[i as int], values@[i as int]);
                assert(self.segs@ =~= so_far + step);
                assert(self.segs@ =~= before + row_segments_upto(types, values@, (i + 1) as nat));
            }
            i += 1;
        }
        Ok(())
    }

    /// Hands over the bytes written since the last call, or since the
    /// writer was made.
    pub fn take_output(&mut self) -> (bytes: Vec<u8>)
        requires
            old(self).wf(),
        ensures
            final(self).wf(),
            bytes@ == old(self).buffered(),
            final(self).buffered() == Seq::<u8>::empty(),
            final(self).taken() == old(self).taken() + bytes@,
            final(self).columns() == old(self).columns(),
            final(self).segments() == old(self).segments(),
    {
        let mut bytes: Vec<u8> = Vec::new();
        std::mem::swap(&mut self.out, &mut bytes);
        self.taken = Ghost(self.taken@ + bytes@);
        proof {
            assert(self.emitted() =~= old(self).emitted());
        }
        bytes
    }

    /// Ends the file: writes the pending segments as a last, zero-padded
    /// block and returns the bytes not yet taken.
    ///
    /// All bytes of the file, taken and returned, are the dictionary and
    /// the finished data stream of the segments written.
    pub fn finish(self) -> (bytes: Vec<u8>)
        requires
            self.wf(),
        ensures
            self.taken() + bytes@ == dictionary(false, self.columns(), -1i32)
                + data_stream(self.segments()),
    {
        let mut w = self;
        let ghost dict = dictionary(false, self.columns(), -1i32);
        let ghost full = flushed(self.segs@);
        proof {
            lemma_pending_len(self.segs@);
        }
        if w.opcode_buf.len() > 0 {
            w.flush_opcodes();
            proof {
                let last = block_bytes(pending(self.segs@));
                assert(w.out@ == self.out@ + last);
                assert(self.taken@ + (self.out@ + last) =~= (self.taken@ + self.out@) + last);
                assert((dict + full) + last =~= dict + (full + last));
            }
        } else {
            assert(dict + full =~= dict + (full + Seq::<u8>::empty()));
        }
        w.out
    }

    /// Adds the segment of a number.
    fn push_numeric(&mut self, number: Option<u64>)
        requires
            old(self).wf(),
        ensures
            final(self).wf(),
            final(self).cols@ == old(self).cols@,
            final(self).types@ == old(self).types@,
            final(self).taken@ == old(self).taken@,
            final(self).segs@ == old(self).segs@.push(numeric_segment(number)),
    {
        let (op, payload) = encode_number(number);
        if op == OP_RAW {
            self.push_raw(payload.as_slice());
        } else {
            assert(payload@ =~= Seq::<u8>::empty());
            self.push_opcode(op);
        }
    }

    /// Adds the segments of a string in a column of width `w`.
    fn push_string(&mut self, bytes: &[u8], w: u16)
        requires
            old(self).wf(),
        ensures
            final(self).wf(),
            final(self).cols@ == old(self).cols@,
            final(self).types@ == old(self).types@,
            final(self).taken@ == old(self).taken@,
            final(self).segs@ == old(self).segs@ + string_segments(bytes@, w),
    {
        let count = col_segments(&ColType::String(w));
        let ghost image = string_image(bytes@, w);
        let ghost all = string_segments(bytes@, w);
        let mut c: usize = 0;
        assert(self.segs@ =~= old(self).segs@ + all.subrange(0, 0));
        while c < count
            invariant
                c <= count,
                count == crate::dictionary::segments(ColType::String(w)),
                count <= 8192,
                image == string_image(bytes@, w),
                all == string_segments(bytes@, w),
                self.wf(),
                self.cols@ == old(self).cols@,
                self.types@ == old(self).types@,
                self.taken@ == old(self).taken@,
                self.segs@ == old(self).segs@ + all.subrange(0, c as int),
            decreases count - c,
        {
            let mut chunk: Vec<u8> = Vec::new();
            let mut j: usize = 0;
            while j < 8
                invariant
                    j <= 8,
                    c < count,
                    count <= 8192,
                    image == string_image(bytes@, w),
                    count == crate::dictionary::segments(ColType::String(w)),
                    chunk@ == image.subrange(8 * c, 8 * c + j),
                decreases 8 - j,
            {
                let at: usize = 8 * c + j;
                let byte: u8 = if at < bytes.len() && at < w as usize { bytes[at] } else { SPACE };
                chunk.push(byte);
                assert(chunk@ =~= image.subrange(8 * c, 8 * c + j + 1));
                j += 1;
            }
            self.push_string_chunk(chunk.as_slice());
            proof {
                assert(padded(chunk@, 8) =~= chunk@);
                assert(all[c as int] == chunk_segment(chunk@));
                assert(all.subrange(0, c + 1) =~= all.subrange(0, c as int).push(all[c as int]));
                assert(self.segs@ =~= old(self).segs@ + all.subrange(0, c + 1));
            }
            c += 1;
        }
        assert(all.subrange(0, count as int) =~= all);
    }

    /// Adds the segment of up to eight bytes of a string: `OP_SPACES` where
    /// all are spaces, else `OP_RAW` and the bytes, padded with spaces to
    /// eight.
    fn push_string_chunk(&mut self, chunk: &[u8])
        requires
            old(self).wf(),
            chunk@.len() <= 8,
        ensures
            final(self).wf(),
            final(self).cols@ == old(self).cols@,
            final(self).types@ == old(self).types@,
            final(self).taken@ == old(self).taken@,
            final(self).segs@ == old(self).segs@.push(chunk_segment(padded(chunk@, 8))),
    {
        let (op, payload) = encode_chunk(chunk);
        if op == OP_RAW {
            self.push_raw(payload.as_slice());
        } else {
            assert(payload@ =~= Seq::<u8>::empty());
            self.push_opcode(op);
        }
    }

    /// Adds a segment that is an opcode alone.
    fn push_opcode(&mut self, op: u8)
        requires
            old(self).wf(),
        ensures
            final(self).wf(),
            final(self).cols@ == old(self).cols@,
            final(self).types@ == old(self).types@,
            final(self).taken@ == old(self).taken@,
            final(self).segs@ == old(self).segs@.push(
                Segment { opcode: op, payload: Seq::empty() },
            ),
    {
        let none: Vec<u8> = Vec::new();
        assert(none@ =~= Seq::<u8>::empty());
        self.push_segment(op, none.as_slice());
    }

    /// Adds a segment that is stored raw.
    fn push_raw(&mut self, data: &[u8])
        requires
            old(self).wf(),
        ensures
            final(self).wf(),
            final(self).cols@ == old(self).cols@,
            final(self).types@ == old(self).types@,
            final(self).taken@ == old(self).taken@,
            final(self).segs@ == old(self).segs@.push(Segment { opcode: OP_RAW, payload: data@ }),
    {
        self.push_segment(OP_RAW, data);
    }

    /// Stages one segment and, where it is the eighth of its block, writes
    /// the block.
    fn push_segment(&mut self, op: u8, data: &[u8])
        requires
            old(self).wf(),
        ensures
            final(self).wf(),
            final(self).cols@ == old(self).cols@,
            final(self).types@ == old(self).types@,
            final(self).taken@ == old(self).taken@,
            final(self).segs@ == old(self).segs@.push(Segment { opcode: op, payload: data@ }),
    {
        let ghost seg = Segment { opcode: op, payload: data@ };
        let ghost waiting = pending(self.segs@);
        proof {
            lemma_pending_len(self.segs@);
            lemma_push_segment(self.segs@, seg);
            lemma_opcodes_push(waiting, seg);
            lemma_payloads_push(waiting, seg);
        }
        self.opcode_buf.push(op);
        write_bytes(&mut self.raw_buf, data);
        self.segs = Ghost(self.segs@.push(seg));
        if self.opcode_buf.len() == 8 {
            let ghost dict = dictionary(false, self.cols@, -1i32);
            let ghost full = flushed(old(self).segs@);
            let ghost block = block_bytes(waiting.push(seg));
            self.flush_opcodes();
            proof {
                assert(repeat(0, 0) =~= Seq::<u8>::empty());
                assert(self.out@ =~= old(self).out@ + block);
                assert(self.taken@ + (old(self).out@ + block) =~= (old(self).taken@
                    + old(self).out@) + block);
                assert((dict + full) + block =~= dict + (full + block));
                assert(self.opcode_buf@ =~= opcodes(Seq::<Segment>::empty()));
            }
        }
    }

    /// Writes the block in the making: its opcodes, zeros up to eight, and
    /// its payloads.
    fn flush_opcodes(&mut self)
        requires
            old(self).opcode_buf@.len() <= 8,
        ensures
            final(self).out@ == old(self).out@ + (old(self).opcode_buf@ + repeat(
                0,
                (8 - old(self).opcode_buf@.len()) as nat,
            ) + old(self).raw_buf@),
            final(self).opcode_buf@ == Seq::<u8>::empty(),
            final(self).raw_buf@ == Seq::<u8>::empty(),
            final(self).cols@ == old(self).cols@,
            final(self).types@ == old(self).types@,
            final(self).taken@ == old(self).taken@,
            final(self).segs@ == old(self).segs@,
    {
        let unused: usize = 8 - self.opcode_buf.len();
        write_bytes(&mut self.out, self.opcode_buf.as_slice());
        write_repeat(&mut self.out, 0, unused);
        write_bytes(&mut self.out, self.raw_buf.as_slice());
        self.opcode_buf.clear();
        self.raw_buf.clear();
        assert(self.out@ =~= old(self).out@ + (old(self).opcode_buf@ + repeat(
            0,
            (8 - old(self).opcode_buf@.len()) as nat,
        ) + old(self).raw_buf@));
    }
}

} // verus!
