//! Writer of system files with zlib compression.
//!
//! The header of such a file states the number of rows, so a `Writer` is
//! made with that number and refuses to finish with another. The data
//! section names the offset of its own trailer, so the file is put
//! together when it is finished.

use crate::bytes::{le_i32, le_value, lemma_le_i32_roundtrip, write_bytes, write_le_u64, SPACE};
use crate::dictionary::{
    case_size, col_segments, col_types, col_views, dictionary, header_bytes,
    lemma_dictionary_starts_with_header, lemma_header_layout, magic_zsav, row_width, types_of,
    write_dictionary, ColView,
};
use crate::error::EncodeError;
use crate::ieee::SYSMIS_BITS;
use crate::row::{check_row, fits, row_valid, row_verdict, string_image};
use crate::zsav::{
    block_views, chunk, data_section, deflate_zlib, deflated_blocks, deflated_chunk,
    layout_fits, row_image, row_image_upto, value_image, write_data_section, ZBlock,
    ZLIB_BLOCK_SIZE, ZLIB_LEVEL,
};
use vstd::prelude::*;

pub use crate::dictionary::{ColDef, ColType};
pub use crate::row::Value;

verus! {

/// The bytes of a whole file with zlib compression: the dictionary of the
/// columns with the number of rows, and the data section of the rows'
/// image. The data section starts where the dictionary ends.
pub open spec fn zsav_file(cols: Seq<ColView>, ncases: i32, data: Seq<u8>) -> Seq<u8> {
    dictionary(true, cols, ncases) + data_section(
        dictionary(true, cols, ncases).len() as u64,
        deflated_blocks(data),
    )
}

/// A file with zlib compression starts with `$FL3`, states its number of
/// rows, and has as nominal case size the sum of the segment counts of
/// its columns.
pub proof fn lemma_zsav_file_header(cols: Seq<ColView>, ncases: i32, data: Seq<u8>)
    requires
        case_size(col_types(cols)) <= i32::MAX,
        ncases >= 0,
    ensures
        zsav_file(cols, ncases, data).len() >= 176,
        zsav_file(cols, ncases, data).subrange(0, 4) == magic_zsav(),
        zsav_file(cols, ncases, data).subrange(80, 84) == le_i32(ncases),
        le_value(zsav_file(cols, ncases, data).subrange(80, 84)) == ncases,
        zsav_file(cols, ncases, data).subrange(72, 76) == le_i32(2),
        zsav_file(cols, ncases, data).subrange(68, 72) == le_i32(case_size(col_types(cols)) as i32),
        le_value(zsav_file(cols, ncases, data).subrange(68, 72)) == case_size(col_types(cols)),
{
    let width = case_size(col_types(cols)) as i32;
    let file = zsav_file(cols, ncases, data);
    lemma_dictionary_starts_with_header(true, cols, ncases);
    lemma_header_layout(true, width, ncases);
    lemma_le_i32_roundtrip(width);
    lemma_le_i32_roundtrip(ncases);
    let header = header_bytes(true, width, ncases);
    assert(file.subrange(0, 176) =~= header);
    assert(file.subrange(0, 4) =~= header.subrange(0, 4));
    assert(file.subrange(80, 84) =~= header.subrange(80, 84));
    assert(file.subrange(72, 76) =~= header.subrange(72, 76));
    assert(file.subrange(68, 72) =~= header.subrange(68, 72));
}

/// The bytes of the file of some rows: the number of rows that the header
/// states is the number of the rows.
pub open spec fn zsav_file_of_rows(cols: Seq<ColView>, rows: Seq<Seq<Value>>) -> Seq<u8> {
    zsav_file(cols, rows.len() as i32, crate::zsav::rows_image(col_types(cols), rows))
}

/// The header of the file of some rows states how many they are.
pub proof fn lemma_zsav_states_row_count(cols: Seq<ColView>, rows: Seq<Seq<Value>>)
    requires
        case_size(col_types(cols)) <= i32::MAX,
        rows.len() <= i32::MAX,
    ensures
        zsav_file_of_rows(cols, rows).len() >= 176,
        zsav_file_of_rows(cols, rows).subrange(0, 4) == magic_zsav(),
        le_value(zsav_file_of_rows(cols, rows).subrange(80, 84)) == rows.len(),
        le_value(zsav_file_of_rows(cols, rows).subrange(68, 72)) == case_size(col_types(cols)),
{
    lemma_zsav_file_header(
        cols,
        rows.len() as i32,
        crate::zsav::rows_image(col_types(cols), rows),
    );
}

/// A full block of some data is the same block of any longer data.
proof fn lemma_chunk_stable(data: Seq<u8>, more: Seq<u8>, i: int)
    requires
        0 <= i,
        (i + 1) * ZLIB_BLOCK_SIZE <= data.len(),
    ensures
        chunk(data + more, i) == chunk(data, i),
{
    assert(chunk(data + more, i) =~= chunk(data, i));
}

/// Writer of a system file with zlib compression.
pub struct Writer {
    /// The dictionary, written when the writer was made.
    dict: Vec<u8>,
    types: Vec<ColType>,
    declared: usize,
    written: usize,
    /// The block in the making, not yet deflated.
    block: Vec<u8>,
    /// The blocks deflated so far.
    blocks: Vec<ZBlock>,
    /// The columns that the dictionary was written for.
    cols: Ghost<Seq<ColView>>,
    /// The image of all rows written so far.
    data: Ghost<Seq<u8>>,
}

impl Writer {
    /// The columns that the writer was made with.
    pub closed spec fn columns(&self) -> Seq<ColView> {
        self.cols@
    }

    /// The types of the columns.
    pub open spec fn types(&self) -> Seq<ColType> {
        col_types(self.columns())
    }

    /// The number of rows that the header states.
    pub closed spec fn declared_rows(&self) -> nat {
        self.declared as nat
    }

    /// The number of rows written so far.
    pub closed spec fn rows_written(&self) -> nat {
        self.written as nat
    }

    /// The image of all rows written so far.
    pub closed spec fn data(&self) -> Seq<u8> {
        self.data@
    }

    /// The full blocks of the data are deflated and the rest is waiting.
    closed spec fn staged(&self) -> bool {
        let k = self.blocks@.len();
        &&& self.types@ == col_types(self.cols@)
        &&& self.declared <= i32::MAX
        &&& self.written <= self.declared
        &&& self.dict@ == dictionary(true, self.cols@, self.declared as i32)
        &&& k * ZLIB_BLOCK_SIZE <= self.data@.len()
        &&& self.block@ == self.data@.subrange(k * ZLIB_BLOCK_SIZE, self.data@.len() as int)
        &&& forall|i: int| 0 <= i < k ==> (#[trigger] self.blocks@[i])@ == deflated_chunk(
            self.data@,
            i,
        )
    }

    /// The invariant of a writer.
    pub closed spec fn wf(&self) -> bool {
        self.staged() && self.block@.len() < ZLIB_BLOCK_SIZE
    }

    /// Starts a file for `row_count` rows over `cols`.
    ///
    /// Fails where the number of rows or the nominal case size does not
    /// fit its 32-bit field.
    pub fn new_zsav(cols: &[ColDef], row_count: usize) -> (made: Result<Writer, EncodeError>)
        ensures
            match made {
                Ok(w) => {
                    &&& row_count <= i32::MAX
                    &&& case_size(col_types(col_views(cols@))) <= i32::MAX
                    &&& w.wf()
                    &&& w.columns() == col_views(cols@)
                    &&& w.declared_rows() == row_count
                    &&& w.rows_written() == 0
                    &&& w.data() == Seq::<u8>::empty()
                },
                Err(e) => e == EncodeError::TooLarge && (row_count > i32::MAX || case_size(
                    col_types(col_views(cols@)),
                ) > i32::MAX),
            },
    {
        if row_count > i32::MAX as usize {
            return Err(EncodeError::TooLarge);
        }
        match row_width(cols) {
            None => Err(EncodeError::TooLarge),
            Some(width) => {
                let mut dict: Vec<u8> = Vec::new();
                write_dictionary(&mut dict, true, cols, width, row_count as i32);
                let w = Writer {
                    dict,
                    types: types_of(cols),
                    declared: row_count,
                    written: 0,
                    block: Vec::new(),
                    blocks: Vec::new(),
                    cols: Ghost(col_views(cols@)),
                    data: Ghost(Seq::empty()),
                };
                proof {
                    assert(w.dict@ =~= dictionary(true, w.cols@, row_count as i32));
                    assert(w.block@ =~= w.data@.subrange(0, 0));
                }
                Ok(w)
            },
        }
    }

    /// Writes one row: one value per column, in the columns' order.
    ///
    /// A row that does not fit the columns is refused for that, whatever
    /// has been written. A row that fits is refused where the declared
    /// number of rows is written already. Nothing of a refused row is
    /// written.
    pub fn write_row(&mut self, values: &[Value]) -> (done: Result<(), EncodeError>)
        requires
            old(self).wf(),
        ensures
            final(self).wf(),
            final(self).columns() == old(self).columns(),
            final(self).declared_rows() == old(self).declared_rows(),
            !row_valid(old(self).types(), values@) ==> done is Err && row_verdict(
                old(self).types(),
                values@,
                done,
            ),
            row_valid(old(self).types(), values@) && old(self).rows_written() >= old(self).declared_rows() ==> done == Err::<(), EncodeError>(
                EncodeError::RowCount {
                    declared: old(self).declared_rows() as usize,
                    written: (old(self).rows_written() + 1) as usize,
                },
            ),
            row_valid(old(self).types(), values@) && old(self).rows_written() < old(self).declared_rows() ==> done is Ok,
            done is Ok ==> final(self).data() == old(self).data() + row_image(
                old(self).types(),
                values@,
            ) && final(self).rows_written() == old(self).rows_written() + 1,
            done is Err ==> final(self).data() == old(self).data() && final(self).rows_written()
                == old(self).rows_written(),
    {
        match check_row(self.types.as_slice(), values) {
            Err(e) => {
                return Err(e);
            },
            Ok(_) => {},
        }
        if self.written >= self.declared {
            return Err(
                EncodeError::RowCount { declared: self.declared, written: self.written + 1 },
            );
        }
        let ghost types = self.types@;
        let ghost before = self.data@;
        let n = self.types.len();
        let mut i: usize = 0;
        assert(before =~= before + row_image_upto(types, values@, 0));
        while i < n
            invariant
                i <= n,
                n == self.types.len(),
                n == values.len(),
                self.staged(),
                self.cols@ == old(self).cols@,
                self.types@ == types,
                types == old(self).types@,
                self.declared == old(self).declared,
                self.written == old(self).written,
                before == old(self).data@,
                row_valid(types, values@),
                self.data@ == before + row_image_upto(types, values@, i as nat),
            decreases n - i,
        {
            let col_type = self.types[i];
            let ghost so_far = self.data@;
            assert(fits(types[i as int], values@[i as int]));
            match &values[i] {
                Value::Number(number) => {
                    let bits: u64 = match number {
                        Some(bits) => *bits,
                        None => SYSMIS_BITS,
                    };
                    self.push_number(bits);
                },
                Value::String(bytes) => {
                    match col_type {
                        ColType::String(w) => {
                            self.push_string(bytes.as_slice(), w);
                        },
                        ColType::Numeric => {},
                    }
                },
            }
            proof {
                let step = value_image(types[i as int], values@[i as int]);
                assert(self.data@ == so_far + step);
                assert(self.data@ =~= before + row_image_upto(types, values@, (i + 1) as nat));
            }
            i += 1;
        }
        self.written = self.written + 1;
        self.deflate_full_blocks();
        Ok(())
    }

    /// Ends the file and returns all its bytes.
    ///
    /// Refuses where fewer rows were written than declared, and where a
    /// size or an offset of the data section does not fit its field.
    pub fn finish(self) -> (file: Result<Vec<u8>, EncodeError>)
        requires
            self.wf(),
        ensures
            match file {
                Ok(bytes) => {
                    &&& self.rows_written() == self.declared_rows()
                    &&& self.declared_rows() <= i32::MAX
                    &&& bytes@ == zsav_file(
                        self.columns(),
                        self.declared_rows() as i32,
                        self.data(),
                    )
                },
                Err(EncodeError::RowCount { declared, written }) => {
                    &&& self.rows_written() != self.declared_rows()
                    &&& declared == self.declared_rows()
                    &&& written == self.rows_written()
                },
                Err(EncodeError::TooLarge) => {
                    &&& self.rows_written() == self.declared_rows()
                    &&& !layout_fits(
                        dictionary(true, self.columns(), self.declared_rows() as i32).len() as u64,
                        deflated_blocks(self.data()),
                    )
                },
                Err(_) => false,
            },
    {
        if self.written != self.declared {
            return Err(EncodeError::RowCount { declared: self.declared, written: self.written });
        }
        let mut w = self;
        let ghost k = self.blocks@.len();
        if w.block.len() > 0 {
            let compressed = deflate_zlib(w.block.as_slice(), ZLIB_LEVEL);
            w.blocks.push(ZBlock { uncompressed_size: w.block.len(), compressed });
            proof {
                assert(chunk(self.data@, k as int) =~= self.block@);
            }
        }
        proof {
            assert(block_views(w.blocks@) =~= deflated_blocks(self.data@));
        }
        let start: u64 = w.dict.len() as u64;
        match write_data_section(start, w.blocks.as_slice()) {
            Err(e) => Err(e),
            Ok(section) => {
                let mut out = w.dict;
                write_bytes(&mut out, section.as_slice());
                Ok(out)
            },
        }
    }

    /// Adds the eight bytes of a number to the data.
    fn push_number(&mut self, bits: u64)
        requires
            old(self).staged(),
        ensures
            final(self).staged(),
            final(self).cols@ == old(self).cols@,
            final(self).types@ == old(self).types@,
            final(self).declared == old(self).declared,
            final(self).written == old(self).written,
            final(self).data@ == old(self).data@ + crate::bytes::le_u64(bits),
    {
        let mut raw: Vec<u8> = Vec::new();
        write_le_u64(&mut raw, bits);
        assert(raw@ =~= crate::bytes::le_u64(bits));
        self.push_bytes(raw.as_slice());
    }

    /// Adds the image of a string in a column of width `w` to the data.
    fn push_string(&mut self, bytes: &[u8], w: u16)
        requires
            old(self).staged(),
        ensures
            final(self).staged(),
            final(self).cols@ == old(self).cols@,
            final(self).types@ == old(self).types@,
            final(self).declared == old(self).declared,
            final(self).written == old(self).written,
            final(self).data@ == old(self).data@ + string_image(bytes@, w),
    {
        let total: usize = 8 * col_segments(&ColType::String(w));
        let ghost image = string_image(bytes@, w);
        let mut padded: Vec<u8> = Vec::new();
        let mut at: usize = 0;
        while at < total
            invariant
                at <= total,
                total == image.len(),
                image == string_image(bytes@, w),
                padded@ == image.subrange(0, at as int),
            decreases total - at,
        {
            let byte: u8 = if at < bytes.len() && at < w as usize { bytes[at] } else { SPACE };
            padded.push(byte);
            assert(padded@ =~= image.subrange(0, at + 1));
            at += 1;
        }
        assert(padded@ =~= image);
        self.push_bytes(padded.as_slice());
    }

    /// Adds bytes to the data.
    fn push_bytes(&mut self, bytes: &[u8])
        requires
            old(self).staged(),
        ensures
            final(self).staged(),
            final(self).cols@ == old(self).cols@,
            final(self).types@ == old(self).types@,
            final(self).declared == old(self).declared,
            final(self).written == old(self).written,
            final(self).data@ == old(self).data@ + bytes@,
    {
        let ghost k = self.blocks@.len();
        write_bytes(&mut self.block, bytes);
        self.data = Ghost(self.data@ + bytes@);
        proof {
            assert(self.block@ =~= self.data@.subrange(
                k * ZLIB_BLOCK_SIZE,
                self.data@.len() as int,
            ));
            assert forall|i: int| 0 <= i < k implies (#[trigger] self.blocks@[i])@
                == deflated_chunk(self.data@, i) by {
                assert((i + 1) * ZLIB_BLOCK_SIZE <= k * ZLIB_BLOCK_SIZE) by (nonlinear_arith)
                    requires
                        i + 1 <= k,
                ;
                lemma_chunk_stable(old(self).data@, bytes@, i);
            }
        }
    }

    /// Deflates every full block that is waiting.
    fn deflate_full_blocks(&mut self)
        requires
            old(self).staged(),
        ensures
            final(self).wf(),
            final(self).cols@ == old(self).cols@,
            final(self).types@ == old(self).types@,
            final(self).declared == old(self).declared,
            final(self).written == old(self).written,
            final(self).data@ == old(self).data@,
    {
        while self.block.len() >= ZLIB_BLOCK_SIZE
            invariant
                self.staged(),
                self.cols@ == old(self).cols@,
                self.types@ == old(self).types@,
                self.declared == old(self).declared,
                self.written == old(self).written,
                self.data@ == old(self).data@,
            decreases self.block@.len(),
        {
            let ghost k = self.blocks@.len();
            let ghost earlier = self.blocks@;
            let rest = self.block.split_off(ZLIB_BLOCK_SIZE);
            let compressed = deflate_zlib(self.block.as_slice(), ZLIB_LEVEL);
            proof {
                assert((k + 1) * ZLIB_BLOCK_SIZE == k * ZLIB_BLOCK_SIZE + ZLIB_BLOCK_SIZE)
                    by (nonlinear_arith);
                assert(self.block@ =~= chunk(self.data@, k as int));
                assert(rest@ =~= self.data@.subrange(
                    (k + 1) * ZLIB_BLOCK_SIZE,
                    self.data@.len() as int,
                ));
            }
            self.blocks.push(ZBlock { uncompressed_size: ZLIB_BLOCK_SIZE, compressed });
            self.block = rest;
            proof {
                assert forall|i: int| 0 <= i < k + 1 implies (#[trigger] self.blocks@[i])@
                    == deflated_chunk(self.data@, i) by {
                    if i < k {
                        assert(self.blocks@[i] == earlier[i]);
                    }
                }
            }
        }
    }
}

} // verus!
