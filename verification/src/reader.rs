use vstd::prelude::*;

verus! {

use crate::array::{dtype_v, len_v, wf_v, Array};
use crate::bytes::{from_le, lemma_from_le_bound, pow256, read_le_bytes};
use crate::compression::Compression;
use crate::datatypes::DataType;
use crate::encoding::{parse_array, parse_page};
use crate::error::Error;

/// A pull-based reader over one column's byte range: it decodes the
/// length-prefixed page records back to back until the range is exhausted.
pub struct FuseReader {
    reader: Vec<u8>,
    pos: usize,
    data_type: DataType,
    compression: Option<Compression>,
    scratch: Vec<u8>,
}

impl FuseReader {
    /// The cursor never leaves the range.
    pub closed spec fn inv(&self) -> bool {
        self.pos <= self.reader@.len()
    }

    pub closed spec fn spec_bytes(&self) -> Seq<u8> {
        self.reader@
    }

    pub closed spec fn spec_pos(&self) -> int {
        self.pos as int
    }

    pub closed spec fn spec_data_type(&self) -> DataType {
        self.data_type
    }

    /// Opens a reader over `reader`, the bytes of one column's range, whose
    /// pages hold arrays of shape `data_type`.
    pub fn new(
        reader: Vec<u8>,
        data_type: DataType,
        is_little_endian: bool,
        compression: Option<Compression>,
        num_values: usize,
        scratch: Vec<u8>,
    ) -> (r: FuseReader)
        requires
            is_little_endian,
        ensures
            r.inv(),
            r.spec_bytes() == reader@,
            r.spec_pos() == 0,
            r.spec_data_type() == data_type,
    {
        FuseReader { reader, pos: 0, data_type, compression, scratch }
    }

    /// Whether bytes remain before the end of the range: true exactly when
    /// the cursor has not reached it.
    pub fn has_next(&self) -> (r: bool)
        ensures
            r == (self.spec_pos() < self.spec_bytes().len()),
    {
        self.pos < self.reader.len()
    }

    /// Decodes the next page record and yields its array. On success the
    /// record at the cursor stands for exactly the returned array and the
    /// cursor moves past it; on failure no complete record stands there and
    /// the cursor stays.
    pub fn next_array(&mut self) -> (r: Result<Array, Error>)
        requires
            old(self).inv(),
        ensures
            final(self).inv(),
            final(self).spec_bytes() == old(self).spec_bytes(),
            final(self).spec_data_type() == old(self).spec_data_type(),
            match r {
                Ok(a) => parse_page(
                    old(self).spec_bytes(),
                    old(self).spec_pos(),
                    old(self).spec_data_type(),
                ) == Option::Some((a@, final(self).spec_pos())) && wf_v(a@) && dtype_v(a@) == old(
                    self,
                ).spec_data_type() && old(self).spec_pos() < final(self).spec_pos(),
                Err(_) => parse_page(
                    old(self).spec_bytes(),
                    old(self).spec_pos(),
                    old(self).spec_data_type(),
                ) is None && final(self).spec_pos() == old(self).spec_pos(),
            },
    {
        let len = self.reader.len();
        if len - self.pos < 4 {
            return Err(Error::FormatViolation);
        }
        let rows64 = read_le_bytes(&self.reader, self.pos, 4);
        proof {
            lemma_from_le_bound(self.reader@.subrange(self.pos as int, self.pos as int + 4));
            assert(pow256(4) == 0x1_0000_0000) by {
                reveal_with_fuel(pow256, 5);
            }
        }
        let rows = rows64 as usize;
        let mut p: usize = self.pos + 4;
        let res = crate::deserialize::read(
            &self.reader,
            &mut p,
            self.data_type,
            true,
            self.compression,
            rows,
            &mut self.scratch,
        );
        match res {
            Ok(a) => {
                self.pos = p;
                Ok(a)
            },
            Err(e) => Err(e),
        }
    }
}

} // verus!
