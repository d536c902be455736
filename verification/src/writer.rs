use vstd::prelude::*;

verus! {

use crate::array::{arrays_v, dtype_v, len_v, lemma_slice_wf, slice_v, wf_v, Array, ArrayV};
use crate::bytes::{from_le, le_bytes, lemma_le_bytes_len, lemma_le_round_trip, pow256, push_le_bytes};
use crate::compression::Compression;
use crate::datatypes::Schema;
use crate::encoding::{enc_array, enc_page, parse_array, parse_page};
use crate::error::Error;
use crate::serialize::enc_sizes_ok;
use vstd::arithmetic::div_mod::lemma_fundamental_div_mod_converse_div;

/// Options declaring how chunks are written: whether every buffer is
/// compressed and with which codec, and the largest number of rows a single
/// page may carry (unset: each column is one page).
#[derive(Clone, Copy, Debug, PartialEq, Eq)]
pub struct WriteOptions {
    pub compression: Option<Compression>,
    pub max_page_size: Option<usize>,
}

/// One side-index entry: where a column's encoded pages begin in the byte
/// stream, how many bytes they span, and how many rows they carry.
#[derive(Clone, Copy, Debug, PartialEq, Eq, Structural)]
pub struct ColumnMeta {
    pub offset: u64,
    pub length: u64,
    pub num_values: u64,
}

/// The writer's phase; it only ever advances.
#[derive(Clone, Copy, Debug, PartialEq, Eq, Structural)]
pub enum State {
    Initial,
    Started,
    Written,
    Finished,
}

/// A byte sink that tracks how many bytes stand before its write position.
pub struct OffsetWriter {
    pub w: Vec<u8>,
    pub offset: u64,
}

impl OffsetWriter {
    /// Appends `buf` to the sink and advances the recorded position by its
    /// length.
    pub fn write_all(&mut self, buf: &Vec<u8>)
        requires
            old(self).offset == old(self).w@.len(),
        ensures
            final(self).w@ == old(self).w@ + buf@,
            final(self).offset == final(self).w@.len(),
    {
        crate::buffer::append_bytes(&mut self.w, buf);
        self.offset = self.w.len() as u64;
    }

    /// An in-memory sink holds everything already; flushing changes nothing.
    pub fn flush(&mut self)
        ensures
            *final(self) == *old(self),
    {
    }
}

/// Read access to a sink's write position.
pub trait OffsetWrite {
    fn offset(&self) -> usize;
}

impl OffsetWrite for OffsetWriter {
    fn offset(&self) -> usize {
        self.offset as usize
    }
}

/// A row-aligned batch: one array per schema column, all with the same row
/// count.
pub struct Chunk {
    pub arrays: Vec<Array>,
}

impl Chunk {
    pub fn new(arrays: Vec<Array>) -> (r: Chunk)
        ensures
            r.arrays@ == arrays@,
    {
        Chunk { arrays }
    }

    /// Decides whether this chunk can be handed to the writer: every column
    /// well-formed, row-aligned with the first, and the row count within the
    /// 4-byte page header.
    #[verifier::loop_isolation(false)]
    pub fn check_wf(&self) -> (r: bool)
        ensures
            r == (chunk_wf(arrays_v(self.arrays@)) && chunk_rows(arrays_v(self.arrays@))
                <= 0xffff_ffff),
    {
        let n = self.arrays.len();
        if n == 0 {
            return true;
        }
        if !self.arrays[0].check_wf() {
            proof {
                assert(arrays_v(self.arrays@)[0] == self.arrays@[0]@);
            }
            return false;
        }
        let rows = self.arrays[0].len();
        if rows > 0xffff_ffff {
            return false;
        }
        let mut j: usize = 1;
        while j < n
            invariant
                1 <= j <= n,
                n == self.arrays@.len(),
                rows == chunk_rows(arrays_v(self.arrays@)),
                forall|jj: int| 0 <= jj < j ==> wf_v(#[trigger] arrays_v(self.arrays@)[jj])
                    && len_v(arrays_v(self.arrays@)[jj]) == rows,
            decreases n - j,
        {
            proof {
                assert(arrays_v(self.arrays@)[j as int] == self.arrays@[j as int]@);
            }
            if !self.arrays[j].check_wf() {
                return false;
            }
            if self.arrays[j].len() != rows {
                return false;
            }
            j = j + 1;
        }
        true
    }

    /// The row count: that of the first column, or zero with no columns.
    pub fn len(&self) -> (r: usize)
        requires
            self.arrays@.len() > 0 ==> wf_v(self.arrays@[0]@),
        ensures
            r == chunk_rows(arrays_v(self.arrays@)),
    {
        if self.arrays.len() == 0 {
            0
        } else {
            self.arrays[0].len()
        }
    }
}

/// The row count of a chunk: that of its first column, or zero.
pub open spec fn chunk_rows(avs: Seq<ArrayV>) -> int {
    if avs.len() == 0 {
        0
    } else {
        len_v(avs[0])
    }
}

/// Every column is well-formed and row-aligned with the first.
pub open spec fn chunk_wf(avs: Seq<ArrayV>) -> bool {
    forall|j: int| 0 <= j < avs.len() ==> wf_v(#[trigger] avs[j]) && len_v(avs[j]) == chunk_rows(
        avs,
    )
}

/// The fixed file marker written at both ends of a fuse byte stream.
pub open spec fn magic() -> Seq<u8> {
    seq![0x41u8, 0x52u8, 0x52u8, 0x4fu8, 0x57u8, 0x31u8]
}

/// How many rows page `k * p ..` of a `total`-row column carries.
pub open spec fn page_len_at(total: int, p: int, off: int) -> int {
    if off + p >= total {
        total - off
    } else {
        p
    }
}

/// How many pages a `total`-row column splits into: one per `p` rows begun,
/// and a single empty page for an empty column.
pub open spec fn page_count(total: int, p: int) -> int {
    if total == 0 {
        1
    } else {
        (total + p - 1) / p
    }
}

/// The successive pages of one column.
pub open spec fn pages_of(a: ArrayV, p: int) -> Seq<ArrayV> {
    Seq::new(
        page_count(len_v(a), p) as nat,
        |k: int| slice_v(a, k * p, page_len_at(len_v(a), p, k * p)),
    )
}

/// The encodings of the first `k` pages of one column, back to back.
pub open spec fn enc_pages_upto(a: ArrayV, p: int, k: int, c: Option<Compression>) -> Seq<u8>
    decreases k,
{
    if k <= 0 {
        Seq::empty()
    } else {
        enc_pages_upto(a, p, k - 1, c) + enc_page(pages_of(a, p)[k - 1], c)
    }
}

/// The bytes one column contributes: its pages' records, back to back.
pub open spec fn enc_pages(a: ArrayV, p: int, c: Option<Compression>) -> Seq<u8> {
    enc_pages_upto(a, p, page_count(len_v(a), p), c)
}

/// The bytes the first `j` columns of a chunk contribute.
pub open spec fn enc_chunk_upto(avs: Seq<ArrayV>, j: int, p: int, c: Option<Compression>) -> Seq<
    u8,
>
    decreases j,
{
    if j <= 0 {
        Seq::empty()
    } else {
        enc_chunk_upto(avs, j - 1, p, c) + enc_pages(avs[j - 1], p, c)
    }
}

/// The bytes a whole chunk contributes: each column's pages in schema order,
/// never interleaved.
pub open spec fn enc_chunk(avs: Seq<ArrayV>, p: int, c: Option<Compression>) -> Seq<u8> {
    enc_chunk_upto(avs, avs.len() as int, p, c)
}

/// The side-index entries of the first `j` columns, starting at byte `base`.
pub open spec fn chunk_metas_upto(
    avs: Seq<ArrayV>,
    j: int,
    base: int,
    p: int,
    c: Option<Compression>,
) -> Seq<ColumnMeta>
    decreases j,
{
    if j <= 0 {
        Seq::empty()
    } else {
        chunk_metas_upto(avs, j - 1, base, p, c).push(
            ColumnMeta {
                offset: (base + enc_chunk_upto(avs, j - 1, p, c).len()) as u64,
                length: enc_pages(avs[j - 1], p, c).len() as u64,
                num_values: len_v(avs[j - 1]) as u64,
            },
        )
    }
}

/// The side-index entries a chunk contributes, starting at byte `base`: one
/// per column, in schema order, spanning consecutive byte ranges.
pub open spec fn chunk_metas(avs: Seq<ArrayV>, base: int, p: int, c: Option<Compression>) -> Seq<
    ColumnMeta,
>
    {
    chunk_metas_upto(avs, avs.len() as int, base, p, c)
}

/// Every buffer of every column is small enough to frame and compress.
pub open spec fn chunk_sizes_ok(avs: Seq<ArrayV>) -> bool {
    forall|j: int| 0 <= j < avs.len() ==> enc_sizes_ok(#[trigger] avs[j])
}

/// The page size a writer uses for a chunk: the configured cap, bounded by
/// the chunk's row count; the whole chunk as one page when unset.
pub open spec fn spec_page_size(options: WriteOptions, avs: Seq<ArrayV>) -> int {
    let rows = chunk_rows(avs);
    match options.max_page_size {
        Option::Some(p) => if p <= rows {
            p as int
        } else {
            rows
        },
        Option::None => rows,
    }
}

proof fn lemma_page_index_lt(total: int, p: int, k: int)
    requires
        total >= 1,
        p >= 1,
        k >= 0,
        k * p < total,
    ensures
        k < page_count(total, p),
{
    assert((k + 1) * p == k * p + p) by (nonlinear_arith);
    assert((k + 1) == ((k + 1) * p) / p) by {
        assert(((k + 1) * p) == p * (k + 1)) by (nonlinear_arith);
        vstd::arithmetic::div_mod::lemma_div_multiples_vanish(k + 1, p);
    }
    vstd::arithmetic::div_mod::lemma_div_is_ordered((k + 1) * p, total + p - 1, p);
}

proof fn lemma_page_count_from_bounds(total: int, p: int, k: int)
    requires
        total >= 1,
        p >= 1,
        k >= 1,
        k * p >= total,
        (k - 1) * p < total,
    ensures
        k == page_count(total, p),
{
    assert((k - 1) * p == k * p - p) by (nonlinear_arith);
    lemma_fundamental_div_mod_converse_div(total + p - 1, p, k, total + p - 1 - k * p);
}

/// That the page record beginning at `base` parses back to exactly `a`,
/// consuming the rest of `whole`. Kept opaque so writer proofs can carry it
/// without unfolding the parser; callers reveal it when they read.
#[verifier::opaque]
pub open spec fn page_parses_back(whole: Seq<u8>, base: int, a: ArrayV) -> bool {
    parse_page(whole, base, dtype_v(a)) == Option::<(ArrayV, int)>::Some((a, whole.len() as int))
}

/// A page record whose header holds the array's row count and whose body
/// parses back to the array parses back to it as a whole.
proof fn lemma_parse_page_compose(whole: Seq<u8>, base: int, a: ArrayV, dt: crate::datatypes::DataType)
    requires
        0 <= base,
        base + 4 <= whole.len(),
        0 <= len_v(a) <= 0xffff_ffff,
        whole.subrange(base, base + 4) == le_bytes(len_v(a) as nat, 4),
        parse_array(whole, base + 4, dt, len_v(a)) == Option::Some((a, whole.len() as int)),
    ensures
        parse_page(whole, base, dt) == Option::Some((a, whole.len() as int)),
{
    assert(pow256(4) == 0x1_0000_0000) by {
        reveal_with_fuel(pow256, 5);
    }
    lemma_le_round_trip(len_v(a) as nat, 4);
}

/// The fuse file writer: a state machine that frames chunks as length-prefixed,
/// page-split, optionally compressed records between a leading and a trailing
/// marker, and accumulates the side index of the columns it has written.
pub struct FuseWriter {
    pub writer: OffsetWriter,
    pub options: WriteOptions,
    pub schema: Schema,
    /// One entry per column segment written so far; the caller persists these
    /// separately as the side index.
    pub metas: Vec<ColumnMeta>,
    pub scratch: Vec<u8>,
    pub state: State,
}

impl FuseWriter {
    /// The sink's recorded position always equals the bytes it holds.
    pub open spec fn inv(&self) -> bool {
        self.writer.offset == self.writer.w@.len()
    }

    /// Creates a writer over `writer` without writing anything.
    pub fn new(writer: Vec<u8>, schema: Schema, options: WriteOptions) -> (r: FuseWriter)
        ensures
            r.inv(),
            r.writer.w@ == writer@,
            r.options == options,
            r.schema.fields@ == schema.fields@,
            r.metas@ == Seq::<ColumnMeta>::empty(),
            r.state == State::Initial,
    {
        let offset = writer.len() as u64;
        FuseWriter {
            writer: OffsetWriter { w: writer, offset },
            options,
            schema,
            metas: Vec::new(),
            scratch: Vec::new(),
            state: State::Initial,
        }
    }

    /// Creates a writer and writes the leading marker.
    pub fn try_new(writer: Vec<u8>, schema: &Schema, options: WriteOptions) -> (r: Result<
        FuseWriter,
        Error,
    >)
        ensures
            r matches Ok(wtr) ==> wtr.inv() && wtr.writer.w@ == writer@ + magic() + seq![0u8, 0u8]
                && wtr.options == options && wtr.schema.fields@ == schema.fields@ && wtr.metas@
                == Seq::<ColumnMeta>::empty() && wtr.state == State::Started,
            r is Ok,
    {
        let mut slf = Self::new(writer, schema.clone(), options);
        match slf.start() {
            Ok(_) => Ok(slf),
            Err(e) => Err(e),
        }
    }

    /// Consumes the writer into its sink.
    pub fn into_inner(self) -> (r: Vec<u8>)
        ensures
            r@ == self.writer.w@,
    {
        self.writer.w
    }

    /// Writes the leading marker and two padding bytes; fails if the stream
    /// was already started.
    pub fn start(&mut self) -> (r: Result<(), Error>)
        requires
            old(self).inv(),
        ensures
            final(self).inv(),
            r is Ok <==> old(self).state == State::Initial,
            r is Ok ==> final(self).writer.w@ == old(self).writer.w@ + magic() + seq![0u8, 0u8]
                && final(self).state == State::Started && final(self).metas@ == old(self).metas@
                && final(self).schema == old(self).schema && final(self).options == old(
                self,
            ).options,
            r is Err ==> *final(self) == *old(self) && r == Err::<(), Error>(
                Error::FormatViolation,
            ),
    {
        if !matches!(self.state, State::Initial) {
            return Err(Error::FormatViolation);
        }
        self.writer.w.push(0x41);
        self.writer.w.push(0x52);
        self.writer.w.push(0x52);
        self.writer.w.push(0x4f);
        self.writer.w.push(0x57);
        self.writer.w.push(0x31);
        self.writer.w.push(0);
        self.writer.w.push(0);
        self.writer.offset = self.writer.w.len() as u64;
        self.state = State::Started;
        proof {
            assert(self.writer.w@ =~= old(self).writer.w@ + magic() + seq![0u8, 0u8]);
        }
        Ok(())
    }

    /// Appends one side-index entry.
    pub fn add_meta(&mut self, start: u64, length: u64, num_values: u64)
        ensures
            final(self).metas@ == old(self).metas@.push(
                ColumnMeta { offset: start, length, num_values },
            ),
            final(self).writer == old(self).writer,
            final(self).state == old(self).state,
            final(self).schema == old(self).schema,
            final(self).options == old(self).options,
    {
        let meta = ColumnMeta { offset: start, length, num_values };
        self.metas.push(meta);
    }

    /// Writes one page record: a 4-byte little-endian row count, then the
    /// array's encoding. On success the record parses back to the array.
    #[verifier::rlimit(100)]
    #[verifier::spinoff_prover]
    pub fn write_array(&mut self, array: &Array, is_little_endian: bool) -> (r: Result<(), Error>)
        requires
            old(self).inv(),
            is_little_endian,
            wf_v(array@),
            len_v(array@) <= 0xffff_ffff,
        ensures
            final(self).inv(),
            final(self).metas@ == old(self).metas@ && final(self).state == old(self).state
                && final(self).schema == old(self).schema && final(self).options == old(
                self,
            ).options,
            old(self).writer.w@.len() <= final(self).writer.w@.len(),
            final(self).writer.w@.subrange(0, old(self).writer.w@.len() as int) == old(
                self,
            ).writer.w@,
            r is Ok ==> final(self).writer.w@ == old(self).writer.w@ + enc_page(
                array@,
                old(self).options.compression,
            ) && page_parses_back(final(self).writer.w@, old(self).writer.w@.len() as int, array@),
            enc_sizes_ok(array@) ==> r is Ok,
    {
        let rows = array.len();
        let ghost base = self.writer.w@.len() as int;
        proof {
            assert(pow256(4) == 0x1_0000_0000) by {
                reveal_with_fuel(pow256, 5);
            }
        }
        push_le_bytes(&mut self.writer.w, rows as u64, 4);
        let res = crate::serialize::write(
            &mut self.writer.w,
            array,
            is_little_endian,
            self.options.compression,
            &mut self.scratch,
        );
        self.writer.offset = self.writer.w.len() as u64;
        proof {
            assert(self.writer.w@.subrange(0, old(self).writer.w@.len() as int)
                =~= old(self).writer.w@);
        }
        match res {
            Ok(_) => {
                proof {
                    lemma_le_bytes_len(rows as nat, 4);
                    assert(self.writer.w@.subrange(base, base + 4) =~= le_bytes(rows as nat, 4));
                    lemma_parse_page_compose(self.writer.w@, base, array@, dtype_v(array@));
                    reveal(page_parses_back);
                    assert(self.writer.w@ =~= old(self).writer.w@ + enc_page(
                        array@,
                        old(self).options.compression,
                    ));
                }
                Ok(())
            },
            Err(e) => Err(e),
        }
    }


    /// Writes one chunk of arrays, one per schema column. Fails with a state
    /// violation unless the stream was started and not yet written; on
    /// success the writer advances to the written phase, the byte stream
    /// grows by exactly the chunk's page records, and one side-index entry
    /// per column is appended, in schema order.
    pub fn write(&mut self, chunk: &Chunk) -> (r: Result<(), Error>)
        requires
            old(self).inv(),
            chunk.arrays@.len() == old(self).schema.fields@.len(),
            chunk_wf(arrays_v(chunk.arrays@)),
            chunk_rows(arrays_v(chunk.arrays@)) <= 0xffff_ffff,
            match old(self).options.max_page_size {
                Option::Some(p) => p >= 1,
                Option::None => true,
            },
        ensures
            final(self).inv(),
            final(self).schema == old(self).schema && final(self).options == old(self).options,
            old(self).state != State::Started ==> r == Err::<(), Error>(Error::FormatViolation)
                && *final(self) == *old(self),
            old(self).state == State::Started && r is Err ==> final(self).state == State::Started,
            r is Ok ==> old(self).state == State::Started && final(self).state == State::Written
                && final(self).writer.w@ == old(self).writer.w@ + enc_chunk(
                arrays_v(chunk.arrays@),
                spec_page_size(old(self).options, arrays_v(chunk.arrays@)),
                old(self).options.compression,
            ) && final(self).metas@ == old(self).metas@ + chunk_metas(
                arrays_v(chunk.arrays@),
                old(self).writer.w@.len() as int,
                spec_page_size(old(self).options, arrays_v(chunk.arrays@)),
                old(self).options.compression,
            ),
            old(self).state == State::Started && chunk_sizes_ok(arrays_v(chunk.arrays@))
                ==> r is Ok,
    {
        if !matches!(self.state, State::Started) {
            return Err(Error::FormatViolation);
        }
        match self.encode_chunk(chunk) {
            Ok(_) => {
                self.state = State::Written;
                Ok(())
            },
            Err(e) => Err(e),
        }
    }

    /// Writes the zero-length continuation marker and the trailing marker,
    /// then moves to the finished phase; fails unless a chunk was written.
    pub fn finish(&mut self) -> (r: Result<(), Error>)
        requires
            old(self).inv(),
        ensures
            final(self).inv(),
            r is Ok <==> old(self).state == State::Written,
            r is Ok ==> final(self).writer.w@ == old(self).writer.w@ + le_bytes(0, 4) + magic()
                && final(self).state == State::Finished && final(self).metas@ == old(self).metas@
                && final(self).schema == old(self).schema && final(self).options == old(
                self,
            ).options,
            r is Err ==> *final(self) == *old(self) && r == Err::<(), Error>(
                Error::FormatViolation,
            ),
    {
        if !matches!(self.state, State::Written) {
            return Err(Error::FormatViolation);
        }
        proof {
            assert(pow256(4) == 0x1_0000_0000) by {
                reveal_with_fuel(pow256, 5);
            }
        }
        push_le_bytes(&mut self.writer.w, 0, 4);
        self.writer.w.push(0x41);
        self.writer.w.push(0x52);
        self.writer.w.push(0x52);
        self.writer.w.push(0x4f);
        self.writer.w.push(0x57);
        self.writer.w.push(0x31);
        self.writer.offset = self.writer.w.len() as u64;
        self.state = State::Finished;
        proof {
            assert(self.writer.w@ =~= old(self).writer.w@ + le_bytes(0, 4) + magic());
        }
        Ok(())
    }

    /// How many bytes the sink holds.
    pub fn total_size(&self) -> (r: usize)
        requires
            self.inv(),
        ensures
            r == self.writer.w@.len(),
    {
        // binds the sink's length, so the cast below is known to be in range
        let n = self.writer.w.len();
        self.writer.offset as usize
    }

    /// Writes every page of one column, back to back.
    #[verifier::rlimit(100)]
    #[verifier::spinoff_prover]
    fn write_column_pages(&mut self, array: &Array, page_size: usize) -> (r: Result<(), Error>)
        requires
            old(self).inv(),
            wf_v(array@),
            len_v(array@) <= 0xffff_ffff,
            len_v(array@) >= 1 ==> 1 <= page_size <= len_v(array@),
        ensures
            final(self).inv(),
            final(self).state == old(self).state && final(self).schema == old(self).schema
                && final(self).options == old(self).options && final(self).metas@ == old(
                self,
            ).metas@,
            old(self).writer.w@.len() <= final(self).writer.w@.len(),
            final(self).writer.w@.subrange(0, old(self).writer.w@.len() as int) == old(
                self,
            ).writer.w@,
            r is Ok ==> final(self).writer.w@ == old(self).writer.w@ + enc_pages(
                array@,
                page_size as int,
                old(self).options.compression,
            ),
            enc_sizes_ok(array@) ==> r is Ok,
    {
        let ghost av = array@;
        let ghost c = old(self).options.compression;
        let ghost ps = page_size as int;
        let ghost colbase = old(self).writer.w@;
        let alen = array.len();
        if alen == 0 {
            let sub = array.slice(0, 0);
            proof {
                lemma_slice_wf(av, 0, 0);
                assert(pages_of(av, ps)[0] == slice_v(av, 0, 0));
                if enc_sizes_ok(av) {
                    crate::serialize::lemma_slice_sizes_ok(av, 0, 0);
                }
            }
            match self.write_array(&sub, true) {
                Ok(_) => {},
                Err(e) => {
                    return Err(e);
                },
            }
            proof {
                assert(enc_pages_upto(av, ps, 0, c) =~= Seq::<u8>::empty());
                assert(enc_pages(av, ps, c) == enc_pages_upto(av, ps, 0, c) + enc_page(
                    pages_of(av, ps)[0],
                    c,
                ));
                assert(self.writer.w@ =~= colbase + enc_pages(av, ps, c));
            }
            Ok(())
        } else {
            let mut off: usize = 0;
            let ghost mut k: int = 0;
            proof {
                assert(enc_pages_upto(av, ps, 0, c) =~= Seq::<u8>::empty());
                assert(colbase + enc_pages_upto(av, ps, 0, c) =~= colbase);
            }
            while off < alen
                invariant
                    self.inv(),
                    self.state == old(self).state,
                    self.schema == old(self).schema,
                    self.options == old(self).options,
                    self.metas@ == old(self).metas@,
                    wf_v(av),
                    av == array@,
                    alen == len_v(av),
                    1 <= alen <= 0xffff_ffff,
                    1 <= ps <= alen,
                    page_size as int == ps,
                    0 <= k,
                    k >= 1 ==> (k - 1) * ps < alen,
                    if k * ps < alen {
                        off == k * ps
                    } else {
                        off == alen
                    },
                    off <= alen,
                    c == old(self).options.compression,
                    colbase == old(self).writer.w@,
                    self.writer.w@ == colbase + enc_pages_upto(av, ps, k, c),
                decreases alen - off,
            {
                proof {
                    assert(off == k * ps);
                    lemma_page_index_lt(alen as int, ps, k);
                }
                let l = if alen - off <= page_size {
                    alen - off
                } else {
                    page_size
                };
                let sub = array.slice(off, l);
                proof {
                    lemma_slice_wf(av, off as int, l as int);
                    assert(l as int == page_len_at(alen as int, ps, k * ps));
                    assert(pages_of(av, ps)[k] == slice_v(
                        av,
                        k * ps,
                        page_len_at(alen as int, ps, k * ps),
                    ));
                    if enc_sizes_ok(av) {
                        crate::serialize::lemma_slice_sizes_ok(av, off as int, l as int);
                    }
                }
                let ghost wpre = self.writer.w@;
                match self.write_array(&sub, true) {
                    Ok(_) => {},
                    Err(e) => {
                        proof {
                            assert(wpre.subrange(0, colbase.len() as int) =~= colbase);
                            lemma_prefix_trans(colbase, wpre, self.writer.w@);
                        }
                        return Err(e);
                    },
                }
                off = if page_size >= alen - off {
                    alen
                } else {
                    off + page_size
                };
                proof {
                    k = k + 1;
                    assert((k - 1) * ps + ps == k * ps) by (nonlinear_arith);
                    assert(self.writer.w@ == colbase + enc_pages_upto(av, ps, k, c));
                }
            }
            proof {
                assert(k * ps >= alen);
                lemma_page_count_from_bounds(alen as int, ps, k);
                assert(self.writer.w@ == colbase + enc_pages(av, ps, c));
                assert(self.writer.w@.subrange(0, colbase.len() as int) =~= colbase);
            }
            Ok(())
        }
    }

    /// Splits each column of `chunk` into pages of at most the configured
    /// page size, writes their records back to back (column by column, never
    /// interleaved), and appends one side-index entry per column, spanning
    /// exactly that column's bytes.
    #[verifier::rlimit(100)]
    #[verifier::spinoff_prover]
    pub fn encode_chunk(&mut self, chunk: &Chunk) -> (r: Result<(), Error>)
        requires
            old(self).inv(),
            chunk_wf(arrays_v(chunk.arrays@)),
            chunk_rows(arrays_v(chunk.arrays@)) <= 0xffff_ffff,
            match old(self).options.max_page_size {
                Option::Some(p) => p >= 1,
                Option::None => true,
            },
        ensures
            final(self).inv(),
            final(self).state == old(self).state && final(self).schema == old(self).schema
                && final(self).options == old(self).options,
            old(self).writer.w@.len() <= final(self).writer.w@.len(),
            final(self).writer.w@.subrange(0, old(self).writer.w@.len() as int) == old(
                self,
            ).writer.w@,
            r is Ok ==> final(self).writer.w@ == old(self).writer.w@ + enc_chunk(
                arrays_v(chunk.arrays@),
                spec_page_size(old(self).options, arrays_v(chunk.arrays@)),
                old(self).options.compression,
            ) && final(self).metas@ == old(self).metas@ + chunk_metas(
                arrays_v(chunk.arrays@),
                old(self).writer.w@.len() as int,
                spec_page_size(old(self).options, arrays_v(chunk.arrays@)),
                old(self).options.compression,
            ),
            chunk_sizes_ok(arrays_v(chunk.arrays@)) ==> r is Ok,
    {
        let ghost avs = arrays_v(chunk.arrays@);
        let ghost c = old(self).options.compression;
        let ghost w0 = old(self).writer.w@;
        let ghost m0 = old(self).metas@;
        let rows = chunk.len();
        let page_size = match self.options.max_page_size {
            Option::Some(p) => if p <= rows {
                p
            } else {
                rows
            },
            Option::None => rows,
        };
        let ghost ps = page_size as int;
        let ncols = chunk.arrays.len();
        let mut j: usize = 0;
        while j < ncols
            invariant
                self.inv(),
                self.state == old(self).state,
                self.schema == old(self).schema,
                self.options == old(self).options,
                j <= ncols,
                ncols == avs.len(),
                avs == arrays_v(chunk.arrays@),
                ncols == chunk.arrays@.len(),
                chunk_wf(avs),
                rows == chunk_rows(avs),
                rows <= 0xffff_ffff,
                ps == page_size as int,
                ps == spec_page_size(old(self).options, avs),
                rows >= 1 ==> ps >= 1,
                ps <= rows,
                w0 == old(self).writer.w@,
                m0 == old(self).metas@,
                c == old(self).options.compression,
                self.writer.w@ == w0 + enc_chunk_upto(avs, j as int, ps, c),
                self.metas@ == m0 + chunk_metas_upto(avs, j as int, w0.len() as int, ps, c),
            decreases ncols - j,
        {
            let array = &chunk.arrays[j];
            let ghost av = avs[j as int];
            proof {
                assert(av == array@);
                assert(wf_v(avs[j as int]) && len_v(avs[j as int]) == chunk_rows(avs));
            }
            let start = self.writer.offset;
            let alen = array.len();
            let ghost colbase = self.writer.w@;
            proof {
                assert(colbase.subrange(0, w0.len() as int) =~= w0);
                if chunk_sizes_ok(avs) {
                    assert(enc_sizes_ok(avs[j as int]));
                }
            }
            match self.write_column_pages(array, page_size) {
                Ok(_) => {},
                Err(e) => {
                    proof {
                        lemma_prefix_trans(w0, colbase, self.writer.w@);
                    }
                    return Err(e);
                },
            }
            let end = self.writer.offset;
            proof {
                assert(enc_pages(av, ps, c).len() == end - start);
                assert(start == w0.len() + enc_chunk_upto(avs, j as int, ps, c).len());
            }
            self.add_meta(start, end - start, alen as u64);
            proof {
                assert(self.writer.w@ =~= w0 + enc_chunk_upto(avs, j as int + 1, ps, c));
                let m_spec = ColumnMeta {
                    offset: (w0.len() as int + enc_chunk_upto(avs, j as int, ps, c).len()) as u64,
                    length: enc_pages(avs[j as int], ps, c).len() as u64,
                    num_values: len_v(avs[j as int]) as u64,
                };
                assert(ColumnMeta { offset: start, length: (end - start) as u64, num_values: alen as u64 }
                    == m_spec);
                assert(chunk_metas_upto(avs, j as int + 1, w0.len() as int, ps, c)
                    == chunk_metas_upto(avs, j as int, w0.len() as int, ps, c).push(m_spec));
                assert(self.metas@ =~= m0 + chunk_metas_upto(
                    avs,
                    j as int + 1,
                    w0.len() as int,
                    ps,
                    c,
                ));
            }
            j = j + 1;
        }
        proof {
            assert(self.writer.w@.subrange(0, w0.len() as int) =~= w0);
        }
        Ok(())
    }
}

/// A prefix of a prefix is a prefix.
proof fn lemma_prefix_trans(a: Seq<u8>, b: Seq<u8>, cc: Seq<u8>)
    requires
        a.len() <= b.len(),
        b.subrange(0, a.len() as int) == a,
        b.len() <= cc.len(),
        cc.subrange(0, b.len() as int) == b,
    ensures
        a.len() <= cc.len(),
        cc.subrange(0, a.len() as int) == a,
{
    assert(cc.subrange(0, a.len() as int) =~= a) by {
        assert forall|i: int| 0 <= i < a.len() implies cc[i] == a[i] by {
            assert(cc.subrange(0, b.len() as int)[i] == cc[i]);
            assert(b.subrange(0, a.len() as int)[i] == b[i]);
        }
    }
}

} // verus!
