use vstd::prelude::*;

verus! {

use crate::array::{offsets_wf, utf8_rows_ok, ArrayV};
use crate::bytes::{bitmap_bytes, bitmap_len, from_le, le_bytes, parse_bits, parse_prim, prim_bytes};
use crate::compression::{
    lz4_compressed, lz4_decoded, zstd_compressed, zstd_decoded, Compression, MAX_CODEC_INPUT,
};
use crate::datatypes::{DataType, PrimitiveWidth};

/// The tag byte that names the codec of a buffer payload.
pub open spec fn codec_tag(c: Option<Compression>) -> u8 {
    match c {
        Option::None => 0,
        Option::Some(Compression::LZ4) => 1,
        Option::Some(Compression::ZSTD) => 2,
    }
}

/// The payload a buffer record carries: the raw bytes, or their compressed form.
pub open spec fn payload_bytes(raw: Seq<u8>, c: Option<Compression>) -> Seq<u8> {
    match c {
        Option::None => raw,
        Option::Some(Compression::LZ4) => lz4_compressed(raw),
        Option::Some(Compression::ZSTD) => zstd_compressed(raw),
    }
}

/// A buffer record: codec tag, 4-byte little-endian payload length, payload.
pub open spec fn enc_buffer(raw: Seq<u8>, c: Option<Compression>) -> Seq<u8> {
    seq![codec_tag(c)] + le_bytes(payload_bytes(raw, c).len(), 4) + payload_bytes(raw, c)
}

/// Whether a buffer record can be framed: the payload length must fit its
/// 4-byte field.
pub open spec fn enc_buffer_ok(raw: Seq<u8>, c: Option<Compression>) -> bool {
    payload_bytes(raw, c).len() <= 0xffff_ffff
}

/// A validity record: an absence byte alone, or a presence byte followed by
/// the bit-packed bitmap as a buffer record.
pub open spec fn enc_validity(v: Option<Seq<bool>>, c: Option<Compression>) -> Seq<u8> {
    match v {
        Option::None => seq![0u8],
        Option::Some(bits) => seq![1u8] + enc_buffer(bitmap_bytes(bits), c),
    }
}

/// The offset width of a variable-length array.
pub open spec fn offset_width(large: bool) -> nat {
    if large {
        8
    } else {
        4
    }
}

/// The encoding of one array: validity first, then offsets for variable-length
/// shapes, then values. A null array contributes no bytes beyond its record
/// header.
pub open spec fn enc_array(a: ArrayV, c: Option<Compression>) -> Seq<u8> {
    match a {
        ArrayV::Null { .. } => Seq::empty(),
        ArrayV::Boolean { values, validity } => enc_validity(validity, c) + enc_buffer(
            bitmap_bytes(values),
            c,
        ),
        ArrayV::Primitive { width, values, validity } => enc_validity(validity, c) + enc_buffer(
            prim_bytes(values, width.spec_size()),
            c,
        ),
        ArrayV::Binary { large, offsets, values, validity } => enc_validity(validity, c)
            + enc_buffer(prim_bytes(offsets, offset_width(large)), c) + enc_buffer(values, c),
        ArrayV::Utf8 { large, offsets, values, validity } => enc_validity(validity, c)
            + enc_buffer(prim_bytes(offsets, offset_width(large)), c) + enc_buffer(values, c),
    }
}

/// A page record: a 4-byte little-endian row count, then the array encoding.
pub open spec fn enc_page(a: ArrayV, c: Option<Compression>) -> Seq<u8> {
    le_bytes(crate::array::len_v(a) as nat, 4) + enc_array(a, c)
}

/// The raw bytes a payload stands for, when it stands for exactly `n` of them.
pub open spec fn parse_payload(tag: u8, payload: Seq<u8>, n: int) -> Option<Seq<u8>> {
    if tag == 0 {
        if payload.len() == n {
            Option::Some(payload)
        } else {
            Option::None
        }
    } else if tag == 1 {
        if lz4_decoded(payload).len() == n {
            Option::Some(lz4_decoded(payload))
        } else {
            Option::None
        }
    } else if tag == 2 {
        if zstd_decoded(payload).len() == n {
            Option::Some(zstd_decoded(payload))
        } else {
            Option::None
        }
    } else {
        Option::None
    }
}

/// Reads one buffer record at `pos`, expecting `n` raw bytes; yields the raw
/// bytes and the position after the record.
pub open spec fn parse_buf(input: Seq<u8>, pos: int, n: int) -> Option<(Seq<u8>, int)> {
    if 0 <= n <= MAX_CODEC_INPUT && pos + 5 <= input.len() {
        let tag = input[pos];
        let plen = from_le(input.subrange(pos + 1, pos + 5)) as int;
        if pos + 5 + plen <= input.len() {
            match parse_payload(tag, input.subrange(pos + 5, pos + 5 + plen), n) {
                Option::Some(raw) => Option::Some((raw, pos + 5 + plen)),
                Option::None => Option::None,
            }
        } else {
            Option::None
        }
    } else {
        Option::None
    }
}

/// Reads one validity record at `pos` for `rows` rows.
pub open spec fn parse_validity(input: Seq<u8>, pos: int, rows: int) -> Option<
    (Option<Seq<bool>>, int),
> {
    if pos + 1 <= input.len() {
        let flag = input[pos];
        if flag == 0 {
            Option::Some((Option::None, pos + 1))
        } else if flag == 1 {
            match parse_buf(input, pos + 1, bitmap_len(rows as nat) as int) {
                Option::Some((bytes, p2)) => Option::Some(
                    (Option::Some(parse_bits(bytes, rows as nat)), p2),
                ),
                Option::None => Option::None,
            }
        } else {
            Option::None
        }
    } else {
        Option::None
    }
}

/// Reads one array of shape `dt` with `rows` rows at `pos`.
pub open spec fn parse_array(input: Seq<u8>, pos: int, dt: DataType, rows: int) -> Option<
    (ArrayV, int),
> {
    if rows < 0 {
        Option::None
    } else {
        match dt {
            DataType::Null => Option::Some((ArrayV::Null { length: rows }, pos)),
            DataType::Boolean => match parse_validity(input, pos, rows) {
                Option::Some((v, p1)) => match parse_buf(
                    input,
                    p1,
                    bitmap_len(rows as nat) as int,
                ) {
                    Option::Some((bytes, p2)) => Option::Some(
                        (ArrayV::Boolean { values: parse_bits(bytes, rows as nat), validity: v },
                        p2),
                    ),
                    Option::None => Option::None,
                },
                Option::None => Option::None,
            },
            DataType::Primitive(w) => match parse_validity(input, pos, rows) {
                Option::Some((v, p1)) => match parse_buf(
                    input,
                    p1,
                    rows * w.spec_size() as int,
                ) {
                    Option::Some((bytes, p2)) => Option::Some(
                        (ArrayV::Primitive {
                            width: w,
                            values: parse_prim(bytes, w.spec_size(), rows as nat),
                            validity: v,
                        }, p2),
                    ),
                    Option::None => Option::None,
                },
                Option::None => Option::None,
            },
            DataType::Binary => parse_var(input, pos, rows, false, false),
            DataType::LargeBinary => parse_var(input, pos, rows, true, false),
            DataType::Utf8 => parse_var(input, pos, rows, false, true),
            DataType::LargeUtf8 => parse_var(input, pos, rows, true, true),
            _ => Option::None,
        }
    }
}

/// Reads a variable-length (binary or utf8) array body.
pub open spec fn parse_var(input: Seq<u8>, pos: int, rows: int, large: bool, utf8: bool) -> Option<
    (ArrayV, int),
> {
    match parse_validity(input, pos, rows) {
        Option::Some((v, p1)) => match parse_buf(
            input,
            p1,
            (rows + 1) * offset_width(large) as int,
        ) {
            Option::Some((obytes, p2)) => {
                let offsets = parse_prim(obytes, offset_width(large), (rows + 1) as nat);
                if offsets_wf(offsets, large) {
                    match parse_buf(input, p2, offsets.last() as int) {
                        Option::Some((values, p3)) => if utf8 {
                            if utf8_rows_ok(offsets, values) {
                                Option::Some((ArrayV::Utf8 { large, offsets, values, validity: v }, p3))
                            } else {
                                Option::None
                            }
                        } else {
                            Option::Some((ArrayV::Binary { large, offsets, values, validity: v }, p3))
                        },
                        Option::None => Option::None,
                    }
                } else {
                    Option::None
                }
            },
            Option::None => Option::None,
        },
        Option::None => Option::None,
    }
}

/// Reads one page record: a 4-byte row count, then the array it frames.
pub open spec fn parse_page(input: Seq<u8>, pos: int, dt: DataType) -> Option<(ArrayV, int)> {
    if pos + 4 <= input.len() {
        parse_array(input, pos + 4, dt, from_le(input.subrange(pos, pos + 4)) as int)
    } else {
        Option::None
    }
}

/// One parsed record never ends before its start.
pub proof fn lemma_parse_buf_advances(input: Seq<u8>, pos: int, n: int)
    requires
        parse_buf(input, pos, n) is Some,
    ensures
        pos < parse_buf(input, pos, n).unwrap().1 <= input.len(),
{
}

/// A parsed validity record never ends before its start.
pub proof fn lemma_parse_validity_advances(input: Seq<u8>, pos: int, rows: int)
    requires
        parse_validity(input, pos, rows) is Some,
    ensures
        pos < parse_validity(input, pos, rows).unwrap().1 <= input.len(),
{
    if input[pos] == 1 {
        lemma_parse_buf_advances(input, pos + 1, bitmap_len(rows as nat) as int);
    }
}

/// An array parses the same inside a byte range extracted from the stream,
/// at the shifted position: decoding needs nothing outside the range.
pub proof fn lemma_parse_array_window(
    f: Seq<u8>,
    lo: int,
    hi: int,
    pos: int,
    dt: DataType,
    rows: int,
    a: ArrayV,
    end: int,
)
    requires
        0 <= lo <= pos,
        end <= hi <= f.len(),
        pos <= hi,
        parse_array(f, pos, dt, rows) == Option::Some((a, end)),
    ensures
        parse_array(f.subrange(lo, hi), pos - lo, dt, rows) == Option::Some((a, end - lo)),
{
    match dt {
        DataType::Null => {},
        DataType::Boolean => {
            let (v, p1) = parse_validity(f, pos, rows).unwrap();
            lemma_parse_validity_advances(f, pos, rows);
            lemma_parse_buf_advances(f, p1, bitmap_len(rows as nat) as int);
            crate::buffer::lemma_parse_validity_window(f, lo, hi, pos, rows, v, p1);
            let (bytes, p2) = parse_buf(f, p1, bitmap_len(rows as nat) as int).unwrap();
            crate::buffer::lemma_parse_buf_window(
                f,
                lo,
                hi,
                p1,
                bitmap_len(rows as nat) as int,
                bytes,
                p2,
            );
        },
        DataType::Primitive(w) => {
            let (v, p1) = parse_validity(f, pos, rows).unwrap();
            lemma_parse_validity_advances(f, pos, rows);
            lemma_parse_buf_advances(f, p1, rows * w.spec_size() as int);
            crate::buffer::lemma_parse_validity_window(f, lo, hi, pos, rows, v, p1);
            let (bytes, p2) = parse_buf(f, p1, rows * w.spec_size() as int).unwrap();
            crate::buffer::lemma_parse_buf_window(
                f,
                lo,
                hi,
                p1,
                rows * w.spec_size() as int,
                bytes,
                p2,
            );
        },
        DataType::Binary => lemma_parse_var_window(f, lo, hi, pos, rows, false, false, end),
        DataType::LargeBinary => lemma_parse_var_window(f, lo, hi, pos, rows, true, false, end),
        DataType::Utf8 => lemma_parse_var_window(f, lo, hi, pos, rows, false, true, end),
        DataType::LargeUtf8 => lemma_parse_var_window(f, lo, hi, pos, rows, true, true, end),
        _ => {},
    }
}

proof fn lemma_parse_var_window(
    f: Seq<u8>,
    lo: int,
    hi: int,
    pos: int,
    rows: int,
    large: bool,
    utf8: bool,
    end: int,
)
    requires
        0 <= lo <= pos,
        end <= hi <= f.len(),
        parse_var(f, pos, rows, large, utf8) is Some,
        parse_var(f, pos, rows, large, utf8).unwrap().1 == end,
    ensures
        parse_var(f.subrange(lo, hi), pos - lo, rows, large, utf8) == Option::Some(
            (parse_var(f, pos, rows, large, utf8).unwrap().0, end - lo),
        ),
{
    let (v, p1) = parse_validity(f, pos, rows).unwrap();
    lemma_parse_validity_advances(f, pos, rows);
    let n_off = (rows + 1) * offset_width(large) as int;
    let (obytes, p2) = parse_buf(f, p1, n_off).unwrap();
    lemma_parse_buf_advances(f, p1, n_off);
    let offsets = parse_prim(obytes, offset_width(large), (rows + 1) as nat);
    let (values, p3) = parse_buf(f, p2, offsets.last() as int).unwrap();
    lemma_parse_buf_advances(f, p2, offsets.last() as int);
    crate::buffer::lemma_parse_validity_window(f, lo, hi, pos, rows, v, p1);
    crate::buffer::lemma_parse_buf_window(f, lo, hi, p1, n_off, obytes, p2);
    crate::buffer::lemma_parse_buf_window(f, lo, hi, p2, offsets.last() as int, values, p3);
}

/// A page record parses the same inside a byte range extracted from the
/// stream: reading a column needs only the bytes its side-index entry names,
/// never a scan of the rest of the stream.
pub proof fn lemma_parse_page_window(
    f: Seq<u8>,
    lo: int,
    hi: int,
    pos: int,
    dt: DataType,
    a: ArrayV,
    end: int,
)
    requires
        0 <= lo <= pos,
        end <= hi <= f.len(),
        pos + 4 <= hi,
        parse_page(f, pos, dt) == Option::Some((a, end)),
    ensures
        parse_page(f.subrange(lo, hi), pos - lo, dt) == Option::Some((a, end - lo)),
{
    let r = f.subrange(lo, hi);
    assert(r.subrange(pos - lo, pos - lo + 4) =~= f.subrange(pos, pos + 4));
    let rows = from_le(f.subrange(pos, pos + 4)) as int;
    if dt is Null {
        assert(parse_array(f, pos + 4, dt, rows) == Option::Some(
            (ArrayV::Null { length: rows }, pos + 4),
        ));
    }
    lemma_parse_array_window(f, lo, hi, pos + 4, dt, rows, a, end);
}

} // verus!
