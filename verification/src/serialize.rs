use vstd::prelude::*;

verus! {

use crate::array::{
    dtype_v, len_v, max_offset, offsets_wf, slice_v, view_validity, wf_v, Array, ArrayV,
    lemma_offsets_mono,
};
use crate::buffer::{
    lemma_parse_buf_extend, lemma_parse_validity_extend, write_buffer, write_validity,
};
use crate::bytes::{
    bitmap_len, lemma_bitmap_round_trip, lemma_prim_round_trip, pack_bits, pow256, prim_bytes,
    push_prim,
};
use crate::compression::{Compression, MAX_CODEC_INPUT};
use crate::datatypes::{DataType, PrimitiveWidth};
use crate::encoding::{enc_array, offset_width, parse_array, parse_buf, parse_validity};
use crate::error::Error;

/// Whether every buffer of this array is small enough to frame and compress.
pub open spec fn enc_sizes_ok(a: ArrayV) -> bool {
    match a {
        ArrayV::Null { .. } => true,
        ArrayV::Boolean { values, .. } => bitmap_len(values.len()) <= MAX_CODEC_INPUT,
        ArrayV::Primitive { width, values, .. } => bitmap_len(values.len()) <= MAX_CODEC_INPUT
            && values.len() * width.spec_size() <= MAX_CODEC_INPUT,
        ArrayV::Binary { large, offsets, values, .. } => bitmap_len((offsets.len() - 1) as nat)
            <= MAX_CODEC_INPUT && offsets.len() * offset_width(large) <= MAX_CODEC_INPUT
            && values.len() <= MAX_CODEC_INPUT,
        ArrayV::Utf8 { large, offsets, values, .. } => bitmap_len((offsets.len() - 1) as nat)
            <= MAX_CODEC_INPUT && offsets.len() * offset_width(large) <= MAX_CODEC_INPUT
            && values.len() <= MAX_CODEC_INPUT,
    }
}

/// A slice of an array has buffers no larger than the array's own.
pub proof fn lemma_slice_sizes_ok(a: ArrayV, off: int, len: int)
    requires
        wf_v(a),
        0 <= off,
        0 <= len,
        off + len <= len_v(a),
        enc_sizes_ok(a),
    ensures
        enc_sizes_ok(slice_v(a, off, len)),
{
    match a {
        ArrayV::Null { .. } => {},
        ArrayV::Boolean { values, .. } => {
            crate::bytes::lemma_bitmap_len_mono(len as nat, values.len());
        },
        ArrayV::Primitive { width, values, .. } => {
            crate::bytes::lemma_bitmap_len_mono(len as nat, values.len());
            assert(len * width.spec_size() <= values.len() * width.spec_size())
                by (nonlinear_arith)
                requires
                    0 <= len <= values.len(),
            ;
        },
        ArrayV::Binary { large, offsets, values, .. } => {
            crate::bytes::lemma_bitmap_len_mono(len as nat, (offsets.len() - 1) as nat);
            assert((len + 1) * offset_width(large) <= offsets.len() * offset_width(large))
                by (nonlinear_arith)
                requires
                    0 <= len + 1 <= offsets.len(),
            ;
            lemma_offsets_mono(offsets, off + len, offsets.len() - 1);
            lemma_offsets_mono(offsets, off, off + len);
        },
        ArrayV::Utf8 { large, offsets, values, .. } => {
            crate::bytes::lemma_bitmap_len_mono(len as nat, (offsets.len() - 1) as nat);
            assert((len + 1) * offset_width(large) <= offsets.len() * offset_width(large))
                by (nonlinear_arith)
                requires
                    0 <= len + 1 <= offsets.len(),
            ;
            lemma_offsets_mono(offsets, off + len, offsets.len() - 1);
            lemma_offsets_mono(offsets, off, off + len);
        },
    }
}

proof fn lemma_offsets_fit(offsets: Seq<u64>, large: bool)
    requires
        offsets.len() >= 1,
        offsets[0] == 0,
        forall|k: int| 0 <= k < offsets.len() - 1 ==> #[trigger] offsets[k] <= offsets[k + 1],
        offsets.last() <= max_offset(large),
    ensures
        forall|i: int| 0 <= i < offsets.len() ==> (offsets[i] as nat) < pow256(
            offset_width(large),
        ),
{
    assert(pow256(4) == 0x1_0000_0000) by {
        reveal_with_fuel(pow256, 5);
    }
    assert(pow256(8) == 0x1_0000_0000_0000_0000) by {
        reveal_with_fuel(pow256, 9);
    }
    assert forall|i: int| 0 <= i < offsets.len() implies (offsets[i] as nat) < pow256(
        offset_width(large),
    ) by {
        lemma_offsets_mono(offsets, i, offsets.len() - 1);
    }
}

/// Serializes one array: validity record first, then an offsets record for
/// variable-length shapes, then the values record. On success the bytes
/// appended are exactly the array's encoding, and parsing them at their start
/// yields the array back.
pub fn write(
    out: &mut Vec<u8>,
    array: &Array,
    is_little_endian: bool,
    compression: Option<Compression>,
    scratch: &mut Vec<u8>,
) -> (r: Result<(), Error>)
    requires
        is_little_endian,
        wf_v(array@),
    ensures
        old(out)@.len() <= final(out)@.len() && final(out)@.subrange(
            0,
            old(out)@.len() as int,
        ) == old(out)@,
        r is Ok ==> final(out)@ == old(out)@ + enc_array(array@, compression) && parse_array(
            final(out)@,
            old(out)@.len() as int,
            dtype_v(array@),
            len_v(array@),
        ) == Option::Some((array@, final(out)@.len() as int)),
        enc_sizes_ok(array@) ==> r is Ok,
{
    match array {
        Array::Null { .. } => {
            proof {
                assert(out@ =~= old(out)@ + enc_array(array@, compression));
                assert(parse_array(out@, out@.len() as int, dtype_v(array@), len_v(array@))
                    == Option::Some((array@, out@.len() as int)));
            }
            Ok(())
        },
        Array::Boolean { .. } => write_boolean(out, array, compression, scratch),
        Array::Primitive { .. } => write_primitive(out, array, compression, scratch),
        Array::Binary { .. } => write_binary(out, array, compression, scratch),
        Array::Utf8 { .. } => write_utf8(out, array, compression, scratch),
    }
}

#[verifier::rlimit(60)]
fn write_boolean(
    out: &mut Vec<u8>,
    array: &Array,
    compression: Option<Compression>,
    scratch: &mut Vec<u8>,
) -> (r: Result<(), Error>)
    requires
        wf_v(array@),
        array@ is Boolean,
    ensures
        old(out)@.len() <= final(out)@.len() && final(out)@.subrange(
            0,
            old(out)@.len() as int,
        ) == old(out)@,
        r is Ok ==> final(out)@ == old(out)@ + enc_array(array@, compression) && parse_array(
            final(out)@,
            old(out)@.len() as int,
            dtype_v(array@),
            len_v(array@),
        ) == Option::Some((array@, final(out)@.len() as int)),
        enc_sizes_ok(array@) ==> r is Ok,
{
    let ghost base = out@.len() as int;
    match array {
        Array::Boolean { values, validity } => {
            let rows = values.len();
            match write_validity(out, validity, rows, compression, scratch) {
                Ok(_) => {},
                Err(e) => {
                    return Err(e);
                },
            }
            let ghost mid = out@;
            let packed = pack_bits(values);
            match write_buffer(out, &packed, compression, scratch) {
                Ok(_) => {},
                Err(e) => {
                    return Err(e);
                },
            }
            proof {
                assert(out@.subrange(0, mid.len() as int) =~= mid);
                lemma_parse_validity_extend(
                    mid,
                    out@,
                    base,
                    rows as int,
                    view_validity(*validity),
                    mid.len() as int,
                );
                lemma_bitmap_round_trip(values@);
                assert(out@ =~= old(out)@ + enc_array(array@, compression));
                assert(parse_array(out@, base, dtype_v(array@), len_v(array@)) matches Option::Some(
                    (a, e),
                ) && a =~= array@ && e == out@.len() as int);
            }
            Ok(())
        },
        _ => Err(Error::FormatViolation),
    }
}

#[verifier::rlimit(60)]
fn write_primitive(
    out: &mut Vec<u8>,
    array: &Array,
    compression: Option<Compression>,
    scratch: &mut Vec<u8>,
) -> (r: Result<(), Error>)
    requires
        wf_v(array@),
        array@ is Primitive,
    ensures
        old(out)@.len() <= final(out)@.len() && final(out)@.subrange(
            0,
            old(out)@.len() as int,
        ) == old(out)@,
        r is Ok ==> final(out)@ == old(out)@ + enc_array(array@, compression) && parse_array(
            final(out)@,
            old(out)@.len() as int,
            dtype_v(array@),
            len_v(array@),
        ) == Option::Some((array@, final(out)@.len() as int)),
        enc_sizes_ok(array@) ==> r is Ok,
{
    let ghost base = out@.len() as int;
    match array {
        Array::Primitive { width, values, validity } => {
            let rows = values.len();
            match write_validity(out, validity, rows, compression, scratch) {
                Ok(_) => {},
                Err(e) => {
                    return Err(e);
                },
            }
            let ghost mid = out@;
            let mut rawv: Vec<u8> = Vec::new();
            push_prim(&mut rawv, values, width.size());
            proof {
                crate::bytes::lemma_prim_bytes_len(values@, width.spec_size());
            }
            match write_buffer(out, &rawv, compression, scratch) {
                Ok(_) => {},
                Err(e) => {
                    return Err(e);
                },
            }
            proof {
                assert(out@.subrange(0, mid.len() as int) =~= mid);
                lemma_parse_validity_extend(
                    mid,
                    out@,
                    base,
                    rows as int,
                    view_validity(*validity),
                    mid.len() as int,
                );
                lemma_prim_round_trip(values@, width.spec_size());
                crate::bytes::lemma_prim_bytes_len(values@, width.spec_size());
                assert(out@ =~= old(out)@ + enc_array(array@, compression));
                assert(parse_array(out@, base, dtype_v(array@), len_v(array@)) matches Option::Some(
                    (a, e),
                ) && a =~= array@ && e == out@.len() as int);
            }
            Ok(())
        },
        _ => Err(Error::FormatViolation),
    }
}

/// Assembles the parse of a variable-length array from the parses of its
/// three records.
proof fn lemma_parse_var_assemble(
    input: Seq<u8>,
    base: int,
    rows: int,
    large: bool,
    utf8: bool,
    v: Option<Seq<bool>>,
    p1: int,
    obytes: Seq<u8>,
    p2: int,
    values: Seq<u8>,
    p3: int,
)
    requires
        rows >= 0,
        parse_validity(input, base, rows) == Option::Some((v, p1)),
        parse_buf(input, p1, (rows + 1) * offset_width(large) as int) == Option::Some(
            (obytes, p2),
        ),
        offsets_wf(crate::bytes::parse_prim(obytes, offset_width(large), (rows + 1) as nat), large),
        parse_buf(
            input,
            p2,
            crate::bytes::parse_prim(obytes, offset_width(large), (rows + 1) as nat).last() as int,
        ) == Option::Some((values, p3)),
        utf8 ==> crate::array::utf8_rows_ok(
            crate::bytes::parse_prim(obytes, offset_width(large), (rows + 1) as nat),
            values,
        ),
    ensures
        crate::encoding::parse_var(input, base, rows, large, utf8) == Option::Some(
            (if utf8 {
                ArrayV::Utf8 {
                    large,
                    offsets: crate::bytes::parse_prim(obytes, offset_width(large), (rows + 1) as nat),
                    values,
                    validity: v,
                }
            } else {
                ArrayV::Binary {
                    large,
                    offsets: crate::bytes::parse_prim(obytes, offset_width(large), (rows + 1) as nat),
                    values,
                    validity: v,
                }
            }, p3),
        ),
{
}

#[verifier::rlimit(100)]
#[verifier::spinoff_prover]
fn write_binary(
    out: &mut Vec<u8>,
    array: &Array,
    compression: Option<Compression>,
    scratch: &mut Vec<u8>,
) -> (r: Result<(), Error>)
    requires
        wf_v(array@),
        array@ is Binary,
    ensures
        old(out)@.len() <= final(out)@.len() && final(out)@.subrange(
            0,
            old(out)@.len() as int,
        ) == old(out)@,
        r is Ok ==> final(out)@ == old(out)@ + enc_array(array@, compression) && parse_array(
            final(out)@,
            old(out)@.len() as int,
            dtype_v(array@),
            len_v(array@),
        ) == Option::Some((array@, final(out)@.len() as int)),
        enc_sizes_ok(array@) ==> r is Ok,
{
    let ghost base = out@.len() as int;
    match array {
        Array::Binary { large, offsets, values, validity } => {
            let rows = offsets.len() - 1;
            match write_validity(out, validity, rows, compression, scratch) {
                Ok(_) => {},
                Err(e) => {
                    return Err(e);
                },
            }
            let ghost mid1 = out@;
            let mut rawo: Vec<u8> = Vec::new();
            proof {
                lemma_offsets_fit(offsets@, *large);
            }
            push_prim(&mut rawo, offsets, if *large {
                8
            } else {
                4
            });
            proof {
                crate::bytes::lemma_prim_bytes_len(offsets@, offset_width(*large));
            }
            match write_buffer(out, &rawo, compression, scratch) {
                Ok(_) => {},
                Err(e) => {
                    return Err(e);
                },
            }
            let ghost mid2 = out@;
            match write_buffer(out, values, compression, scratch) {
                Ok(_) => {},
                Err(e) => {
                    return Err(e);
                },
            }
            proof {
                assert(out@.subrange(0, mid1.len() as int) =~= mid1);
                assert(out@.subrange(0, mid2.len() as int) =~= mid2);
                lemma_parse_validity_extend(
                    mid1,
                    out@,
                    base,
                    rows as int,
                    view_validity(*validity),
                    mid1.len() as int,
                );
                lemma_parse_buf_extend(
                    mid2,
                    out@,
                    mid1.len() as int,
                    rawo@.len() as int,
                    rawo@,
                    mid2.len() as int,
                );
                lemma_prim_round_trip(offsets@, offset_width(*large));
                crate::bytes::lemma_prim_bytes_len(offsets@, offset_width(*large));
                lemma_parse_var_assemble(
                    out@,
                    base,
                    rows as int,
                    *large,
                    false,
                    view_validity(*validity),
                    mid1.len() as int,
                    rawo@,
                    mid2.len() as int,
                    values@,
                    out@.len() as int,
                );
                assert(out@ =~= old(out)@ + enc_array(array@, compression));
                assert(parse_array(out@, base, dtype_v(array@), len_v(array@)) matches Option::Some(
                    (a, e),
                ) && a =~= array@ && e == out@.len() as int);
            }
            Ok(())
        },
        _ => Err(Error::FormatViolation),
    }
}

#[verifier::rlimit(100)]
#[verifier::spinoff_prover]
fn write_utf8(
    out: &mut Vec<u8>,
    array: &Array,
    compression: Option<Compression>,
    scratch: &mut Vec<u8>,
) -> (r: Result<(), Error>)
    requires
        wf_v(array@),
        array@ is Utf8,
    ensures
        old(out)@.len() <= final(out)@.len() && final(out)@.subrange(
            0,
            old(out)@.len() as int,
        ) == old(out)@,
        r is Ok ==> final(out)@ == old(out)@ + enc_array(array@, compression) && parse_array(
            final(out)@,
            old(out)@.len() as int,
            dtype_v(array@),
            len_v(array@),
        ) == Option::Some((array@, final(out)@.len() as int)),
        enc_sizes_ok(array@) ==> r is Ok,
{
    let ghost base = out@.len() as int;
    match array {
        Array::Utf8 { large, offsets, values, validity } => {
            let rows = offsets.len() - 1;
            match write_validity(out, validity, rows, compression, scratch) {
                Ok(_) => {},
                Err(e) => {
                    return Err(e);
                },
            }
            let ghost mid1 = out@;
            let mut rawo: Vec<u8> = Vec::new();
            proof {
                lemma_offsets_fit(offsets@, *large);
            }
            push_prim(&mut rawo, offsets, if *large {
                8
            } else {
                4
            });
            proof {
                crate::bytes::lemma_prim_bytes_len(offsets@, offset_width(*large));
            }
            match write_buffer(out, &rawo, compression, scratch) {
                Ok(_) => {},
                Err(e) => {
                    return Err(e);
                },
            }
            let ghost mid2 = out@;
            match write_buffer(out, values, compression, scratch) {
                Ok(_) => {},
                Err(e) => {
                    return Err(e);
                },
            }
            proof {
                assert(out@.subrange(0, mid1.len() as int) =~= mid1);
                assert(out@.subrange(0, mid2.len() as int) =~= mid2);
                lemma_parse_validity_extend(
                    mid1,
                    out@,
                    base,
                    rows as int,
                    view_validity(*validity),
                    mid1.len() as int,
                );
                lemma_parse_buf_extend(
                    mid2,
                    out@,
                    mid1.len() as int,
                    rawo@.len() as int,
                    rawo@,
                    mid2.len() as int,
                );
                lemma_prim_round_trip(offsets@, offset_width(*large));
                crate::bytes::lemma_prim_bytes_len(offsets@, offset_width(*large));
                lemma_parse_var_assemble(
                    out@,
                    base,
                    rows as int,
                    *large,
                    true,
                    view_validity(*validity),
                    mid1.len() as int,
                    rawo@,
                    mid2.len() as int,
                    values@,
                    out@.len() as int,
                );
                assert(out@ =~= old(out)@ + enc_array(array@, compression));
                assert(crate::bytes::parse_prim(
                    rawo@,
                    offset_width(*large),
                    (rows + 1) as nat,
                ) == offsets@);
                assert((ArrayV::Utf8 {
                    large: *large,
                    offsets: offsets@,
                    values: values@,
                    validity: view_validity(*validity),
                }) =~= array@);
            }
            Ok(())
        },
        _ => Err(Error::FormatViolation),
    }
}

} // verus!
