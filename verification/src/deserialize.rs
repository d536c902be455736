use vstd::prelude::*;

verus! {

use crate::array::{
    check_offsets, check_utf8_rows, dtype_v, len_v, offsets_wf, utf8_rows_ok, view_validity,
    wf_v, Array, ArrayV,
};
use crate::buffer::{bitmap_byte_count, read_buffer, read_validity};
use crate::bytes::{lemma_mul_over, lemma_mul_under, lemma_parse_prim_bound, read_prim};
use crate::compression::{Compression, MAX_CODEC_INPUT};
use crate::datatypes::{DataType, PrimitiveWidth};
use crate::encoding::{offset_width, parse_array};
use crate::error::Error;

/// A null array carries no bytes: it is rebuilt from the requested length.
pub fn read_null(data_type: DataType, length: usize) -> (r: Result<Array, Error>)
    requires
        data_type == DataType::Null,
    ensures
        r matches Ok(a) && a@ == (ArrayV::Null { length: length as int }) && wf_v(a@),
{
    Ok(Array::Null { length })
}

/// Reads a boolean array: validity record, then a bit-packed values record.
/// Each buffer record carries its own codec tag, which is what selects the
/// decoder; `compression` mirrors the writer's configuration.
pub fn read_boolean(
    input: &Vec<u8>,
    pos: &mut usize,
    data_type: DataType,
    is_little_endian: bool,
    compression: Option<Compression>,
    length: usize,
    scratch: &mut Vec<u8>,
) -> (r: Result<Array, Error>)
    requires
        is_little_endian,
        data_type == DataType::Boolean,
        *old(pos) <= input@.len(),
    ensures
        match r {
            Ok(a) => parse_array(input@, *old(pos) as int, data_type, length as int)
                == Option::Some((a@, *final(pos) as int)) && wf_v(a@) && len_v(a@) == length
                && dtype_v(a@) == data_type && *old(pos) <= *final(pos) <= input@.len(),
            Err(_) => parse_array(input@, *old(pos) as int, data_type, length as int) is None
                && *final(pos) == *old(pos),
        },
{
    let mut p: usize = *pos;
    let v = match read_validity(input, &mut p, length, scratch) {
        Ok(v) => v,
        Err(e) => {
            return Err(e);
        },
    };
    let bytes = match read_buffer(input, &mut p, bitmap_byte_count(length), scratch) {
        Ok(b) => b,
        Err(e) => {
            return Err(e);
        },
    };
    let values = crate::bytes::unpack_bits(&bytes, length);
    let a = Array::Boolean { values, validity: v };
    proof {
        assert(a@ =~= ArrayV::Boolean {
            values: crate::bytes::parse_bits(bytes@, length as nat),
            validity: view_validity(v),
        });
    }
    *pos = p;
    Ok(a)
}

/// Reads a fixed-width array: validity record, then one values record of
/// `length` elements of the given width. The codec tag on each buffer record
/// selects the decoder; `compression` mirrors the writer's configuration.
pub fn read_primitive(
    input: &Vec<u8>,
    pos: &mut usize,
    data_type: DataType,
    is_little_endian: bool,
    compression: Option<Compression>,
    length: usize,
    scratch: &mut Vec<u8>,
) -> (r: Result<Array, Error>)
    requires
        is_little_endian,
        data_type is Primitive,
        *old(pos) <= input@.len(),
    ensures
        match r {
            Ok(a) => parse_array(input@, *old(pos) as int, data_type, length as int)
                == Option::Some((a@, *final(pos) as int)) && wf_v(a@) && len_v(a@) == length
                && dtype_v(a@) == data_type && *old(pos) <= *final(pos) <= input@.len(),
            Err(_) => parse_array(input@, *old(pos) as int, data_type, length as int) is None
                && *final(pos) == *old(pos),
        },
{
    let width = match data_type {
        DataType::Primitive(w) => w,
        _ => {
            return Err(Error::FormatViolation);
        },
    };
    let w = width.size();
    let mut p: usize = *pos;
    let v = match read_validity(input, &mut p, length, scratch) {
        Ok(v) => v,
        Err(e) => {
            return Err(e);
        },
    };
    if length > MAX_CODEC_INPUT / w {
        proof {
            lemma_mul_over(length as int, w as int, MAX_CODEC_INPUT as int);
        }
        return Err(Error::FormatViolation);
    }
    proof {
        lemma_mul_under(length as int, w as int, MAX_CODEC_INPUT as int);
    }
    let nbytes = length * w;
    let bytes = match read_buffer(input, &mut p, nbytes, scratch) {
        Ok(b) => b,
        Err(e) => {
            return Err(e);
        },
    };
    let values = read_prim(&bytes, 0, w, length);
    proof {
        assert(bytes@.subrange(0, length as int * w as int) =~= bytes@);
        lemma_parse_prim_bound(bytes@, w as nat, length as nat);
    }
    let a = Array::Primitive { width, values, validity: v };
    proof {
        assert(a@ =~= ArrayV::Primitive {
            width,
            values: crate::bytes::parse_prim(bytes@, width.spec_size(), length as nat),
            validity: view_validity(v),
        });
    }
    *pos = p;
    Ok(a)
}

#[verifier::rlimit(100)]
#[verifier::spinoff_prover]
fn read_var(
    input: &Vec<u8>,
    pos: &mut usize,
    data_type: DataType,
    large: bool,
    utf8: bool,
    length: usize,
    scratch: &mut Vec<u8>,
) -> (r: Result<Array, Error>)
    requires
        *old(pos) <= input@.len(),
        data_type == (if utf8 {
            if large {
                DataType::LargeUtf8
            } else {
                DataType::Utf8
            }
        } else {
            if large {
                DataType::LargeBinary
            } else {
                DataType::Binary
            }
        }),
    ensures
        match r {
            Ok(a) => parse_array(input@, *old(pos) as int, data_type, length as int)
                == Option::Some((a@, *final(pos) as int)) && wf_v(a@) && len_v(a@) == length
                && dtype_v(a@) == data_type && *old(pos) <= *final(pos) <= input@.len(),
            Err(_) => parse_array(input@, *old(pos) as int, data_type, length as int) is None
                && *final(pos) == *old(pos),
        },
{
    let offw: usize = if large {
        8
    } else {
        4
    };
    let mut p: usize = *pos;
    let v = match read_validity(input, &mut p, length, scratch) {
        Ok(v) => v,
        Err(e) => {
            return Err(e);
        },
    };
    if length >= MAX_CODEC_INPUT {
        proof {
            assert((length as int + 1) * offw as int > MAX_CODEC_INPUT) by (nonlinear_arith)
                requires
                    length >= MAX_CODEC_INPUT,
                    offw >= 1,
                    MAX_CODEC_INPUT >= 1,
            ;
        }
        return Err(Error::FormatViolation);
    }
    let lp1 = length + 1;
    if lp1 > MAX_CODEC_INPUT / offw {
        proof {
            lemma_mul_over(lp1 as int, offw as int, MAX_CODEC_INPUT as int);
        }
        return Err(Error::FormatViolation);
    }
    proof {
        lemma_mul_under(lp1 as int, offw as int, MAX_CODEC_INPUT as int);
    }
    let nbytes = lp1 * offw;
    let obytes = match read_buffer(input, &mut p, nbytes, scratch) {
        Ok(b) => b,
        Err(e) => {
            return Err(e);
        },
    };
    let offsets = read_prim(&obytes, 0, offw, lp1);
    proof {
        assert(obytes@.subrange(0, lp1 as int * offw as int) =~= obytes@);
    }
    if !check_offsets(&offsets, large) {
        return Err(Error::ShapeMismatch);
    }
    let last64 = offsets[length];
    proof {
        assert(offsets@.last() == offsets@[length as int]);
    }
    if last64 > MAX_CODEC_INPUT as u64 {
        return Err(Error::FormatViolation);
    }
    let nv = last64 as usize;
    let values = match read_buffer(input, &mut p, nv, scratch) {
        Ok(b) => b,
        Err(e) => {
            return Err(e);
        },
    };
    if utf8 {
        let ghost offs = crate::bytes::parse_prim(obytes@, offset_width(large), lp1 as nat);
        proof {
            assert(offs == offsets@);
        }
        if !check_utf8_rows(&offsets, &values, length) {
            return Err(Error::ShapeMismatch);
        }
    }
    let a = if utf8 {
        Array::Utf8 { large, offsets, values, validity: v }
    } else {
        Array::Binary { large, offsets, values, validity: v }
    };
    proof {
        let offs = crate::bytes::parse_prim(obytes@, offset_width(large), lp1 as nat);
        if utf8 {
            assert(a@ =~= ArrayV::Utf8 {
                large,
                offsets: offs,
                values: values@,
                validity: view_validity(v),
            });
        } else {
            assert(a@ =~= ArrayV::Binary {
                large,
                offsets: offs,
                values: values@,
                validity: view_validity(v),
            });
        }
    }
    *pos = p;
    Ok(a)
}

/// Reads a binary array with 4-byte or 8-byte offsets, as `data_type` says.
pub fn read_binary(
    input: &Vec<u8>,
    pos: &mut usize,
    data_type: DataType,
    is_little_endian: bool,
    compression: Option<Compression>,
    length: usize,
    scratch: &mut Vec<u8>,
) -> (r: Result<Array, Error>)
    requires
        is_little_endian,
        data_type == DataType::Binary || data_type == DataType::LargeBinary,
        *old(pos) <= input@.len(),
    ensures
        match r {
            Ok(a) => parse_array(input@, *old(pos) as int, data_type, length as int)
                == Option::Some((a@, *final(pos) as int)) && wf_v(a@) && len_v(a@) == length
                && dtype_v(a@) == data_type && *old(pos) <= *final(pos) <= input@.len(),
            Err(_) => parse_array(input@, *old(pos) as int, data_type, length as int) is None
                && *final(pos) == *old(pos),
        },
{
    let large = match data_type {
        DataType::LargeBinary => true,
        _ => false,
    };
    read_var(input, pos, data_type, large, false, length, scratch)
}

/// Reads a utf8 array with 4-byte or 8-byte offsets, as `data_type` says.
pub fn read_utf8(
    input: &Vec<u8>,
    pos: &mut usize,
    data_type: DataType,
    is_little_endian: bool,
    compression: Option<Compression>,
    length: usize,
    scratch: &mut Vec<u8>,
) -> (r: Result<Array, Error>)
    requires
        is_little_endian,
        data_type == DataType::Utf8 || data_type == DataType::LargeUtf8,
        *old(pos) <= input@.len(),
    ensures
        match r {
            Ok(a) => parse_array(input@, *old(pos) as int, data_type, length as int)
                == Option::Some((a@, *final(pos) as int)) && wf_v(a@) && len_v(a@) == length
                && dtype_v(a@) == data_type && *old(pos) <= *final(pos) <= input@.len(),
            Err(_) => parse_array(input@, *old(pos) as int, data_type, length as int) is None
                && *final(pos) == *old(pos),
        },
{
    let large = match data_type {
        DataType::LargeUtf8 => true,
        _ => false,
    };
    read_var(input, pos, data_type, large, true, length, scratch)
}

/// Reads one array of the given shape and row count: the inverse of the
/// serializer for every supported shape; the unimplemented nested shapes fail
/// explicitly.
pub fn read(
    input: &Vec<u8>,
    pos: &mut usize,
    data_type: DataType,
    is_little_endian: bool,
    compression: Option<Compression>,
    length: usize,
    scratch: &mut Vec<u8>,
) -> (r: Result<Array, Error>)
    requires
        is_little_endian,
        *old(pos) <= input@.len(),
    ensures
        match r {
            Ok(a) => parse_array(input@, *old(pos) as int, data_type, length as int)
                == Option::Some((a@, *final(pos) as int)) && wf_v(a@) && len_v(a@) == length
                && dtype_v(a@) == data_type && *old(pos) <= *final(pos) <= input@.len(),
            Err(_) => parse_array(input@, *old(pos) as int, data_type, length as int) is None
                && *final(pos) == *old(pos),
        },
{
    match data_type {
        DataType::Null => read_null(data_type, length),
        DataType::Boolean => read_boolean(
            input,
            pos,
            data_type,
            is_little_endian,
            compression,
            length,
            scratch,
        ),
        DataType::Primitive(_) => read_primitive(
            input,
            pos,
            data_type,
            is_little_endian,
            compression,
            length,
            scratch,
        ),
        DataType::Binary | DataType::LargeBinary => read_binary(
            input,
            pos,
            data_type,
            is_little_endian,
            compression,
            length,
            scratch,
        ),
        DataType::Utf8 | DataType::LargeUtf8 => read_utf8(
            input,
            pos,
            data_type,
            is_little_endian,
            compression,
            length,
            scratch,
        ),
        _ => Err(Error::FormatViolation),
    }
}

} // verus!
