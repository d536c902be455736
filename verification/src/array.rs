use vstd::prelude::*;

verus! {

use crate::bytes::pow256;
use crate::datatypes::{DataType, PrimitiveWidth};
use crate::utf8::is_utf8;

/// One column's typed, nullable data, held as plain values. A validity bitmap
/// of `None` means every row is valid. Variable-length data carries `length + 1`
/// monotone offsets starting at zero; `large` selects 8-byte rather than 4-byte
/// offsets on the wire.
#[derive(Clone, Debug, PartialEq)]
pub enum Array {
    Null { length: usize },
    Boolean { values: Vec<bool>, validity: Option<Vec<bool>> },
    Primitive { width: PrimitiveWidth, values: Vec<u64>, validity: Option<Vec<bool>> },
    Binary { large: bool, offsets: Vec<u64>, values: Vec<u8>, validity: Option<Vec<bool>> },
    Utf8 { large: bool, offsets: Vec<u64>, values: Vec<u8>, validity: Option<Vec<bool>> },
}

/// The mathematical value of an [`Array`].
#[verifier::ext_equal]
pub enum ArrayV {
    Null { length: int },
    Boolean { values: Seq<bool>, validity: Option<Seq<bool>> },
    Primitive { width: PrimitiveWidth, values: Seq<u64>, validity: Option<Seq<bool>> },
    Binary { large: bool, offsets: Seq<u64>, values: Seq<u8>, validity: Option<Seq<bool>> },
    Utf8 { large: bool, offsets: Seq<u64>, values: Seq<u8>, validity: Option<Seq<bool>> },
}

pub open spec fn view_validity(v: Option<Vec<bool>>) -> Option<Seq<bool>> {
    match v {
        Option::Some(b) => Option::Some(b@),
        Option::None => Option::None,
    }
}

impl View for Array {
    type V = ArrayV;

    open spec fn view(&self) -> ArrayV {
        match self {
            Array::Null { length } => ArrayV::Null { length: *length as int },
            Array::Boolean { values, validity } => ArrayV::Boolean {
                values: values@,
                validity: view_validity(*validity),
            },
            Array::Primitive { width, values, validity } => ArrayV::Primitive {
                width: *width,
                values: values@,
                validity: view_validity(*validity),
            },
            Array::Binary { large, offsets, values, validity } => ArrayV::Binary {
                large: *large,
                offsets: offsets@,
                values: values@,
                validity: view_validity(*validity),
            },
            Array::Utf8 { large, offsets, values, validity } => ArrayV::Utf8 {
                large: *large,
                offsets: offsets@,
                values: values@,
                validity: view_validity(*validity),
            },
        }
    }
}

/// The mathematical values of a run of arrays.
pub open spec fn arrays_v(s: Seq<Array>) -> Seq<ArrayV> {
    s.map_values(|a: Array| a@)
}

/// Logical row count.
pub open spec fn len_v(a: ArrayV) -> int {
    match a {
        ArrayV::Null { length } => length,
        ArrayV::Boolean { values, .. } => values.len() as int,
        ArrayV::Primitive { values, .. } => values.len() as int,
        ArrayV::Binary { offsets, .. } => offsets.len() - 1,
        ArrayV::Utf8 { offsets, .. } => offsets.len() - 1,
    }
}

/// The shape an array presents.
pub open spec fn dtype_v(a: ArrayV) -> DataType {
    match a {
        ArrayV::Null { .. } => DataType::Null,
        ArrayV::Boolean { .. } => DataType::Boolean,
        ArrayV::Primitive { width, .. } => DataType::Primitive(width),
        ArrayV::Binary { large, .. } => if large {
            DataType::LargeBinary
        } else {
            DataType::Binary
        },
        ArrayV::Utf8 { large, .. } => if large {
            DataType::LargeUtf8
        } else {
            DataType::Utf8
        },
    }
}

pub open spec fn valid_opt(v: Option<Seq<bool>>, len: int) -> bool {
    match v {
        Option::Some(b) => b.len() == len,
        Option::None => true,
    }
}

/// The largest offset value a 4-byte or 8-byte signed offset can carry.
pub open spec fn max_offset(large: bool) -> int {
    if large {
        0x7fff_ffff_ffff_ffff
    } else {
        0x7fff_ffff
    }
}

/// The bytes of row `i` of a variable-length array.
pub open spec fn row_bytes(offsets: Seq<u64>, values: Seq<u8>, i: int) -> Seq<u8> {
    values.subrange(offsets[i] as int, offsets[i + 1] as int)
}

/// Every row of a utf8 array holds a well-formed UTF-8 string.
pub open spec fn utf8_rows_ok(offsets: Seq<u64>, values: Seq<u8>) -> bool {
    forall|i: int| 0 <= i < offsets.len() - 1 ==> is_utf8(#[trigger] row_bytes(offsets, values, i))
}

pub open spec fn offsets_wf(offsets: Seq<u64>, large: bool) -> bool {
    &&& offsets.len() >= 1
    &&& offsets[0] == 0
    &&& forall|i: int| 0 <= i < offsets.len() - 1 ==> #[trigger] offsets[i] <= offsets[i + 1]
    &&& offsets.last() <= max_offset(large)
}

/// Every well-formed array keeps its validity bitmap, if any, as long as its
/// rows; primitive values fit their width; offsets are monotone from zero and
/// end at the length of the value bytes.
pub open spec fn wf_v(a: ArrayV) -> bool {
    match a {
        ArrayV::Null { length } => length >= 0,
        ArrayV::Boolean { values, validity } => valid_opt(validity, values.len() as int),
        ArrayV::Primitive { width, values, validity } => {
            &&& valid_opt(validity, values.len() as int)
            &&& forall|i: int| 0 <= i < values.len() ==> (values[i] as nat) < pow256(
                width.spec_size(),
            )
        },
        ArrayV::Binary { large, offsets, values, validity } => {
            &&& offsets_wf(offsets, large)
            &&& values.len() == offsets.last()
            &&& valid_opt(validity, offsets.len() - 1)
        },
        ArrayV::Utf8 { large, offsets, values, validity } => {
            &&& offsets_wf(offsets, large)
            &&& values.len() == offsets.last()
            &&& valid_opt(validity, offsets.len() - 1)
            &&& utf8_rows_ok(offsets, values)
        },
    }
}

pub open spec fn slice_validity(v: Option<Seq<bool>>, off: int, len: int) -> Option<Seq<bool>> {
    match v {
        Option::Some(b) => Option::Some(b.subrange(off, off + len)),
        Option::None => Option::None,
    }
}

/// Rows `off .. off + len` of an array, with offsets rebased to zero.
pub open spec fn slice_v(a: ArrayV, off: int, len: int) -> ArrayV {
    match a {
        ArrayV::Null { .. } => ArrayV::Null { length: len },
        ArrayV::Boolean { values, validity } => ArrayV::Boolean {
            values: values.subrange(off, off + len),
            validity: slice_validity(validity, off, len),
        },
        ArrayV::Primitive { width, values, validity } => ArrayV::Primitive {
            width,
            values: values.subrange(off, off + len),
            validity: slice_validity(validity, off, len),
        },
        ArrayV::Binary { large, offsets, values, validity } => ArrayV::Binary {
            large,
            offsets: Seq::new((len + 1) as nat, |i: int| (offsets[off + i] - offsets[off]) as u64),
            values: values.subrange(offsets[off] as int, offsets[off + len] as int),
            validity: slice_validity(validity, off, len),
        },
        ArrayV::Utf8 { large, offsets, values, validity } => ArrayV::Utf8 {
            large,
            offsets: Seq::new((len + 1) as nat, |i: int| (offsets[off + i] - offsets[off]) as u64),
            values: values.subrange(offsets[off] as int, offsets[off + len] as int),
            validity: slice_validity(validity, off, len),
        },
    }
}

/// A bitmap in which every row is valid.
pub open spec fn all_true(len: int) -> Seq<bool> {
    Seq::new(len as nat, |i: int| true)
}

/// The bitmap a validity option stands for: itself, or all-valid.
pub open spec fn opt_bits(v: Option<Seq<bool>>, len: int) -> Seq<bool> {
    match v {
        Option::Some(b) => b,
        Option::None => all_true(len),
    }
}

/// The validity of two runs placed end to end: absent only when both are.
pub open spec fn concat_validity(
    a: Option<Seq<bool>>,
    alen: int,
    b: Option<Seq<bool>>,
    blen: int,
) -> Option<Seq<bool>> {
    if a is None && b is None {
        Option::None
    } else {
        Option::Some(opt_bits(a, alen) + opt_bits(b, blen))
    }
}

/// Two arrays of the same shape placed end to end: values follow values,
/// offsets are rebased past the first array's extent. Arrays of different
/// shapes do not concatenate; the first operand stands.
pub open spec fn concat_v(x: ArrayV, y: ArrayV) -> ArrayV {
    match (x, y) {
        (ArrayV::Null { length: a }, ArrayV::Null { length: b }) => ArrayV::Null {
            length: a + b,
        },
        (
            ArrayV::Boolean { values: va, validity: xa },
            ArrayV::Boolean { values: vb, validity: xb },
        ) => ArrayV::Boolean {
            values: va + vb,
            validity: concat_validity(xa, va.len() as int, xb, vb.len() as int),
        },
        (
            ArrayV::Primitive { width, values: va, validity: xa },
            ArrayV::Primitive { values: vb, validity: xb, .. },
        ) => ArrayV::Primitive {
            width,
            values: va + vb,
            validity: concat_validity(xa, va.len() as int, xb, vb.len() as int),
        },
        (
            ArrayV::Binary { large, offsets: oa, values: va, validity: xa },
            ArrayV::Binary { offsets: ob, values: vb, validity: xb, .. },
        ) => ArrayV::Binary {
            large,
            offsets: oa + Seq::new((ob.len() - 1) as nat, |i: int| (ob[i + 1] + oa.last()) as u64),
            values: va + vb,
            validity: concat_validity(xa, oa.len() - 1, xb, ob.len() - 1),
        },
        (
            ArrayV::Utf8 { large, offsets: oa, values: va, validity: xa },
            ArrayV::Utf8 { offsets: ob, values: vb, validity: xb, .. },
        ) => ArrayV::Utf8 {
            large,
            offsets: oa + Seq::new((ob.len() - 1) as nat, |i: int| (ob[i + 1] + oa.last()) as u64),
            values: va + vb,
            validity: concat_validity(xa, oa.len() - 1, xb, ob.len() - 1),
        },
        _ => x,
    }
}

/// Copies `src[from .. to]` into a fresh vector.
pub fn copy_range<T: Copy>(src: &Vec<T>, from: usize, to: usize) -> (r: Vec<T>)
    requires
        from <= to,
        to <= src@.len(),
    ensures
        r@ == src@.subrange(from as int, to as int),
{
    let mut out: Vec<T> = Vec::new();
    let mut i: usize = from;
    while i < to
        invariant
            from <= i <= to,
            to <= src@.len(),
            out@ =~= src@.subrange(from as int, i as int),
        decreases to - i,
    {
        out.push(src[i]);
        i = i + 1;
    }
    proof {
        assert(out@ =~= src@.subrange(from as int, to as int));
    }
    out
}

fn slice_validity_exec(v: &Option<Vec<bool>>, off: usize, len: usize) -> (r: Option<Vec<bool>>)
    requires
        match v {
            Option::Some(b) => off + len <= b@.len(),
            Option::None => true,
        },
    ensures
        view_validity(r) == slice_validity(view_validity(*v), off as int, len as int),
{
    match v {
        Option::Some(b) => {
            let n = b.len();
            Option::Some(copy_range(b, off, off + len))
        },
        Option::None => Option::None,
    }
}

/// Rebases `length + 1` offsets starting at row `offset` so they begin at zero.
fn slice_offsets(offsets: &Vec<u64>, offset: usize, length: usize) -> (r: Vec<u64>)
    requires
        forall|k: int| 0 <= k < offsets@.len() - 1 ==> #[trigger] offsets@[k] <= offsets@[k + 1],
        offsets@.len() >= 1,
        offset + length <= offsets@.len() - 1,
    ensures
        r@ == Seq::new(
            (length + 1) as nat,
            |k: int| (offsets@[offset + k] - offsets@[offset as int]) as u64,
        ),
{
    let n = offsets.len();
    let base = offsets[offset];
    let mut out: Vec<u64> = Vec::new();
    let mut i: usize = 0;
    while i <= length
        invariant
            i <= length + 1,
            offset + length <= n - 1,
            n == offsets@.len(),
            forall|k: int| 0 <= k < offsets@.len() - 1 ==> #[trigger] offsets@[k] <= offsets@[k
                + 1],
            base == offsets@[offset as int],
            out@ =~= Seq::new(
                i as nat,
                |k: int| (offsets@[offset + k] - offsets@[offset as int]) as u64,
            ),
        decreases length + 1 - i,
    {
        proof {
            lemma_offsets_mono(offsets@, offset as int, (offset + i) as int);
        }
        out.push(offsets[offset + i] - base);
        i = i + 1;
    }
    proof {
        assert(out@ =~= Seq::new(
            (length + 1) as nat,
            |k: int| (offsets@[offset + k] - offsets@[offset as int]) as u64,
        ));
    }
    out
}

fn check_validity_len(v: &Option<Vec<bool>>, rows: usize) -> (r: bool)
    ensures
        r == valid_opt(view_validity(*v), rows as int),
{
    match v {
        Option::Some(b) => b.len() == rows,
        Option::None => true,
    }
}

impl Array {
    /// Decides well-formedness, so unverified callers can test an array
    /// before handing it to the writer.
    #[verifier::loop_isolation(false)]
    pub fn check_wf(&self) -> (r: bool)
        ensures
            r == wf_v(self@),
    {
        match self {
            Array::Null { .. } => true,
            Array::Boolean { values, validity } => check_validity_len(validity, values.len()),
            Array::Primitive { width, values, validity } => {
                if !check_validity_len(validity, values.len()) {
                    return false;
                }
                proof {
                    assert(pow256(8) == 0x1_0000_0000_0000_0000) by {
                        reveal_with_fuel(pow256, 9);
                    }
                    assert(pow256(4) == 0x1_0000_0000 && pow256(2) == 0x1_0000 && pow256(1)
                        == 0x100) by {
                        reveal_with_fuel(pow256, 5);
                    }
                }
                let limit: u64 = match width {
                    PrimitiveWidth::W1 => 0xff,
                    PrimitiveWidth::W2 => 0xffff,
                    PrimitiveWidth::W4 => 0xffff_ffff,
                    PrimitiveWidth::W8 => 0xffff_ffff_ffff_ffff,
                };
                let n = values.len();
                let mut i: usize = 0;
                while i < n
                    invariant
                        i <= n,
                        n == values@.len(),
                        limit as nat == pow256(width.spec_size()) - 1,
                        forall|k: int| 0 <= k < i ==> (#[trigger] values@[k] as nat) < pow256(
                            width.spec_size(),
                        ),
                    decreases n - i,
                {
                    if values[i] > limit {
                        proof {
                            assert(!((values@[i as int] as nat) < pow256(width.spec_size())));
                        }
                        return false;
                    }
                    i = i + 1;
                }
                true
            },
            Array::Binary { large, offsets, values, validity } => {
                if !check_offsets(offsets, *large) {
                    return false;
                }
                let rows = offsets.len() - 1;
                values.len() as u64 == offsets[rows] && check_validity_len(validity, rows)
            },
            Array::Utf8 { large, offsets, values, validity } => {
                if !check_offsets(offsets, *large) {
                    return false;
                }
                let rows = offsets.len() - 1;
                if !(values.len() as u64 == offsets[rows] && check_validity_len(validity, rows)) {
                    return false;
                }
                check_utf8_rows(offsets, values, rows)
            },
        }
    }

    /// Logical row count.
    pub fn len(&self) -> (r: usize)
        requires
            wf_v(self@),
        ensures
            r == len_v(self@),
    {
        match self {
            Array::Null { length } => *length,
            Array::Boolean { values, .. } => values.len(),
            Array::Primitive { values, .. } => values.len(),
            Array::Binary { offsets, .. } => offsets.len() - 1,
            Array::Utf8 { offsets, .. } => offsets.len() - 1,
        }
    }

    /// The shape this array presents.
    pub fn data_type(&self) -> (r: DataType)
        ensures
            r == dtype_v(self@),
    {
        match self {
            Array::Null { .. } => DataType::Null,
            Array::Boolean { .. } => DataType::Boolean,
            Array::Primitive { width, .. } => DataType::Primitive(*width),
            Array::Binary { large, .. } => if *large {
                DataType::LargeBinary
            } else {
                DataType::Binary
            },
            Array::Utf8 { large, .. } => if *large {
                DataType::LargeUtf8
            } else {
                DataType::Utf8
            },
        }
    }

    /// Rows `offset .. offset + length` of this array, as an array of the same
    /// shape with offsets rebased to zero.
    pub fn slice(&self, offset: usize, length: usize) -> (r: Array)
        requires
            wf_v(self@),
            offset + length <= len_v(self@),
        ensures
            r@ == slice_v(self@, offset as int, length as int),
    {
        match self {
            Array::Null { .. } => Array::Null { length },
            Array::Boolean { values, validity } => {
                let n = values.len();
                Array::Boolean {
                    values: copy_range(values, offset, offset + length),
                    validity: slice_validity_exec(validity, offset, length),
                }
            },
            Array::Primitive { width, values, validity } => {
                let n = values.len();
                Array::Primitive {
                    width: *width,
                    values: copy_range(values, offset, offset + length),
                    validity: slice_validity_exec(validity, offset, length),
                }
            },
            Array::Binary { large, offsets, values, validity } => {
                let on = offsets.len();
                let new_offsets = slice_offsets(offsets, offset, length);
                let vn = values.len();
                proof {
                    lemma_offsets_mono(offsets@, (offset + length) as int, offsets@.len() - 1);
                    lemma_offsets_mono(offsets@, offset as int, (offset + length) as int);
                }
                let lo = offsets[offset] as usize;
                let hi = offsets[offset + length] as usize;
                Array::Binary {
                    large: *large,
                    offsets: new_offsets,
                    values: copy_range(values, lo, hi),
                    validity: slice_validity_exec(validity, offset, length),
                }
            },
            Array::Utf8 { large, offsets, values, validity } => {
                let on = offsets.len();
                let new_offsets = slice_offsets(offsets, offset, length);
                let vn = values.len();
                proof {
                    lemma_offsets_mono(offsets@, (offset + length) as int, offsets@.len() - 1);
                    lemma_offsets_mono(offsets@, offset as int, (offset + length) as int);
                }
                let lo = offsets[offset] as usize;
                let hi = offsets[offset + length] as usize;
                Array::Utf8 {
                    large: *large,
                    offsets: new_offsets,
                    values: copy_range(values, lo, hi),
                    validity: slice_validity_exec(validity, offset, length),
                }
            },
        }
    }
}

/// Offsets of a well-formed variable-length array never decrease.
pub proof fn lemma_offsets_mono(offsets: Seq<u64>, i: int, j: int)
    requires
        0 <= i <= j < offsets.len(),
        forall|k: int| 0 <= k < offsets.len() - 1 ==> #[trigger] offsets[k] <= offsets[k + 1],
    ensures
        offsets[i] <= offsets[j],
    decreases j - i,
{
    if i < j {
        lemma_offsets_mono(offsets, i, j - 1);
        assert(offsets[j - 1] <= offsets[j]);
    }
}

/// Checks that offsets begin at zero, never decrease, and end within the
/// range the offset width can carry.
pub fn check_offsets(offsets: &Vec<u64>, large: bool) -> (r: bool)
    ensures
        r == offsets_wf(offsets@, large),
{
    let n = offsets.len();
    if n < 1 {
        return false;
    }
    if offsets[0] != 0 {
        return false;
    }
    let mut i: usize = 0;
    while i < n - 1
        invariant
            i <= n - 1,
            n >= 1,
            n == offsets@.len(),
            forall|k: int| 0 <= k < i ==> #[trigger] offsets@[k] <= offsets@[k + 1],
        decreases n - 1 - i,
    {
        if offsets[i] > offsets[i + 1] {
            return false;
        }
        i = i + 1;
    }
    let m: u64 = if large {
        0x7fff_ffff_ffff_ffff
    } else {
        0x7fff_ffff
    };
    offsets[n - 1] <= m
}

/// Reads a variable-length array: validity record, an offsets record of
/// `length + 1` entries, then a values record whose size the last offset
/// gives.
/// Checks that every row of a variable-length array holds well-formed UTF-8.
pub fn check_utf8_rows(offsets: &Vec<u64>, values: &Vec<u8>, length: usize) -> (r: bool)
    requires
        offsets@.len() == length + 1,
        offsets_wf(offsets@, true) || offsets_wf(offsets@, false),
        values@.len() == offsets@.last(),
    ensures
        r == utf8_rows_ok(offsets@, values@),
{
    let vn = values.len();
    let mut j: usize = 0;
    while j < length
        invariant
            j <= length,
            vn == values@.len(),
            offsets@.len() == length + 1,
            offsets_wf(offsets@, true) || offsets_wf(offsets@, false),
            values@.len() == offsets@.last(),
            forall|jj: int| 0 <= jj < j ==> crate::utf8::is_utf8(
                #[trigger] row_bytes(offsets@, values@, jj),
            ),
        decreases length - j,
    {
        proof {
            lemma_offsets_mono(offsets@, j as int, j as int + 1);
            lemma_offsets_mono(offsets@, j as int + 1, offsets@.len() - 1);
        }
        let s = offsets[j] as usize;
        let e = offsets[j + 1] as usize;
        proof {
            assert(row_bytes(offsets@, values@, j as int) =~= values@.subrange(
                s as int,
                e as int,
            ));
        }
        if !crate::utf8::check_utf8_range(values, s, e) {
            proof {
                assert(!crate::utf8::is_utf8(row_bytes(offsets@, values@, j as int)));
                assert(!utf8_rows_ok(offsets@, values@));
            }
            return false;
        }
        j = j + 1;
    }
    proof {
        assert(utf8_rows_ok(offsets@, values@));
    }
    true
}

/// Slicing a well-formed array yields a well-formed array of the same shape,
/// with the requested row count.
#[verifier::rlimit(100)]
#[verifier::spinoff_prover]
pub proof fn lemma_slice_wf(a: ArrayV, off: int, len: int)
    requires
        wf_v(a),
        0 <= off,
        0 <= len,
        off + len <= len_v(a),
    ensures
        wf_v(slice_v(a, off, len)),
        len_v(slice_v(a, off, len)) == len,
        dtype_v(slice_v(a, off, len)) == dtype_v(a),
{
    match a {
        ArrayV::Binary { large, offsets, values, validity } => {
            lemma_slice_offsets_wf(offsets, values.len() as int, large, off, len);
        },
        ArrayV::Utf8 { large, offsets, values, validity } => {
            lemma_slice_offsets_wf(offsets, values.len() as int, large, off, len);
            let sub_offsets = Seq::new(
                (len + 1) as nat,
                |i: int| (offsets[off + i] - offsets[off]) as u64,
            );
            let sub_values = values.subrange(offsets[off] as int, offsets[off + len] as int);
            assert forall|i: int| 0 <= i < sub_offsets.len() - 1 implies is_utf8(
                #[trigger] row_bytes(sub_offsets, sub_values, i),
            ) by {
                lemma_offsets_mono(offsets, off, off + i);
                lemma_offsets_mono(offsets, off + i, off + i + 1);
                lemma_offsets_mono(offsets, off + i + 1, off + len);
                assert(row_bytes(sub_offsets, sub_values, i) =~= row_bytes(
                    offsets,
                    values,
                    off + i,
                ));
                assert(is_utf8(row_bytes(offsets, values, off + i)));
            }
        },
        _ => {},
    }
}

proof fn lemma_slice_offsets_wf(offsets: Seq<u64>, vlen: int, large: bool, off: int, len: int)
    requires
        offsets_wf(offsets, large),
        vlen == offsets.last(),
        0 <= off,
        0 <= len,
        off + len <= offsets.len() - 1,
    ensures
        ({
            let sub = Seq::new((len + 1) as nat, |i: int| (offsets[off + i] - offsets[off]) as u64);
            &&& offsets_wf(sub, large)
            &&& sub.last() == offsets[off + len] - offsets[off]
            &&& offsets[off + len] <= vlen
        }),
{
    let sub = Seq::new((len + 1) as nat, |i: int| (offsets[off + i] - offsets[off]) as u64);
    assert forall|i: int| 0 <= i < sub.len() - 1 implies #[trigger] sub[i] <= sub[i + 1] by {
        lemma_offsets_mono(offsets, off, off + i);
        assert(offsets[off + i] <= offsets[off + i + 1]);
    }
    lemma_offsets_mono(offsets, off, off + len);
    lemma_offsets_mono(offsets, off + len, offsets.len() - 1);
    assert(sub.last() == sub[len as int]);
}

} // verus!
