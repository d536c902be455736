use vstd::prelude::*;

verus! {

use crate::array::{
    concat_v, len_v, lemma_offsets_mono, lemma_slice_wf, slice_v, wf_v, ArrayV,
};
use crate::compression::Compression;
use crate::writer::{
    chunk_metas, chunk_metas_upto, enc_chunk, enc_chunk_upto, enc_pages, page_count, page_len_at,
    pages_of, ColumnMeta,
};

/// The pages of an array, concatenated back in order.
pub open spec fn concat_all(pages: Seq<ArrayV>) -> ArrayV
    decreases pages.len(),
{
    if pages.len() <= 1 {
        pages[0]
    } else {
        concat_v(concat_all(pages.drop_last()), pages.last())
    }
}

/// A slice over an array's whole extent is the array.
pub proof fn lemma_slice_full(a: ArrayV)
    requires
        wf_v(a),
    ensures
        slice_v(a, 0, len_v(a)) == a,
{
    match a {
        ArrayV::Null { .. } => {
            assert(slice_v(a, 0, len_v(a)) =~= a);
        },
        ArrayV::Boolean { values, validity } => {
            assert(values.subrange(0, values.len() as int) =~= values);
            if validity is Some {
                assert(validity.unwrap().subrange(0, values.len() as int) =~= validity.unwrap());
            }
            assert(slice_v(a, 0, len_v(a)) =~= a);
        },
        ArrayV::Primitive { width, values, validity } => {
            assert(values.subrange(0, values.len() as int) =~= values);
            if validity is Some {
                assert(validity.unwrap().subrange(0, values.len() as int) =~= validity.unwrap());
            }
            assert(slice_v(a, 0, len_v(a)) =~= a);
        },
        ArrayV::Binary { large, offsets, values, validity } => {
            let n = offsets.len() - 1;
            assert(Seq::new((n + 1) as nat, |i: int| (offsets[i] - offsets[0]) as u64)
                =~= offsets);
            assert(values.subrange(offsets[0] as int, offsets[n] as int) =~= values);
            if validity is Some {
                assert(validity.unwrap().subrange(0, n) =~= validity.unwrap());
            }
            assert(slice_v(a, 0, len_v(a)) =~= a);
        },
        ArrayV::Utf8 { large, offsets, values, validity } => {
            let n = offsets.len() - 1;
            assert(Seq::new((n + 1) as nat, |i: int| (offsets[i] - offsets[0]) as u64)
                =~= offsets);
            assert(values.subrange(offsets[0] as int, offsets[n] as int) =~= values);
            if validity is Some {
                assert(validity.unwrap().subrange(0, n) =~= validity.unwrap());
            }
            assert(slice_v(a, 0, len_v(a)) =~= a);
        },
    }
}

/// Two adjacent slices of one array concatenate to the single slice that
/// spans both.
#[verifier::rlimit(100)]
#[verifier::spinoff_prover]
pub proof fn lemma_concat_adjacent_slices(a: ArrayV, k: int, l: int)
    requires
        wf_v(a),
        0 <= k,
        0 <= l,
        k + l <= len_v(a),
    ensures
        concat_v(slice_v(a, 0, k), slice_v(a, k, l)) == slice_v(a, 0, k + l),
{
    match a {
        ArrayV::Null { .. } => {
            assert(concat_v(slice_v(a, 0, k), slice_v(a, k, l)) =~= slice_v(a, 0, k + l));
        },
        ArrayV::Boolean { values, validity } => {
            lemma_concat_parts(values.len() as int, k, l, validity);
            assert(values.subrange(0, k) + values.subrange(k, k + l) =~= values.subrange(
                0,
                k + l,
            ));
            assert(concat_v(slice_v(a, 0, k), slice_v(a, k, l)) =~= slice_v(a, 0, k + l));
        },
        ArrayV::Primitive { width, values, validity } => {
            lemma_concat_parts(values.len() as int, k, l, validity);
            assert(values.subrange(0, k) + values.subrange(k, k + l) =~= values.subrange(
                0,
                k + l,
            ));
            assert(concat_v(slice_v(a, 0, k), slice_v(a, k, l)) =~= slice_v(a, 0, k + l));
        },
        ArrayV::Binary { .. } => {
            lemma_concat_adjacent_binary(a, k, l);
        },
        ArrayV::Utf8 { .. } => {
            lemma_concat_adjacent_utf8(a, k, l);
        },
    }
}

#[verifier::rlimit(100)]
#[verifier::spinoff_prover]
proof fn lemma_concat_adjacent_binary(a: ArrayV, k: int, l: int)
    requires
        wf_v(a),
        a is Binary,
        0 <= k,
        0 <= l,
        k + l <= len_v(a),
    ensures
        concat_v(slice_v(a, 0, k), slice_v(a, k, l)) == slice_v(a, 0, k + l),
{
    match a {
        ArrayV::Binary { large, offsets, values, validity } => {
            lemma_concat_var_offsets(offsets, values.len() as int, k, l);
            lemma_concat_parts(offsets.len() - 1, k, l, validity);
            lemma_offsets_mono(offsets, 0, k);
            lemma_offsets_mono(offsets, k, k + l);
            lemma_offsets_mono(offsets, k + l, offsets.len() - 1);
            let s1 = slice_v(a, 0, k);
            let s2 = slice_v(a, k, l);
            let s12 = slice_v(a, 0, k + l);
            let o1 = Seq::new((k + 1) as nat, |i: int| (offsets[i] - offsets[0]) as u64);
            let o2 = Seq::new((l + 1) as nat, |i: int| (offsets[k + i] - offsets[k]) as u64);
            let o12 = Seq::new((k + l + 1) as nat, |i: int| (offsets[i] - offsets[0]) as u64);
            assert(s1->Binary_offsets =~= o1);
            assert(s2->Binary_offsets =~= o2);
            assert(s12->Binary_offsets =~= o12);
            assert(concat_v(s1, s2)->Binary_offsets =~= o1 + Seq::new(
                (o2.len() - 1) as nat,
                |i: int| (o2[i + 1] + o1.last()) as u64,
            ));
            assert(concat_v(s1, s2)->Binary_offsets == s12->Binary_offsets);
            assert(values.subrange(offsets[0] as int, offsets[k] as int) + values.subrange(
                offsets[k] as int,
                offsets[k + l] as int,
            ) =~= values.subrange(offsets[0] as int, offsets[k + l] as int));
            assert(concat_v(s1, s2)->Binary_values == s12->Binary_values);
            assert(concat_v(s1, s2)->Binary_validity == s12->Binary_validity);
            assert(concat_v(s1, s2)->Binary_large == s12->Binary_large);
            assert(concat_v(s1, s2) =~= s12);
        },
        _ => {},
    }
}

proof fn lemma_concat_adjacent_utf8(a: ArrayV, k: int, l: int)
    requires
        wf_v(a),
        a is Utf8,
        0 <= k,
        0 <= l,
        k + l <= len_v(a),
    ensures
        concat_v(slice_v(a, 0, k), slice_v(a, k, l)) == slice_v(a, 0, k + l),
{
    match a {
        ArrayV::Utf8 { large, offsets, values, validity } => {
            lemma_concat_var_offsets(offsets, values.len() as int, k, l);
            lemma_concat_parts(offsets.len() - 1, k, l, validity);
            lemma_offsets_mono(offsets, 0, k);
            lemma_offsets_mono(offsets, k, k + l);
            lemma_offsets_mono(offsets, k + l, offsets.len() - 1);
            let s1 = slice_v(a, 0, k);
            let s2 = slice_v(a, k, l);
            let s12 = slice_v(a, 0, k + l);
            let o1 = Seq::new((k + 1) as nat, |i: int| (offsets[i] - offsets[0]) as u64);
            let o2 = Seq::new((l + 1) as nat, |i: int| (offsets[k + i] - offsets[k]) as u64);
            let o12 = Seq::new((k + l + 1) as nat, |i: int| (offsets[i] - offsets[0]) as u64);
            assert(s1->Utf8_offsets =~= o1);
            assert(s2->Utf8_offsets =~= o2);
            assert(s12->Utf8_offsets =~= o12);
            assert(concat_v(s1, s2)->Utf8_offsets =~= o1 + Seq::new(
                (o2.len() - 1) as nat,
                |i: int| (o2[i + 1] + o1.last()) as u64,
            ));
            assert(concat_v(s1, s2)->Utf8_offsets == s12->Utf8_offsets);
            assert(values.subrange(offsets[0] as int, offsets[k] as int) + values.subrange(
                offsets[k] as int,
                offsets[k + l] as int,
            ) =~= values.subrange(offsets[0] as int, offsets[k + l] as int));
            assert(concat_v(s1, s2)->Utf8_values == s12->Utf8_values);
            assert(concat_v(s1, s2)->Utf8_validity == s12->Utf8_validity);
            assert(concat_v(s1, s2)->Utf8_large == s12->Utf8_large);
            assert(concat_v(s1, s2) =~= s12);
        },
        _ => {},
    }
}

/// Adjacent subranges of a validity bitmap concatenate to the spanning one.
proof fn lemma_concat_parts(rows: int, k: int, l: int, validity: Option<Seq<bool>>)
    requires
        0 <= k,
        0 <= l,
        k + l <= rows,
        match validity {
            Option::Some(b) => b.len() == rows,
            Option::None => true,
        },
    ensures
        match validity {
            Option::Some(b) => b.subrange(0, k) + b.subrange(k, k + l) == b.subrange(0, k + l),
            Option::None => true,
        },
{
    match validity {
        Option::Some(b) => {
            assert(b.subrange(0, k) + b.subrange(k, k + l) =~= b.subrange(0, k + l));
        },
        Option::None => {},
    }
}

/// The offsets and values of two adjacent variable-length slices concatenate
/// to those of the spanning slice.
proof fn lemma_concat_var_offsets(offsets: Seq<u64>, vlen: int, k: int, l: int)
    requires
        offsets.len() >= 1,
        offsets[0] == 0,
        forall|i: int| 0 <= i < offsets.len() - 1 ==> #[trigger] offsets[i] <= offsets[i + 1],
        vlen == offsets.last(),
        0 <= k,
        0 <= l,
        k + l <= offsets.len() - 1,
    ensures
        ({
            let o1 = Seq::new((k + 1) as nat, |i: int| (offsets[i] - offsets[0]) as u64);
            let o2 = Seq::new((l + 1) as nat, |i: int| (offsets[k + i] - offsets[k]) as u64);
            let o12 = Seq::new((k + l + 1) as nat, |i: int| (offsets[i] - offsets[0]) as u64);
            o1 + Seq::new((o2.len() - 1) as nat, |i: int| (o2[i + 1] + o1.last()) as u64) == o12
        }),
{
    let o1 = Seq::new((k + 1) as nat, |i: int| (offsets[i] - offsets[0]) as u64);
    let o2 = Seq::new((l + 1) as nat, |i: int| (offsets[k + i] - offsets[k]) as u64);
    let o12 = Seq::new((k + l + 1) as nat, |i: int| (offsets[i] - offsets[0]) as u64);
    assert forall|i: int| 0 <= i < l implies (#[trigger] o2[i + 1] + o1.last()) as u64 == o12[k
        + 1 + i] by {
        lemma_offsets_mono(offsets, 0, k);
        lemma_offsets_mono(offsets, k, k + i + 1);
    }
    assert(o1 + Seq::new((o2.len() - 1) as nat, |i: int| (o2[i + 1] + o1.last()) as u64) =~= o12);
}

/// Paging transparency: splitting an array into pages of `p` rows and
/// concatenating the pages back, in order, reproduces the array exactly.
#[verifier::rlimit(100)]
#[verifier::spinoff_prover]
pub proof fn lemma_paging_transparency(a: ArrayV, p: int)
    requires
        wf_v(a),
        p >= 1,
    ensures
        concat_all(pages_of(a, p)) == a,
{
    let total = len_v(a);
    if total == 0 {
        assert(pages_of(a, p).len() == 1);
        assert(0 * p == 0) by (nonlinear_arith);
        assert(pages_of(a, p)[0] == slice_v(a, 0 * p, page_len_at(total, p, 0 * p)));
        assert(pages_of(a, p)[0] == slice_v(a, 0, 0));
        lemma_slice_full(a);
        assert(concat_all(pages_of(a, p)) == slice_v(a, 0, 0));
    } else {
        lemma_count_covers(total, p);
        lemma_concat_pages_prefix(a, p, page_count(total, p));
        assert(pages_of(a, p).take(page_count(total, p)) =~= pages_of(a, p));
        lemma_slice_full(a);
    }
}

/// The first `j` pages concatenate to the prefix slice they cover.
#[verifier::rlimit(100)]
#[verifier::spinoff_prover]
proof fn lemma_concat_pages_prefix(a: ArrayV, p: int, j: int)
    requires
        wf_v(a),
        p >= 1,
        len_v(a) >= 1,
        1 <= j <= page_count(len_v(a), p),
    ensures
        concat_all(pages_of(a, p).take(j)) == slice_v(
            a,
            0,
            if j * p <= len_v(a) {
                j * p
            } else {
                len_v(a)
            },
        ),
    decreases j,
{
    let total = len_v(a);
    let pages = pages_of(a, p);
    if j == 1 {
        assert(pages.take(1).len() == 1);
        assert(pages.take(1)[0] == pages[0]);
        assert(0 * p == 0 && 1 * p == p) by (nonlinear_arith);
        assert(pages[0] == slice_v(a, 0 * p, page_len_at(total, p, 0 * p)));
    } else {
        lemma_concat_pages_prefix(a, p, j - 1);
        lemma_count_lt(total, p, j - 1);
        let covered = if (j - 1) * p <= total {
            (j - 1) * p
        } else {
            total
        };
        assert((j - 1) * p < total);
        assert(covered == (j - 1) * p);
        assert(pages.take(j).drop_last() =~= pages.take(j - 1));
        assert(pages.take(j).last() == pages[j - 1]);
        assert(pages[j - 1] == slice_v(a, (j - 1) * p, page_len_at(total, p, (j - 1) * p)));
        let l = page_len_at(total, p, (j - 1) * p);
        assert((j - 1) * p + p == j * p) by (nonlinear_arith);
        lemma_concat_adjacent_slices(a, (j - 1) * p, l);
        assert(concat_all(pages.take(j)) == slice_v(a, 0, (j - 1) * p + l));
    }
}

/// Before the last page, each page start lies inside the array.
proof fn lemma_count_lt(total: int, p: int, j: int)
    requires
        total >= 1,
        p >= 1,
        0 <= j < page_count(total, p),
    ensures
        j * p < total,
{
    if j * p >= total {
        assert((j + 1) * p == j * p + p) by (nonlinear_arith);
        assert(j == (j * p) / p) by {
            assert(j * p == p * j) by (nonlinear_arith);
            vstd::arithmetic::div_mod::lemma_div_multiples_vanish(j, p);
        }
        vstd::arithmetic::div_mod::lemma_div_is_ordered(total + p - 1, j * p + p - 1, p);
        assert((j * p + p - 1) / p == j) by {
            vstd::arithmetic::div_mod::lemma_fundamental_div_mod_converse_div(
                j * p + p - 1,
                p,
                j,
                p - 1,
            );
        }
    }
}

/// All pages together cover the whole array.
proof fn lemma_count_covers(total: int, p: int)
    requires
        total >= 1,
        p >= 1,
    ensures
        page_count(total, p) * p >= total,
        page_count(total, p) >= 1,
    {
    let k = page_count(total, p);
    vstd::arithmetic::div_mod::lemma_fundamental_div_mod(total + p - 1, p);
    assert(k * p == p * k) by (nonlinear_arith);
    assert((total + p - 1) % p < p) by {
        vstd::arithmetic::div_mod::lemma_mod_bound(total + p - 1, p);
    }
    vstd::arithmetic::div_mod::lemma_div_by_self(p);
    vstd::arithmetic::div_mod::lemma_div_is_ordered(p, total + p - 1, p);
}

/// The side index of one chunk has one entry per column, in schema order;
/// each entry's byte range begins where the previous one ends, so the ranges
/// never overlap.
pub proof fn lemma_chunk_metas_ranges(
    avs: Seq<ArrayV>,
    base: int,
    p: int,
    c: Option<Compression>,
)
    requires
        0 <= base,
        base + enc_chunk(avs, p, c).len() <= 0xffff_ffff_ffff_ffff,
        forall|i: int| 0 <= i < avs.len() ==> 0 <= len_v(#[trigger] avs[i]) <= 0xffff_ffff,
    ensures
        chunk_metas(avs, base, p, c).len() == avs.len(),
        forall|i: int| 0 <= i < avs.len() ==> (#[trigger] chunk_metas(avs, base, p, c)[i]).offset
            as int == base + enc_chunk_upto(avs, i, p, c).len(),
        forall|i: int| 0 <= i < avs.len() ==> (#[trigger] chunk_metas(avs, base, p, c)[i]).length
            as int == enc_pages(avs[i], p, c).len(),
        forall|i: int| 0 <= i < avs.len() ==> (#[trigger] chunk_metas(avs, base, p, c)[i]).num_values
            as int == len_v(avs[i]),
        forall|i: int, j: int| 0 <= i < j < avs.len() ==> (#[trigger] chunk_metas(
            avs,
            base,
            p,
            c,
        )[i]).offset + chunk_metas(avs, base, p, c)[i].length <= (#[trigger] chunk_metas(
            avs,
            base,
            p,
            c,
        )[j]).offset,
{
    let n = avs.len() as int;
    assert forall|j: int| 0 <= j <= n implies chunk_metas_upto(avs, j, base, p, c).len() == j by {
        lemma_metas_upto_len(avs, j, base, p, c);
    }
    assert forall|i: int| 0 <= i < n implies {
        &&& (#[trigger] chunk_metas(avs, base, p, c)[i]).offset as int == base + enc_chunk_upto(
            avs,
            i,
            p,
            c,
        ).len()
        &&& chunk_metas(avs, base, p, c)[i].length as int == enc_pages(avs[i], p, c).len()
        &&& chunk_metas(avs, base, p, c)[i].num_values as int == len_v(avs[i])
    } by {
        lemma_metas_upto_index(avs, n, i, base, p, c);
        lemma_upto_le(avs, i + 1, n, p, c);
    }
    assert forall|i: int, j: int| 0 <= i < j < n implies (#[trigger] chunk_metas(
        avs,
        base,
        p,
        c,
    )[i]).offset + chunk_metas(avs, base, p, c)[i].length <= (#[trigger] chunk_metas(
        avs,
        base,
        p,
        c,
    )[j]).offset by {
        lemma_upto_le(avs, i + 1, j, p, c);
    }
}

proof fn lemma_metas_upto_len(avs: Seq<ArrayV>, j: int, base: int, p: int, c: Option<Compression>)
    requires
        0 <= j <= avs.len(),
    ensures
        chunk_metas_upto(avs, j, base, p, c).len() == j,
    decreases j,
{
    if j > 0 {
        lemma_metas_upto_len(avs, j - 1, base, p, c);
    }
}

/// Entry `i` of the index is already fixed once the first `i + 1` columns
/// are counted.
proof fn lemma_metas_upto_index(
    avs: Seq<ArrayV>,
    j: int,
    i: int,
    base: int,
    p: int,
    c: Option<Compression>,
)
    requires
        0 <= i < j <= avs.len(),
    ensures
        chunk_metas_upto(avs, j, base, p, c).len() == j,
        chunk_metas_upto(avs, j, base, p, c)[i] == (ColumnMeta {
            offset: (base + enc_chunk_upto(avs, i, p, c).len()) as u64,
            length: enc_pages(avs[i], p, c).len() as u64,
            num_values: len_v(avs[i]) as u64,
        }),
    decreases j,
{
    lemma_metas_upto_len(avs, j, base, p, c);
    if i < j - 1 {
        lemma_metas_upto_index(avs, j - 1, i, base, p, c);
    } else {
        lemma_metas_upto_len(avs, j - 1, base, p, c);
    }
}

/// Counting more columns never shortens the byte run they cover.
proof fn lemma_upto_le(avs: Seq<ArrayV>, i: int, j: int, p: int, c: Option<Compression>)
    requires
        0 <= i <= j,
    ensures
        enc_chunk_upto(avs, i, p, c).len() <= enc_chunk_upto(avs, j, p, c).len(),
    decreases j - i,
{
    if i < j {
        lemma_upto_le(avs, i, j - 1, p, c);
    }
}

} // verus!
