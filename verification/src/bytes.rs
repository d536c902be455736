use vstd::prelude::*;

verus! {

use vstd::arithmetic::div_mod::{
    lemma_fundamental_div_mod, lemma_fundamental_div_mod_converse_div,
    lemma_fundamental_div_mod_converse_mod,
};

/// 256 raised to `w`: the number of values a `w`-byte field can hold.
pub open spec fn pow256(w: nat) -> nat
    decreases w,
{
    if w == 0 {
        1
    } else {
        256 * pow256((w - 1) as nat)
    }
}

/// The `w` little-endian bytes of `v`.
pub open spec fn le_bytes(v: nat, w: nat) -> Seq<u8>
    decreases w,
{
    if w == 0 {
        Seq::empty()
    } else {
        seq![(v % 256) as u8] + le_bytes(v / 256, (w - 1) as nat)
    }
}

/// The value held by a little-endian byte sequence.
pub open spec fn from_le(s: Seq<u8>) -> nat
    decreases s.len(),
{
    if s.len() == 0 {
        0
    } else {
        s[0] as nat + 256 * from_le(s.drop_first())
    }
}

pub proof fn lemma_le_bytes_len(v: nat, w: nat)
    ensures
        le_bytes(v, w).len() == w,
    decreases w,
{
    if w > 0 {
        lemma_le_bytes_len(v / 256, (w - 1) as nat);
    }
}

pub proof fn lemma_from_le_bound(s: Seq<u8>)
    ensures
        from_le(s) < pow256(s.len()),
    decreases s.len(),
{
    if s.len() > 0 {
        lemma_from_le_bound(s.drop_first());
    }
}

/// Reading back the little-endian bytes of `v` yields `v`.
pub proof fn lemma_le_round_trip(v: nat, w: nat)
    requires
        v < pow256(w),
    ensures
        from_le(le_bytes(v, w)) == v,
    decreases w,
{
    if w == 0 {
    } else {
        let q = v / 256;
        let r = v % 256;
        lemma_fundamental_div_mod(v as int, 256);
        assert(v == 256 * q + r);
        assert(256 * q <= v);
        assert(q < pow256((w - 1) as nat)) by {
            if q >= pow256((w - 1) as nat) {
                assert(256 * q >= 256 * pow256((w - 1) as nat)) by (nonlinear_arith)
                    requires q >= pow256((w - 1) as nat);
            }
        }
        lemma_le_round_trip(q, (w - 1) as nat);
        assert(le_bytes(v, w).drop_first() =~= le_bytes(q, (w - 1) as nat));
    }
}

/// Appends the `w` little-endian bytes of `v` to `out`.
pub fn push_le_bytes(out: &mut Vec<u8>, v: u64, w: usize)
    requires
        w <= 8,
        (v as nat) < pow256(w as nat),
    ensures
        final(out)@ == old(out)@ + le_bytes(v as nat, w as nat),
{
    let ghost complete = old(out)@ + le_bytes(v as nat, w as nat);
    let mut x: u64 = v;
    let mut i: usize = 0;
    while i < w
        invariant
            i <= w,
            out@ + le_bytes(x as nat, (w - i) as nat) == complete,
        decreases w - i,
    {
        let b: u8 = (x % 256) as u8;
        proof {
            assert(le_bytes(x as nat, (w - i) as nat) == seq![b] + le_bytes(
                x as nat / 256,
                (w - i - 1) as nat,
            ));
            assert(out@ + le_bytes(x as nat, (w - i) as nat) =~= (out@ + seq![b]) + le_bytes(
                x as nat / 256,
                (w - i - 1) as nat,
            ));
        }
        out.push(b);
        x = x / 256;
        i = i + 1;
    }
    proof {
        assert(out@ + le_bytes(x as nat, 0) =~= out@);
    }
}

pub proof fn lemma_pow256_le_max(w: nat)
    ensures
        w <= 8 ==> pow256(w) <= 0x1_0000_0000_0000_0000,
{
    assert(pow256(8) == 0x1_0000_0000_0000_0000) by {
        reveal_with_fuel(pow256, 9);
    }
    if w <= 8 {
        lemma_pow256_mono(w, 8);
    }
}

pub proof fn lemma_pow256_pos(w: nat)
    ensures
        pow256(w) >= 1,
    decreases w,
{
    if w > 0 {
        lemma_pow256_pos((w - 1) as nat);
    }
}

pub proof fn lemma_pow256_mono(a: nat, b: nat)
    requires
        a <= b,
    ensures
        pow256(a) <= pow256(b),
    decreases b,
{
    if a < b {
        lemma_pow256_mono(a, (b - 1) as nat);
        lemma_pow256_pos((b - 1) as nat);
    }
}

/// Reads the `w`-byte little-endian value stored at `start`.
pub fn read_le_bytes(input: &Vec<u8>, start: usize, w: usize) -> (r: u64)
    requires
        w <= 8,
        start + w <= input@.len(),
    ensures
        r as nat == from_le(input@.subrange(start as int, (start + w) as int)),
{
    let n = input.len();
    let mut acc: u64 = 0;
    let mut i: usize = w;
    while i > 0
        invariant
            i <= w,
            w <= 8,
            n == input@.len(),
            start + w <= n,
            acc as nat == from_le(input@.subrange((start + i) as int, (start + w) as int)),
        decreases i,
    {
        i = i - 1;
        let ghost s_next = input@.subrange((start + i + 1) as int, (start + w) as int);
        let ghost s_cur = input@.subrange((start + i) as int, (start + w) as int);
        proof {
            assert(s_cur.drop_first() =~= s_next);
            assert(from_le(s_cur) == s_cur[0] as nat + 256 * from_le(s_next));
            lemma_from_le_bound(s_next);
            lemma_pow256_le_max(s_next.len());
            assert(s_next.len() <= 7);
            lemma_pow256_mono(s_next.len(), 7);
            assert(pow256(7) == 0x100_0000_0000_0000) by {
                reveal_with_fuel(pow256, 8);
            }
        }
        let b = input[start + i];
        acc = (b as u64) + 256 * acc;
    }
    proof {
        assert(input@.subrange((start + 0) as int, (start + w) as int) =~= input@.subrange(
            start as int,
            (start + w) as int,
        ));
    }
    acc
}

/// 2 raised to `n`.
pub open spec fn pow2n(n: nat) -> nat
    decreases n,
{
    if n == 0 {
        1
    } else {
        2 * pow2n((n - 1) as nat)
    }
}

pub proof fn lemma_pow2n_mono(a: nat, b: nat)
    requires
        a <= b,
    ensures
        pow2n(a) <= pow2n(b),
    decreases b,
{
    if a < b {
        lemma_pow2n_mono(a, (b - 1) as nat);
    }
}

/// 1 when row `i` exists and is set, else 0.
pub open spec fn bit1(bits: Seq<bool>, i: int) -> nat {
    if 0 <= i < bits.len() && bits[i] {
        1nat
    } else {
        0nat
    }
}

/// The value contributed by bits `base + k .. base + 8` of a bitmap byte,
/// weighted from bit `k` upward.
pub open spec fn byte_suffix(bits: Seq<bool>, base: int, k: nat) -> nat
    decreases 8 - k,
{
    if k >= 8 {
        0
    } else {
        bit1(bits, base + k) + 2 * byte_suffix(bits, base, (k + 1) as nat)
    }
}

/// How many bytes a bitmap of `n` rows occupies.
pub open spec fn bitmap_len(n: nat) -> nat {
    n / 8 + if n % 8 == 0 {
        0nat
    } else {
        1nat
    }
}

/// The byte that packs bits `base .. base + 8`, least significant bit first.
pub open spec fn bitmap_byte(bits: Seq<bool>, base: int) -> u8 {
    byte_suffix(bits, base, 0) as u8
}

/// The bit-packed form of a validity or boolean bitmap; padding bits are zero.
pub open spec fn bitmap_bytes(bits: Seq<bool>) -> Seq<u8> {
    Seq::new(bitmap_len(bits.len()), |j: int| bitmap_byte(bits, 8 * j))
}

/// Bit `k` of a byte value.
pub open spec fn byte_bit(b: nat, k: nat) -> bool
    decreases k,
{
    if k == 0 {
        b % 2 == 1
    } else {
        byte_bit(b / 2, (k - 1) as nat)
    }
}

/// The first `n` bits held by a packed bitmap.
pub open spec fn parse_bits(bytes: Seq<u8>, n: nat) -> Seq<bool> {
    Seq::new(n, |i: int| byte_bit(bytes[i / 8] as nat, (i % 8) as nat))
}

pub proof fn lemma_byte_suffix_bound(bits: Seq<bool>, base: int, k: nat)
    requires
        k <= 8,
    ensures
        byte_suffix(bits, base, k) < pow2n((8 - k) as nat),
    decreases 8 - k,
{
    if k < 8 {
        lemma_byte_suffix_bound(bits, base, (k + 1) as nat);
    }
}

pub proof fn lemma_byte_bit_suffix(bits: Seq<bool>, base: int, j: nat, k: nat)
    requires
        j + k < 8,
    ensures
        byte_bit(byte_suffix(bits, base, j), k) == (bit1(bits, base + j + k) == 1),
    decreases k,
{
    let d = bit1(bits, base + j);
    let rest = byte_suffix(bits, base, (j + 1) as nat);
    assert(byte_suffix(bits, base, j) == d + 2 * rest);
    if k == 0 {
        lemma_fundamental_div_mod_converse_mod((d + 2 * rest) as int, 2, rest as int, d as int);
    } else {
        lemma_fundamental_div_mod_converse_div((d + 2 * rest) as int, 2, rest as int, d as int);
        lemma_byte_bit_suffix(bits, base, (j + 1) as nat, (k - 1) as nat);
    }
}

pub proof fn lemma_bit_index_bound(i: int, n: nat)
    requires
        0 <= i < n,
    ensures
        0 <= i / 8 < bitmap_len(n),
        0 <= i % 8 < 8,
        8 * (i / 8) + i % 8 == i,
{
    lemma_fundamental_div_mod(i, 8);
    lemma_fundamental_div_mod(n as int, 8);
    if i / 8 >= bitmap_len(n) {
        assert(8 * (i / 8) >= 8 * bitmap_len(n));
    }
}

/// Packing a bitmap and reading its first bits back is the identity.
pub proof fn lemma_bitmap_round_trip(bits: Seq<bool>)
    ensures
        parse_bits(bitmap_bytes(bits), bits.len()) == bits,
{
    let packed = bitmap_bytes(bits);
    assert forall|i: int| 0 <= i < bits.len() implies parse_bits(packed, bits.len())[i]
        == bits[i] by {
        lemma_bit_index_bound(i, bits.len());
        lemma_byte_suffix_bound(bits, 8 * (i / 8), 0);
        assert(pow2n(8) == 256) by {
            reveal_with_fuel(pow2n, 9);
        }
        assert(packed[i / 8] == bitmap_byte(bits, 8 * (i / 8)));
        lemma_byte_bit_suffix(bits, 8 * (i / 8), 0, (i % 8) as nat);
        assert(bit1(bits, i) == if bits[i] {
            1nat
        } else {
            0nat
        });
    }
    assert(parse_bits(packed, bits.len()) =~= bits);
}

/// Bit-packs a bitmap, least significant bit first, padding the last byte
/// with zeros.
pub fn pack_bits(bits: &Vec<bool>) -> (r: Vec<u8>)
    ensures
        r@ == bitmap_bytes(bits@),
{
    let n = bits.len();
    let nbytes = n / 8 + if n % 8 == 0 {
        0
    } else {
        1
    };
    let mut out: Vec<u8> = Vec::new();
    let mut j: usize = 0;
    while j < nbytes
        invariant
            j <= nbytes,
            n == bits@.len(),
            nbytes == bitmap_len(n as nat),
            out@.len() == j,
            forall|jj: int| 0 <= jj < j ==> out@[jj] == bitmap_byte(bits@, 8 * jj),
        decreases nbytes - j,
    {
        let base8 = j * 8;
        proof {
            lemma_fundamental_div_mod(n as int, 8);
            assert(j * 8 <= n) by (nonlinear_arith)
                requires
                    j < n / 8 + if n % 8 == 0 {
                        0nat
                    } else {
                        1nat
                    },
                    n as int == 8 * (n as int / 8) + n as int % 8,
                    0 <= n as int % 8 < 8,
            ;
        }
        let mut b: u8 = 0;
        let mut kk: usize = 0;
        while kk < 8
            invariant
                kk <= 8,
                n == bits@.len(),
                base8 == 8 * j,
                base8 <= n,
                b as nat == byte_suffix(bits@, base8 as int, (8 - kk) as nat),
            decreases 8 - kk,
        {
            let k = 7 - kk;
            let d: u8 = if k < n - base8 {
                if bits[base8 + k] {
                    1
                } else {
                    0
                }
            } else {
                0
            };
            proof {
                lemma_byte_suffix_bound(bits@, base8 as int, (8 - kk) as nat);
                lemma_pow2n_mono(kk as nat, 7);
                assert(pow2n(7) == 128) by {
                    reveal_with_fuel(pow2n, 8);
                }
                assert(d as nat == bit1(bits@, base8 + k));
                assert(byte_suffix(bits@, base8 as int, (7 - kk) as nat) == bit1(
                    bits@,
                    base8 + k,
                ) + 2 * byte_suffix(bits@, base8 as int, (8 - kk) as nat));
            }
            b = 2 * b + d;
            kk = kk + 1;
        }
        out.push(b);
        j = j + 1;
    }
    proof {
        assert(out@ =~= bitmap_bytes(bits@));
    }
    out
}

/// Reads the first `n` bits back out of a packed bitmap.
pub fn unpack_bits(bytes: &Vec<u8>, n: usize) -> (r: Vec<bool>)
    requires
        bytes@.len() >= bitmap_len(n as nat),
    ensures
        r@ == parse_bits(bytes@, n as nat),
{
    let mut out: Vec<bool> = Vec::new();
    let mut i: usize = 0;
    while i < n
        invariant
            i <= n,
            bytes@.len() >= bitmap_len(n as nat),
            out@.len() == i,
            forall|ii: int| 0 <= ii < i ==> out@[ii] == byte_bit(
                bytes@[ii / 8] as nat,
                (ii % 8) as nat,
            ),
        decreases n - i,
    {
        proof {
            lemma_bit_index_bound(i as int, n as nat);
        }
        let mut x: u8 = bytes[i / 8];
        let mut k: usize = i % 8;
        while k > 0
            invariant
                byte_bit(x as nat, k as nat) == byte_bit(
                    bytes@[i as int / 8] as nat,
                    (i as int % 8) as nat,
                ),
            decreases k,
        {
            x = x / 2;
            k = k - 1;
        }
        out.push(x % 2 == 1);
        i = i + 1;
    }
    proof {
        assert(out@ =~= parse_bits(bytes@, n as nat));
    }
    out
}

/// A bitmap over fewer rows takes no more bytes.
pub proof fn lemma_bitmap_len_mono(a: nat, b: nat)
    requires
        a <= b,
    ensures
        bitmap_len(a) <= bitmap_len(b),
{
    lemma_fundamental_div_mod(a as int, 8);
    lemma_fundamental_div_mod(b as int, 8);
    vstd::arithmetic::div_mod::lemma_div_is_ordered(a as int, b as int, 8);
    if a % 8 != 0 && b % 8 == 0 {
        if a / 8 == b / 8 {
            assert(a > b);
        }
    }
}

/// The little-endian bytes of a run of `w`-byte values.
pub open spec fn prim_bytes(values: Seq<u64>, w: nat) -> Seq<u8>
    decreases values.len(),
{
    if values.len() == 0 {
        Seq::empty()
    } else {
        le_bytes(values[0] as nat, w) + prim_bytes(values.drop_first(), w)
    }
}

/// The `n` `w`-byte little-endian values stored in a buffer.
pub open spec fn parse_prim(bytes: Seq<u8>, w: nat, n: nat) -> Seq<u64> {
    Seq::new(n, |i: int| from_le(bytes.subrange(i * w, (i + 1) * w)) as u64)
}

pub proof fn lemma_prim_bytes_len(values: Seq<u64>, w: nat)
    ensures
        prim_bytes(values, w).len() == values.len() * w,
    decreases values.len(),
{
    if values.len() == 0 {
        assert(values.len() * w == 0) by (nonlinear_arith)
            requires
                values.len() == 0,
        ;
    } else {
        lemma_prim_bytes_len(values.drop_first(), w);
        lemma_le_bytes_len(values[0] as nat, w);
        assert(w + (values.len() - 1) * w == values.len() * w) by (nonlinear_arith);
    }
}

pub proof fn lemma_prim_bytes_index(values: Seq<u64>, w: nat, i: int)
    requires
        0 <= i < values.len(),
    ensures
        prim_bytes(values, w).subrange(i * w, (i + 1) * w) == le_bytes(values[i] as nat, w),
    decreases i,
{
    lemma_prim_bytes_len(values, w);
    lemma_le_bytes_len(values[0] as nat, w);
    assert(0 <= i * w && (i + 1) * w <= values.len() * w) by (nonlinear_arith)
        requires
            0 <= i < values.len(),
            w >= 0,
    ;
    if i == 0 {
        assert(i * w == 0 && (i + 1) * w == w) by (nonlinear_arith)
            requires
                i == 0,
        ;
        assert(prim_bytes(values, w).subrange(0, w as int) =~= le_bytes(values[0] as nat, w));
    } else {
        assert(i * w >= w) by (nonlinear_arith)
            requires
                i >= 1,
                w >= 0,
        ;
        lemma_prim_bytes_index(values.drop_first(), w, i - 1);
        lemma_prim_bytes_len(values.drop_first(), w);
        assert((i - 1) * w == i * w - w && i * w == (i + 1) * w - w) by (nonlinear_arith);
        assert(prim_bytes(values, w).subrange(i * w, (i + 1) * w) =~= prim_bytes(
            values.drop_first(),
            w,
        ).subrange((i - 1) * w, i * w));
        assert(values.drop_first()[i - 1] == values[i]);
    }
}

/// Reading a run of packed `w`-byte values back yields the run.
pub proof fn lemma_prim_round_trip(values: Seq<u64>, w: nat)
    requires
        forall|i: int| 0 <= i < values.len() ==> (values[i] as nat) < pow256(w),
    ensures
        parse_prim(prim_bytes(values, w), w, values.len()) == values,
{
    assert forall|i: int| 0 <= i < values.len() implies parse_prim(
        prim_bytes(values, w),
        w,
        values.len(),
    )[i] == values[i] by {
        lemma_prim_bytes_index(values, w, i);
        lemma_le_round_trip(values[i] as nat, w);
    }
    assert(parse_prim(prim_bytes(values, w), w, values.len()) =~= values);
}

/// Every value read out of a packed buffer fits its width.
pub proof fn lemma_parse_prim_bound(bytes: Seq<u8>, w: nat, n: nat)
    requires
        1 <= w <= 8,
        bytes.len() == n * w,
    ensures
        forall|i: int| 0 <= i < n ==> (#[trigger] parse_prim(bytes, w, n)[i] as nat) < pow256(w),
{
    assert forall|i: int| 0 <= i < n implies (#[trigger] parse_prim(bytes, w, n)[i] as nat)
        < pow256(w) by {
        assert(0 <= i * w && (i + 1) * w <= n * w) by (nonlinear_arith)
            requires
                0 <= i < n,
                w >= 1,
        ;
        let sub = bytes.subrange(i * w, (i + 1) * w);
        assert(sub.len() == w) by {
            assert((i + 1) * w - i * w == w) by (nonlinear_arith);
        }
        lemma_from_le_bound(sub);
        lemma_pow256_le_max(w);
    }
}

/// Appends a run of `w`-byte little-endian values to `out`.
pub fn push_prim(out: &mut Vec<u8>, values: &Vec<u64>, w: usize)
    requires
        w <= 8,
        forall|i: int| 0 <= i < values@.len() ==> (values@[i] as nat) < pow256(w as nat),
    ensures
        final(out)@ == old(out)@ + prim_bytes(values@, w as nat),
{
    let ghost complete = old(out)@ + prim_bytes(values@, w as nat);
    proof {
        assert(values@.skip(0) =~= values@);
    }
    let n = values.len();
    let mut i: usize = 0;
    while i < n
        invariant
            i <= n,
            n == values@.len(),
            w <= 8,
            forall|ii: int| 0 <= ii < values@.len() ==> (values@[ii] as nat) < pow256(w as nat),
            out@ + prim_bytes(values@.skip(i as int), w as nat) == complete,
        decreases n - i,
    {
        let ghost pre = out@;
        proof {
            assert(values@.skip(i as int)[0] == values@[i as int]);
            assert(values@.skip(i as int).drop_first() =~= values@.skip(i as int + 1));
            assert(prim_bytes(values@.skip(i as int), w as nat) == le_bytes(
                values@[i as int] as nat,
                w as nat,
            ) + prim_bytes(values@.skip(i as int + 1), w as nat));
        }
        push_le_bytes(out, values[i], w);
        proof {
            assert((pre + le_bytes(values@[i as int] as nat, w as nat)) + prim_bytes(
                values@.skip(i as int + 1),
                w as nat,
            ) =~= pre + (le_bytes(values@[i as int] as nat, w as nat) + prim_bytes(
                values@.skip(i as int + 1),
                w as nat,
            )));
        }
        i = i + 1;
    }
    proof {
        assert(values@.skip(n as int) =~= Seq::empty());
        assert(out@ + Seq::<u8>::empty() =~= out@);
    }
}

/// Reads `count` `w`-byte little-endian values stored at `start`.
pub fn read_prim(input: &Vec<u8>, start: usize, w: usize, count: usize) -> (r: Vec<u64>)
    requires
        1 <= w <= 8,
        start + count * w <= input@.len(),
    ensures
        r@ == parse_prim(
            input@.subrange(start as int, start as int + count as int * w as int),
            w as nat,
            count as nat,
        ),
{
    let len = input.len();
    let ghost whole = input@.subrange(start as int, start as int + count as int * w as int);
    let mut out: Vec<u64> = Vec::new();
    let mut i: usize = 0;
    let mut off: usize = start;
    while i < count
        invariant
            i <= count,
            1 <= w <= 8,
            len == input@.len(),
            start + count * w <= len,
            off == start + i * w,
            whole == input@.subrange(start as int, start as int + count as int * w as int),
            out@.len() == i,
            forall|ii: int| 0 <= ii < i ==> out@[ii] as nat == from_le(
                whole.subrange(ii * w, (ii + 1) * w),
            ),
        decreases count - i,
    {
        proof {
            assert(i * w + w == (i + 1) * w && (i + 1) * w <= count * w) by (nonlinear_arith)
                requires
                    0 <= i < count,
                    w >= 1,
            ;
        }
        let v = read_le_bytes(input, off, w);
        proof {
            assert(input@.subrange(off as int, off as int + w as int) =~= whole.subrange(
                i as int * w as int,
                (i as int + 1) * w as int,
            ));
        }
        out.push(v);
        off = off + w;
        i = i + 1;
    }
    proof {
        assert(out@ =~= parse_prim(whole, w as nat, count as nat));
    }
    out
}

/// If `a > m / b` then `a * b > m` (for positive `b`).
pub proof fn lemma_mul_over(a: int, b: int, m: int)
    requires
        a > m / b,
        b >= 1,
        m >= 0,
        a >= 0,
    ensures
        a * b > m,
{
    vstd::arithmetic::div_mod::lemma_fundamental_div_mod(m, b);
    assert(a * b >= (m / b + 1) * b) by (nonlinear_arith)
        requires
            a >= m / b + 1,
            b >= 1,
    ;
    assert((m / b + 1) * b == (m / b) * b + b) by (nonlinear_arith);
    assert(m % b < b) by {
        vstd::arithmetic::div_mod::lemma_mod_bound(m, b);
    }
}

/// If `a <= m / b` then `a * b <= m` (for positive `b`).
pub proof fn lemma_mul_under(a: int, b: int, m: int)
    requires
        a <= m / b,
        b >= 1,
        m >= 0,
        a >= 0,
    ensures
        a * b <= m,
{
    vstd::arithmetic::div_mod::lemma_fundamental_div_mod(m, b);
    assert(a * b <= (m / b) * b) by (nonlinear_arith)
        requires
            0 <= a <= m / b,
            b >= 1,
    ;
    assert(m % b >= 0) by {
        vstd::arithmetic::div_mod::lemma_mod_bound(m, b);
    }
}

} // verus!
