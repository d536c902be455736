use vstd::prelude::*;

verus! {

use crate::array::{copy_range, view_validity};
use crate::bytes::{
    bitmap_bytes, bitmap_len, from_le, lemma_bitmap_round_trip, lemma_from_le_bound, lemma_le_round_trip,
    pack_bits, pow256, read_le_bytes, unpack_bits, push_le_bytes,
};
use crate::compression::{
    compress_lz4, compress_zstd, decompress_lz4, decompress_zstd, Compression, MAX_CODEC_INPUT,
};
use crate::encoding::{
    codec_tag, enc_buffer, enc_buffer_ok, enc_validity, parse_buf, parse_validity, payload_bytes,
};
use crate::error::Error;

/// Appends all of `src` to `out`.
pub fn append_bytes(out: &mut Vec<u8>, src: &Vec<u8>)
    ensures
        final(out)@ == old(out)@ + src@,
{
    let n = src.len();
    let mut i: usize = 0;
    while i < n
        invariant
            i <= n,
            n == src@.len(),
            out@ =~= old(out)@ + src@.subrange(0, i as int),
        decreases n - i,
    {
        out.push(src[i]);
        i = i + 1;
    }
    proof {
        assert(out@ =~= old(out)@ + src@);
    }
}

/// A vector of `n` zero bytes.
fn zeroed(n: usize) -> (r: Vec<u8>)
    ensures
        r@.len() == n,
{
    let mut out: Vec<u8> = Vec::new();
    let mut i: usize = 0;
    while i < n
        invariant
            i <= n,
            out@.len() == i,
        decreases n - i,
    {
        out.push(0);
        i = i + 1;
    }
    out
}

proof fn lemma_pow256_4()
    ensures
        pow256(4) == 0x1_0000_0000,
{
    reveal_with_fuel(pow256, 5);
}

/// Writes one buffer record: codec tag, 4-byte payload length, payload (the
/// raw bytes, compressed first when a codec is chosen). On success the bytes
/// appended are exactly the record, and reading the record back at its start
/// yields `raw` again. Success is owed for every buffer within the codec cap,
/// with any codec: the compress bounds keep the payload within its 4-byte
/// length field.
pub fn write_buffer(
    out: &mut Vec<u8>,
    raw: &Vec<u8>,
    compression: Option<Compression>,
    scratch: &mut Vec<u8>,
) -> (r: Result<(), Error>)
    ensures
        old(out)@.len() <= final(out)@.len() && final(out)@.subrange(
            0,
            old(out)@.len() as int,
        ) == old(out)@,
        r is Ok ==> final(out)@ == old(out)@ + enc_buffer(raw@, compression) && parse_buf(
            final(out)@,
            old(out)@.len() as int,
            raw@.len() as int,
        ) == Option::Some((raw@, final(out)@.len() as int)),
        r is Ok ==> enc_buffer_ok(raw@, compression),
        r is Err ==> final(out)@ == old(out)@,
        raw@.len() <= MAX_CODEC_INPUT ==> r is Ok,
{
    let raw_len = raw.len();
    if raw_len > MAX_CODEC_INPUT {
        return Err(Error::FormatViolation);
    }
    proof {
        lemma_pow256_4();
    }
    let ghost base = out@.len() as int;
    match compression {
        Option::None => {
            out.push(0);
            push_le_bytes(out, raw_len as u64, 4);
            append_bytes(out, raw);
            proof {
                crate::bytes::lemma_le_bytes_len(raw@.len(), 4);
                assert(out@ =~= old(out)@ + enc_buffer(raw@, compression));
                assert(out@.subrange(base, out@.len() as int) =~= seq![0u8]
                    + crate::bytes::le_bytes(raw@.len(), 4) + raw@);
                lemma_parse_back(out@, base, raw@, raw@, 0);
            }
            Ok(())
        },
        Option::Some(Compression::LZ4) => {
            match compress_lz4(raw.as_slice(), scratch) {
                Ok(_) => {},
                Err(e) => {
                    return Err(e);
                },
            }
            let plen = scratch.len();
            if plen > 0xffff_ffff {
                return Err(Error::FormatViolation);
            }
            out.push(1);
            push_le_bytes(out, plen as u64, 4);
            append_bytes(out, scratch);
            proof {
                crate::bytes::lemma_le_bytes_len(scratch@.len(), 4);
                assert(out@ =~= old(out)@ + enc_buffer(raw@, compression));
                assert(out@.subrange(base, out@.len() as int) =~= seq![1u8]
                    + crate::bytes::le_bytes(scratch@.len(), 4) + scratch@);
                lemma_parse_back(out@, base, raw@, scratch@, 1);
            }
            Ok(())
        },
        Option::Some(Compression::ZSTD) => {
            match compress_zstd(raw.as_slice(), scratch) {
                Ok(_) => {},
                Err(e) => {
                    return Err(e);
                },
            }
            let plen = scratch.len();
            if plen > 0xffff_ffff {
                return Err(Error::FormatViolation);
            }
            out.push(2);
            push_le_bytes(out, plen as u64, 4);
            append_bytes(out, scratch);
            proof {
                crate::bytes::lemma_le_bytes_len(scratch@.len(), 4);
                assert(out@ =~= old(out)@ + enc_buffer(raw@, compression));
                assert(out@.subrange(base, out@.len() as int) =~= seq![2u8]
                    + crate::bytes::le_bytes(scratch@.len(), 4) + scratch@);
                lemma_parse_back(out@, base, raw@, scratch@, 2);
            }
            Ok(())
        },
    }
}

/// The framing facts behind `write_buffer`: a record whose payload stands for
/// `raw` parses back to `raw`.
proof fn lemma_parse_back(whole: Seq<u8>, base: int, raw: Seq<u8>, payload: Seq<u8>, tag: u8)
    requires
        0 <= base,
        raw.len() <= MAX_CODEC_INPUT,
        payload.len() <= 0xffff_ffff,
        whole.len() == base + 5 + payload.len(),
        whole.subrange(base, whole.len() as int) == seq![tag] + crate::bytes::le_bytes(
            payload.len(),
            4,
        ) + payload,
        crate::encoding::parse_payload(tag, payload, raw.len() as int) == Option::Some(raw),
    ensures
        parse_buf(whole, base, raw.len() as int) == Option::Some((raw, whole.len() as int)),
{
    let rec = seq![tag] + crate::bytes::le_bytes(payload.len(), 4) + payload;
    crate::bytes::lemma_le_bytes_len(payload.len(), 4);
    assert(whole[base] == rec[0]);
    assert(whole[base] == tag);
    let le4 = crate::bytes::le_bytes(payload.len(), 4);
    assert forall|i: int| 0 <= i < 4 implies whole[base + 1 + i] == le4[i] by {
        assert(whole.subrange(base, whole.len() as int)[1 + i] == whole[base + 1 + i]);
        assert(rec[1 + i] == le4[i]);
    }
    assert(whole.subrange(base + 1, base + 5) =~= le4);
    lemma_pow256_4();
    lemma_le_round_trip(payload.len(), 4);
    assert forall|i: int| 0 <= i < payload.len() implies whole[base + 5 + i] == payload[i] by {
        assert(whole.subrange(base, whole.len() as int)[5 + i] == whole[base + 5 + i]);
        assert(rec[5 + i] == payload[i]);
    }
    assert(whole.subrange(base + 5, base + 5 + payload.len() as int) =~= payload);
}

/// Reads one buffer record at `*pos`, expecting `n` raw bytes. On success the
/// result and the new position are exactly what the record stands for; on
/// failure the record does not stand for `n` bytes and `*pos` is unchanged.
pub fn read_buffer(input: &Vec<u8>, pos: &mut usize, n: usize, scratch: &mut Vec<u8>) -> (r:
    Result<Vec<u8>, Error>)
    requires
        *old(pos) <= input@.len(),
    ensures
        match r {
            Ok(v) => parse_buf(input@, *old(pos) as int, n as int) == Option::Some(
                (v@, *final(pos) as int),
            ) && *old(pos) <= *final(pos) <= input@.len() && v@.len() == n,
            Err(_) => parse_buf(input@, *old(pos) as int, n as int) is None && *final(pos) == *old(
                pos,
            ),
        },
{
    let len = input.len();
    if n > MAX_CODEC_INPUT {
        return Err(Error::FormatViolation);
    }
    if len - *pos < 5 {
        return Err(Error::FormatViolation);
    }
    let tag = input[*pos];
    let plen64 = read_le_bytes(input, *pos + 1, 4);
    proof {
        lemma_from_le_bound(input@.subrange(*pos + 1, *pos + 5));
        lemma_pow256_4();
    }
    let plen = plen64 as usize;
    if len - (*pos + 5) < plen {
        return Err(Error::FormatViolation);
    }
    let pstart = *pos + 5;
    let pend = pstart + plen;
    let ghost payload = input@.subrange(pstart as int, pend as int);
    if tag == 0 {
        if plen != n {
            return Err(Error::FormatViolation);
        }
        let v = copy_range(input, pstart, pend);
        *pos = pend;
        Ok(v)
    } else if tag == 1 {
        scratch.clear();
        let tmp = copy_range(input, pstart, pend);
        append_bytes(scratch, &tmp);
        let mut dest = zeroed(n);
        match decompress_lz4(scratch.as_slice(), &mut dest) {
            Ok(_) => {
                *pos = pend;
                Ok(dest)
            },
            Err(e) => Err(e),
        }
    } else if tag == 2 {
        scratch.clear();
        let tmp = copy_range(input, pstart, pend);
        append_bytes(scratch, &tmp);
        let mut dest = zeroed(n);
        match decompress_zstd(scratch.as_slice(), &mut dest) {
            Ok(_) => {
                *pos = pend;
                Ok(dest)
            },
            Err(e) => Err(e),
        }
    } else {
        Err(Error::FormatViolation)
    }
}

/// Number of bytes a bitmap of `rows` rows occupies.
pub fn bitmap_byte_count(rows: usize) -> (r: usize)
    ensures
        r == bitmap_len(rows as nat),
{
    rows / 8 + if rows % 8 == 0 {
        0
    } else {
        1
    }
}

/// Writes one validity record: an absence byte, or a presence byte followed by
/// the bit-packed bitmap as a buffer record. On success the record reads back
/// to exactly the bitmap written.
pub fn write_validity(
    out: &mut Vec<u8>,
    validity: &Option<Vec<bool>>,
    rows: usize,
    compression: Option<Compression>,
    scratch: &mut Vec<u8>,
) -> (r: Result<(), Error>)
    requires
        match *validity {
            Option::Some(b) => b@.len() == rows,
            Option::None => true,
        },
    ensures
        old(out)@.len() <= final(out)@.len() && final(out)@.subrange(
            0,
            old(out)@.len() as int,
        ) == old(out)@,
        r is Ok ==> final(out)@ == old(out)@ + enc_validity(
            view_validity(*validity),
            compression,
        ) && parse_validity(final(out)@, old(out)@.len() as int, rows as int) == Option::Some(
            (view_validity(*validity), final(out)@.len() as int),
        ),
        bitmap_len(rows as nat) <= MAX_CODEC_INPUT ==> r is Ok,
{
    let ghost base = out@.len() as int;
    match validity {
        Option::None => {
            out.push(0);
            proof {
                assert(out@ =~= old(out)@ + enc_validity(view_validity(*validity), compression));
                assert(out@[base] == 0u8);
            }
            Ok(())
        },
        Option::Some(bits) => {
            let packed = pack_bits(bits);
            out.push(1);
            let res = write_buffer(out, &packed, compression, scratch);
            match res {
                Ok(_) => {
                    proof {
                        lemma_bitmap_round_trip(bits@);
                        assert(out@ =~= old(out)@ + enc_validity(
                            view_validity(*validity),
                            compression,
                        ));
                        assert(out@[base] == 1u8);
                    }
                    Ok(())
                },
                Err(e) => Err(e),
            }
        },
    }
}

/// Reads one validity record at `*pos` for `rows` rows. On success the result
/// and new position are exactly what the record stands for; on failure the
/// record is malformed and `*pos` is unchanged.
pub fn read_validity(input: &Vec<u8>, pos: &mut usize, rows: usize, scratch: &mut Vec<u8>) -> (r:
    Result<Option<Vec<bool>>, Error>)
    requires
        *old(pos) <= input@.len(),
    ensures
        match r {
            Ok(v) => parse_validity(input@, *old(pos) as int, rows as int) == Option::Some(
                (view_validity(v), *final(pos) as int),
            ) && *old(pos) <= *final(pos) <= input@.len(),
            Err(_) => parse_validity(input@, *old(pos) as int, rows as int) is None && *final(pos)
                == *old(pos),
        },
{
    let len = input.len();
    if len - *pos < 1 {
        return Err(Error::FormatViolation);
    }
    let flag = input[*pos];
    if flag == 0 {
        *pos = *pos + 1;
        Ok(Option::None)
    } else if flag == 1 {
        let mut p2: usize = *pos + 1;
        match read_buffer(input, &mut p2, bitmap_byte_count(rows), scratch) {
            Ok(bytes) => {
                let bits = unpack_bits(&bytes, rows);
                *pos = p2;
                Ok(Option::Some(bits))
            },
            Err(e) => Err(e),
        }
    } else {
        Err(Error::FormatViolation)
    }
}

/// A buffer record parsed inside `s` parses the same way after bytes are
/// appended beyond it.
pub proof fn lemma_parse_buf_extend(s: Seq<u8>, t: Seq<u8>, pos: int, n: int, raw: Seq<u8>, end: int)
    requires
        0 <= pos,
        s.len() <= t.len(),
        t.subrange(0, s.len() as int) == s,
        parse_buf(s, pos, n) == Option::Some((raw, end)),
    ensures
        parse_buf(t, pos, n) == Option::Some((raw, end)),
{
    let plen = from_le(s.subrange(pos + 1, pos + 5)) as int;
    assert forall|a: int, b: int| 0 <= a && a <= b && b <= s.len() implies s.subrange(a, b)
        =~= t.subrange(a, b) by {
        assert forall|i: int| 0 <= i < b - a implies s.subrange(a, b)[i] == t.subrange(a, b)[i] by {
            assert(t.subrange(0, s.len() as int)[a + i] == t[a + i]);
        }
    }
    assert(t[pos] == t.subrange(0, s.len() as int)[pos]);
    assert(t.subrange(pos + 1, pos + 5) =~= s.subrange(pos + 1, pos + 5));
    assert(t.subrange(pos + 5, pos + 5 + plen) =~= s.subrange(pos + 5, pos + 5 + plen));
}

/// A validity record parsed inside `s` parses the same way after bytes are
/// appended beyond it.
pub proof fn lemma_parse_validity_extend(
    s: Seq<u8>,
    t: Seq<u8>,
    pos: int,
    rows: int,
    v: Option<Seq<bool>>,
    end: int,
)
    requires
        0 <= pos,
        s.len() <= t.len(),
        t.subrange(0, s.len() as int) == s,
        parse_validity(s, pos, rows) == Option::Some((v, end)),
    ensures
        parse_validity(t, pos, rows) == Option::Some((v, end)),
{
    assert(t[pos] == t.subrange(0, s.len() as int)[pos]);
    if s[pos] == 1 {
        let (bytes, p2) = parse_buf(s, pos + 1, bitmap_len(rows as nat) as int).unwrap();
        lemma_parse_buf_extend(s, t, pos + 1, bitmap_len(rows as nat) as int, bytes, p2);
    }
}

/// A buffer record parses the same inside a byte range extracted from the
/// stream, at the shifted position.
pub proof fn lemma_parse_buf_window(
    f: Seq<u8>,
    lo: int,
    hi: int,
    pos: int,
    n: int,
    raw: Seq<u8>,
    end: int,
)
    requires
        0 <= lo <= pos,
        end <= hi <= f.len(),
        parse_buf(f, pos, n) == Option::Some((raw, end)),
    ensures
        parse_buf(f.subrange(lo, hi), pos - lo, n) == Option::Some((raw, end - lo)),
{
    let r = f.subrange(lo, hi);
    let plen = from_le(f.subrange(pos + 1, pos + 5)) as int;
    assert(r[pos - lo] == f[pos]);
    assert(r.subrange(pos - lo + 1, pos - lo + 5) =~= f.subrange(pos + 1, pos + 5));
    assert(r.subrange(pos - lo + 5, pos - lo + 5 + plen) =~= f.subrange(pos + 5, pos + 5 + plen));
}

/// A validity record parses the same inside a byte range extracted from the
/// stream, at the shifted position.
pub proof fn lemma_parse_validity_window(
    f: Seq<u8>,
    lo: int,
    hi: int,
    pos: int,
    rows: int,
    v: Option<Seq<bool>>,
    end: int,
)
    requires
        0 <= lo <= pos,
        end <= hi <= f.len(),
        parse_validity(f, pos, rows) == Option::Some((v, end)),
    ensures
        parse_validity(f.subrange(lo, hi), pos - lo, rows) == Option::Some((v, end - lo)),
{
    let r = f.subrange(lo, hi);
    assert(r[pos - lo] == f[pos]);
    if f[pos] == 1 {
        let (bytes, p2) = parse_buf(f, pos + 1, bitmap_len(rows as nat) as int).unwrap();
        lemma_parse_buf_window(f, lo, hi, pos + 1, bitmap_len(rows as nat) as int, bytes, p2);
    }
}

} // verus!
