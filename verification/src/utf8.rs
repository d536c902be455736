use vstd::prelude::*;

verus! {

/// A UTF-8 continuation byte.
pub open spec fn is_cont(b: u8) -> bool {
    0x80 <= b <= 0xbf
}

/// Whether `s` is a well-formed UTF-8 byte sequence: a run of one- to
/// four-byte scalar-value encodings, shortest form only, excluding the
/// surrogate range.
#[verifier::opaque]
pub open spec fn is_utf8(s: Seq<u8>) -> bool
    decreases s.len(),
{
    if s.len() == 0 {
        true
    } else {
        let b0 = s[0];
        if b0 < 0x80 {
            is_utf8(s.skip(1))
        } else if 0xc2 <= b0 <= 0xdf {
            s.len() >= 2 && is_cont(s[1]) && is_utf8(s.skip(2))
        } else if b0 == 0xe0 {
            s.len() >= 3 && 0xa0 <= s[1] <= 0xbf && is_cont(s[2]) && is_utf8(s.skip(3))
        } else if 0xe1 <= b0 <= 0xec || 0xee <= b0 <= 0xef {
            s.len() >= 3 && is_cont(s[1]) && is_cont(s[2]) && is_utf8(s.skip(3))
        } else if b0 == 0xed {
            s.len() >= 3 && 0x80 <= s[1] <= 0x9f && is_cont(s[2]) && is_utf8(s.skip(3))
        } else if b0 == 0xf0 {
            s.len() >= 4 && 0x90 <= s[1] <= 0xbf && is_cont(s[2]) && is_cont(s[3]) && is_utf8(
                s.skip(4),
            )
        } else if 0xf1 <= b0 <= 0xf3 {
            s.len() >= 4 && is_cont(s[1]) && is_cont(s[2]) && is_cont(s[3]) && is_utf8(s.skip(4))
        } else if b0 == 0xf4 {
            s.len() >= 4 && 0x80 <= s[1] <= 0x8f && is_cont(s[2]) && is_cont(s[3]) && is_utf8(
                s.skip(4),
            )
        } else {
            false
        }
    }
}

/// Decides whether `bytes[from .. to]` is well-formed UTF-8.
#[verifier::rlimit(100)]
pub fn check_utf8_range(bytes: &Vec<u8>, from: usize, to: usize) -> (r: bool)
    requires
        from <= to,
        to <= bytes@.len(),
    ensures
        r == is_utf8(bytes@.subrange(from as int, to as int)),
{
    proof {
        reveal(is_utf8);
    }
    let mut i = from;
    while i < to
        invariant
            from <= i <= to,
            to <= bytes@.len(),
            is_utf8(bytes@.subrange(from as int, to as int)) == is_utf8(
                bytes@.subrange(i as int, to as int),
            ),
        decreases to - i,
    {
        let ghost rest = bytes@.subrange(i as int, to as int);
        proof {
            reveal(is_utf8);
            assert(rest[0] == bytes@[i as int]);
        }
        let b0 = bytes[i];
        let remaining = to - i;
        if b0 < 0x80 {
            proof {
                assert(rest.skip(1) =~= bytes@.subrange(i as int + 1, to as int));
            }
            i = i + 1;
        } else if 0xc2 <= b0 && b0 <= 0xdf {
            if remaining < 2 {
                return false;
            }
            let b1 = bytes[i + 1];
            proof {
                assert(rest[1] == b1);
                assert(rest.skip(2) =~= bytes@.subrange(i as int + 2, to as int));
            }
            if !(0x80 <= b1 && b1 <= 0xbf) {
                return false;
            }
            i = i + 2;
        } else if 0xe0 <= b0 && b0 <= 0xef {
            if remaining < 3 {
                return false;
            }
            let b1 = bytes[i + 1];
            let b2 = bytes[i + 2];
            proof {
                assert(rest[1] == b1 && rest[2] == b2);
                assert(rest.skip(3) =~= bytes@.subrange(i as int + 3, to as int));
            }
            let lo: u8 = if b0 == 0xe0 {
                0xa0
            } else if b0 == 0xed {
                0x80
            } else {
                0x80
            };
            let hi: u8 = if b0 == 0xe0 {
                0xbf
            } else if b0 == 0xed {
                0x9f
            } else {
                0xbf
            };
            if !(lo <= b1 && b1 <= hi) {
                return false;
            }
            if !(0x80 <= b2 && b2 <= 0xbf) {
                return false;
            }
            i = i + 3;
        } else if 0xf0 <= b0 && b0 <= 0xf4 {
            if remaining < 4 {
                return false;
            }
            let b1 = bytes[i + 1];
            let b2 = bytes[i + 2];
            let b3 = bytes[i + 3];
            proof {
                assert(rest[1] == b1 && rest[2] == b2 && rest[3] == b3);
                assert(rest.skip(4) =~= bytes@.subrange(i as int + 4, to as int));
            }
            let lo: u8 = if b0 == 0xf0 {
                0x90
            } else {
                0x80
            };
            let hi: u8 = if b0 == 0xf4 {
                0x8f
            } else {
                0xbf
            };
            if !(lo <= b1 && b1 <= hi) {
                return false;
            }
            if !(0x80 <= b2 && b2 <= 0xbf) {
                return false;
            }
            if !(0x80 <= b3 && b3 <= 0xbf) {
                return false;
            }
            i = i + 4;
        } else {
            return false;
        }
    }
    proof {
        reveal(is_utf8);
        assert(bytes@.subrange(i as int, to as int).len() == 0);
    }
    true
}

} // verus!
