//! Validity of UTF-8 byte sequences, as a specification and as an executable
//! check. A sequence is valid when it is a concatenation of well-formed
//! scalar-value encodings: overlong forms, surrogate code points and values
//! above 0x10FFFF are all rejected.

use vstd::prelude::*;

verus! {

/// Whether `b` is a continuation byte (10xxxxxx).
pub open spec fn is_cont(b: u8) -> bool {
    0x80 <= b && b <= 0xbf
}

/// Whether `s` is a valid UTF-8 byte sequence.
pub open spec fn utf8_ok(s: Seq<u8>) -> bool
    decreases s.len(),
{
    if s.len() == 0 {
        true
    } else {
        let b0 = s[0];
        if b0 < 0x80 {
            utf8_ok(s.skip(1))
        } else if 0xc2 <= b0 && b0 <= 0xdf {
            s.len() >= 2 && is_cont(s[1]) && utf8_ok(s.skip(2))
        } else if b0 == 0xe0 {
            s.len() >= 3 && 0xa0 <= s[1] && s[1] <= 0xbf && is_cont(s[2]) && utf8_ok(s.skip(3))
        } else if 0xe1 <= b0 && b0 <= 0xec {
            s.len() >= 3 && is_cont(s[1]) && is_cont(s[2]) && utf8_ok(s.skip(3))
        } else if b0 == 0xed {
            s.len() >= 3 && 0x80 <= s[1] && s[1] <= 0x9f && is_cont(s[2]) && utf8_ok(s.skip(3))
        } else if 0xee <= b0 && b0 <= 0xef {
            s.len() >= 3 && is_cont(s[1]) && is_cont(s[2]) && utf8_ok(s.skip(3))
        } else if b0 == 0xf0 {
            s.len() >= 4 && 0x90 <= s[1] && s[1] <= 0xbf && is_cont(s[2]) && is_cont(s[3])
                && utf8_ok(s.skip(4))
        } else if 0xf1 <= b0 && b0 <= 0xf3 {
            s.len() >= 4 && is_cont(s[1]) && is_cont(s[2]) && is_cont(s[3]) && utf8_ok(s.skip(4))
        } else if b0 == 0xf4 {
            s.len() >= 4 && 0x80 <= s[1] && s[1] <= 0x8f && is_cont(s[2]) && is_cont(s[3])
                && utf8_ok(s.skip(4))
        } else {
            false
        }
    }
}

/// The width a lead byte announces, the allowed range of the byte after it,
/// and width 0 for a byte that cannot begin a character.
pub open spec fn spec_lead(b0: u8) -> (usize, u8, u8) {
    if b0 < 0x80 {
        (1usize, 0u8, 0u8)
    } else if 0xc2 <= b0 && b0 <= 0xdf {
        (2usize, 0x80u8, 0xbfu8)
    } else if b0 == 0xe0 {
        (3usize, 0xa0u8, 0xbfu8)
    } else if 0xe1 <= b0 && b0 <= 0xec {
        (3usize, 0x80u8, 0xbfu8)
    } else if b0 == 0xed {
        (3usize, 0x80u8, 0x9fu8)
    } else if 0xee <= b0 && b0 <= 0xef {
        (3usize, 0x80u8, 0xbfu8)
    } else if b0 == 0xf0 {
        (4usize, 0x90u8, 0xbfu8)
    } else if 0xf1 <= b0 && b0 <= 0xf3 {
        (4usize, 0x80u8, 0xbfu8)
    } else if b0 == 0xf4 {
        (4usize, 0x80u8, 0x8fu8)
    } else {
        (0usize, 0u8, 0u8)
    }
}

/// Executable form of `spec_lead`.
fn classify_lead(b0: u8) -> (t: (usize, u8, u8))
    ensures
        t == spec_lead(b0),
{
    if b0 < 0x80 {
        (1, 0, 0)
    } else if 0xc2 <= b0 && b0 <= 0xdf {
        (2, 0x80, 0xbf)
    } else if b0 == 0xe0 {
        (3, 0xa0, 0xbf)
    } else if 0xe1 <= b0 && b0 <= 0xec {
        (3, 0x80, 0xbf)
    } else if b0 == 0xed {
        (3, 0x80, 0x9f)
    } else if 0xee <= b0 && b0 <= 0xef {
        (3, 0x80, 0xbf)
    } else if b0 == 0xf0 {
        (4, 0x90, 0xbf)
    } else if 0xf1 <= b0 && b0 <= 0xf3 {
        (4, 0x80, 0xbf)
    } else if b0 == 0xf4 {
        (4, 0x80, 0x8f)
    } else {
        (0, 0, 0)
    }
}

/// Decides `utf8_ok` for the bytes of `bytes` between `start` and `end`.
pub fn utf8_check(bytes: &Vec<u8>, start: usize, end: usize) -> (r: bool)
    requires
        start <= end <= bytes@.len(),
    ensures
        r == utf8_ok(bytes@.subrange(start as int, end as int)),
{
    let mut i: usize = start;
    while i < end
        invariant
            start <= i <= end <= bytes@.len(),
            utf8_ok(bytes@.subrange(start as int, end as int)) == utf8_ok(
                bytes@.subrange(i as int, end as int),
            ),
        decreases end - i,
    {
        let ghost rem = bytes@.subrange(i as int, end as int);
        let b0 = bytes[i];
        let (w, lo1, hi1) = classify_lead(b0);
        if w == 0 {
            return false;
        }
        if end - i < w {
            return false;
        }
        proof {
            assert(rem.skip(w as int) =~= bytes@.subrange(i + w, end as int));
        }
        if w >= 2 {
            let b1 = bytes[i + 1];
            if !(lo1 <= b1 && b1 <= hi1) {
                return false;
            }
        }
        if w >= 3 {
            let b2 = bytes[i + 2];
            if !(0x80 <= b2 && b2 <= 0xbf) {
                return false;
            }
        }
        if w == 4 {
            let b3 = bytes[i + 3];
            if !(0x80 <= b3 && b3 <= 0xbf) {
                return false;
            }
        }
        i = i + w;
    }
    proof {
        assert(bytes@.subrange(i as int, end as int) =~= Seq::<u8>::empty());
    }
    true
}

} // verus!
