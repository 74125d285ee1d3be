//! UTF-8 validity of filenames, used by the unescaped strategy which can only
//! write names that are valid text.

use vstd::prelude::*;

verus! {

/// Is `b` a UTF-8 continuation byte (`10xxxxxx`)?
pub open spec fn is_cont(b: u8) -> bool {
    0x80 <= b && b <= 0xbf
}

/// Valid lead/second byte combinations of a three-byte sequence.
pub open spec fn utf8_head3_ok(b0: u8, b1: u8) -> bool {
    (b0 == 0xe0 && 0xa0 <= b1 && b1 <= 0xbf) || (0xe1 <= b0 && b0 <= 0xec && is_cont(b1)) || (b0
        == 0xed && 0x80 <= b1 && b1 <= 0x9f) || (0xee <= b0 && b0 <= 0xef && is_cont(b1))
}

/// Valid lead/second byte combinations of a four-byte sequence.
pub open spec fn utf8_head4_ok(b0: u8, b1: u8) -> bool {
    (b0 == 0xf0 && 0x90 <= b1 && b1 <= 0xbf) || (0xf1 <= b0 && b0 <= 0xf3 && is_cont(b1)) || (b0
        == 0xf4 && 0x80 <= b1 && b1 <= 0x8f)
}

/// Length of the valid UTF-8 sequence at the head of `s`, or 0 if the head is
/// not a valid sequence.
pub open spec fn utf8_head_len(s: Seq<u8>) -> int {
    if s.len() >= 1 && s[0] <= 0x7f {
        1
    } else if s.len() >= 2 && 0xc2 <= s[0] && s[0] <= 0xdf && is_cont(s[1]) {
        2
    } else if s.len() >= 3 && utf8_head3_ok(s[0], s[1]) && is_cont(s[2]) {
        3
    } else if s.len() >= 4 && utf8_head4_ok(s[0], s[1]) && is_cont(s[2]) && is_cont(s[3]) {
        4
    } else {
        0
    }
}

/// The byte string is entirely made of valid UTF-8 sequences.
pub open spec fn is_utf8(s: Seq<u8>) -> bool
    decreases s.len(),
{
    if s.len() == 0 {
        true
    } else if utf8_head_len(s) == 0 {
        false
    } else {
        is_utf8(s.skip(utf8_head_len(s)))
    }
}

/// Decides `is_cont`.
fn cont_byte(b: u8) -> (r: bool)
    ensures
        r == is_cont(b),
{
    0x80 <= b && b <= 0xbf
}

/// Checks whether the bytes form valid UTF-8 text.
pub fn is_utf8_bytes(v: &Vec<u8>) -> (r: bool)
    ensures
        r == is_utf8(v@),
{
    let mut i: usize = 0;
    proof {
        assert(v@.skip(0) =~= v@);
    }
    while i < v.len()
        invariant
            i <= v.len(),
            is_utf8(v@) == is_utf8(v@.skip(i as int)),
        decreases v.len() - i,
    {
        let ghost t = v@.skip(i as int);
        proof {
            assert(t.len() == v.len() - i);
            assert forall|k: int| 0 <= k < t.len() implies t[k] == v@[i + k] by {}
        }
        let b0 = v[i];
        let rem = v.len() - i;
        let hl: usize = if b0 <= 0x7f {
            1
        } else if 0xc2 <= b0 && b0 <= 0xdf {
            if rem >= 2 && cont_byte(v[i + 1]) {
                2
            } else {
                0
            }
        } else if b0 == 0xe0 {
            if rem >= 3 && 0xa0 <= v[i + 1] && v[i + 1] <= 0xbf && cont_byte(v[i + 2]) {
                3
            } else {
                0
            }
        } else if 0xe1 <= b0 && b0 <= 0xec {
            if rem >= 3 && cont_byte(v[i + 1]) && cont_byte(v[i + 2]) {
                3
            } else {
                0
            }
        } else if b0 == 0xed {
            if rem >= 3 && 0x80 <= v[i + 1] && v[i + 1] <= 0x9f && cont_byte(v[i + 2]) {
                3
            } else {
                0
            }
        } else if 0xee <= b0 && b0 <= 0xef {
            if rem >= 3 && cont_byte(v[i + 1]) && cont_byte(v[i + 2]) {
                3
            } else {
                0
            }
        } else if b0 == 0xf0 {
            if rem >= 4 && 0x90 <= v[i + 1] && v[i + 1] <= 0xbf && cont_byte(v[i + 2]) && cont_byte(
                v[i + 3],
            ) {
                4
            } else {
                0
            }
        } else if 0xf1 <= b0 && b0 <= 0xf3 {
            if rem >= 4 && cont_byte(v[i + 1]) && cont_byte(v[i + 2]) && cont_byte(v[i + 3]) {
                4
            } else {
                0
            }
        } else if b0 == 0xf4 {
            if rem >= 4 && 0x80 <= v[i + 1] && v[i + 1] <= 0x8f && cont_byte(v[i + 2]) && cont_byte(
                v[i + 3],
            ) {
                4
            } else {
                0
            }
        } else {
            0
        };
        proof {
            assert(hl as int == utf8_head_len(t));
        }
        if hl == 0 {
            proof {
                assert(!is_utf8(t));
            }
            return false;
        }
        proof {
            assert(t.skip(hl as int) =~= v@.skip(i + hl));
            assert(is_utf8(t) == is_utf8(v@.skip(i + hl)));
        }
        i += hl;
    }
    proof {
        assert(v@.skip(i as int) =~= Seq::<u8>::empty());
        assert(is_utf8(Seq::<u8>::empty()));
    }
    true
}

} // verus!
