//! Percent-encoding of filenames: the escape set, an exact model of the
//! encoder and decoder, and the round-trip between them.

use vstd::prelude::*;

verus! {

/// Bytes that the encoder escapes: the C0 controls, DEL, space, and every
/// non-ASCII byte.
pub open spec fn percent_escaped(b: u8) -> bool {
    b <= 0x20 || b == 0x7f || b >= 0x80
}

/// Uppercase hexadecimal digit of `n`, for `n < 16`.
pub open spec fn hex_digit(n: u8) -> u8 {
    if n < 10 {
        (0x30 + n) as u8
    } else {
        (0x37 + n) as u8
    }
}

/// The three-byte escape `%XX` of byte `b`, with uppercase hex digits.
pub open spec fn pct_triple(b: u8) -> Seq<u8> {
    seq![0x25u8, hex_digit(b / 16), hex_digit(b % 16)]
}

/// How the encoder renders one byte.
pub open spec fn encode_byte(b: u8) -> Seq<u8> {
    if percent_escaped(b) {
        pct_triple(b)
    } else {
        seq![b]
    }
}

/// Percent-encoding of a whole byte string.
pub open spec fn percent_encoded(s: Seq<u8>) -> Seq<u8>
    decreases s.len(),
{
    if s.len() == 0 {
        Seq::empty()
    } else {
        encode_byte(s[0]) + percent_encoded(s.drop_first())
    }
}

/// Is `c` an ASCII hexadecimal digit, of either case?
pub open spec fn is_hex(c: u8) -> bool {
    (0x30 <= c && c <= 0x39) || (0x41 <= c && c <= 0x46) || (0x61 <= c && c <= 0x66)
}

/// Numeric value of a hexadecimal digit.
pub open spec fn hex_value(c: u8) -> u8 {
    if 0x30 <= c && c <= 0x39 {
        (c - 0x30) as u8
    } else if 0x41 <= c && c <= 0x46 {
        (c - 0x37) as u8
    } else {
        (c - 0x57) as u8
    }
}

/// Percent-decoding: a `%` followed by two hex digits becomes the byte they
/// spell; every other byte is passed through unchanged.
pub open spec fn percent_decoded(s: Seq<u8>) -> Seq<u8>
    decreases s.len(),
{
    if s.len() == 0 {
        Seq::empty()
    } else if s[0] == 0x25 && s.len() >= 3 && is_hex(s[1]) && is_hex(s[2]) {
        seq![((hex_value(s[1]) * 16 + hex_value(s[2])) as u8)] + percent_decoded(s.skip(3))
    } else {
        seq![s[0]] + percent_decoded(s.skip(1))
    }
}

/// Relies on `percent_encoding::percent_encode_byte`: every byte maps to the
/// three characters `%XX`, with `XX` the byte's value in uppercase hex.
#[verifier::external_body]
fn percent_encode_byte_call(b: u8) -> (r: Vec<u8>)
    ensures
        r@ == pct_triple(b),
{
    percent_encoding::percent_encode_byte(b).as_bytes().to_vec()
}

/// Relies on `percent_encoding::percent_decode`: each `%` followed by two hex
/// digits (of either case) yields the byte they spell, and every other byte
/// is passed through unchanged.
#[verifier::external_body]
pub(crate) fn percent_decode_bytes(line: &Vec<u8>) -> (r: Vec<u8>)
    ensures
        r@ == percent_decoded(line@),
{
    percent_encoding::percent_decode(line.as_slice()).collect()
}

/// Appending one byte to the input appends its rendering to the encoding.
pub proof fn lemma_percent_encoded_snoc(s: Seq<u8>, b: u8)
    ensures
        percent_encoded(s.push(b)) == percent_encoded(s) + encode_byte(b),
    decreases s.len(),
{
    if s.len() == 0 {
        assert(s.push(b)[0] == b);
        assert(s.push(b).drop_first() =~= Seq::<u8>::empty());
        assert(percent_encoded(s.push(b)) == encode_byte(b) + percent_encoded(
            Seq::<u8>::empty(),
        ));
        assert(percent_encoded(Seq::<u8>::empty()) == Seq::<u8>::empty());
        assert(percent_encoded(s.push(b)) =~= percent_encoded(s) + encode_byte(b));
    } else {
        assert(s.push(b)[0] == s[0]);
        assert(s.push(b).drop_first() =~= s.drop_first().push(b));
        assert(percent_encoded(s.push(b)) == encode_byte(s[0]) + percent_encoded(
            s.drop_first().push(b),
        ));
        lemma_percent_encoded_snoc(s.drop_first(), b);
        assert(percent_encoded(s.push(b)) =~= percent_encoded(s) + encode_byte(b));
    }
}

/// Percent-encodes a filename so that it is safe as one line of text.
pub fn percent_encode_bytes(name: &Vec<u8>) -> (r: Vec<u8>)
    ensures
        r@ == percent_encoded(name@),
{
    let mut out: Vec<u8> = Vec::new();
    let mut i: usize = 0;
    proof {
        assert(name@.take(0) =~= Seq::<u8>::empty());
    }
    while i < name.len()
        invariant
            i <= name.len(),
            out@ == percent_encoded(name@.take(i as int)),
        decreases name.len() - i,
    {
        let ghost out0 = out@;
        let b = name[i];
        if b <= 0x20 || b == 0x7f || b >= 0x80 {
            let mut t = percent_encode_byte_call(b);
            out.append(&mut t);
            proof {
                assert(out@ == out0 + pct_triple(b));
            }
        } else {
            out.push(b);
            proof {
                assert(out@ =~= out0 + encode_byte(b));
            }
        }
        proof {
            lemma_percent_encoded_snoc(name@.take(i as int), b);
            assert(name@.take(i + 1) =~= name@.take(i as int).push(b));
        }
        i += 1;
    }
    proof {
        assert(name@.take(name@.len() as int) =~= name@);
    }
    out
}

/// An escaped byte (in particular a line separator) never occurs in any
/// percent-encoded output.
pub proof fn lemma_percent_encoded_no_escaped(s: Seq<u8>, b: u8)
    requires
        percent_escaped(b),
    ensures
        !percent_encoded(s).contains(b),
    decreases s.len(),
{
    if s.len() > 0 {
        lemma_percent_encoded_no_escaped(s.drop_first(), b);
        if percent_encoded(s).contains(b) {
            let i = choose|i: int|
                0 <= i < percent_encoded(s).len() && percent_encoded(s)[i] == b;
            let k = encode_byte(s[0]).len();
            if i < k {
                assert(encode_byte(s[0])[i] == b);
                assert(s[0] / 16 < 16 && s[0] % 16 < 16);
            } else {
                assert(percent_encoded(s.drop_first())[i - k] == b);
                assert(percent_encoded(s.drop_first()).contains(b));
            }
            assert(false);
        }
    }
}

/// Decoding inverts encoding for every name without a literal `%` byte.
pub proof fn lemma_percent_round_trip(s: Seq<u8>)
    requires
        !s.contains(0x25u8),
    ensures
        percent_decoded(percent_encoded(s)) == s,
    decreases s.len(),
{
    if s.len() == 0 {
        assert(percent_decoded(percent_encoded(s)) =~= s);
    } else {
        let b = s[0];
        let rest = s.drop_first();
        assert(!rest.contains(0x25u8)) by {
            if rest.contains(0x25u8) {
                let j = choose|j: int| 0 <= j < rest.len() && rest[j] == 0x25u8;
                assert(s[j + 1] == 0x25u8);
            }
        }
        lemma_percent_round_trip(rest);
        let enc = percent_encoded(s);
        if percent_escaped(b) {
            assert(enc =~= pct_triple(b) + percent_encoded(rest));
            assert(enc[0] == 0x25 && enc.len() >= 3);
            assert(enc[1] == hex_digit(b / 16) && enc[2] == hex_digit(b % 16));
            assert(b / 16 < 16 && b % 16 < 16);
            assert(is_hex(enc[1]) && is_hex(enc[2]));
            assert(hex_value(enc[1]) == b / 16 && hex_value(enc[2]) == b % 16);
            assert(((hex_value(enc[1]) * 16 + hex_value(enc[2])) as u8) == b);
            assert(enc.skip(3) =~= percent_encoded(rest));
            assert(percent_decoded(enc) == seq![b] + percent_decoded(enc.skip(3)));
            assert(seq![b] + rest =~= s);
        } else {
            assert(s[0] != 0x25u8);
            assert(enc =~= seq![b] + percent_encoded(rest));
            assert(enc[0] == b);
            assert(enc.skip(1) =~= percent_encoded(rest));
            assert(percent_decoded(enc) == seq![b] + percent_decoded(enc.skip(1)));
            assert(seq![b] + rest =~= s);
        }
    }
}

} // verus!
