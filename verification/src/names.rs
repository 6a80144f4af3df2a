use vstd::prelude::*;
use vstd::utf8::{valid_utf8, decode_utf8, is_leading_byte_width_1, length_of_first_scalar, pop_first_scalar, decode_first_scalar, char_u32_cast};

verus! {

/// The characters spelled by a sequence of ASCII bytes.
pub open spec fn ascii_chars(s: Seq<u8>) -> Seq<char> {
    Seq::new(s.len(), |i: int| s[i] as char)
}

/// An all-ASCII byte sequence is valid UTF-8 and decodes to its bytes read
/// as characters.
pub proof fn lemma_ascii_utf8(s: Seq<u8>)
    requires
        forall|i: int| 0 <= i < s.len() ==> s[i] < 0x80,
    ensures
        valid_utf8(s),
        decode_utf8(s) =~= ascii_chars(s),
    decreases s.len(),
{
    if s.len() != 0 {
        assert(is_leading_byte_width_1(s[0]));
        assert(length_of_first_scalar(s) == 1);
        assert(pop_first_scalar(s) =~= s.skip(1));
        lemma_ascii_utf8(s.skip(1));
        let b = s[0];
        assert((b & 0x7f) == b) by (bit_vector)
            requires
                b < 0x80,
        ;
        assert(decode_first_scalar(s) == s[0] as u32);
        char_u32_cast(s[0] as char, s[0] as u32);
        assert(decode_utf8(s) =~= ascii_chars(s));
    }
}

/// Relies on `String::from_utf8`: the bytes decode to exactly the string's
/// characters when they are well-formed UTF-8, and fail to decode otherwise.
#[verifier::external_body]
pub(crate) fn utf8_string(v: Vec<u8>) -> (r: Option<String>)
    ensures
        match r {
            Some(s) => valid_utf8(v@) && s@ == decode_utf8(v@),
            None => !valid_utf8(v@),
        },
{
    match String::from_utf8(v) {
        Ok(s) => Some(s),
        Err(_) => None,
    }
}

/// Builds a string out of ASCII bytes.
pub fn ascii_string(v: Vec<u8>) -> (r: String)
    requires
        forall|i: int| 0 <= i < v@.len() ==> v@[i] < 0x80,
    ensures
        r@ == ascii_chars(v@),
{
    proof {
        lemma_ascii_utf8(v@);
    }
    let ghost gv = v@;
    match utf8_string(v) {
        Some(s) => s,
        None => {
            proof {
                assert(valid_utf8(gv));
                assert(false);
            }
            String::new()
        },
    }
}

/// The ASCII code of the lowercase hexadecimal digit for `d`.
pub open spec fn spec_hex_digit(d: u32) -> u8
    recommends
        d < 16,
{
    if d < 10 {
        (0x30 + d) as u8
    } else {
        (0x57 + d) as u8
    }
}

/// The lowercase hexadecimal digits of `n`, most significant first, with no
/// leading zeros.
pub open spec fn spec_hex_digits(n: u32) -> Seq<u8>
    decreases n,
{
    if n < 16 {
        seq![spec_hex_digit(n)]
    } else {
        spec_hex_digits(n / 16).push(spec_hex_digit(n % 16))
    }
}

/// The decimal digits of `n`, most significant first, with no leading zeros.
pub open spec fn spec_dec_digits(n: u32) -> Seq<u8>
    decreases n,
{
    if n < 10 {
        seq![(0x30 + n) as u8]
    } else {
        spec_dec_digits(n / 10).push((0x30 + n % 10) as u8)
    }
}

fn hex_digit(d: u32) -> (r: u8)
    requires
        d < 16,
    ensures
        r == spec_hex_digit(d),
{
    if d < 10 {
        (0x30 + d) as u8
    } else {
        (0x57 + d) as u8
    }
}

fn push_hex_digits(n: u32, out: &mut Vec<u8>)
    ensures
        final(out)@ == old(out)@ + spec_hex_digits(n),
    decreases n,
{
    if n < 16 {
        out.push(hex_digit(n));
        proof {
            assert(final(out)@ =~= old(out)@ + spec_hex_digits(n));
        }
    } else {
        push_hex_digits(n / 16, out);
        out.push(hex_digit(n % 16));
        proof {
            assert(final(out)@ =~= old(out)@ + spec_hex_digits(n));
        }
    }
}

fn push_dec_digits(n: u32, out: &mut Vec<u8>)
    ensures
        final(out)@ == old(out)@ + spec_dec_digits(n),
    decreases n,
{
    if n < 10 {
        out.push((0x30 + n) as u8);
        proof {
            assert(final(out)@ =~= old(out)@ + spec_dec_digits(n));
        }
    } else {
        push_dec_digits(n / 10, out);
        out.push((0x30 + n % 10) as u8);
        proof {
            assert(final(out)@ =~= old(out)@ + spec_dec_digits(n));
        }
    }
}

/// Every digit byte is printable ASCII.
pub proof fn lemma_hex_digits_ascii(n: u32)
    ensures
        forall|i: int| 0 <= i < spec_hex_digits(n).len() ==> spec_hex_digits(n)[i] < 0x80,
    decreases n,
{
    if n >= 16 {
        lemma_hex_digits_ascii(n / 16);
        assert forall|i: int| 0 <= i < spec_hex_digits(n).len() implies spec_hex_digits(n)[i] < 0x80 by {
            if i < spec_hex_digits(n / 16).len() {
                assert(spec_hex_digits(n)[i] == spec_hex_digits(n / 16)[i]);
            } else {
                assert(spec_hex_digits(n)[i] == spec_hex_digit(n % 16));
            }
        }
    }
}

/// Every digit byte is printable ASCII.
pub proof fn lemma_dec_digits_ascii(n: u32)
    ensures
        forall|i: int| 0 <= i < spec_dec_digits(n).len() ==> spec_dec_digits(n)[i] < 0x80,
    decreases n,
{
    if n >= 10 {
        lemma_dec_digits_ascii(n / 10);
        assert forall|i: int| 0 <= i < spec_dec_digits(n).len() implies spec_dec_digits(n)[i] < 0x80 by {
            if i < spec_dec_digits(n / 10).len() {
                assert(spec_dec_digits(n)[i] == spec_dec_digits(n / 10)[i]);
            } else {
                assert(spec_dec_digits(n)[i] == (0x30 + n % 10) as u8);
            }
        }
    }
}

/// The bytes of the name of an external cache file: `f_` followed by the
/// file number in lowercase hexadecimal, left-padded with zeros to at least
/// six digits.
pub open spec fn spec_separate_file_name(n: u32) -> Seq<u8> {
    let digits = spec_hex_digits(n);
    let padded = if digits.len() >= 6 {
        digits
    } else {
        Seq::new((6 - digits.len()) as nat, |i: int| 0x30u8) + digits
    };
    seq![0x66u8, 0x5fu8] + padded
}

/// The bytes of the name of a block file: `data_` followed by the file
/// number in decimal.
pub open spec fn spec_data_file_name(n: u32) -> Seq<u8> {
    seq![0x64u8, 0x61u8, 0x74u8, 0x61u8, 0x5fu8] + spec_dec_digits(n)
}

/// Every byte of a file name is printable ASCII.
pub proof fn lemma_file_name_ascii(n: u32)
    ensures
        forall|i: int| 0 <= i < spec_separate_file_name(n).len() ==> spec_separate_file_name(n)[i] < 0x80,
        forall|i: int| 0 <= i < spec_data_file_name(n).len() ==> spec_data_file_name(n)[i] < 0x80,
{
    lemma_hex_digits_ascii(n);
    lemma_dec_digits_ascii(n);
}

/// Renders the name of an external cache file, `f_` plus six or more
/// lowercase hexadecimal digits.
pub fn separate_file_name(n: u32) -> (r: String)
    ensures
        r@ == ascii_chars(spec_separate_file_name(n)),
{
    let mut digits: Vec<u8> = Vec::new();
    push_hex_digits(n, &mut digits);
    let mut out: Vec<u8> = Vec::new();
    out.push(0x66u8);
    out.push(0x5fu8);
    let mut pad: usize = digits.len();
    while pad < 6
        invariant
            out@ == seq![0x66u8, 0x5fu8] + Seq::new((pad - digits@.len()) as nat, |i: int| 0x30u8),
            pad >= digits@.len(),
            pad <= 6 || pad == digits@.len(),
        decreases 6 - pad,
    {
        out.push(0x30u8);
        pad = pad + 1;
        proof {
            assert(out@ =~= seq![0x66u8, 0x5fu8] + Seq::new((pad - digits@.len()) as nat, |i: int| 0x30u8));
        }
    }
    let mut i: usize = 0;
    while i < digits.len()
        invariant
            i <= digits@.len(),
            out@ == seq![0x66u8, 0x5fu8] + (if digits@.len() >= 6 {
                Seq::new(0, |j: int| 0x30u8)
            } else {
                Seq::new((6 - digits@.len()) as nat, |j: int| 0x30u8)
            }) + digits@.take(i as int),
        decreases digits@.len() - i,
    {
        let d = digits[i];
        out.push(d);
        i = i + 1;
        proof {
            assert(digits@.take(i as int) =~= digits@.take(i - 1).push(digits@[i - 1]));
            assert(out@ =~= seq![0x66u8, 0x5fu8] + (if digits@.len() >= 6 {
                Seq::new(0, |j: int| 0x30u8)
            } else {
                Seq::new((6 - digits@.len()) as nat, |j: int| 0x30u8)
            }) + digits@.take(i as int));
        }
    }
    proof {
        assert(out@ =~= spec_separate_file_name(n));
        lemma_file_name_ascii(n);
    }
    ascii_string(out)
}

/// Renders the name of a block file, `data_` plus the file number in
/// decimal.
pub fn data_file_name(n: u32) -> (r: String)
    ensures
        r@ == ascii_chars(spec_data_file_name(n)),
{
    let mut out: Vec<u8> = Vec::new();
    out.push(0x64u8);
    out.push(0x61u8);
    out.push(0x74u8);
    out.push(0x61u8);
    out.push(0x5fu8);
    proof {
        assert(out@ =~= seq![0x64u8, 0x61u8, 0x74u8, 0x61u8, 0x5fu8]);
    }
    push_dec_digits(n, &mut out);
    proof {
        assert(out@ =~= spec_data_file_name(n));
        lemma_file_name_ascii(n);
    }
    ascii_string(out)
}

/// The bytes of a version label: the major number in decimal, a dot, the
/// minor number in decimal.
pub open spec fn spec_version_name(major: u32, minor: u32) -> Seq<u8> {
    spec_dec_digits(major) + seq![0x2eu8] + spec_dec_digits(minor)
}

/// Renders a `major.minor` version label.
pub fn version_name(major: u32, minor: u32) -> (r: String)
    ensures
        r@ == ascii_chars(spec_version_name(major, minor)),
{
    let mut out: Vec<u8> = Vec::new();
    push_dec_digits(major, &mut out);
    out.push(0x2eu8);
    push_dec_digits(minor, &mut out);
    proof {
        assert(out@ =~= spec_version_name(major, minor));
        lemma_dec_digits_ascii(major);
        lemma_dec_digits_ascii(minor);
    }
    ascii_string(out)
}

} // verus!
