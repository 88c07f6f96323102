//! Rendering a value as text in one of the numeral encodings.

use vstd::prelude::*;
use vstd::arithmetic::logarithm::log;
use base64::Engine;
use base64::engine::general_purpose::STANDARD;
use crate::base::NumberBase;
use crate::radix::{
    canonical, digits, lemma_digits_canonical, lemma_digits_len, lemma_digits_len_bound,
    lemma_digits_of_value, lemma_value_of_digits, power, to_digits, value_of,
};
use crate::text::string_of;

verus! {

/// The character for the digit `d`: `0` to `9`, then lowercase `a` to `f`.
pub open spec fn digit_char(d: u8) -> char
    recommends
        d < 16,
{
    if d < 10 {
        (d + 48) as u8 as char
    } else {
        (d + 87) as u8 as char
    }
}

/// `n` written in `radix`, most significant digit first, with the fewest
/// digits that will do.
pub open spec fn numeral(n: nat, radix: nat) -> Seq<char>
    recommends
        2 <= radix <= 16,
{
    digits(n, radix).map_values(|d: u8| digit_char(d))
}

/// `s` with zeros put in front until it has `width` characters; `s` itself
/// when it is that long already.
pub open spec fn pad_left(s: Seq<char>, width: nat) -> Seq<char> {
    if s.len() >= width {
        s
    } else {
        Seq::new((width - s.len()) as nat, |i: int| '0') + s
    }
}

/// The shortest big-endian byte string that holds `n`: no leading zero
/// byte, and the single byte 0 for zero.
pub open spec fn minimal_bytes(n: nat) -> Seq<u8> {
    digits(n, 256)
}

/// The standard Base64 text, with `=` padding, of a byte string.
pub uninterp spec fn base64_standard(bytes: Seq<u8>) -> Seq<char>;

/// What `format_value` writes.
pub open spec fn formatted(value: u64, base: NumberBase, pad: bool, pad_width: u32) -> Seq<char> {
    match base {
        NumberBase::Binary => if pad {
            pad_left(numeral(value as nat, 2), pad_width as nat)
        } else {
            numeral(value as nat, 2)
        },
        NumberBase::Decimal => numeral(value as nat, 10),
        NumberBase::Hexadecimal => if pad {
            pad_left(numeral(value as nat, 16), pad_width as nat)
        } else {
            numeral(value as nat, 16)
        },
        NumberBase::Base64 => base64_standard(minimal_bytes(value as nat)),
    }
}

/// Calls `Engine::encode` of the `base64` crate on its `STANDARD` engine,
/// which encodes with the alphabet of RFC 4648 and pads with `=`. The
/// result is a function of the bytes alone and is known here only by its
/// name. The engine panics when the encoded length does not fit in `usize`,
/// which the precondition rules out.
#[verifier::external_body]
fn encode_base64(bytes: &Vec<u8>) -> (text: String)
    requires
        bytes@.len() / 3 * 4 + 4 <= usize::MAX,
    ensures
        text@ == base64_standard(bytes@),
{
    STANDARD.encode(bytes)
}

/// The character for one digit below 16.
pub fn digit_to_char(d: u8) -> (c: char)
    requires
        d < 16,
    ensures
        c == digit_char(d),
{
    if d < 10 {
        (d + 48) as char
    } else {
        (d + 87) as char
    }
}

/// The characters of `n` written in `radix`.
pub fn numeral_chars(n: u64, radix: u64) -> (chars: Vec<char>)
    requires
        2 <= radix <= 16,
    ensures
        chars@ == numeral(n as nat, radix as nat),
{
    let ds = to_digits(n, radix);
    proof {
        lemma_digits_canonical(n as nat, radix as nat);
    }
    let mut chars: Vec<char> = Vec::new();
    let mut i: usize = 0;
    while i < ds.len()
        invariant
            i <= ds.len(),
            2 <= radix <= 16,
            forall|k: int| 0 <= k < ds@.len() ==> (#[trigger] ds@[k] as nat) < radix,
            chars@ == ds@.take(i as int).map_values(|d: u8| digit_char(d)),
        decreases ds.len() - i,
    {
        let d = ds[i];
        assert((ds@[i as int] as nat) < radix);
        let c = digit_to_char(d);
        chars.push(c);
        proof {
            assert(ds@.take(i + 1).map_values(|d: u8| digit_char(d)) =~= ds@.take(
                i as int,
            ).map_values(|d: u8| digit_char(d)).push(c));
        }
        i += 1;
    }
    assert(ds@.take(ds.len() as int) =~= ds@);
    chars
}

/// `chars` with zeros in front up to `width` characters.
pub fn padded(chars: Vec<char>, width: usize) -> (out: Vec<char>)
    ensures
        out@ == pad_left(chars@, width as nat),
{
    if chars.len() >= width {
        return chars;
    }
    let missing: usize = width - chars.len();
    let mut out: Vec<char> = Vec::new();
    let mut i: usize = 0;
    while i < missing
        invariant
            i <= missing,
            out@ == Seq::new(i as nat, |k: int| '0'),
        decreases missing - i,
    {
        out.push('0');
        assert(out@ =~= Seq::new((i + 1) as nat, |k: int| '0'));
        i += 1;
    }
    let mut j: usize = 0;
    while j < chars.len()
        invariant
            j <= chars.len(),
            out@ == Seq::new(missing as nat, |k: int| '0') + chars@.take(j as int),
        decreases chars.len() - j,
    {
        out.push(chars[j]);
        assert(out@ =~= Seq::new(missing as nat, |k: int| '0') + chars@.take(j + 1));
        j += 1;
    }
    assert(chars@.take(chars.len() as int) =~= chars@);
    out
}

/// Padding keeps the text as its end, puts nothing but zeros before it,
/// and gives the greater of the text's length and the width.
pub proof fn lemma_pad_left(s: Seq<char>, width: nat)
    ensures
        pad_left(s, width).len() == if s.len() >= width { s.len() } else { width },
        pad_left(s, width).skip(pad_left(s, width).len() - s.len()) == s,
        forall|i: int|
            0 <= i < pad_left(s, width).len() - s.len() ==> #[trigger] pad_left(s, width)[i]
                == '0',
{
    let out = pad_left(s, width);
    assert(out.skip(out.len() - s.len()) =~= s);
}

/// The shortest byte string of a 64-bit value: between one and eight
/// bytes that denote the value, most significant first, the first of them
/// not zero unless the value is; for a value above zero, one byte more than
/// the integer logarithm of the value to the base 256. No other byte
/// string without a leading zero denotes the value.
pub proof fn lemma_minimal_bytes(value: u64)
    ensures
        1 <= minimal_bytes(value as nat).len() <= 8,
        value_of(minimal_bytes(value as nat), 256) == value,
        value == 0 ==> minimal_bytes(value as nat) == seq![0u8],
        value > 0 ==> minimal_bytes(value as nat)[0] != 0,
        value > 0 ==> minimal_bytes(value as nat).len() == log(256, value as int) + 1,
        forall|other: Seq<u8>|
            canonical(other, 256) && #[trigger] value_of(other, 256) == value ==> other
                == minimal_bytes(value as nat),
{
    let n = value as nat;
    assert(power(256, 8) == 0x1_0000_0000_0000_0000) by {
        reveal_with_fuel(power, 9);
    }
    lemma_digits_len_bound(n, 256, 8);
    lemma_value_of_digits(n, 256);
    lemma_digits_canonical(n, 256);
    if value > 0 {
        lemma_digits_len(n, 256);
    }
    assert forall|other: Seq<u8>|
        canonical(other, 256) && #[trigger] value_of(other, 256) == value implies other
        == minimal_bytes(n) by {
        lemma_digits_of_value(other, 256);
    }
}

/// The shortest big-endian byte string that holds `value`.
pub fn minimal_be_bytes(value: u64) -> (bytes: Vec<u8>)
    ensures
        bytes@ == minimal_bytes(value as nat),
        1 <= bytes@.len() <= 8,
{
    proof {
        lemma_minimal_bytes(value);
    }
    to_digits(value, 256)
}

/// Renders `value` in `base`.
///
/// Binary and hexadecimal use the fewest digits that hold the value and, if
/// `pad` is set, zeros in front up to `pad_width` characters; a longer text
/// is never cut. Decimal and Base64 ignore `pad` and `pad_width`. Base64
/// encodes the shortest big-endian byte string of the value.
pub fn format_value(value: u64, base: NumberBase, pad: bool, pad_width: u32) -> (text: String)
    ensures
        text@ == formatted(value, base, pad, pad_width),
{
    match base {
        NumberBase::Binary => {
            let chars = numeral_chars(value, 2);
            if pad {
                string_of(&padded(chars, pad_width as usize))
            } else {
                string_of(&chars)
            }
        },
        NumberBase::Decimal => string_of(&numeral_chars(value, 10)),
        NumberBase::Hexadecimal => {
            let chars = numeral_chars(value, 16);
            if pad {
                string_of(&padded(chars, pad_width as usize))
            } else {
                string_of(&chars)
            }
        },
        NumberBase::Base64 => {
            let bytes = minimal_be_bytes(value);
            encode_base64(&bytes)
        },
    }
}

} // verus!
