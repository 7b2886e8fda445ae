//! Encoding of single characters as UTF-8 bytes or UTF-16 units, and back.

use vstd::prelude::*;
use vstd::utf8::*;

verus! {

/// The number of bytes of the UTF-8 encoding of `ch`.
pub open spec fn utf8_width(ch: char) -> nat {
    encode_scalar(ch as u32).len()
}

/// `char::from_u32` of the standard library: the character whose scalar
/// value is `value`, if `value` is a scalar value, which is any number up to
/// `0x10FFFF` outside the surrogate range.
#[verifier::external_body]
pub(crate) fn char_from_u32(value: u32) -> (r: Option<char>)
    ensures
        is_scalar(value) ==> r == Some(value as char),
        !is_scalar(value) ==> r is None,
{
    char::from_u32(value)
}

/// `String::push` of the standard library: appends one character.
#[verifier::external_body]
pub(crate) fn string_push(text: &mut String, ch: char)
    ensures
        final(text)@ == old(text)@.push(ch),
{
    text.push(ch)
}

/// The UTF-8 encoding of `ch`: the bytes, of which the first `r.1` count.
pub fn encode_utf8_char(ch: char) -> (r: ([u8; 4], usize))
    ensures
        r.1 == utf8_width(ch),
        1 <= r.1 <= 4,
        r.0@.take(r.1 as int) == encode_scalar(ch as u32),
{
    let scalar = ch as u32;
    let last = 0x80 | (scalar & 0x3F) as u8;
    let second_last = 0x80 | ((scalar >> 6) & 0x3F) as u8;
    let third_last = 0x80 | ((scalar >> 12) & 0x3F) as u8;
    let r = if scalar < 0x80 {
        ([(scalar & 0x7F) as u8, 0, 0, 0], 1)
    } else if scalar < 0x800 {
        ([0xC0 | ((scalar >> 6) & 0x1F) as u8, last, 0, 0], 2)
    } else if scalar < 0x10000 {
        ([0xE0 | ((scalar >> 12) & 0x0F) as u8, second_last, last, 0], 3)
    } else {
        ([0xF0 | ((scalar >> 18) & 0x7) as u8, third_last, second_last, last], 4)
    };
    assert(r.0@.take(r.1 as int) =~= encode_scalar(scalar));
    r
}

proof fn lemma_codepoint_bounds(b1: u8, b2: u8, b3: u8, b4: u8)
    by (bit_vector)
    ensures
        codepoint_width_1(b1) <= 0x7F,
        codepoint_width_2(b1, b2) <= 0x7FF,
        codepoint_width_3(b1, b2, b3) <= 0xFFFF,
        codepoint_width_4(b1, b2, b3, b4) <= 0x1F_FFFF,
{
}

/// The first scalar of a sequence that begins with a well-formed encoding
/// is a scalar value, and its encoding has the length of what was decoded.
pub proof fn lemma_first_scalar(bytes: Seq<u8>)
    requires
        valid_first_scalar(bytes),
    ensures
        is_scalar(decode_first_scalar(bytes)),
        1 <= length_of_first_scalar(bytes) <= 4,
        length_of_first_scalar(bytes) <= bytes.len(),
        utf8_width(decode_first_scalar(bytes) as char) == length_of_first_scalar(bytes),
{
    lemma_codepoint_bounds(bytes[0], bytes[1], bytes[2], bytes[3]);
    let scalar = decode_first_scalar(bytes);
    assert(is_scalar(scalar));
    assert((scalar as char) as u32 == scalar);
}

/// Decodes the character whose encoding begins at `index`, and gives the
/// number of bytes of that encoding.
pub fn decode_utf8_char(bytes: &[u8], index: usize) -> (r: (char, usize))
    requires
        index <= bytes@.len(),
        valid_first_scalar(bytes@.skip(index as int)),
    ensures
        r.0 == decode_first_scalar(bytes@.skip(index as int)) as char,
        r.1 == length_of_first_scalar(bytes@.skip(index as int)),
        r.1 == utf8_width(r.0),
        1 <= r.1 <= 4,
        index + r.1 <= bytes@.len(),
{
    let ghost rest = bytes@.skip(index as int);
    proof {
        lemma_first_scalar(rest);
        assert(forall|k: int| 0 <= k < rest.len() ==> rest[k] == bytes@[index + k]);
    }
    let b1 = bytes[index];
    let (scalar, width): (u32, usize) = if b1 <= 0x7F {
        ((b1 & 0x7F) as u32, 1)
    } else if b1 <= 0xDF {
        let b2 = bytes[index + 1];
        ((((b1 & 0x1F) as u32) << 6) | (b2 & 0x3F) as u32, 2)
    } else if b1 <= 0xEF {
        let b2 = bytes[index + 1];
        let b3 = bytes[index + 2];
        ((((b1 & 0x0F) as u32) << 12) | (((b2 & 0x3F) as u32) << 6) | (b3 & 0x3F) as u32, 3)
    } else {
        let b2 = bytes[index + 1];
        let b3 = bytes[index + 2];
        let b4 = bytes[index + 3];
        (
            (((b1 & 0x07) as u32) << 18) | (((b2 & 0x3F) as u32) << 12) | (((b3 & 0x3F) as u32)
                << 6) | (b4 & 0x3F) as u32,
            4,
        )
    };
    assert(scalar == decode_first_scalar(rest));
    match char_from_u32(scalar) {
        Some(ch) => (ch, width),
        None => ('\u{FFFD}', width),
    }
}

/// A unit of the range that UTF-16 keeps for the first half of a pair.
pub open spec fn is_high_surrogate(unit: u16) -> bool {
    0xD800 <= unit <= 0xDBFF
}

/// A unit of the range that UTF-16 keeps for the second half of a pair.
pub open spec fn is_low_surrogate(unit: u16) -> bool {
    0xDC00 <= unit <= 0xDFFF
}

/// The number of units of the UTF-16 encoding of `ch`.
pub open spec fn utf16_width(ch: char) -> nat {
    if (ch as u32) < 0x10000 {
        1
    } else {
        2
    }
}

/// The UTF-16 encoding of `ch`: the scalar value itself where it fits one
/// unit, else a pair of surrogates that carry ten bits each of what the
/// value exceeds `0x10000` by.
pub open spec fn encode_utf16_char(ch: char) -> Seq<u16> {
    let scalar = ch as u32;
    if scalar < 0x10000 {
        seq![scalar as u16]
    } else {
        seq![
            (0xD800 + (scalar - 0x10000) / 0x400) as u16,
            (0xDC00 + (scalar - 0x10000) % 0x400) as u16,
        ]
    }
}

/// The UTF-16 encoding of a text.
pub open spec fn encode_utf16(chars: Seq<char>) -> Seq<u16>
    decreases chars.len(),
{
    if chars.len() == 0 {
        Seq::empty()
    } else {
        encode_utf16(chars.drop_last()) + encode_utf16_char(chars.last())
    }
}

/// The scalar value that a pair of surrogates stands for.
pub open spec fn pair_scalar(high: u16, low: u16) -> u32 {
    (0x10000 + (high - 0xD800) * 0x400 + (low - 0xDC00)) as u32
}

/// The units hold no surrogate but in pairs of a high one and a low one.
pub open spec fn valid_utf16(units: Seq<u16>) -> bool
    decreases units.len(),
{
    if units.len() == 0 {
        true
    } else if is_high_surrogate(units[0]) {
        units.len() >= 2 && is_low_surrogate(units[1]) && valid_utf16(units.skip(2))
    } else {
        !is_low_surrogate(units[0]) && valid_utf16(units.skip(1))
    }
}

/// The number of units that the first character of `units` takes when the
/// units are decoded: two for a pair of surrogates, else one.
pub open spec fn utf16_step(units: Seq<u16>) -> int {
    if units.len() >= 2 && is_high_surrogate(units[0]) && is_low_surrogate(units[1]) {
        2
    } else {
        1
    }
}

/// The first character that the units decode to. A surrogate without its
/// partner decodes to the replacement character.
pub open spec fn utf16_first(units: Seq<u16>) -> char {
    if utf16_step(units) == 2 {
        pair_scalar(units[0], units[1]) as char
    } else if is_high_surrogate(units[0]) || is_low_surrogate(units[0]) {
        '\u{FFFD}'
    } else {
        units[0] as char
    }
}

/// The text that the units decode to, with the replacement character in the
/// place of every surrogate that has no partner.
pub open spec fn decode_utf16_lossy(units: Seq<u16>) -> Seq<char>
    decreases units.len(),
{
    if units.len() == 0 {
        Seq::empty()
    } else {
        seq![utf16_first(units)] + decode_utf16_lossy(units.skip(utf16_step(units)))
    }
}

/// The encoding of one character is well-formed and decodes to it.
pub proof fn lemma_utf16_char(ch: char)
    ensures
        encode_utf16_char(ch).len() == utf16_width(ch),
        valid_utf16(encode_utf16_char(ch)),
        utf16_step(encode_utf16_char(ch)) == utf16_width(ch),
        utf16_first(encode_utf16_char(ch)) == ch,
        decode_utf16_lossy(encode_utf16_char(ch)) == seq![ch],
{
    let units = encode_utf16_char(ch);
    let scalar = ch as u32;
    reveal_with_fuel(valid_utf16, 2);
    reveal_with_fuel(decode_utf16_lossy, 2);
    if scalar < 0x10000 {
        assert(units[0] == scalar);
        assert((units[0] as char) == ch);
        assert(units.skip(1) =~= Seq::<u16>::empty());
    } else {
        let excess = (scalar - 0x10000) as int;
        assert(0 <= excess < 0x100000);
        assert(excess / 0x400 < 0x400);
        assert(units[0] == 0xD800 + excess / 0x400);
        assert(units[1] == 0xDC00 + excess % 0x400);
        assert(pair_scalar(units[0], units[1]) == scalar);
        assert(units.skip(2) =~= Seq::<u16>::empty());
    }
    assert(decode_utf16_lossy(units) =~= seq![ch]);
}

/// Well-formed units followed by further units decode to what the first
/// decode to, followed by what the others decode to; and the whole is
/// well-formed if and only if the others are.
pub proof fn lemma_utf16_concat(first: Seq<u16>, second: Seq<u16>)
    requires
        valid_utf16(first),
    ensures
        decode_utf16_lossy(first + second) == decode_utf16_lossy(first) + decode_utf16_lossy(
            second,
        ),
        valid_utf16(first + second) == valid_utf16(second),
    decreases first.len(),
{
    let both = first + second;
    if first.len() == 0 {
        assert(both =~= second);
        assert(decode_utf16_lossy(first) + decode_utf16_lossy(second) =~= decode_utf16_lossy(
            second,
        ));
    } else {
        let step = utf16_step(first);
        assert(both[0] == first[0]);
        if is_high_surrogate(first[0]) {
            assert(both[1] == first[1]);
        }
        assert(utf16_step(both) == step);
        assert(utf16_first(both) == utf16_first(first));
        assert(both.skip(step) =~= first.skip(step) + second);
        lemma_utf16_concat(first.skip(step), second);
        assert(decode_utf16_lossy(both) =~= decode_utf16_lossy(first) + decode_utf16_lossy(
            second,
        ));
    }
}

/// The encoding of a text is well-formed, as long as the sum of its
/// characters' widths, and decodes to the text.
pub proof fn lemma_utf16_round_trip(chars: Seq<char>)
    ensures
        valid_utf16(encode_utf16(chars)),
        decode_utf16_lossy(encode_utf16(chars)) == chars,
    decreases chars.len(),
{
    if chars.len() > 0 {
        lemma_utf16_round_trip(chars.drop_last());
        lemma_utf16_char(chars.last());
        lemma_utf16_concat(encode_utf16(chars.drop_last()), encode_utf16_char(chars.last()));
        assert(chars.drop_last() + seq![chars.last()] =~= chars);
    }
}

/// The UTF-16 encoding of `ch`: the units, of which the first `r.1` count.
pub fn encode_utf16_units(ch: char) -> (r: ([u16; 2], usize))
    ensures
        r.1 == utf16_width(ch),
        1 <= r.1 <= 2,
        r.0@.take(r.1 as int) == encode_utf16_char(ch),
{
    let scalar = ch as u32;
    let r = if scalar < 0x10000 {
        ([scalar as u16, 0], 1)
    } else {
        let excess = scalar - 0x10000;
        assert(excess / 0x400 < 0x400);
        ([(0xD800 + excess / 0x400) as u16, (0xDC00 + excess % 0x400) as u16], 2)
    };
    assert(r.0@.take(r.1 as int) =~= encode_utf16_char(ch));
    r
}

/// Decodes the character that begins at `index`, and gives the number of
/// units that it takes. A surrogate without its partner is decoded as the
/// replacement character.
pub fn decode_utf16_char(units: &[u16], index: usize) -> (r: (char, usize))
    requires
        index < units@.len(),
    ensures
        r.0 == utf16_first(units@.skip(index as int)),
        r.1 == utf16_step(units@.skip(index as int)),
        1 <= r.1 <= 2,
        index + r.1 <= units@.len(),
{
    let ghost rest = units@.skip(index as int);
    assert(forall|k: int| 0 <= k < rest.len() ==> rest[k] == units@[index + k]);
    let first = units[index];
    if 0xD800 <= first && first <= 0xDBFF && index + 1 < units.len() {
        let second = units[index + 1];
        if 0xDC00 <= second && second <= 0xDFFF {
            let scalar: u32 = 0x10000 + ((first - 0xD800) as u32) * 0x400 + (second - 0xDC00) as u32;
            assert(scalar == pair_scalar(first, second));
            assert(is_scalar(scalar));
            return match char_from_u32(scalar) {
                Some(ch) => (ch, 2),
                None => ('\u{FFFD}', 2),
            };
        }
    }
    if 0xD800 <= first && first <= 0xDFFF {
        ('\u{FFFD}', 1)
    } else {
        assert(is_scalar(first as u32));
        match char_from_u32(first as u32) {
            Some(ch) => (ch, 1),
            None => ('\u{FFFD}', 1),
        }
    }
}

} // verus!
