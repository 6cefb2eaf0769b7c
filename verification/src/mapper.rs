//! The bijection between bytes and variation selector scalar values.

use vstd::prelude::*;

verus! {

use vstd::set_lib::lemma_int_range;
use vstd::set_lib::set_int_range;
use vstd::utf8::char_u32_cast;
use vstd::utf8::is_scalar;

/// The scalar value that carries byte `b`: bytes below 16 land in the
/// sixteen-value range starting at 0xFE00, the rest in the 240-value
/// range starting at 0xE0100.
pub open spec fn byte_to_scalar(b: u8) -> u32 {
    if b < 16 {
        (0xFE00 + b as int) as u32
    } else {
        (0xE0100 + b as int - 16) as u32
    }
}

/// The byte carried by scalar value `u`, if `u` lies in one of the two
/// selector ranges; `None` for every other scalar value.
pub open spec fn scalar_to_byte(u: u32) -> Option<u8> {
    if 0xFE00 <= u && u <= 0xFE0F {
        Some((u as int - 0xFE00) as u8)
    } else if 0xE0100 <= u && u <= 0xE01EF {
        Some((u as int - 0xE0100 + 16) as u8)
    } else {
        None
    }
}

/// The selector character that carries byte `b`.
pub open spec fn byte_to_selector_char(b: u8) -> char {
    byte_to_scalar(b) as char
}

/// The byte carried by character `c`, if `c` is a variation selector.
pub open spec fn selector_to_byte(c: char) -> Option<u8> {
    scalar_to_byte(c as u32)
}

/// True when `c` lies in one of the two selector ranges.
pub open spec fn is_selector_char(c: char) -> bool {
    selector_to_byte(c) is Some
}

/// Relies on char::from_u32: returns the character for every valid
/// Unicode scalar value, and None exactly for surrogates and values
/// above 0x10FFFF.
pub assume_specification[ char::from_u32 ](i: u32) -> (r: Option<char>)
    ensures
        r is Some <==> is_scalar(i),
        r is Some ==> r->0 as u32 == i,
;

/// Maps a byte to the variation selector character that carries it.
pub fn byte_to_variation_selector(byte: u8) -> (c: char)
    ensures
        c == byte_to_selector_char(byte),
        c as u32 == byte_to_scalar(byte),
        selector_to_byte(c) == Some(byte),
{
    let scalar: u32 = if byte < 16 {
        0xFE00 + byte as u32
    } else {
        0xE0100 + (byte as u32 - 16)
    };
    assert(is_scalar(scalar));
    let c = char::from_u32(scalar).unwrap();
    proof {
        char_u32_cast(c, scalar);
    }
    c
}

/// Maps a variation selector character back to the byte it carries;
/// returns None for every character outside the two selector ranges.
pub fn variation_selector_to_byte(c: char) -> (r: Option<u8>)
    ensures
        r == selector_to_byte(c),
{
    let u = c as u32;
    if 0xFE00 <= u && u <= 0xFE0F {
        Some((u - 0xFE00) as u8)
    } else if 0xE0100 <= u && u <= 0xE01EF {
        Some((u - 0xE0100 + 16) as u8)
    } else {
        None
    }
}

/// Round trip: every byte survives the trip through its selector
/// character.
pub proof fn lemma_byte_round_trip(b: u8)
    ensures
        selector_to_byte(byte_to_selector_char(b)) == Some(b),
{
    assert(is_scalar(byte_to_scalar(b)));
}

/// The set of all scalar values that the mapping recognizes, as
/// integers: the two selector ranges and nothing else.
pub open spec fn selector_scalars() -> Set<int> {
    Set::new(|u: int| 0xFE00 <= u <= 0xFE0F || 0xE0100 <= u <= 0xE01EF)
}

/// Bijection coverage: the 256 byte values map one-to-one onto the
/// selector scalars, whose set holds exactly 256 values; no byte maps
/// outside it and no value in it is missed.
pub proof fn lemma_selector_bijection()
    ensures
        forall|b1: u8, b2: u8| byte_to_scalar(b1) == byte_to_scalar(b2) ==> b1 == b2,
        forall|b: u8| selector_scalars().contains(#[trigger] byte_to_scalar(b) as int),
        forall|u: u32| #[trigger] scalar_to_byte(u) is Some ==> byte_to_scalar(
            scalar_to_byte(u)->0,
        ) == u,
        forall|u: u32| selector_scalars().contains(u as int) ==> scalar_to_byte(u) is Some,
        selector_scalars().finite(),
        selector_scalars().len() == 256,
{
    let low = set_int_range(0xFE00, 0xFE10);
    let high = set_int_range(0xE0100, 0xE01F0);
    lemma_int_range(0xFE00, 0xFE10);
    lemma_int_range(0xE0100, 0xE01F0);
    assert(low.disjoint(high));
    vstd::set_lib::lemma_set_disjoint_lens(low, high);
    assert(selector_scalars() =~= low + high);
}

} // verus!
