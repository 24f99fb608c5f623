//! Field extraction from single EVT 3.0 words.
//!
//! Every word is 16 bits wide. Bits 15..12 hold the type code; the meaning of
//! the lower 12 bits depends on the type. Each function here reads one field
//! and is stateless.

use vstd::prelude::*;
use crate::types::{event_type_of_code, RawEventType};

verus! {

/// Bits 15..12 of a word: its type code.
pub open spec fn spec_event_type(word: u16) -> u8 {
    ((word >> 12) & 0xF) as u8
}

/// Bits 11..0 of a word.
pub open spec fn spec_low12(word: u16) -> u16 {
    word & 0x0FFF
}

/// Bits 10..0 of a word: the coordinate of an address word.
pub open spec fn spec_low11(word: u16) -> u16 {
    word & 0x07FF
}

/// Bit 11 of a word: the polarity or system-type flag of an address word.
pub open spec fn spec_bit11(word: u16) -> u8 {
    ((word >> 11) & 0x1) as u8
}

/// Bits 7..0 of a word.
pub open spec fn spec_low8(word: u16) -> u8 {
    (word & 0x00FF) as u8
}

/// Bits 11..8 of a word: the channel of a trigger word.
pub open spec fn spec_trigger_id(word: u16) -> u8 {
    ((word >> 8) & 0x0F) as u8
}

/// Bit 0 of a word: the edge polarity of a trigger word.
pub open spec fn spec_bit0(word: u16) -> u8 {
    (word & 0x01) as u8
}

/// The fields of a word, stated by division: the word is
/// `type * 4096 + payload`, an address payload is `flag * 2048 + coordinate`,
/// and a trigger payload is `id * 256 + rest` with the edge in the lowest bit.
pub proof fn lemma_fields_by_division(word: u16)
    ensures
        spec_event_type(word) == word / 4096,
        spec_low12(word) == word % 4096,
        spec_low11(word) == word % 2048,
        spec_bit11(word) == (word / 2048) % 2,
        spec_low8(word) == word % 256,
        spec_trigger_id(word) == (word / 256) % 16,
        spec_bit0(word) == word % 2,
{
    assert(((word >> 12) & 0xF) as u8 == word / 4096) by (bit_vector);
    assert(word & 0x0FFF == word % 4096) by (bit_vector);
    assert(word & 0x07FF == word % 2048) by (bit_vector);
    assert(((word >> 11) & 0x1) as u8 == (word / 2048) % 2) by (bit_vector);
    assert((word & 0x00FF) as u8 == word % 256) by (bit_vector);
    assert(((word >> 8) & 0x0F) as u8 == (word / 256) % 16) by (bit_vector);
    assert((word & 0x01) as u8 == word % 2) by (bit_vector);
}

/// Extracts the 4-bit type code of a word.
#[inline]
pub fn get_event_type(word: u16) -> (code: u8)
    ensures
        code == spec_event_type(word),
        code == word / 4096,
        code < 16,
{
    proof {
        lemma_fields_by_division(word);
    }
    ((word >> 12) & 0xF) as u8
}

/// Extracts the 12-bit payload of a word.
#[inline]
pub fn get_payload(word: u16) -> (payload: u16)
    ensures
        payload == spec_low12(word),
        payload == word % 4096,
{
    proof {
        lemma_fields_by_division(word);
    }
    word & 0x0FFF
}

/// Extracts the Y coordinate of an ADDR_Y word.
#[inline]
pub fn addr_y_get_y(word: u16) -> (y: u16)
    ensures
        y == spec_low11(word),
        y == word % 2048,
{
    proof {
        lemma_fields_by_division(word);
    }
    word & 0x07FF
}

/// Extracts the system type (master or slave) of an ADDR_Y word.
#[inline]
pub fn addr_y_get_system_type(word: u16) -> (system_type: u8)
    ensures
        system_type == spec_bit11(word),
        system_type == (word / 2048) % 2,
{
    proof {
        lemma_fields_by_division(word);
    }
    ((word >> 11) & 0x1) as u8
}

/// Extracts the X coordinate of an ADDR_X word.
#[inline]
pub fn addr_x_get_x(word: u16) -> (x: u16)
    ensures
        x == spec_low11(word),
        x == word % 2048,
{
    proof {
        lemma_fields_by_division(word);
    }
    word & 0x07FF
}

/// Extracts the polarity of an ADDR_X word.
#[inline]
pub fn addr_x_get_polarity(word: u16) -> (polarity: u8)
    ensures
        polarity == spec_bit11(word),
        polarity == (word / 2048) % 2,
{
    proof {
        lemma_fields_by_division(word);
    }
    ((word >> 11) & 0x1) as u8
}

/// Extracts the base X coordinate of a VECT_BASE_X word.
#[inline]
pub fn vect_base_x_get_x(word: u16) -> (x: u16)
    ensures
        x == spec_low11(word),
        x == word % 2048,
{
    proof {
        lemma_fields_by_division(word);
    }
    word & 0x07FF
}

/// Extracts the polarity of a VECT_BASE_X word.
#[inline]
pub fn vect_base_x_get_polarity(word: u16) -> (polarity: u8)
    ensures
        polarity == spec_bit11(word),
        polarity == (word / 2048) % 2,
{
    proof {
        lemma_fields_by_division(word);
    }
    ((word >> 11) & 0x1) as u8
}

/// Extracts the 12-bit validity mask of a VECT_12 word.
#[inline]
pub fn vect_12_get_valid(word: u16) -> (valid: u16)
    ensures
        valid == spec_low12(word),
        valid == word % 4096,
{
    proof {
        lemma_fields_by_division(word);
    }
    word & 0x0FFF
}

/// Extracts the 8-bit validity mask of a VECT_8 word.
#[inline]
pub fn vect_8_get_valid(word: u16) -> (valid: u8)
    ensures
        valid == spec_low8(word),
        valid == word % 256,
{
    proof {
        lemma_fields_by_division(word);
    }
    (word & 0x00FF) as u8
}

/// Extracts the 12-bit time value of a TIME_LOW or TIME_HIGH word.
#[inline]
pub fn time_get_value(word: u16) -> (value: u16)
    ensures
        value == spec_low12(word),
        value == word % 4096,
{
    proof {
        lemma_fields_by_division(word);
    }
    word & 0x0FFF
}

/// Extracts the channel id of an EXT_TRIGGER word.
#[inline]
pub fn ext_trigger_get_id(word: u16) -> (id: u8)
    ensures
        id == spec_trigger_id(word),
        id == (word / 256) % 16,
{
    proof {
        lemma_fields_by_division(word);
    }
    ((word >> 8) & 0x0F) as u8
}

/// Extracts the edge polarity of an EXT_TRIGGER word.
#[inline]
pub fn ext_trigger_get_value(word: u16) -> (value: u8)
    ensures
        value == spec_bit0(word),
        value == word % 2,
{
    proof {
        lemma_fields_by_division(word);
    }
    (word & 0x01) as u8
}

/// The word type of a word, if its code is not reserved.
pub open spec fn spec_parse_event_type(word: u16) -> Option<RawEventType> {
    event_type_of_code(spec_event_type(word))
}

/// Reads the word type of a word. Reserved codes give `None`.
#[inline]
pub fn parse_event_type(word: u16) -> (t: Option<RawEventType>)
    ensures
        t == spec_parse_event_type(word),
{
    RawEventType::from_u8(get_event_type(word))
}

} // verus!
