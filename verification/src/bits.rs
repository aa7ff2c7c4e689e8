//! Unchecked bit-field codec over the 64-bit cell word.
//!
//! Pure bit arithmetic: no validation, no allocation, no failure. Garbage in,
//! garbage out — callers own the structural invariants; the validated layer
//! lives in `crate::index`.

use vstd::prelude::*;

verus! {

/// Bit offset of the 4-bit resolution field.
pub const RES_OFFSET: u64 = 52;

/// Mask of the resolution field in place.
pub const RES_MASK: u64 = 0x00F0_0000_0000_0000;

/// Bit offset of the 7-bit base-cell field.
pub const BASE_CELL_OFFSET: u64 = 45;

/// Mask of the base-cell field in place.
pub const BASE_CELL_MASK: u64 = 0x000F_E000_0000_0000;

/// The resolution field: bits [52, 56).
pub open spec fn spec_resolution(word: u64) -> u64 {
    (word >> 52) & 0xF
}

/// The base-cell field: bits [45, 52).
pub open spec fn spec_base_cell(word: u64) -> u64 {
    (word >> 45) & 0x7F
}

/// Bit offset of the 3-bit direction field for level `r`: `(15 - r) * 3`.
pub open spec fn spec_direction_offset(r: u64) -> u64
    recommends
        1 <= r <= 15,
{
    ((15 - r) * 3) as u64
}

/// Mask of the direction field for level `r`, in place.
pub open spec fn spec_direction_mask(r: u64) -> u64
    recommends
        1 <= r <= 15,
{
    0x7u64 << spec_direction_offset(r)
}

/// The direction digit at level `r`: 3 bits at `spec_direction_offset(r)`.
pub open spec fn spec_direction(word: u64, r: u64) -> u64
    recommends
        1 <= r <= 15,
{
    (word >> spec_direction_offset(r)) & 0x7
}

/// The word with the resolution field cleared to zero.
pub open spec fn spec_clr_resolution(word: u64) -> u64 {
    word & !RES_MASK
}

/// The word with the resolution field replaced by `value`.
///
/// A `value` above 15 spills into the bits above the field; the codec does
/// not guard against that.
pub open spec fn spec_set_resolution(word: u64, value: u64) -> u64 {
    (word & !RES_MASK) | (value << 52)
}

/// The word with the base-cell field cleared to zero.
pub open spec fn spec_clr_base_cell(word: u64) -> u64 {
    word & !BASE_CELL_MASK
}

/// The word with the base-cell field replaced by `value`.
///
/// A `value` above 127 spills into the bits above the field.
pub open spec fn spec_set_base_cell(word: u64, value: u64) -> u64 {
    (word & !BASE_CELL_MASK) | (value << 45)
}

/// The word with the direction field for level `r` cleared to zero.
pub open spec fn spec_clr_direction(word: u64, r: u64) -> u64
    recommends
        1 <= r <= 15,
{
    word & !spec_direction_mask(r)
}

/// The word with the direction field for level `r` replaced by `value`.
///
/// A `value` above 7 spills into the bits above the field.
pub open spec fn spec_set_direction(word: u64, r: u64, value: u64) -> u64
    recommends
        1 <= r <= 15,
{
    (word & !spec_direction_mask(r)) | (value << spec_direction_offset(r))
}

/// Extract the resolution field.
pub fn get_resolution(word: u64) -> (r: u8)
    ensures
        r as u64 == spec_resolution(word),
        r <= 15,
{
    let v: u64 = (word >> RES_OFFSET) & 0xF;
    proof {
        assert((word >> 52u64) & 0xF < 16) by (bit_vector);
    }
    v as u8
}

/// Replace the resolution field; no range check on `value`.
pub fn set_resolution(word: u64, value: u8) -> (w: u64)
    ensures
        w == spec_set_resolution(word, value as u64),
{
    (word & !RES_MASK) | ((value as u64) << RES_OFFSET)
}

/// Clear the resolution field to zero.
pub fn clr_resolution(word: u64) -> (w: u64)
    ensures
        w == spec_clr_resolution(word),
{
    word & !RES_MASK
}

/// Extract the base-cell field; above 121 only on an invalid word.
pub fn get_base_cell(word: u64) -> (b: u8)
    ensures
        b as u64 == spec_base_cell(word),
        b <= 127,
{
    let v: u64 = (word >> BASE_CELL_OFFSET) & 0x7F;
    proof {
        assert((word >> 45u64) & 0x7F < 128) by (bit_vector);
    }
    v as u8
}

/// Replace the base-cell field; no range check on `value`.
pub fn set_base_cell(word: u64, value: u8) -> (w: u64)
    ensures
        w == spec_set_base_cell(word, value as u64),
{
    (word & !BASE_CELL_MASK) | ((value as u64) << BASE_CELL_OFFSET)
}

/// Clear the base-cell field to zero.
pub fn clr_base_cell(word: u64) -> (w: u64)
    ensures
        w == spec_clr_base_cell(word),
{
    word & !BASE_CELL_MASK
}

/// Bit offset of the direction field for level `r`.
pub fn direction_offset(r: u8) -> (o: u8)
    requires
        1 <= r <= 15,
    ensures
        o as u64 == spec_direction_offset(r as u64),
        o <= 42,
{
    (15 - r) * 3
}

/// Mask of the direction field for level `r`, in place.
pub fn direction_mask(r: u8) -> (m: u64)
    requires
        1 <= r <= 15,
    ensures
        m == spec_direction_mask(r as u64),
{
    let off = direction_offset(r);
    0x7u64 << (off as u64)
}

/// Extract the direction digit at level `r`.
pub fn get_direction(word: u64, r: u8) -> (d: u8)
    requires
        1 <= r <= 15,
    ensures
        d as u64 == spec_direction(word, r as u64),
        d <= 7,
{
    let off = direction_offset(r);
    let off64: u64 = off as u64;
    let v: u64 = (word >> off64) & 0x7;
    proof {
        assert((word >> off64) & 0x7 < 8) by (bit_vector);
    }
    v as u8
}

/// Replace the direction digit at level `r`; no range check on `value`.
pub fn set_direction(word: u64, r: u8, value: u8) -> (w: u64)
    requires
        1 <= r <= 15,
    ensures
        w == spec_set_direction(word, r as u64, value as u64),
{
    let off = direction_offset(r);
    let off64: u64 = off as u64;
    (word & !(0x7u64 << off64)) | ((value as u64) << off64)
}

/// Clear the direction digit at level `r` to zero.
pub fn clr_direction(word: u64, r: u8) -> (w: u64)
    requires
        1 <= r <= 15,
    ensures
        w == spec_clr_direction(word, r as u64),
{
    let off = direction_offset(r);
    word & !(0x7u64 << (off as u64))
}

/// Writing a resolution in range and reading it back returns the same value.
pub proof fn lemma_resolution_round_trip(word: u64, value: u64)
    by (bit_vector)
    requires
        value <= 15,
    ensures
        spec_resolution(spec_set_resolution(word, value)) == value,
{
}

/// Writing a base cell that fits its 7-bit field and reading it back returns
/// the same value.
pub proof fn lemma_base_cell_round_trip(word: u64, value: u64)
    by (bit_vector)
    requires
        value <= 127,
    ensures
        spec_base_cell(spec_set_base_cell(word, value)) == value,
{
}

/// Writing a direction digit that fits its 3-bit field and reading it back
/// at the same level returns the same value.
pub proof fn lemma_direction_round_trip(word: u64, r: u64, value: u64)
    by (bit_vector)
    requires
        1 <= r <= 15,
        value <= 7,
    ensures
        spec_direction(spec_set_direction(word, r, value), r) == value,
{
}

/// Clearing a field twice is the same as clearing it once, for all three
/// field kinds.
pub proof fn lemma_clr_idempotent(word: u64, r: u64)
    by (bit_vector)
    requires
        1 <= r <= 15,
    ensures
        spec_clr_resolution(spec_clr_resolution(word)) == spec_clr_resolution(word),
        spec_clr_base_cell(spec_clr_base_cell(word)) == spec_clr_base_cell(word),
        spec_clr_direction(spec_clr_direction(word, r), r) == spec_clr_direction(word, r),
{
}

/// Clearing a field is the same as setting it to zero, for all three field
/// kinds.
pub proof fn lemma_clr_is_set_zero(word: u64, r: u64)
    by (bit_vector)
    requires
        1 <= r <= 15,
    ensures
        spec_clr_resolution(word) == spec_set_resolution(word, 0),
        spec_clr_base_cell(word) == spec_set_base_cell(word, 0),
        spec_clr_direction(word, r) == spec_set_direction(word, r, 0),
{
}

/// Setting the resolution never alters the base-cell field or any direction
/// field, for any written value.
pub proof fn lemma_set_resolution_preserves_others(word: u64, value: u64, r: u64)
    by (bit_vector)
    requires
        1 <= r <= 15,
    ensures
        spec_base_cell(spec_set_resolution(word, value)) == spec_base_cell(word),
        spec_direction(spec_set_resolution(word, value), r) == spec_direction(word, r),
        spec_base_cell(spec_clr_resolution(word)) == spec_base_cell(word),
        spec_direction(spec_clr_resolution(word), r) == spec_direction(word, r),
{
}

/// Setting a base cell that fits its field never alters the resolution field
/// or any direction field.
pub proof fn lemma_set_base_cell_preserves_others(word: u64, value: u64, r: u64)
    by (bit_vector)
    requires
        value <= 127,
        1 <= r <= 15,
    ensures
        spec_resolution(spec_set_base_cell(word, value)) == spec_resolution(word),
        spec_direction(spec_set_base_cell(word, value), r) == spec_direction(word, r),
        spec_resolution(spec_clr_base_cell(word)) == spec_resolution(word),
        spec_direction(spec_clr_base_cell(word), r) == spec_direction(word, r),
{
}

/// Setting a direction digit that fits its field never alters the resolution
/// field, the base-cell field, or the direction field of any other level.
pub proof fn lemma_set_direction_preserves_others(word: u64, value: u64, r: u64, r2: u64)
    by (bit_vector)
    requires
        value <= 7,
        1 <= r <= 15,
        1 <= r2 <= 15,
        r != r2,
    ensures
        spec_resolution(spec_set_direction(word, r, value)) == spec_resolution(word),
        spec_base_cell(spec_set_direction(word, r, value)) == spec_base_cell(word),
        spec_direction(spec_set_direction(word, r, value), r2) == spec_direction(word, r2),
        spec_resolution(spec_clr_direction(word, r)) == spec_resolution(word),
        spec_base_cell(spec_clr_direction(word, r)) == spec_base_cell(word),
        spec_direction(spec_clr_direction(word, r), r2) == spec_direction(word, r2),
{
}

/// Clearing a field and then writing back the value it held restores the
/// original word, for all three field kinds.
pub proof fn lemma_set_restores(word: u64, r: u64)
    by (bit_vector)
    requires
        1 <= r <= 15,
    ensures
        spec_set_resolution(spec_clr_resolution(word), spec_resolution(word)) == word,
        spec_set_base_cell(spec_clr_base_cell(word), spec_base_cell(word)) == word,
        spec_set_direction(spec_clr_direction(word, r), r, spec_direction(word, r)) == word,
{
}

} // verus!
