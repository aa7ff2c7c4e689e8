//! Validated cell indexes.
//!
//! [`CellIndex::try_from`] is the single gate that upgrades a raw 64-bit word
//! into a trusted value: it checks the fixed mode bits, the base-cell range,
//! and that every direction digit at a level within the cell's resolution is
//! a meaningful digit while every deeper level holds the fill pattern.

use vstd::prelude::*;

use crate::bits::spec_base_cell;
use crate::bits::spec_direction;
use crate::bits::spec_resolution;

verus! {

/// The fixed value of the eight bits above the resolution field: one mode
/// bit set, every reserved bit zero.
pub const MODE_BITS: u64 = 0x08;

/// A structurally consistent cell word: fixed mode bits, base cell in
/// [0, 121], a meaningful digit (not the fill value 7) at every level up to
/// the resolution, and the fill value 7 at every deeper level.
pub open spec fn valid_word(word: u64) -> bool {
    &&& word >> 56 == MODE_BITS
    &&& spec_base_cell(word) <= 121
    &&& forall|r: u64| 1 <= r <= spec_resolution(word) ==> spec_direction(word, r) <= 6
    &&& forall|r: u64| spec_resolution(word) < r <= 15 ==> spec_direction(word, r) == 7
}

/// The twelve base cells that carry the pentagon distortion.
pub open spec fn is_pentagon_base(base: u64) -> bool {
    ||| base == 4
    ||| base == 14
    ||| base == 24
    ||| base == 38
    ||| base == 49
    ||| base == 58
    ||| base == 63
    ||| base == 72
    ||| base == 83
    ||| base == 97
    ||| base == 107
    ||| base == 117
}

/// The error of cell-index construction: the word violates a structural
/// invariant.
#[derive(Clone, Copy, Debug, PartialEq, Eq, Structural)]
pub struct InvalidIndex;

/// A validated 64-bit cell index; immutable once constructed.
#[derive(Clone, Copy, Debug, PartialEq, Eq, Hash, Structural)]
pub struct CellIndex {
    word: u64,
}

impl View for CellIndex {
    type V = u64;

    closed spec fn view(&self) -> u64 {
        self.word
    }
}

impl CellIndex {
    #[verifier::type_invariant]
    spec fn type_inv(self) -> bool {
        valid_word(self.word)
    }

    /// Validate a raw word; the only public constructor.
    pub fn try_from(word: u64) -> (res: Result<CellIndex, InvalidIndex>)
        ensures
            res is Ok <==> valid_word(word),
            res matches Ok(c) ==> c@ == word,
    {
        if word >> 56 != MODE_BITS {
            return Err(InvalidIndex);
        }
        let base = crate::bits::get_base_cell(word);
        if base > 121 {
            return Err(InvalidIndex);
        }
        let res_v = crate::bits::get_resolution(word);
        let mut r: u8 = 1;
        while r <= 15
            invariant
                1 <= r <= 16,
                word >> 56 == MODE_BITS,
                spec_base_cell(word) <= 121,
                res_v as u64 == spec_resolution(word),
                forall|q: u64| 1 <= q < r as u64 && q <= res_v as u64 ==> spec_direction(word, q) <= 6,
                forall|q: u64| (res_v as u64) < q && q < r as u64 ==> spec_direction(word, q) == 7,
            decreases 16 - r,
        {
            let d = crate::bits::get_direction(word, r);
            if r <= res_v {
                if d == 7 {
                    return Err(InvalidIndex);
                }
            } else {
                if d != 7 {
                    return Err(InvalidIndex);
                }
            }
            r = r + 1;
        }
        Ok(CellIndex { word })
    }

    /// Construct from a word already known to be valid.
    pub(crate) fn from_valid(word: u64) -> (c: CellIndex)
        requires
            valid_word(word),
        ensures
            c@ == word,
    {
        CellIndex { word }
    }

    /// The raw 64-bit word; always a valid word, since construction
    /// validated it.
    pub fn as_u64(&self) -> (w: u64)
        ensures
            w == self@,
            valid_word(self@),
    {
        proof {
            use_type_invariant(self);
        }
        self.word
    }

    /// The hierarchy depth of this cell, in [0, 15].
    pub fn resolution(&self) -> (r: u8)
        ensures
            r as u64 == spec_resolution(self@),
            r <= 15,
    {
        crate::bits::get_resolution(self.word)
    }

    /// The base cell this cell descends from, in [0, 121].
    pub fn base_cell(&self) -> (b: u8)
        ensures
            b as u64 == spec_base_cell(self@),
            b <= 121,
    {
        proof {
            use_type_invariant(self);
        }
        crate::bits::get_base_cell(self.word)
    }

    /// The direction digit at level `r`: defined exactly for the levels
    /// `1 <= r <= resolution()`, and then a digit in [0, 6].
    pub fn direction_at(&self, r: u8) -> (res: Result<u8, InvalidIndex>)
        ensures
            res is Ok <==> 1 <= r && r as u64 <= spec_resolution(self@),
            res matches Ok(d) ==> d as u64 == spec_direction(self@, r as u64) && d <= 6,
    {
        proof {
            use_type_invariant(self);
        }
        if r == 0 {
            return Err(InvalidIndex);
        }
        let res_v = self.resolution();
        if r > res_v {
            return Err(InvalidIndex);
        }
        Ok(crate::bits::get_direction(self.word, r))
    }

    /// Whether this cell descends from one of the twelve pentagon-distorted
    /// base cells.
    pub fn is_pentagon(&self) -> (p: bool)
        ensures
            p == is_pentagon_base(spec_base_cell(self@)),
    {
        let b = self.base_cell();
        b == 4 || b == 14 || b == 24 || b == 38 || b == 49 || b == 58 || b == 63 || b == 72
            || b == 83 || b == 97 || b == 107 || b == 117
    }
}

} // verus!
