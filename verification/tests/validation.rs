use hexcell::bits::set_base_cell;
use hexcell::bits::set_direction;
use hexcell::bits::set_resolution;
use hexcell::index::CellIndex;

const SAMPLE: u64 = 0x8a1fb46622dffff;
const PENTAGON_RES0: u64 = 0x8009fffffffffff;

#[test]
fn accepts_valid_words() {
    let cell = CellIndex::try_from(SAMPLE).unwrap();
    assert_eq!(cell.as_u64(), SAMPLE);
    assert_eq!(cell.resolution(), 10);
    assert_eq!(cell.base_cell(), 15);

    let pent = CellIndex::try_from(PENTAGON_RES0).unwrap();
    assert_eq!(pent.resolution(), 0);
    assert_eq!(pent.base_cell(), 4);
}

#[test]
fn rejects_bad_mode_bits() {
    assert!(CellIndex::try_from(0).is_err());
    assert!(CellIndex::try_from(u64::MAX).is_err());
    assert!(CellIndex::try_from(SAMPLE | (1 << 63)).is_err());
}

#[test]
fn rejects_base_cell_out_of_domain() {
    for b in 122u8..=127 {
        assert!(CellIndex::try_from(set_base_cell(SAMPLE, b)).is_err());
    }
    assert!(CellIndex::try_from(set_base_cell(SAMPLE, 121)).is_ok());
}

#[test]
fn rejects_fill_digit_within_resolution() {
    for r in 1u8..=10 {
        assert!(CellIndex::try_from(set_direction(SAMPLE, r, 7)).is_err());
    }
}

#[test]
fn rejects_meaningful_digit_beyond_resolution() {
    for r in 11u8..=15 {
        for d in 0u8..=6 {
            assert!(CellIndex::try_from(set_direction(SAMPLE, r, d)).is_err());
        }
    }
}

#[test]
fn validation_is_total_over_arbitrary_words() {
    // A pseudo-random sweep: construction always returns, Ok or Err.
    let mut x: u64 = 0x9E37_79B9_7F4A_7C15;
    for _ in 0..10_000 {
        x ^= x << 13;
        x ^= x >> 7;
        x ^= x << 17;
        let _ = CellIndex::try_from(x);
    }
    // Valid results round-trip their word.
    let ok = CellIndex::try_from(SAMPLE).unwrap();
    assert_eq!(CellIndex::try_from(ok.as_u64()).unwrap(), ok);
}

#[test]
fn agrees_with_reference_library_on_samples() {
    // Words that the reference geometry library accepts are accepted here
    // too; its extra pentagon-digit rule only ever makes it stricter.
    let words = [
        SAMPLE,
        PENTAGON_RES0,
        0x801fb46622dffff,
        0x8a55b46622dffff,
        0x8a1fb40622dffff,
        0x8a1fb4c622dffff,
        0,
        u64::MAX,
        set_base_cell(SAMPLE, 122),
    ];
    for w in words {
        if h3o::CellIndex::try_from(w).is_ok() {
            assert!(CellIndex::try_from(w).is_ok(), "word {w:#x}");
        }
        if CellIndex::try_from(w).is_err() {
            assert!(h3o::CellIndex::try_from(w).is_err(), "word {w:#x}");
        }
    }
}

#[test]
fn direction_at_defined_exactly_within_resolution() {
    let cell = CellIndex::try_from(SAMPLE).unwrap();
    assert!(cell.direction_at(0).is_err());
    for i in 1u8..=10 {
        let d = cell.direction_at(i).unwrap();
        assert!(d <= 6);
    }
    for i in 11u8..=15 {
        assert!(cell.direction_at(i).is_err());
    }
    assert_eq!(cell.direction_at(4).unwrap(), 3);

    // A resolution-0 cell has no meaningful digit at any level.
    let root = CellIndex::try_from(PENTAGON_RES0).unwrap();
    for i in 0u8..=15 {
        assert!(root.direction_at(i).is_err());
    }
}

#[test]
fn pentagon_base_cells_are_flagged() {
    let pent = CellIndex::try_from(PENTAGON_RES0).unwrap();
    assert!(pent.is_pentagon());
    let hexa = CellIndex::try_from(SAMPLE).unwrap();
    assert!(!hexa.is_pentagon());

    // Parity with the reference library over every base cell.
    for b in 0u8..=121 {
        let word = set_base_cell(PENTAGON_RES0, b);
        let cell = CellIndex::try_from(word).unwrap();
        let reference = h3o::CellIndex::try_from(word).unwrap();
        assert_eq!(
            cell.is_pentagon(),
            reference.is_pentagon(),
            "base cell {b}"
        );
    }
}
