use hexcell::bits::clr_base_cell;
use hexcell::bits::clr_direction;
use hexcell::bits::clr_resolution;
use hexcell::bits::direction_mask;
use hexcell::bits::direction_offset;
use hexcell::bits::get_base_cell;
use hexcell::bits::get_direction;
use hexcell::bits::get_resolution;
use hexcell::bits::set_base_cell;
use hexcell::bits::set_direction;
use hexcell::bits::set_resolution;

const SAMPLE: u64 = 0x8a1fb46622dffff;

fn sample_words() -> Vec<u64> {
    vec![0, u64::MAX, SAMPLE, 0x0800_9FFF_FFFF_FFFF, 0x1234_5678_9ABC_DEF0]
}

#[test]
fn resolution_round_trip() {
    for word in sample_words() {
        for r in 0u8..=15 {
            assert_eq!(get_resolution(set_resolution(word, r)), r);
        }
    }
}

#[test]
fn base_cell_round_trip() {
    for word in sample_words() {
        for b in 0u8..=127 {
            assert_eq!(get_base_cell(set_base_cell(word, b)), b);
        }
    }
}

#[test]
fn direction_round_trip() {
    for word in sample_words() {
        for r in 1u8..=15 {
            for d in 0u8..=7 {
                assert_eq!(get_direction(set_direction(word, r, d), r), d);
            }
        }
    }
}

#[test]
fn clear_is_idempotent() {
    for word in sample_words() {
        assert_eq!(
            clr_resolution(clr_resolution(word)),
            clr_resolution(word)
        );
        assert_eq!(clr_base_cell(clr_base_cell(word)), clr_base_cell(word));
        for r in 1u8..=15 {
            assert_eq!(
                clr_direction(clr_direction(word, r), r),
                clr_direction(word, r)
            );
        }
    }
}

#[test]
fn set_resolution_leaves_other_fields() {
    for word in sample_words() {
        for v in 0u8..=15 {
            let w = set_resolution(word, v);
            assert_eq!(get_base_cell(w), get_base_cell(word));
            for r in 1u8..=15 {
                assert_eq!(get_direction(w, r), get_direction(word, r));
            }
        }
    }
}

#[test]
fn set_base_cell_leaves_other_fields() {
    for word in sample_words() {
        for v in [0u8, 1, 42, 121, 127] {
            let w = set_base_cell(word, v);
            assert_eq!(get_resolution(w), get_resolution(word));
            for r in 1u8..=15 {
                assert_eq!(get_direction(w, r), get_direction(word, r));
            }
        }
    }
}

#[test]
fn set_direction_leaves_other_fields() {
    for word in sample_words() {
        for r in 1u8..=15 {
            let w = set_direction(word, r, 5);
            assert_eq!(get_resolution(w), get_resolution(word));
            assert_eq!(get_base_cell(w), get_base_cell(word));
            for r2 in 1u8..=15 {
                if r2 != r {
                    assert_eq!(get_direction(w, r2), get_direction(word, r2));
                }
            }
        }
    }
}

#[test]
fn sample_resolution_and_base_cell() {
    assert_eq!(get_resolution(SAMPLE), 10);
    assert_eq!(get_base_cell(SAMPLE), 15);
    let cleared = clr_resolution(SAMPLE);
    assert_eq!(cleared, 0x801fb46622dffff);
    assert_eq!(set_resolution(cleared, 10), SAMPLE);
    assert_eq!(set_base_cell(SAMPLE, 42), 0x8a55b46622dffff);
}

#[test]
fn sample_direction_digits() {
    assert_eq!(get_direction(SAMPLE, 4), 3);
    assert_eq!(clr_direction(SAMPLE, 4), 0x8a1fb40622dffff);
    assert_eq!(set_direction(SAMPLE, 4, 6), 0x8a1fb4c622dffff);
}

#[test]
fn offsets_and_masks() {
    assert_eq!(direction_offset(1), 42);
    assert_eq!(direction_offset(15), 0);
    assert_eq!(direction_mask(15), 0x7);
    assert_eq!(direction_mask(1), 0x7 << 42);
}
