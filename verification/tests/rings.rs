use hexcell::index::CellIndex;
use hexcell::ring::grid_disk;
use hexcell::ring::grid_ring;

const SAMPLE: u64 = 0x8a1fb46622dffff;
const PENTAGON_RES0: u64 = 0x8009fffffffffff;

fn words(cells: &[CellIndex]) -> Vec<u64> {
    let mut v: Vec<u64> = cells.iter().map(|c| c.as_u64()).collect();
    v.sort_unstable();
    v
}

fn reference_disk(origin: u64, k: u32) -> Vec<u64> {
    let cell = h3o::CellIndex::try_from(origin).unwrap();
    let mut v: Vec<u64> = cell.grid_disk_safe(k).map(u64::from).collect();
    v.sort_unstable();
    v
}

fn reference_ring(origin: u64, k: u32) -> Vec<u64> {
    if k == 0 {
        return vec![origin];
    }
    let outer = reference_disk(origin, k);
    let inner = reference_disk(origin, k - 1);
    let mut v: Vec<u64> = outer.into_iter().filter(|w| !inner.contains(w)).collect();
    v.sort_unstable();
    v
}

#[test]
fn ring_zero_is_the_origin_alone() {
    for w in [SAMPLE, PENTAGON_RES0] {
        let origin = CellIndex::try_from(w).unwrap();
        let ring = grid_ring(&origin, 0);
        assert_eq!(ring.len(), 1);
        assert_eq!(ring[0].as_u64(), w);
    }
}

#[test]
fn ring_sizes_away_from_pentagons() {
    let origin = CellIndex::try_from(SAMPLE).unwrap();
    for k in 1u32..=4 {
        let ring = grid_ring(&origin, k);
        assert_eq!(ring.len(), 6 * k as usize, "k = {k}");
    }
}

#[test]
fn ring_matches_reference_sets() {
    let origin = CellIndex::try_from(SAMPLE).unwrap();
    for k in 0u32..=3 {
        assert_eq!(words(&grid_ring(&origin, k)), reference_ring(SAMPLE, k));
    }
}

#[test]
fn pentagon_ring_is_smaller_and_still_correct() {
    let origin = CellIndex::try_from(PENTAGON_RES0).unwrap();
    let ring = grid_ring(&origin, 1);
    // A pentagon has five neighbors, not six: the fallback path resolves it.
    assert_eq!(ring.len(), 5);
    assert_eq!(words(&grid_ring(&origin, 1)), reference_ring(PENTAGON_RES0, 1));
    let ring2 = grid_ring(&origin, 2);
    assert!(ring2.len() <= 12);
    assert_eq!(words(&ring2), reference_ring(PENTAGON_RES0, 2));
}

#[test]
fn rings_are_disjoint_and_cover_the_disk() {
    let origin = CellIndex::try_from(SAMPLE).unwrap();
    let r1 = words(&grid_ring(&origin, 1));
    let r2 = words(&grid_ring(&origin, 2));
    for w in &r1 {
        assert!(!r2.contains(w));
    }
    let mut union: Vec<u64> = vec![SAMPLE];
    union.extend(&r1);
    union.extend(&r2);
    union.sort_unstable();
    assert_eq!(union, words(&grid_disk(&origin, 2)));
    assert_eq!(union, reference_disk(SAMPLE, 2));
}

#[test]
fn disk_starts_at_origin_without_duplicates() {
    let origin = CellIndex::try_from(SAMPLE).unwrap();
    let disk = grid_disk(&origin, 2);
    assert_eq!(disk[0].as_u64(), SAMPLE);
    assert_eq!(disk.len(), 1 + 6 + 12);
    let mut w = words(&disk);
    w.dedup();
    assert_eq!(w.len(), disk.len());
}

#[test]
fn ring_is_empty_outside_the_geometry_domain() {
    // A pentagon word with a leading K-axis digit passes the structural
    // checks here but lies outside the reference geometry's domain: every
    // conversion declines, and the ring is the empty neighborhood closure.
    let word = hexcell::bits::set_direction(
        hexcell::bits::set_resolution(PENTAGON_RES0, 1),
        1,
        1,
    );
    let origin = CellIndex::try_from(word).unwrap();
    assert!(h3o::CellIndex::try_from(word).is_err());
    assert_eq!(grid_ring(&origin, 0).len(), 1);
    assert!(grid_ring(&origin, 1).is_empty());
    assert_eq!(grid_disk(&origin, 2).len(), 1);
}

#[test]
fn ring_members_are_true_neighbors() {
    // Would fail if the coordinate conversions handed their input back.
    let origin = CellIndex::try_from(SAMPLE).unwrap();
    let ring = grid_ring(&origin, 1);
    let reference = reference_ring(SAMPLE, 1);
    for c in &ring {
        assert_ne!(c.as_u64(), SAMPLE);
        assert!(reference.contains(&c.as_u64()));
    }
}
