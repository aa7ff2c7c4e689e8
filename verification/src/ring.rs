//! Grid-ring traversal.
//!
//! [`grid_ring`] enumerates the cells at exact hop distance `k` from an
//! origin cell. The fast path converts the origin to a local IJ coordinate,
//! walks the hexagon boundary of radius `k` with [`crate::coord::ring_coords`],
//! and converts each boundary coordinate back to a cell. Near the pentagon
//! distortion a conversion can fail, collapse two boundary points, or land
//! back on the origin; the traversal then falls back to layered neighbor
//! expansion, which yields ring `k` as the difference between the filled
//! disks of radius `k` and `k - 1` ([`ring_words`]). Distortion is never
//! surfaced to the caller.

use vstd::prelude::*;

use crate::coord::Coord;
use crate::coord::hex_dist;
use crate::index::CellIndex;
use crate::index::valid_word;

verus! {

broadcast use vstd::set::group_set_axioms;

/// The local IJ coordinates of `cell` anchored at `origin`, as the outside
/// geometry library computes them.
pub uninterp spec fn local_ij_of(origin: u64, cell: u64) -> Option<(i32, i32)>;

/// The cell at local IJ coordinates `(i, j)` anchored at `origin`, as the
/// outside geometry library computes it.
pub uninterp spec fn cell_at_local_ij(origin: u64, i: i32, j: i32) -> Option<u64>;

/// The cell `origin` together with its immediate neighbors, as the outside
/// geometry library enumerates them.
pub uninterp spec fn neighborhood_of(origin: u64) -> Seq<u64>;

/// The set of cell words that a sequence of cell indexes carries.
pub open spec fn words_of(s: Seq<CellIndex>) -> Set<u64> {
    Set::new(|w: u64| exists|n: int| 0 <= n < s.len() && s[n]@ == w)
}

/// The words reachable in one neighbor step from some word of `s`.
pub open spec fn step_words(s: Set<u64>) -> Set<u64> {
    Set::new(|w: u64| exists|v: u64| s.contains(v) && (#[trigger] neighborhood_of(v)).contains(w))
}

/// The filled disk of radius `d` over the neighborhood relation: the origin
/// alone at depth 0, and at each further depth the neighbors of everything
/// already reached.
pub open spec fn disk_words(origin: u64, d: nat) -> Set<u64>
    decreases d,
{
    if d == 0 {
        Set::empty().insert(origin)
    } else {
        disk_words(origin, (d - 1) as nat).union(
            step_words(disk_words(origin, (d - 1) as nat)),
        )
    }
}

/// The ring of radius `d` over the neighborhood relation: the disk of
/// radius `d` minus the disk of radius `d - 1`; the origin alone at depth 0.
pub open spec fn ring_words(origin: u64, d: nat) -> Set<u64> {
    if d == 0 {
        disk_words(origin, 0)
    } else {
        disk_words(origin, d).difference(disk_words(origin, (d - 1) as nat))
    }
}

/// Whether both components of a coordinate fit the outside library's 32-bit
/// local IJ representation.
pub open spec fn in_coord_range(p: Coord) -> bool {
    &&& -0x8000_0000 <= p.i <= 0x7FFF_FFFF
    &&& -0x8000_0000 <= p.j <= 0x7FFF_FFFF
}

/// The local coordinate of the origin in its own anchored frame.
pub open spec fn center_of(origin: u64) -> Coord
    recommends
        local_ij_of(origin, origin) is Some,
{
    let ij = local_ij_of(origin, origin).unwrap();
    Coord { i: ij.0 as i64, j: ij.1 as i64 }
}

/// The cell at the local coordinate `p` anchored at `origin`; `None` where
/// `p` does not fit the 32-bit representation.
pub open spec fn converted_cell(origin: u64, p: Coord) -> Option<u64> {
    if in_coord_range(p) {
        cell_at_local_ij(origin, p.i as i32, p.j as i32)
    } else {
        None
    }
}

/// The fast boundary walk of radius `k` succeeds at `origin`: every
/// coordinate at grid distance `k` from the origin's own local coordinate
/// converts to a cell, none of them back to the origin, and no two of them
/// to the same cell.
pub open spec fn fast_ring_ok(origin: u64, k: int) -> bool
    recommends
        local_ij_of(origin, origin) is Some,
{
    &&& forall|p: Coord|
        hex_dist(p, center_of(origin)) == k ==> (#[trigger] converted_cell(origin, p)) is Some
    &&& forall|p: Coord|
        hex_dist(p, center_of(origin)) == k ==> #[trigger] converted_cell(origin, p) != Some(
            origin,
        )
    &&& forall|p: Coord, q: Coord|
        hex_dist(p, center_of(origin)) == k && hex_dist(q, center_of(origin)) == k && p != q
            ==> #[trigger] converted_cell(origin, p) != #[trigger] converted_cell(origin, q)
}

/// Whether `w` is the conversion of some coordinate at grid distance `k`
/// from the origin's own local coordinate.
pub open spec fn is_boundary_cell(origin: u64, k: int, w: u64) -> bool {
    exists|p: Coord|
        hex_dist(p, center_of(origin)) == k && #[trigger] converted_cell(origin, p) == Some(w)
}

/// The outcome of a successful fast boundary walk of radius `k`: `6 * k`
/// cells, each the conversion of a boundary coordinate, and the conversion
/// of every boundary coordinate among them.
pub open spec fn fast_ring_result(origin: u64, k: int, out: Seq<CellIndex>) -> bool {
    &&& out.len() == 6 * k
    &&& forall|n: int| 0 <= n < out.len() ==> is_boundary_cell(origin, k, (#[trigger] out[n])@)
    &&& forall|p: Coord|
        hex_dist(p, center_of(origin)) == k ==> words_of(out).contains(
            (#[trigger] converted_cell(origin, p)).unwrap(),
        )
}

/// Relies on `h3o::CellIndex::to_local_ij`: the local IJ coordinates of a
/// cell anchored at an origin cell, a deterministic function of the two
/// words; it fails near pentagon distortion and on words that are not valid
/// cells.
#[verifier::external_body]
fn local_ij(origin: u64, cell: u64) -> (r: Option<(i32, i32)>)
    ensures
        r == local_ij_of(origin, cell),
{
    let anchor = match h3o::CellIndex::try_from(origin) {
        Ok(c) => c,
        Err(_) => return None,
    };
    let index = match h3o::CellIndex::try_from(cell) {
        Ok(c) => c,
        Err(_) => return None,
    };
    match index.to_local_ij(anchor) {
        Ok(lij) => Some((lij.coord.i, lij.coord.j)),
        Err(_) => None,
    }
}

/// Relies on `h3o::CellIndex::try_from::<h3o::LocalIJ>`: the cell at anchored
/// local IJ coordinates, a deterministic function of the arguments; it fails
/// near pentagon distortion, and any word it does return comes from a
/// `h3o::CellIndex` and is therefore a structurally valid cell word.
#[verifier::external_body]
fn cell_from_local_ij(origin: u64, i: i32, j: i32) -> (r: Option<u64>)
    ensures
        r == cell_at_local_ij(origin, i, j),
        r matches Some(w) ==> valid_word(w),
{
    let anchor = match h3o::CellIndex::try_from(origin) {
        Ok(c) => c,
        Err(_) => return None,
    };
    let lij = h3o::LocalIJ::new(anchor, h3o::CoordIJ::new(i, j));
    match h3o::CellIndex::try_from(lij) {
        Ok(c) => Some(u64::from(c)),
        Err(_) => None,
    }
}

/// Relies on `h3o::CellIndex::grid_disk_safe` with radius 1: the cell itself
/// and its immediate neighbors, each of them a valid cell word since the
/// library only hands out valid cell indexes; empty when `origin` is not a
/// valid cell word.
#[verifier::external_body]
fn neighborhood(origin: u64) -> (r: Vec<u64>)
    ensures
        r@ == neighborhood_of(origin),
        forall|n: int| 0 <= n < r@.len() ==> valid_word(#[trigger] r@[n]),
{
    let cell = match h3o::CellIndex::try_from(origin) {
        Ok(c) => c,
        Err(_) => return Vec::new(),
    };
    cell.grid_disk_safe(1).map(u64::from).collect()
}

/// Whether some member of `v` carries the word `w`.
fn contains_cell_word(v: &Vec<CellIndex>, w: u64) -> (b: bool)
    ensures
        b == exists|n: int| 0 <= n < v@.len() && #[trigger] v@[n]@ == w,
{
    let mut n: usize = 0;
    while n < v.len()
        invariant
            n <= v@.len(),
            forall|m: int| 0 <= m < n as int ==> #[trigger] v@[m]@ != w,
        decreases v@.len() - n,
    {
        if v[n].as_u64() == w {
            proof {
                assert(v@[n as int]@ == w);
            }
            return true;
        }
        n = n + 1;
    }
    false
}

/// The words up to position `m` of a word sequence, as a set.
pub open spec fn seq_words_upto(s: Seq<u64>, m: int) -> Set<u64> {
    Set::new(|w: u64| exists|i: int| 0 <= i < m && s[i] == w)
}

/// The neighbors of the first `m` members of a frontier, as one set.
pub open spec fn nbrs_upto(fr: Seq<CellIndex>, m: int) -> Set<u64> {
    Set::new(
        |w: u64|
            exists|i: int|
                0 <= i < m && (#[trigger] neighborhood_of(fr[i]@)).contains(w),
    )
}

/// Appending a cell to a sequence adds exactly its word to the word set.
proof fn lemma_words_of_push(s: Seq<CellIndex>, c: CellIndex)
    ensures
        words_of(s.push(c)) == words_of(s).insert(c@),
{
    assert forall|w: u64| words_of(s.push(c)).contains(w) implies words_of(s).insert(
        c@,
    ).contains(w) by {
        let n = choose|n: int| 0 <= n < s.push(c).len() && s.push(c)[n]@ == w;
        if n < s.len() {
            assert(s[n]@ == w);
            assert(words_of(s).contains(w));
        }
    }
    assert forall|w: u64| words_of(s).insert(c@).contains(w) implies words_of(
        s.push(c),
    ).contains(w) by {
        if words_of(s).contains(w) {
            let n = choose|n: int| 0 <= n < s.len() && s[n]@ == w;
            assert(s.push(c)[n]@ == w);
        } else {
            assert(s.push(c)[s.len() as int]@ == w);
        }
    }
    assert(words_of(s.push(c)) =~= words_of(s).insert(c@));
}

/// Taking one more word of a sequence inserts exactly that word.
proof fn lemma_seq_words_snoc(s: Seq<u64>, m: int)
    requires
        0 <= m < s.len(),
    ensures
        seq_words_upto(s, m + 1) == seq_words_upto(s, m).insert(s[m]),
{
    assert forall|w: u64| seq_words_upto(s, m + 1).contains(w) implies seq_words_upto(
        s,
        m,
    ).insert(s[m]).contains(w) by {
        let i = choose|i: int| 0 <= i < m + 1 && s[i] == w;
        if i < m {
            assert(seq_words_upto(s, m).contains(w));
        }
    }
    assert forall|w: u64| seq_words_upto(s, m).insert(s[m]).contains(w) implies seq_words_upto(
        s,
        m + 1,
    ).contains(w) by {
        if seq_words_upto(s, m).contains(w) {
            let i = choose|i: int| 0 <= i < m && s[i] == w;
            assert(0 <= i < m + 1 && s[i] == w);
        } else {
            assert(0 <= m < m + 1 && s[m] == w);
        }
    }
    assert(seq_words_upto(s, m + 1) =~= seq_words_upto(s, m).insert(s[m]));
}

/// Taking one more frontier member adds exactly that member's neighborhood.
proof fn lemma_nbrs_snoc(fr: Seq<CellIndex>, m: int, nbs: Seq<u64>)
    requires
        0 <= m < fr.len(),
        nbs == neighborhood_of(fr[m]@),
    ensures
        nbrs_upto(fr, m + 1) == nbrs_upto(fr, m).union(
            seq_words_upto(nbs, nbs.len() as int),
        ),
{
    assert forall|w: u64| nbrs_upto(fr, m + 1).contains(w) implies nbrs_upto(fr, m).union(
        seq_words_upto(nbs, nbs.len() as int),
    ).contains(w) by {
        let i = choose|i: int| 0 <= i < m + 1 && (#[trigger] neighborhood_of(fr[i]@)).contains(w);
        if i < m {
            assert(nbrs_upto(fr, m).contains(w));
        } else {
            let idx = choose|idx: int| 0 <= idx < nbs.len() && nbs[idx] == w;
            assert(seq_words_upto(nbs, nbs.len() as int).contains(w));
        }
    }
    assert forall|w: u64| nbrs_upto(fr, m).union(seq_words_upto(nbs, nbs.len() as int)).contains(
        w,
    ) implies nbrs_upto(fr, m + 1).contains(w) by {
        if nbrs_upto(fr, m).contains(w) {
            let i = choose|i: int| 0 <= i < m && (#[trigger] neighborhood_of(fr[i]@)).contains(w);
            assert(0 <= i < m + 1 && neighborhood_of(fr[i]@).contains(w));
        } else {
            let idx = choose|idx: int| 0 <= idx < nbs.len() && nbs[idx] == w;
            assert(neighborhood_of(fr[m]@).contains(w));
        }
    }
    assert(nbrs_upto(fr, m + 1) =~= nbrs_upto(fr, m).union(
        seq_words_upto(nbs, nbs.len() as int),
    ));
}

/// The neighborhoods of a whole frontier are one neighbor step from its
/// word set.
proof fn lemma_nbrs_full(fr: Seq<CellIndex>)
    ensures
        nbrs_upto(fr, fr.len() as int) == step_words(words_of(fr)),
{
    assert forall|w: u64| nbrs_upto(fr, fr.len() as int).contains(w) implies step_words(
        words_of(fr),
    ).contains(w) by {
        let i = choose|i: int|
            0 <= i < fr.len() && (#[trigger] neighborhood_of(fr[i]@)).contains(w);
        assert(words_of(fr).contains(fr[i]@));
    }
    assert forall|w: u64| step_words(words_of(fr)).contains(w) implies nbrs_upto(
        fr,
        fr.len() as int,
    ).contains(w) by {
        let v = choose|v: u64| words_of(fr).contains(v) && (#[trigger] neighborhood_of(
            v,
        )).contains(w);
        let i = choose|i: int| 0 <= i < fr.len() && fr[i]@ == v;
        assert(neighborhood_of(fr[i]@).contains(w));
    }
    assert(nbrs_upto(fr, fr.len() as int) =~= step_words(words_of(fr)));
}

/// Growing the disk by one depth adds exactly the neighbors of the ring at
/// the current depth.
proof fn lemma_disk_unfold(origin: u64, d: nat)
    ensures
        disk_words(origin, d + 1) == disk_words(origin, d).union(
            step_words(ring_words(origin, d)),
        ),
{
    if d == 0 {
        assert(ring_words(origin, 0) == disk_words(origin, 0));
    } else {
        assert forall|w: u64| disk_words(origin, d + 1).contains(w) implies disk_words(
            origin,
            d,
        ).union(step_words(ring_words(origin, d))).contains(w) by {
            if !disk_words(origin, d).contains(w) {
                assert(step_words(disk_words(origin, d)).contains(w));
                let v = choose|v: u64|
                    disk_words(origin, d).contains(v) && (#[trigger] neighborhood_of(
                        v,
                    )).contains(w);
                if disk_words(origin, (d - 1) as nat).contains(v) {
                    assert(step_words(disk_words(origin, (d - 1) as nat)).contains(w));
                    assert(disk_words(origin, d).contains(w));
                }
                assert(ring_words(origin, d).contains(v));
                assert(step_words(ring_words(origin, d)).contains(w));
            }
        }
        assert forall|w: u64| disk_words(origin, d).union(
            step_words(ring_words(origin, d)),
        ).contains(w) implies disk_words(origin, d + 1).contains(w) by {
            if !disk_words(origin, d).contains(w) {
                let v = choose|v: u64|
                    ring_words(origin, d).contains(v) && (#[trigger] neighborhood_of(
                        v,
                    )).contains(w);
                assert(disk_words(origin, d).contains(v));
                assert(step_words(disk_words(origin, d)).contains(w));
            }
        }
        assert(disk_words(origin, d + 1) =~= disk_words(origin, d).union(
            step_words(ring_words(origin, d)),
        ));
    }
}

/// Disks of the neighborhood closure grow with their depth.
proof fn lemma_disk_words_mono(origin: u64, d1: nat, d2: nat)
    requires
        d1 <= d2,
    ensures
        disk_words(origin, d1).subset_of(disk_words(origin, d2)),
    decreases d2,
{
    if d1 < d2 {
        lemma_disk_words_mono(origin, d1, (d2 - 1) as nat);
        assert forall|w: u64| disk_words(origin, d1).contains(w) implies disk_words(
            origin,
            d2,
        ).contains(w) by {
            assert(disk_words(origin, (d2 - 1) as nat).contains(w));
        }
    }
}

/// Rings of the neighborhood closure at two different depths share no cell
/// word; `grid_ring`'s `ring_words` ensures carries this to its fallback
/// results, and `grid_disk` relates the depths.
pub proof fn lemma_ring_words_disjoint(origin: u64, k1: nat, k2: nat)
    requires
        k1 != k2,
    ensures
        ring_words(origin, k1).disjoint(ring_words(origin, k2)),
{
    if k1 < k2 {
        lemma_disk_words_mono(origin, k1, (k2 - 1) as nat);
        assert forall|w: u64| ring_words(origin, k1).contains(w) implies !ring_words(
            origin,
            k2,
        ).contains(w) by {
            assert(disk_words(origin, k1).contains(w));
            assert(disk_words(origin, (k2 - 1) as nat).contains(w));
        }
    } else {
        lemma_disk_words_mono(origin, k2, (k1 - 1) as nat);
        assert forall|w: u64| ring_words(origin, k1).contains(w) implies !ring_words(
            origin,
            k2,
        ).contains(w) by {
            if ring_words(origin, k2).contains(w) {
                assert(disk_words(origin, k2).contains(w));
                assert(disk_words(origin, (k1 - 1) as nat).contains(w));
            }
        }
    }
}

/// A cell word lies in the depth-`k` disk of the neighborhood closure
/// exactly when it lies on the ring of some depth up to `k`: the union of
/// the rings 0..=k is the filled disk.
pub proof fn lemma_ring_words_cover_disk(origin: u64, k: nat, w: u64)
    ensures
        disk_words(origin, k).contains(w) <==> exists|d: nat|
            d <= k && #[trigger] ring_words(origin, d).contains(w),
    decreases k,
{
    if disk_words(origin, k).contains(w) {
        if k == 0 {
            assert(ring_words(origin, 0).contains(w));
        } else if disk_words(origin, (k - 1) as nat).contains(w) {
            lemma_ring_words_cover_disk(origin, (k - 1) as nat, w);
            let d = choose|d: nat|
                d <= (k - 1) as nat && #[trigger] ring_words(origin, d).contains(w);
            assert(d <= k && ring_words(origin, d).contains(w));
        } else {
            assert(ring_words(origin, k).contains(w));
        }
    }
    if exists|d: nat| d <= k && #[trigger] ring_words(origin, d).contains(w) {
        let d = choose|d: nat| d <= k && #[trigger] ring_words(origin, d).contains(w);
        assert(disk_words(origin, d).contains(w));
        lemma_disk_words_mono(origin, d, k);
    }
}

/// Expand neighbor layers `k` times from `origin`. Returns the filled disk
/// (exactly the words of `disk_words` at depth `k`, origin first, no
/// duplicates) and the last layer (exactly the words of `ring_words` at
/// depth `k`: the disk of radius `k` minus the disk of radius `k - 1`).
fn bfs_layers(origin: &CellIndex, k: u32) -> (res: (Vec<CellIndex>, Vec<CellIndex>))
    ensures
        res.0@.len() >= 1,
        res.0@[0]@ == origin@,
        forall|n: int| 0 <= n < res.0@.len() ==> valid_word(#[trigger] res.0@[n]@),
        forall|n: int| 0 <= n < res.1@.len() ==> valid_word(#[trigger] res.1@[n]@),
        forall|m: int, n: int| 0 <= m < n < res.0@.len() ==> res.0@[m]@ != res.0@[n]@,
        forall|m: int, n: int| 0 <= m < n < res.1@.len() ==> res.1@[m]@ != res.1@[n]@,
        k >= 1 ==> forall|n: int| 0 <= n < res.1@.len() ==> #[trigger] res.1@[n]@ != origin@,
        k == 0 ==> res.1@.len() == 1 && res.1@[0]@ == origin@,
        words_of(res.0@) == disk_words(origin@, k as nat),
        words_of(res.1@) == ring_words(origin@, k as nat),
{
    let ow = origin.as_u64();
    let mut all: Vec<CellIndex> = Vec::new();
    all.push(*origin);
    let mut frontier: Vec<CellIndex> = Vec::new();
    frontier.push(*origin);
    proof {
        assert(all@[0]@ == ow);
        assert(words_of(all@) =~= disk_words(ow, 0));
        assert(words_of(frontier@) =~= ring_words(ow, 0));
    }
    let mut d: u32 = 0;
    while d < k
        invariant
            d <= k,
            ow == origin@,
            all@.len() >= 1,
            all@[0]@ == origin@,
            forall|n: int| 0 <= n < all@.len() ==> valid_word(#[trigger] all@[n]@),
            forall|n: int| 0 <= n < frontier@.len() ==> valid_word(#[trigger] frontier@[n]@),
            forall|m: int, n: int| 0 <= m < n < all@.len() ==> all@[m]@ != all@[n]@,
            forall|m: int, n: int| 0 <= m < n < frontier@.len() ==> frontier@[m]@ != frontier@[n]@,
            d >= 1 ==> forall|n: int| 0 <= n < frontier@.len() ==> #[trigger] frontier@[n]@
                != origin@,
            d == 0 ==> frontier@.len() == 1 && frontier@[0]@ == origin@,
            words_of(all@) == disk_words(ow, d as nat),
            words_of(frontier@) == ring_words(ow, d as nat),
        decreases k - d,
    {
        let ghost base = all@.len();
        let mut next: Vec<CellIndex> = Vec::new();
        let mut fi: usize = 0;
        proof {
            assert(nbrs_upto(frontier@, 0) =~= Set::<u64>::empty());
            assert(words_of(all@) =~= disk_words(ow, d as nat).union(nbrs_upto(frontier@, 0)));
            assert forall|m: int| 0 <= m < base implies disk_words(ow, d as nat).contains(
                #[trigger] all@[m]@,
            ) by {
                assert(words_of(all@).contains(all@[m]@));
            }
            assert forall|w: u64| #[trigger] disk_words(ow, d as nat).contains(w) implies exists|
                m: int,
            | 0 <= m < base && (#[trigger] all@[m])@ == w by {
                assert(words_of(all@).contains(w));
                let m = choose|m: int| 0 <= m < all@.len() && all@[m]@ == w;
                assert(all@[m]@ == w);
            }
        }
        while fi < frontier.len()
            invariant
                fi <= frontier@.len(),
                ow == origin@,
                base >= 1,
                all@.len() == base + next@.len(),
                all@[0]@ == origin@,
                forall|n: int| 0 <= n < all@.len() ==> valid_word(#[trigger] all@[n]@),
                forall|n: int| 0 <= n < frontier@.len() ==> valid_word(#[trigger] frontier@[n]@),
                forall|m: int, n: int| 0 <= m < n < all@.len() ==> all@[m]@ != all@[n]@,
                forall|n: int| 0 <= n < next@.len() ==> #[trigger] next@[n]@ == all@[base + n]@,
                words_of(frontier@) == ring_words(ow, d as nat),
                forall|m: int| 0 <= m < base ==> disk_words(ow, d as nat).contains(
                    #[trigger] all@[m]@,
                ),
                forall|w: u64| #[trigger] disk_words(ow, d as nat).contains(w) ==> exists|m: int|
                    0 <= m < base && (#[trigger] all@[m])@ == w,
                words_of(all@) == disk_words(ow, d as nat).union(
                    nbrs_upto(frontier@, fi as int),
                ),
            decreases frontier@.len() - fi,
        {
            let f = frontier[fi];
            let nbs = neighborhood(f.as_u64());
            let mut ni: usize = 0;
            proof {
                assert(seq_words_upto(nbs@, 0) =~= Set::<u64>::empty());
                assert(words_of(all@) =~= disk_words(ow, d as nat).union(
                    nbrs_upto(frontier@, fi as int),
                ).union(seq_words_upto(nbs@, 0)));
            }
            while ni < nbs.len()
                invariant
                    ni <= nbs@.len(),
                    ow == origin@,
                    base >= 1,
                    fi < frontier@.len(),
                    nbs@ == neighborhood_of(frontier@[fi as int]@),
                    all@.len() == base + next@.len(),
                    all@[0]@ == origin@,
                    forall|n: int| 0 <= n < all@.len() ==> valid_word(#[trigger] all@[n]@),
                    forall|m: int, n: int| 0 <= m < n < all@.len() ==> all@[m]@ != all@[n]@,
                    forall|n: int| 0 <= n < next@.len() ==> #[trigger] next@[n]@ == all@[base
                        + n]@,
                    forall|n: int| 0 <= n < nbs@.len() ==> valid_word(#[trigger] nbs@[n]),
                    forall|m: int| 0 <= m < base ==> disk_words(ow, d as nat).contains(
                        #[trigger] all@[m]@,
                    ),
                    forall|w: u64| #[trigger] disk_words(ow, d as nat).contains(w) ==> exists|
                        m: int,
                    | 0 <= m < base && (#[trigger] all@[m])@ == w,
                    words_of(all@) == disk_words(ow, d as nat).union(
                        nbrs_upto(frontier@, fi as int),
                    ).union(seq_words_upto(nbs@, ni as int)),
                decreases nbs@.len() - ni,
            {
                let w = nbs[ni];
                if !contains_cell_word(&all, w) {
                    let c = CellIndex::from_valid(w);
                    let ghost pre = all@;
                    all.push(c);
                    next.push(c);
                    proof {
                        lemma_words_of_push(pre, c);
                        lemma_seq_words_snoc(nbs@, ni as int);
                        assert(words_of(all@) =~= disk_words(ow, d as nat).union(
                            nbrs_upto(frontier@, fi as int),
                        ).union(seq_words_upto(nbs@, ni as int + 1)));
                        assert forall|w2: u64| #[trigger] disk_words(ow, d as nat).contains(
                            w2,
                        ) implies exists|m: int| 0 <= m < base && (#[trigger] all@[m])@ == w2 by {
                            let m = choose|m: int| 0 <= m < base && (#[trigger] pre[m])@ == w2;
                            assert(all@[m] == pre[m]);
                            assert(all@[m]@ == w2);
                        }
                    }
                } else {
                    proof {
                        lemma_seq_words_snoc(nbs@, ni as int);
                        assert(words_of(all@).contains(w));
                        assert(words_of(all@) =~= disk_words(ow, d as nat).union(
                            nbrs_upto(frontier@, fi as int),
                        ).union(seq_words_upto(nbs@, ni as int + 1)));
                    }
                }
                ni = ni + 1;
            }
            proof {
                lemma_nbrs_snoc(frontier@, fi as int, nbs@);
                assert(words_of(all@) =~= disk_words(ow, d as nat).union(
                    nbrs_upto(frontier@, fi as int + 1),
                ));
            }
            fi = fi + 1;
        }
        proof {
            lemma_nbrs_full(frontier@);
            lemma_disk_unfold(ow, d as nat);
            assert(d as nat + 1 == (d + 1) as nat);
            assert(words_of(all@) =~= disk_words(ow, (d + 1) as nat));
            assert forall|w: u64| #[trigger] words_of(next@).contains(w) implies ring_words(
                ow,
                (d + 1) as nat,
            ).contains(w) by {
                let nn = choose|nn: int| 0 <= nn < next@.len() && next@[nn]@ == w;
                assert(all@[base + nn]@ == w);
                assert(words_of(all@).contains(w));
                if disk_words(ow, d as nat).contains(w) {
                    let m = choose|m: int| 0 <= m < base && (#[trigger] all@[m])@ == w;
                    assert(all@[m]@ == all@[base + nn]@);
                    assert(false);
                }
            }
            assert forall|w: u64| #[trigger] ring_words(ow, (d + 1) as nat).contains(
                w,
            ) implies words_of(next@).contains(w) by {
                assert(disk_words(ow, (d + 1) as nat).contains(w));
                assert(words_of(all@).contains(w));
                let idx = choose|idx: int| 0 <= idx < all@.len() && all@[idx]@ == w;
                if idx < base {
                    assert(disk_words(ow, d as nat).contains(all@[idx]@));
                    assert(false);
                }
                assert(next@[idx - base]@ == w);
                assert(words_of(next@).contains(w));
            }
            assert(words_of(next@) =~= ring_words(ow, (d + 1) as nat));
        }
        frontier = next;
        d = d + 1;
    }
    (all, frontier)
}

/// The ring at distance `k >= 1`, by layered neighbor expansion: exactly the
/// words of `ring_words` at depth `k`, the filled disk of radius `k` minus
/// the filled disk of radius `k - 1`.
fn fallback_ring(origin: &CellIndex, k: u32) -> (out: Vec<CellIndex>)
    requires
        k >= 1,
    ensures
        forall|m: int, n: int| 0 <= m < n < out@.len() ==> out@[m]@ != out@[n]@,
        forall|n: int| 0 <= n < out@.len() ==> #[trigger] out@[n]@ != origin@,
        forall|n: int| 0 <= n < out@.len() ==> valid_word(#[trigger] out@[n]@),
        words_of(out@) == ring_words(origin@, k as nat),
{
    let res = bfs_layers(origin, k);
    res.1
}

/// The cells at exact hop distance `k` from `origin`, without duplicates:
/// the origin alone for `k == 0`, and for `k >= 1` a ring that never
/// includes the origin. Where the local IJ conversions of the boundary walk
/// all succeed and stay consistent (`fast_ring_ok`), the result is exactly
/// the `6 * k` converted boundary cells; in every other case — distortion,
/// or an origin outside the geometry library's domain — the result is
/// exactly ring `k` of the neighborhood closure, and never an error.
pub fn grid_ring(origin: &CellIndex, k: u32) -> (out: Vec<CellIndex>)
    ensures
        forall|m: int, n: int| 0 <= m < n < out@.len() ==> out@[m]@ != out@[n]@,
        k == 0 ==> out@.len() == 1 && out@[0]@ == origin@,
        k >= 1 ==> forall|n: int| 0 <= n < out@.len() ==> #[trigger] out@[n]@ != origin@,
        forall|n: int| 0 <= n < out@.len() ==> valid_word(#[trigger] out@[n]@),
        k >= 1 ==> if local_ij_of(origin@, origin@) is Some && fast_ring_ok(origin@, k as int) {
            fast_ring_result(origin@, k as int, out@)
        } else {
            words_of(out@) == ring_words(origin@, k as nat)
        },
{
    let ow = origin.as_u64();
    if k == 0 {
        let mut out: Vec<CellIndex> = Vec::new();
        out.push(*origin);
        return out;
    }
    let center_ij = local_ij(ow, ow);
    match center_ij {
        None => fallback_ring(origin, k),
        Some((i0, j0)) => {
            let center = Coord { i: i0 as i64, j: j0 as i64 };
            let offs = crate::coord::ring_coords(center, k);
            let mut out: Vec<CellIndex> = Vec::new();
            let mut n: usize = 0;
            while n < offs.len()
                invariant
                    n <= offs@.len(),
                    out@.len() == n as int,
                    k >= 1,
                    valid_word(ow),
                    ow == origin@,
                    local_ij_of(ow, ow) == Some((i0, j0)),
                    center == center_of(ow),
                    offs@.len() == 6 * k as int,
                    forall|m: int| 0 <= m < offs@.len() ==> hex_dist(#[trigger] offs@[m], center)
                        == k as int,
                    forall|m1: int, m2: int| 0 <= m1 < m2 < offs@.len() ==> offs@[m1]
                        != offs@[m2],
                    forall|p: Coord| hex_dist(p, center) == k as int ==> offs@.contains(p),
                    forall|m: int, n2: int| 0 <= m < n2 < out@.len() ==> out@[m]@ != out@[n2]@,
                    forall|m: int| 0 <= m < out@.len() ==> #[trigger] out@[m]@ != origin@,
                    forall|m: int| 0 <= m < out@.len() ==> valid_word(#[trigger] out@[m]@),
                    forall|m: int| 0 <= m < n as int ==> in_coord_range(#[trigger] offs@[m])
                        && converted_cell(ow, offs@[m]) == Some(out@[m]@),
                decreases offs@.len() - n,
            {
                let p = offs[n];
                if p.i < -0x8000_0000 || p.i > 0x7FFF_FFFF || p.j < -0x8000_0000 || p.j
                    > 0x7FFF_FFFF {
                    proof {
                        assert(hex_dist(p, center_of(ow)) == k as int);
                        assert(converted_cell(ow, p) is None);
                        assert(!fast_ring_ok(ow, k as int));
                    }
                    return fallback_ring(origin, k);
                }
                match cell_from_local_ij(ow, p.i as i32, p.j as i32) {
                    None => {
                        proof {
                            assert(hex_dist(p, center_of(ow)) == k as int);
                            assert(converted_cell(ow, p) is None);
                            assert(!fast_ring_ok(ow, k as int));
                        }
                        return fallback_ring(origin, k);
                    },
                    Some(w) => {
                        if w == ow {
                            proof {
                                assert(hex_dist(p, center_of(ow)) == k as int);
                                assert(converted_cell(ow, p) == Some(ow));
                                assert(!fast_ring_ok(ow, k as int));
                            }
                            return fallback_ring(origin, k);
                        }
                        if contains_cell_word(&out, w) {
                            proof {
                                let m = choose|m: int| 0 <= m < out@.len() && out@[m]@ == w;
                                let q = offs@[m];
                                assert(converted_cell(ow, q) == Some(w));
                                assert(converted_cell(ow, p) == Some(w));
                                assert(hex_dist(q, center_of(ow)) == k as int);
                                assert(hex_dist(p, center_of(ow)) == k as int);
                                assert(q != p);
                                assert(!fast_ring_ok(ow, k as int));
                            }
                            return fallback_ring(origin, k);
                        }
                        out.push(CellIndex::from_valid(w));
                    },
                }
                n = n + 1;
            }
            proof {
                let ki = k as int;
                assert forall|p: Coord| hex_dist(p, center_of(ow)) == ki implies (
                #[trigger] converted_cell(ow, p)) is Some && converted_cell(ow, p) != Some(
                    ow,
                ) by {
                    assert(hex_dist(p, center) == ki);
                    assert(offs@.contains(p));
                    let m = choose|m: int| 0 <= m < offs@.len() && offs@[m] == p;
                    assert(converted_cell(ow, offs@[m]) == Some(out@[m]@));
                    assert(out@[m]@ != ow);
                }
                assert forall|p: Coord, q: Coord|
                    hex_dist(p, center_of(ow)) == ki && hex_dist(q, center_of(ow)) == ki && p
                        != q implies #[trigger] converted_cell(ow, p)
                    != #[trigger] converted_cell(ow, q) by {
                    assert(hex_dist(p, center) == ki);
                    assert(hex_dist(q, center) == ki);
                    assert(offs@.contains(p));
                    assert(offs@.contains(q));
                    let m1 = choose|m1: int| 0 <= m1 < offs@.len() && offs@[m1] == p;
                    let m2 = choose|m2: int| 0 <= m2 < offs@.len() && offs@[m2] == q;
                    assert(converted_cell(ow, offs@[m1]) == Some(out@[m1]@));
                    assert(converted_cell(ow, offs@[m2]) == Some(out@[m2]@));
                    assert(m1 != m2);
                    assert(out@[m1]@ != out@[m2]@);
                }
                assert(fast_ring_ok(ow, ki));
                assert(out@.len() == 6 * ki);
                assert forall|n2: int| 0 <= n2 < out@.len() implies is_boundary_cell(
                    ow,
                    ki,
                    (#[trigger] out@[n2])@,
                ) by {
                    let p = offs@[n2];
                    assert(hex_dist(p, center) == ki);
                    assert(hex_dist(p, center_of(ow)) == ki);
                    assert(converted_cell(ow, p) == Some(out@[n2]@));
                }
                assert forall|p: Coord| hex_dist(p, center_of(ow)) == ki implies words_of(
                    out@,
                ).contains((#[trigger] converted_cell(ow, p)).unwrap()) by {
                    assert(hex_dist(p, center) == ki);
                    assert(offs@.contains(p));
                    let m = choose|m: int| 0 <= m < offs@.len() && offs@[m] == p;
                    assert(converted_cell(ow, p) == Some(out@[m]@));
                    assert(words_of(out@).contains(out@[m]@));
                }
                assert(fast_ring_result(ow, ki, out@));
            }
            out
        },
    }
}

/// The filled disk of radius `k`: exactly the words of `disk_words` at
/// depth `k` — every cell within hop distance `k` of `origin` over the
/// neighborhood closure — origin first, without duplicates.
pub fn grid_disk(origin: &CellIndex, k: u32) -> (out: Vec<CellIndex>)
    ensures
        out@.len() >= 1,
        out@[0]@ == origin@,
        forall|m: int, n: int| 0 <= m < n < out@.len() ==> out@[m]@ != out@[n]@,
        forall|n: int| 0 <= n < out@.len() ==> valid_word(#[trigger] out@[n]@),
        words_of(out@) == disk_words(origin@, k as nat),
{
    let res = bfs_layers(origin, k);
    res.0
}

} // verus!
