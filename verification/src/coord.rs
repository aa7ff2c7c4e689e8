//! Local hexagonal coordinate arithmetic.
//!
//! An axial coordinate pair addresses a cell of an (ideal, undistorted)
//! hexagonal grid local to a base cell. The six neighbor directions, in a
//! fixed cyclic order, are the unit vectors of `dir_i`/`dir_j`; the grid
//! distance between two coordinates is `hex_dist`. The ring walk
//! [`ring_coords`] enumerates the coordinates at exact distance `k` from a
//! center by tracing the six edges of the hexagon boundary.

use vstd::prelude::*;

verus! {

broadcast use vstd::set::group_set_axioms;

/// An axial coordinate of the local hexagonal grid.
#[derive(Clone, Copy, Debug, PartialEq, Eq, Structural)]
pub struct Coord {
    /// First axis.
    pub i: i64,
    /// Second axis, 120 degrees from the first.
    pub j: i64,
}

/// Absolute value.
pub open spec fn iabs(x: int) -> int {
    if x < 0 {
        -x
    } else {
        x
    }
}

/// The largest of three values.
pub open spec fn max3(a: int, b: int, c: int) -> int {
    if a >= b && a >= c {
        a
    } else if b >= c {
        b
    } else {
        c
    }
}

/// Hexagonal grid distance between two axial coordinates: the minimal number
/// of unit direction steps leading from one to the other.
pub open spec fn hex_dist(a: Coord, b: Coord) -> int {
    max3(iabs(a.i - b.i), iabs(a.j - b.j), iabs((a.i - b.i) - (a.j - b.j)))
}

/// First component of the unit vector of direction `e`, for `e` in [0, 6).
pub open spec fn dir_i(e: int) -> int {
    if e == 0 {
        1
    } else if e == 1 {
        1
    } else if e == 2 {
        0
    } else if e == 3 {
        -1
    } else if e == 4 {
        -1
    } else {
        0
    }
}

/// Second component of the unit vector of direction `e`, for `e` in [0, 6).
pub open spec fn dir_j(e: int) -> int {
    if e == 0 {
        0
    } else if e == 1 {
        1
    } else if e == 2 {
        1
    } else if e == 3 {
        0
    } else if e == 4 {
        -1
    } else {
        -1
    }
}

/// The direction walked along edge `e` of the ring boundary: two steps
/// further in the cyclic direction order.
pub open spec fn edge_dir(e: int) -> int {
    if e >= 4 {
        e - 4
    } else {
        e + 2
    }
}

/// The unit vector of direction `e`.
pub fn direction_vector(e: u8) -> (v: (i64, i64))
    requires
        e < 6,
    ensures
        v.0 as int == dir_i(e as int),
        v.1 as int == dir_j(e as int),
{
    match e {
        0 => (1, 0),
        1 => (1, 1),
        2 => (0, 1),
        3 => (-1, 0),
        4 => (-1, -1),
        _ => (0, -1),
    }
}

/// Multiply a bounded non-negative value by a unit factor, without overflow.
fn mul_unit(a: i64, b: i64) -> (r: i64)
    requires
        0 <= a <= 0x1_0000_0000,
        -1 <= b <= 1,
    ensures
        r as int == a as int * b as int,
        -0x1_0000_0000 <= r <= 0x1_0000_0000,
{
    if b == 0 {
        proof {
            assert(a as int * 0 == 0) by (nonlinear_arith);
        }
        0
    } else if b == 1 {
        proof {
            assert(a as int * 1 == a as int) by (nonlinear_arith);
        }
        a
    } else {
        proof {
            assert(a as int * -1 == -(a as int)) by (nonlinear_arith);
        }
        -a
    }
}

/// Whether the offset `(di, dj)` from the center lies on edge `e` of the
/// ring boundary at distance `k`. The six edges partition the boundary: each
/// edge owns its starting corner and excludes the corner that the next edge
/// starts at.
pub open spec fn on_edge(k: int, e: int, di: int, dj: int) -> bool {
    if e == 0 {
        di == k && 0 <= dj < k
    } else if e == 1 {
        dj == k && 0 < di <= k
    } else if e == 2 {
        dj - di == k && -k < di <= 0
    } else if e == 3 {
        di == -k && -k < dj <= 0
    } else if e == 4 {
        dj == -k && -k <= di < 0
    } else {
        di - dj == k && 0 <= di < k
    }
}

/// Whether the point `p` lies on edge `e` of the ring boundary at distance
/// `k` around the center `c`.
pub open spec fn point_on_edge(c: Coord, k: int, e: int, p: Coord) -> bool {
    on_edge(k, e, p.i - c.i, p.j - c.j)
}

/// Whether the point `p` lies on one of the edges `0..eb` of the ring
/// boundary at distance `k` around the center `c`.
pub open spec fn on_some_edge_below(c: Coord, k: int, eb: int, p: Coord) -> bool {
    exists|e0: int| 0 <= e0 < eb && #[trigger] point_on_edge(c, k, e0, p)
}

/// How many steps past its corner the offset `(di, dj)` sits along edge `e`
/// of the ring boundary at distance `k`; meaningful only on that edge.
pub open spec fn edge_param(k: int, e: int, di: int, dj: int) -> int {
    if e == 0 {
        dj
    } else if e == 1 {
        k - di
    } else if e == 2 {
        -di
    } else if e == 3 {
        -dj
    } else if e == 4 {
        k + di
    } else {
        di
    }
}

/// A point on edge `e` of the ring boundary at distance `k`, `s` steps past
/// the corner, lies at grid distance exactly `k` from the center, on that
/// edge, with `s` as its edge parameter.
proof fn lemma_edge_point_dist(k: int, e: int, s: int, di: int, dj: int)
    requires
        1 <= k,
        0 <= e < 6,
        0 <= s < k,
        di == k * dir_i(e) + s * dir_i(edge_dir(e)),
        dj == k * dir_j(e) + s * dir_j(edge_dir(e)),
    ensures
        max3(iabs(di), iabs(dj), iabs(di - dj)) == k,
        on_edge(k, e, di, dj),
        edge_param(k, e, di, dj) == s,
{
    if e == 0 {
        assert(di == k && dj == s);
    } else if e == 1 {
        assert(di == k - s && dj == k);
    } else if e == 2 {
        assert(di == -s && dj == k - s);
    } else if e == 3 {
        assert(di == -k && dj == -s);
    } else if e == 4 {
        assert(di == s - k && dj == -k);
    } else {
        assert(di == s && dj == s - k);
    }
}

/// No offset lies on two different edges of the same ring boundary.
proof fn lemma_edges_disjoint(k: int, e1: int, e2: int, di: int, dj: int)
    requires
        1 <= k,
        0 <= e1 < 6,
        0 <= e2 < 6,
        e1 != e2,
        on_edge(k, e1, di, dj),
    ensures
        !on_edge(k, e2, di, dj),
{
}

/// Two different step counts along the same edge give two different offsets.
proof fn lemma_same_edge_injective(k: int, e: int, s: int, t: int, di1: int, dj1: int, di2: int, dj2: int)
    requires
        1 <= k,
        0 <= e < 6,
        0 <= s < k,
        0 <= t < k,
        s != t,
        di1 == k * dir_i(e) + s * dir_i(edge_dir(e)),
        dj1 == k * dir_j(e) + s * dir_j(edge_dir(e)),
        di2 == k * dir_i(e) + t * dir_i(edge_dir(e)),
        dj2 == k * dir_j(e) + t * dir_j(edge_dir(e)),
    ensures
        di1 != di2 || dj1 != dj2,
{
    if e == 0 {
        assert(dj1 == s && dj2 == t);
    } else if e == 1 {
        assert(di1 == k - s && di2 == k - t);
    } else if e == 2 {
        assert(di1 == -s && di2 == -t);
    } else if e == 3 {
        assert(dj1 == -s && dj2 == -t);
    } else if e == 4 {
        assert(di1 == s - k && di2 == t - k);
    } else {
        assert(di1 == s && di2 == t);
    }
}

/// An offset on edge `e` of the ring boundary is the point of that edge at
/// its own edge parameter.
proof fn lemma_edge_point_param(k: int, e: int, di: int, dj: int)
    requires
        1 <= k,
        0 <= e < 6,
        on_edge(k, e, di, dj),
    ensures
        0 <= edge_param(k, e, di, dj) < k,
        di == k * dir_i(e) + edge_param(k, e, di, dj) * dir_i(edge_dir(e)),
        dj == k * dir_j(e) + edge_param(k, e, di, dj) * dir_j(edge_dir(e)),
{
    let s = edge_param(k, e, di, dj);
    if e == 0 {
        assert(di == k && dj == s);
    } else if e == 1 {
        assert(di == k - s && dj == k);
    } else if e == 2 {
        assert(di == -s && dj == k - s);
    } else if e == 3 {
        assert(di == -k && dj == -s);
    } else if e == 4 {
        assert(di == s - k && dj == -k);
    } else {
        assert(di == s && dj == s - k);
    }
}

/// Every offset at grid distance exactly `k >= 1` lies on one of the six
/// edges of the ring boundary.
proof fn lemma_ring_boundary_covered(k: int, di: int, dj: int)
    requires
        1 <= k,
        max3(iabs(di), iabs(dj), iabs(di - dj)) == k,
    ensures
        exists|e: int| 0 <= e < 6 && #[trigger] on_edge(k, e, di, dj),
{
    if di == k && dj < k {
        assert(on_edge(k, 0, di, dj));
    } else if dj == k && di > 0 {
        assert(on_edge(k, 1, di, dj));
    } else if dj - di == k && di > -k {
        assert(on_edge(k, 2, di, dj));
    } else if di == -k && dj > -k {
        assert(on_edge(k, 3, di, dj));
    } else if dj == -k && di < 0 {
        assert(on_edge(k, 4, di, dj));
    } else {
        assert(on_edge(k, 5, di, dj));
    }
}

/// The coordinates at exact grid distance `k` from `center`: the center
/// alone for `k == 0`, else the `6 * k` points of the hexagon boundary,
/// walked edge by edge in the cyclic direction order.
pub fn ring_coords(center: Coord, k: u32) -> (out: Vec<Coord>)
    requires
        -0x1_0000_0000 <= center.i <= 0x1_0000_0000,
        -0x1_0000_0000 <= center.j <= 0x1_0000_0000,
    ensures
        k == 0 ==> out@.len() == 1 && out@[0] == center,
        k > 0 ==> out@.len() == 6 * k as int,
        forall|n: int| 0 <= n < out@.len() ==> hex_dist(#[trigger] out@[n], center) == k as int,
        forall|m: int, n: int| 0 <= m < n < out@.len() ==> out@[m] != out@[n],
        forall|p: Coord| hex_dist(p, center) == k as int ==> out@.contains(p),
{
    let mut out: Vec<Coord> = Vec::new();
    if k == 0 {
        out.push(center);
        proof {
            assert forall|p: Coord| hex_dist(p, center) == 0 implies out@.contains(p) by {
                assert(p.i == center.i && p.j == center.j);
                assert(out@[0] == center);
            }
        }
        return out;
    }
    let kk: i64 = k as i64;
    let mut e: u8 = 0;
    while e < 6
        invariant
            e <= 6,
            1 <= kk <= 0x1_0000_0000,
            kk == k as int,
            -0x1_0000_0000 <= center.i <= 0x1_0000_0000,
            -0x1_0000_0000 <= center.j <= 0x1_0000_0000,
            out@.len() == e as int * k as int,
            forall|n: int| 0 <= n < out@.len() ==> hex_dist(#[trigger] out@[n], center) == k as int,
            forall|n: int| 0 <= n < out@.len() ==> on_some_edge_below(
                center,
                k as int,
                e as int,
                #[trigger] out@[n],
            ),
            forall|m: int, n: int| 0 <= m < n < out@.len() ==> out@[m] != out@[n],
            forall|p: Coord| #[trigger] on_some_edge_below(center, k as int, e as int, p)
                ==> out@.contains(p),
        decreases 6 - e,
    {
        let (ai, aj) = direction_vector(e);
        let e2: u8 = if e >= 4 {
            e - 4
        } else {
            e + 2
        };
        let (bi, bj) = direction_vector(e2);
        let corner_i: i64 = mul_unit(kk, ai);
        let corner_j: i64 = mul_unit(kk, aj);
        let mut s: i64 = 0;
        while s < kk
            invariant
                0 <= s <= kk,
                1 <= kk <= 0x1_0000_0000,
                kk == k as int,
                e < 6,
                e2 as int == edge_dir(e as int),
                e2 < 6,
                -0x1_0000_0000 <= center.i <= 0x1_0000_0000,
                -0x1_0000_0000 <= center.j <= 0x1_0000_0000,
                ai as int == dir_i(e as int),
                aj as int == dir_j(e as int),
                bi as int == dir_i(e2 as int),
                bj as int == dir_j(e2 as int),
                corner_i as int == kk * ai as int,
                corner_j as int == kk * aj as int,
                -0x1_0000_0000 <= corner_i <= 0x1_0000_0000,
                -0x1_0000_0000 <= corner_j <= 0x1_0000_0000,
                out@.len() == e as int * k as int + s as int,
                forall|n: int| 0 <= n < out@.len() ==> hex_dist(#[trigger] out@[n], center) == k as int,
                forall|n: int| 0 <= n < e as int * k as int ==> on_some_edge_below(
                    center,
                    k as int,
                    e as int,
                    #[trigger] out@[n],
                ),
                forall|n: int| e as int * k as int <= n < out@.len() ==> (#[trigger] out@[n]).i
                    - center.i == k as int * dir_i(e as int) + (n - e as int * k as int) * dir_i(
                    edge_dir(e as int),
                ) && out@[n].j - center.j == k as int * dir_j(e as int) + (n - e as int
                    * k as int) * dir_j(edge_dir(e as int)),
                forall|m: int, n: int| 0 <= m < n < out@.len() ==> out@[m] != out@[n],
                forall|p: Coord| #[trigger] on_some_edge_below(center, k as int, e as int, p)
                    ==> out@.contains(p),
                forall|p: Coord| #[trigger] point_on_edge(center, k as int, e as int, p)
                    && edge_param(k as int, e as int, p.i - center.i, p.j - center.j) < s as int
                    ==> out@.contains(p),
            decreases kk - s,
        {
            let step_i: i64 = mul_unit(s, bi);
            let step_j: i64 = mul_unit(s, bj);
            let p = Coord { i: center.i + corner_i + step_i, j: center.j + corner_j + step_j };
            proof {
                let ki = k as int;
                let ei = e as int;
                let pdi = p.i - center.i;
                let pdj = p.j - center.j;
                lemma_edge_point_dist(ki, ei, s as int, pdi, pdj);
                assert forall|n: int| 0 <= n < ei * ki implies out@[n] != p by {
                    let qdi = out@[n].i - center.i;
                    let qdj = out@[n].j - center.j;
                    assert(on_some_edge_below(center, ki, ei, out@[n]));
                    let e0 = choose|e0: int| 0 <= e0 < ei && #[trigger] point_on_edge(
                        center,
                        ki,
                        e0,
                        out@[n],
                    );
                    lemma_edges_disjoint(ki, e0, ei, qdi, qdj);
                    if out@[n] == p {
                        assert(qdi == pdi && qdj == pdj);
                        assert(false);
                    }
                }
                assert forall|n: int| ei * ki <= n < out@.len() implies out@[n] != p by {
                    let t = n - ei * ki;
                    let qdi = out@[n].i - center.i;
                    let qdj = out@[n].j - center.j;
                    lemma_same_edge_injective(ki, ei, s as int, t, pdi, pdj, qdi, qdj);
                    if out@[n] == p {
                        assert(qdi == pdi && qdj == pdj);
                        assert(false);
                    }
                }
            }
            let ghost pre = out@;
            out.push(p);
            proof {
                let ki = k as int;
                let ei = e as int;
                assert(out@[pre.len() as int] == p);
                assert forall|q: Coord| pre.contains(q) implies out@.contains(q) by {
                    let idx = choose|idx: int| 0 <= idx < pre.len() && pre[idx] == q;
                    assert(out@[idx] == q);
                }
                assert forall|q: Coord| #[trigger] on_some_edge_below(center, ki, ei, q) implies out@.contains(
                    q,
                ) by {
                    assert(pre.contains(q));
                }
                assert forall|q: Coord|
                    #[trigger] point_on_edge(center, ki, ei, q) && edge_param(
                        ki,
                        ei,
                        q.i - center.i,
                        q.j - center.j,
                    ) < s as int + 1 implies out@.contains(q) by {
                    let qdi = q.i - center.i;
                    let qdj = q.j - center.j;
                    if edge_param(ki, ei, qdi, qdj) < s as int {
                        assert(pre.contains(q));
                    } else {
                        lemma_edge_point_param(ki, ei, qdi, qdj);
                        assert(q.i == p.i && q.j == p.j);
                        assert(out@.contains(p));
                    }
                }
            }
            s = s + 1;
        }
        proof {
            let ki = k as int;
            let ei = e as int;
            assert((ei + 1) * ki == ei * ki + ki) by (nonlinear_arith);
            assert forall|n: int| 0 <= n < (ei + 1) * ki implies on_some_edge_below(
                center,
                ki,
                ei + 1,
                #[trigger] out@[n],
            ) by {
                if n < ei * ki {
                    assert(on_some_edge_below(center, ki, ei, out@[n]));
                    let e0 = choose|e0: int| 0 <= e0 < ei && #[trigger] point_on_edge(
                        center,
                        ki,
                        e0,
                        out@[n],
                    );
                    assert(point_on_edge(center, ki, e0, out@[n]));
                } else {
                    let t = n - ei * ki;
                    lemma_edge_point_dist(ki, ei, t, out@[n].i - center.i, out@[n].j - center.j);
                    assert(point_on_edge(center, ki, ei, out@[n]));
                }
            }
            assert forall|q: Coord| #[trigger] on_some_edge_below(center, ki, ei + 1, q) implies out@.contains(
                q,
            ) by {
                let e0 = choose|e0: int| 0 <= e0 < ei + 1 && #[trigger] point_on_edge(
                    center,
                    ki,
                    e0,
                    q,
                );
                if e0 < ei {
                    assert(on_some_edge_below(center, ki, ei, q));
                } else {
                    lemma_edge_point_param(ki, ei, q.i - center.i, q.j - center.j);
                }
            }
        }
        e = e + 1;
    }
    proof {
        let ki = k as int;
        assert forall|p: Coord| hex_dist(p, center) == ki implies out@.contains(p) by {
            lemma_ring_boundary_covered(ki, p.i - center.i, p.j - center.j);
            let e0 = choose|e0: int| 0 <= e0 < 6 && #[trigger] on_edge(
                ki,
                e0,
                p.i - center.i,
                p.j - center.j,
            );
            assert(point_on_edge(center, ki, e0, p));
            assert(on_some_edge_below(center, ki, 6, p));
        }
    }
    out
}

/// The set of coordinates at exact grid distance `k` from `c`.
pub open spec fn ring_set(c: Coord, k: int) -> Set<Coord> {
    Set::new(|p: Coord| hex_dist(p, c) == k)
}

/// The set of coordinates at grid distance at most `k` from `c`: the filled
/// disk of radius `k`.
pub open spec fn disk_set(c: Coord, k: int) -> Set<Coord> {
    Set::new(|p: Coord| hex_dist(p, c) <= k)
}

/// Rings at two different distances from the same center share no member.
pub proof fn lemma_rings_disjoint(c: Coord, k1: int, k2: int)
    requires
        k1 != k2,
    ensures
        ring_set(c, k1).disjoint(ring_set(c, k2)),
{
    assert forall|p: Coord| ring_set(c, k1).contains(p) implies !ring_set(
        c,
        k2,
    ).contains(p) by {
        assert(hex_dist(p, c) == k1);
    }
}

/// A point lies in the filled disk of radius `k` exactly when it lies on a
/// ring at some distance up to `k`: the union of the rings at distances
/// `0..=k` is the disk.
pub proof fn lemma_rings_cover_disk(c: Coord, k: int, p: Coord)
    requires
        0 <= k,
    ensures
        disk_set(c, k).contains(p) <==> exists|d: int|
            0 <= d <= k && #[trigger] ring_set(c, d).contains(p),
{
    if disk_set(c, k).contains(p) {
        let d = hex_dist(p, c);
        assert(0 <= d);
        assert(ring_set(c, d).contains(p));
    }
    if exists|d: int| 0 <= d <= k && #[trigger] ring_set(c, d).contains(p) {
        let d = choose|d: int| 0 <= d <= k && #[trigger] ring_set(c, d).contains(p);
        assert(hex_dist(p, c) == d);
    }
}

} // verus!
