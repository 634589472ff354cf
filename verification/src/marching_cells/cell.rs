//! The edges on which a set of inside corners meets the outside.
use vstd::prelude::*;
use core::marker::PhantomData;
use crate::bits::{bit8, bit16, lemma_bit8_and, lemma_bit8_ext, lemma_bit8_zero, lemma_bit16_and,
    lemma_bit16_or, lemma_bit16_not, lemma_bit16_single, lemma_bit16_zero, lemma_bit16_ext,
    lemma_bit16_test, lemma_bit8_shift_step, lemma_u8_one_shl};
use crate::cell_topology::CellTopology;
use crate::bits::lemma_bit8_not;
use crate::power2::is_power_of_two;
use super::corner::Corner;
use super::corners::{Corners, edges_of_corners, lemma_edges_of_corners};
use super::edges::{Edges, ToEdges};

verus! {

/// Edge `e` joins a corner in `x` to a corner outside it.
pub open spec fn crossing<D: CellTopology>(x: u8, e: u16) -> bool {
    &&& e < D::edge_count()
    &&& x & D::edge_corner_mask(e) != 0
    &&& x & D::edge_corner_mask(e) != D::edge_corner_mask(e)
}

/// `m` holds exactly the crossing edges of `x` that meet corner `c`.
pub open spec fn is_corner_cell_edges<D: CellTopology>(x: u8, c: u8, m: u16) -> bool {
    forall|e: u16| e < 16 ==> (bit16(m, e) == (bit16(D::corner_edge_mask(c), e) && crossing::<D>(x, e)))
}

/// Some crossing edge of `x` meets corner `c`.
pub open spec fn corner_crosses<D: CellTopology>(x: u8, c: u8) -> bool {
    exists|e: u16| e < 16 && bit16(D::corner_edge_mask(c), e) && #[trigger] crossing::<D>(x, e)
}

/// The corners among the first `n` that are in `x` and meet a crossing edge, lowest first.
pub open spec fn cell_corners<D: CellTopology>(x: u8, n: nat) -> Seq<u8>
    decreases n,
{
    if n == 0 {
        Seq::empty()
    } else if bit8(x, (n - 1) as u8) && corner_crosses::<D>(x, (n - 1) as u8) {
        cell_corners::<D>(x, (n - 1) as nat).push((n - 1) as u8)
    } else {
        cell_corners::<D>(x, (n - 1) as nat)
    }
}

/// The crossing edges of `x` among the first `n` edge bits.
pub open spec fn crossing_mask<D: CellTopology>(x: u8, n: nat) -> u16
    decreases n,
{
    if n == 0 {
        0u16
    } else if crossing::<D>(x, (n - 1) as u16) {
        crossing_mask::<D>(x, (n - 1) as nat) | (1u16 << ((n - 1) as u16))
    } else {
        crossing_mask::<D>(x, (n - 1) as nat)
    }
}

/// The crossing edges of `x` that meet corner `c`.
pub open spec fn corner_cell_mask<D: CellTopology>(x: u8, c: u8) -> u16 {
    D::corner_edge_mask(c) & crossing_mask::<D>(x, 16)
}

/// Bit `e` of the crossing mask is set exactly when edge `e` is below `n` and crossed.
pub proof fn lemma_crossing_mask<D: CellTopology>(x: u8, n: nat, e: u16)
    requires
        n <= 16,
        e < 16,
    ensures
        bit16(crossing_mask::<D>(x, n), e) == (e < n && crossing::<D>(x, e)),
    decreases n,
{
    if n == 0 {
        lemma_bit16_zero(e);
    } else {
        let f = (n - 1) as u16;
        lemma_crossing_mask::<D>(x, (n - 1) as nat, e);
        if crossing::<D>(x, f) {
            lemma_bit16_or(crossing_mask::<D>(x, (n - 1) as nat), 1u16 << f, e);
            lemma_bit16_single(f, e);
        }
    }
}

/// The edge mask that `cell` reports for a corner is `corner_cell_mask`.
pub proof fn lemma_corner_cell_mask<D: CellTopology>(x: u8, c: u8, m: u16)
    requires
        is_corner_cell_edges::<D>(x, c, m),
    ensures
        m == corner_cell_mask::<D>(x, c),
{
    assert forall|e: u16| e < 16 implies bit16(m, e) == bit16(corner_cell_mask::<D>(x, c), e) by {
        lemma_crossing_mask::<D>(x, 16, e);
        lemma_bit16_and(D::corner_edge_mask(c), crossing_mask::<D>(x, 16), e);
    }
    lemma_bit16_ext(m, corner_cell_mask::<D>(x, c));
}

/// An edge crosses a corner set exactly when its two ends fall on different sides of it.
pub proof fn lemma_crossing_ends<D: CellTopology>(x: u8, e: u16)
    requires
        e < D::edge_count(),
    ensures
        crossing::<D>(x, e) == (bit8(x, D::edge_end_a(e)) != bit8(x, D::edge_end_b(e))),
{
    let m = D::edge_corner_mask(e);
    let a = D::edge_end_a(e);
    let b = D::edge_end_b(e);
    D::lemma_slots();
    D::lemma_edge_ends(e, 0);
    assert forall|c: u8| c < 8 implies bit8(x & m, c) == (bit8(x, c) && (c == a || c == b)) by {
        D::lemma_edge_ends(e, c);
        lemma_bit8_and(x, m, c);
    }
    lemma_meets8(x, m);
    if x & m != 0 {
        let i = choose|i: u8| i < 8 && bit8(x, i) && #[trigger] bit8(m, i);
        D::lemma_edge_ends(e, i);
    }
    if bit8(x, a) || bit8(x, b) {
        if bit8(x, a) {
            D::lemma_edge_ends(e, a);
        } else {
            D::lemma_edge_ends(e, b);
        }
    }
    if bit8(x, a) && bit8(x, b) {
        assert forall|c: u8| c < 8 implies bit8(x & m, c) == bit8(m, c) by {
            D::lemma_edge_ends(e, c);
            lemma_bit8_and(x, m, c);
        }
        lemma_bit8_ext(x & m, m);
    }
    if x & m == m {
        D::lemma_edge_ends(e, a);
        D::lemma_edge_ends(e, b);
        assert(bit8(x & m, a) == bit8(m, a));
        assert(bit8(x & m, b) == bit8(m, b));
    }
}

/// Swapping the inside and the outside of a cell leaves its crossing edges where they are.
pub proof fn lemma_crossing_complement<D: CellTopology>(x: u8, e: u16)
    requires
        e < 16,
    ensures
        crossing::<D>(!x, e) == crossing::<D>(x, e),
{
    if e < D::edge_count() {
        D::lemma_slots();
        lemma_crossing_ends::<D>(x, e);
        lemma_crossing_ends::<D>(!x, e);
        D::lemma_edge_ends(e, 0);
        lemma_bit8_not(x, D::edge_end_a(e));
        lemma_bit8_not(x, D::edge_end_b(e));
    }
}

/// A corner set and its complement cross the same edges.
pub proof fn lemma_crossing_mask_complement<D: CellTopology>(x: u8)
    ensures
        crossing_mask::<D>(!x, 16) == crossing_mask::<D>(x, 16),
{
    assert forall|e: u16| e < 16 implies bit16(crossing_mask::<D>(!x, 16), e) == bit16(
        crossing_mask::<D>(x, 16),
        e,
    ) by {
        lemma_crossing_mask::<D>(x, 16, e);
        lemma_crossing_mask::<D>(!x, 16, e);
        lemma_crossing_complement::<D>(x, e);
    }
    lemma_bit16_ext(crossing_mask::<D>(!x, 16), crossing_mask::<D>(x, 16));
}

/// The corners that `cell` lists are distinct, inside the set and met by a crossing edge,
/// and every such corner is listed.
pub proof fn lemma_cell_corners<D: CellTopology>(x: u8, n: nat)
    requires
        n <= 8,
    ensures
        forall|k: int|
            0 <= k < cell_corners::<D>(x, n).len() ==> {
                let c = #[trigger] cell_corners::<D>(x, n)[k];
                &&& c < n
                &&& bit8(x, c)
                &&& corner_crosses::<D>(x, c)
            },
        forall|k1: int, k2: int|
            0 <= k1 < k2 < cell_corners::<D>(x, n).len() ==> #[trigger] cell_corners::<D>(x, n)[k1]
                < #[trigger] cell_corners::<D>(x, n)[k2],
        forall|c: u8|
            c < n && bit8(x, c) && corner_crosses::<D>(x, c) ==> exists|k: int|
                0 <= k < cell_corners::<D>(x, n).len() && #[trigger] cell_corners::<D>(x, n)[k] == c,
    decreases n,
{
    if n > 0 {
        lemma_cell_corners::<D>(x, (n - 1) as nat);
        let prev = cell_corners::<D>(x, (n - 1) as nat);
        let cur = cell_corners::<D>(x, n);
        let c = (n - 1) as u8;
        assert forall|d: u8| d < n && bit8(x, d) && corner_crosses::<D>(x, d) implies exists|k: int|
            0 <= k < cur.len() && #[trigger] cur[k] == d by {
            if d == c {
                assert(cur[prev.len() as int] == d);
            } else {
                let k = choose|k: int| 0 <= k < prev.len() && #[trigger] prev[k] == d;
                assert(cur[k] == d);
            }
        }
    }
}

/// Each crossing edge is reported by `cell` at exactly one corner: its end inside the set.
pub proof fn lemma_cell_reports_edge_once<D: CellTopology>(x: u8, e: u16)
    requires
        e < 16,
        crossing::<D>(x, e),
    ensures
        exists|k: int|
            0 <= k < cell_corners::<D>(x, D::corner_slots() as nat).len() && bit16(
                corner_cell_mask::<D>(x, #[trigger] cell_corners::<D>(x, D::corner_slots() as nat)[k]),
                e,
            ),
        forall|k1: int, k2: int|
            0 <= k1 < cell_corners::<D>(x, D::corner_slots() as nat).len() && 0 <= k2
                < cell_corners::<D>(x, D::corner_slots() as nat).len() && bit16(
                corner_cell_mask::<D>(x, #[trigger] cell_corners::<D>(x, D::corner_slots() as nat)[k1]),
                e,
            ) && bit16(
                corner_cell_mask::<D>(x, #[trigger] cell_corners::<D>(x, D::corner_slots() as nat)[k2]),
                e,
            ) ==> k1 == k2,
{
    D::lemma_slots();
    let n = D::corner_slots() as nat;
    let cs = cell_corners::<D>(x, n);
    lemma_cell_corners::<D>(x, n);
    lemma_crossing_ends::<D>(x, e);
    D::lemma_edge_ends(e, 0);
    let a = D::edge_end_a(e);
    let b = D::edge_end_b(e);
    lemma_crossing_mask::<D>(x, 16, e);
    // the corners of `cs` whose reported edges hold `e` are the ends of `e` inside `x`
    assert forall|k: int| 0 <= k < cs.len() implies bit16(corner_cell_mask::<D>(x, #[trigger] cs[k]), e)
        == (cs[k] == a || cs[k] == b) by {
        let c = cs[k];
        lemma_bit16_and(D::corner_edge_mask(c), crossing_mask::<D>(x, 16), e);
        D::lemma_incidence(c, e);
        D::lemma_edge_ends(e, c);
    }
    let inside = if bit8(x, a) {
        a
    } else {
        b
    };
    D::lemma_incidence(inside, e);
    D::lemma_edge_ends(e, inside);
    assert(bit16(D::corner_edge_mask(inside), e) && crossing::<D>(x, e));
    assert(corner_crosses::<D>(x, inside));
    let k = choose|k: int| 0 <= k < cs.len() && #[trigger] cs[k] == inside;
    assert(bit16(corner_cell_mask::<D>(x, cs[k]), e));
    assert forall|k1: int, k2: int|
        0 <= k1 < cs.len() && 0 <= k2 < cs.len() && bit16(
            corner_cell_mask::<D>(x, #[trigger] cs[k1]),
            e,
        ) && bit16(corner_cell_mask::<D>(x, #[trigger] cs[k2]), e) implies k1 == k2 by {
        assert(bit8(x, cs[k1]) && bit8(x, cs[k2]));
        assert(cs[k1] == inside && cs[k2] == inside);
        if k1 < k2 {
            assert(cs[k1] < cs[k2]);
        } else if k2 < k1 {
            assert(cs[k2] < cs[k1]);
        }
    }
}

/// The edges of a union of corner sets are the union of their edges.
pub proof fn lemma_edges_of_union<D: CellTopology>(x: u8, y: u8)
    ensures
        edges_of_corners::<D>(x | y, D::corner_slots() as nat) == edges_of_corners::<D>(
            x,
            D::corner_slots() as nat,
        ) | edges_of_corners::<D>(y, D::corner_slots() as nat),
{
    D::lemma_slots();
    let n = D::corner_slots() as nat;
    let ex = edges_of_corners::<D>(x, n);
    let ey = edges_of_corners::<D>(y, n);
    let exy = edges_of_corners::<D>(x | y, n);
    assert forall|e: u16| e < 16 implies bit16(exy, e) == bit16(ex | ey, e) by {
        lemma_edge_meets::<D>(x, e);
        lemma_edge_meets::<D>(y, e);
        lemma_edge_meets::<D>(x | y, e);
        lemma_bit16_or(ex, ey, e);
        if e < D::edge_count() {
            let m = D::edge_corner_mask(e);
            lemma_meets8(x, m);
            lemma_meets8(y, m);
            lemma_meets8(x | y, m);
            if (x | y) & m != 0 {
                let i = choose|i: u8| i < 8 && bit8(x | y, i) && #[trigger] bit8(m, i);
                crate::bits::lemma_bit8_or(x, y, i);
            }
            if x & m != 0 {
                let i = choose|i: u8| i < 8 && bit8(x, i) && #[trigger] bit8(m, i);
                crate::bits::lemma_bit8_or(x, y, i);
            }
            if y & m != 0 {
                let i = choose|i: u8| i < 8 && bit8(y, i) && #[trigger] bit8(m, i);
                crate::bits::lemma_bit8_or(x, y, i);
            }
        }
    }
    lemma_bit16_ext(exy, ex | ey);
}

/// Cells of a marching grid, as seen from their corners.
pub trait Cell<D> {
    /// For each corner inside the cell, lowest first, the edges on which it meets the outside;
    /// corners with no such edge are left out.
    fn cell(&self) -> Vec<(Corner<D>, Edges<D>)>;
}

/// Two masks share a bit exactly when their conjunction is not zero.
proof fn lemma_meets8(x: u8, m: u8)
    ensures
        (x & m != 0) == (exists|i: u8| i < 8 && bit8(x, i) && #[trigger] bit8(m, i)),
{
    if x & m != 0 {
        if forall|i: u8| i < 8 ==> !bit8(x & m, i) {
            assert forall|i: u8| i < 8 implies bit8(x & m, i) == bit8(0u8, i) by {
                lemma_bit8_zero(i);
            }
            lemma_bit8_ext(x & m, 0u8);
        }
        let i = choose|i: u8| i < 8 && bit8(x & m, i);
        lemma_bit8_and(x, m, i);
    }
    if exists|i: u8| i < 8 && bit8(x, i) && #[trigger] bit8(m, i) {
        let i = choose|i: u8| i < 8 && bit8(x, i) && #[trigger] bit8(m, i);
        lemma_bit8_and(x, m, i);
        lemma_bit8_zero(i);
    }
}

/// A 16-bit mask is zero exactly when it has no bit set.
proof fn lemma_zero16(x: u16)
    ensures
        (x == 0) == (forall|i: u16| i < 16 ==> !bit16(x, i)),
{
    if forall|i: u16| i < 16 ==> !bit16(x, i) {
        assert forall|i: u16| i < 16 implies bit16(x, i) == bit16(0u16, i) by {
            lemma_bit16_zero(i);
        }
        lemma_bit16_ext(x, 0u16);
    }
    if x == 0 {
        assert forall|i: u16| i < 16 implies !bit16(x, i) by {
            lemma_bit16_zero(i);
        }
    }
}

/// An edge is among the edges of the corners in `x` exactly when one of its ends is in `x`.
proof fn lemma_edge_meets<D: CellTopology>(x: u8, e: u16)
    requires
        e < 16,
    ensures
        bit16(edges_of_corners::<D>(x, D::corner_slots() as nat), e) == (e < D::edge_count() && x
            & D::edge_corner_mask(e) != 0),
{
    D::lemma_slots();
    let n = D::corner_slots();
    lemma_edges_of_corners::<D>(x, n as nat, e);
    if bit16(edges_of_corners::<D>(x, n as nat), e) {
        let i = choose|i: u8|
            #![trigger D::corner_edge_mask(i)]
            i < n && bit8(x, i) && bit16(D::corner_edge_mask(i), e);
        D::lemma_incidence(i, e);
        lemma_meets8(x, D::edge_corner_mask(e));
    }
    if e < D::edge_count() && x & D::edge_corner_mask(e) != 0 {
        lemma_meets8(x, D::edge_corner_mask(e));
        let i = choose|i: u8| i < 8 && bit8(x, i) && #[trigger] bit8(D::edge_corner_mask(e), i);
        D::lemma_edge_corners(e, i);
        D::lemma_incidence(i, e);
        assert(i < n && bit8(x, i) && bit16(D::corner_edge_mask(i), e));
    }
}

impl<D: CellTopology> Corners<D> {
    /// The edges with exactly one end among the corners in the set.
    fn crossing_edges(&self) -> (r: u16)
        ensures
            forall|e: u16| e < 16 ==> bit16(r, e) == crossing::<D>(self.0, e),
    {
        proof {
            D::lemma_slots();
        }
        let x = self.0;
        let mut edges = self.to_edges().0;
        let n = D::edge_slot_count();
        let mut e: u16 = 0;
        assert forall|f: u16| f < 16 implies bit16(edges, f) == (f < D::edge_count() && x
            & D::edge_corner_mask(f) != 0) by {
            lemma_edge_meets::<D>(x, f);
        }
        while e < n
            invariant
                e <= n,
                n == D::edge_slots(),
                D::edge_count() <= n <= 16,
                forall|f: u16|
                    f < 16 ==> bit16(edges, f) == (f < D::edge_count() && x & D::edge_corner_mask(f)
                        != 0 && !(f < e && x & D::edge_corner_mask(f) == D::edge_corner_mask(f))),
            decreases n - e,
        {
            if e < D::edge_count_exec() {
                let ec = D::edge_corners(e);
                if x & ec == ec {
                    let old_edges = edges;
                    edges = edges & !(1u16 << e);
                    assert forall|f: u16| f < 16 implies bit16(edges, f) == (bit16(old_edges, f) && f
                        != e) by {
                        lemma_bit16_and(old_edges, !(1u16 << e), f);
                        lemma_bit16_not(1u16 << e, f);
                        lemma_bit16_single(e, f);
                    }
                }
            }
            e += 1;
        }
        edges
    }
}

impl<D: CellTopology> Cell<D> for Corners<D> {
    fn cell(&self) -> (r: Vec<(Corner<D>, Edges<D>)>)
        ensures
            r@.len() == cell_corners::<D>(self.0, D::corner_slots() as nat).len(),
            forall|k: int|
                0 <= k < r@.len() ==> {
                    let c = #[trigger] cell_corners::<D>(self.0, D::corner_slots() as nat)[k];
                    &&& r@[k].0@ == 1u8 << c
                    &&& is_corner_cell_edges::<D>(self.0, c, r@[k].1.0)
                },
    {
        proof {
            D::lemma_slots();
        }
        let x = self.0;
        let edges = self.crossing_edges();
        let n = D::corner_slot_count();
        let m = D::edge_slot_count();
        let mut cell: Vec<(Corner<D>, Edges<D>)> = Vec::new();
        let mut c: u8 = 0;
        while c < n
            invariant
                c <= n,
                n == D::corner_slots(),
                0 < n <= 8,
                m == D::edge_slots(),
                D::edge_count() <= m <= 16,
                D::DIMENSION <= 3,
                n as nat == vstd::arithmetic::power2::pow2(D::DIMENSION as nat),
                forall|e: u16| e < 16 ==> bit16(edges, e) == crossing::<D>(x, e),
                cell@.len() == cell_corners::<D>(x, c as nat).len(),
                forall|k: int|
                    0 <= k < cell@.len() ==> {
                        let cc = #[trigger] cell_corners::<D>(x, c as nat)[k];
                        &&& cell@[k].0@ == 1u8 << cc
                        &&& is_corner_cell_edges::<D>(x, cc, cell@[k].1.0)
                    },
            decreases n - c,
        {
            proof {
                lemma_bit8_shift_step(x, c);
            }
            if (x >> c) & 1 == 1 {
                let ce = D::corner_edges(c);
                let mut out: u16 = 0;
                let mut e: u16 = 0;
                proof {
                    assert forall|f: u16| f < 16 implies !bit16(out, f) by {
                        lemma_bit16_zero(f);
                    }
                }
                while e < m
                    invariant
                        e <= m,
                        m == D::edge_slots(),
                        D::edge_count() <= m <= 16,
                        c < n,
                        n == D::corner_slots(),
                        ce == D::corner_edge_mask(c),
                        forall|f: u16| f < 16 ==> bit16(edges, f) == crossing::<D>(x, f),
                        forall|f: u16|
                            f < 16 ==> bit16(out, f) == (f < e && bit16(edges, f) && bit16(ce, f)),
                    decreases m - e,
                {
                    proof {
                        lemma_bit16_test(edges, e);
                        lemma_bit16_test(ce, e);
                    }
                    if edges & (1u16 << e) == (1u16 << e) {
                        let edge: u16 = 1u16 << e;
                        if (ce & edge) == edge {
                            let old_out = out;
                            out = out | edge;
                            assert forall|f: u16| f < 16 implies bit16(out, f) == (bit16(old_out, f)
                                || f == e) by {
                                lemma_bit16_or(old_out, 1u16 << e, f);
                                lemma_bit16_single(e, f);
                            }
                        }
                    }
                    e += 1;
                }
                proof {
                    assert forall|f: u16| f < 16 implies bit16(out, f) == (bit16(
                        D::corner_edge_mask(c),
                        f,
                    ) && crossing::<D>(x, f)) by {
                        if bit16(D::corner_edge_mask(c), f) {
                            D::lemma_incidence(c, f);
                        }
                    }
                    lemma_zero16(out);
                    if out != 0 {
                        let f = choose|f: u16| f < 16 && bit16(out, f);
                        assert(bit16(D::corner_edge_mask(c), f) && crossing::<D>(x, f));
                    }
                    if corner_crosses::<D>(x, c) {
                        let f = choose|f: u16|
                            f < 16 && bit16(D::corner_edge_mask(c), f) && #[trigger] crossing::<D>(
                                x,
                                f,
                            );
                        assert(bit16(out, f));
                    }
                }
                if out != 0 {
                    proof {
                        lemma_u8_one_shl(c);
                        assert(is_power_of_two((1u8 << c) as int));
                        if (c as nat) < (n - 1) as nat {
                            vstd::arithmetic::power2::lemma_pow2_strictly_increases(
                                c as nat,
                                (n - 1) as nat,
                            );
                        }
                    }
                    let corner = Corner::new_unchecked(1u8 << c);
                    cell.push((corner, Edges(out, PhantomData)));
                }
            }
            c += 1;
        }
        cell
    }
}

} // verus!
