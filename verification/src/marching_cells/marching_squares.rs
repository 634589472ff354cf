//! Marching squares: the line segments of a square cell.
use vstd::prelude::*;
use crate::bits::{bit16, set_bits16, lemma_bit16_and, lemma_set_bits16_sorted, lemma_set_bits16_complete};
use crate::cell_topology::CellTopology;
use crate::vector_space::D2;
use super::cell::{
    Cell, cell_corners, corner_cell_mask, crossing, crossing_mask, lemma_corner_cell_mask,
    lemma_crossing_mask, lemma_cell_reports_edge_once,
};
use super::corners::Corners;
use super::edge::Edge;
use super::march_primitive::MarchPrimitive;
use super::march_primitives::{MarchPrimitives, ToMarchPrimitives};

verus! {

/// The crossing edges of `x`, corner by corner along `cs`, each corner's edges lowest first.
pub open spec fn cell_edge_list<D: CellTopology>(x: u8, cs: Seq<u8>) -> Seq<u16>
    decreases cs.len(),
{
    if cs.len() == 0 {
        Seq::empty()
    } else {
        cell_edge_list::<D>(x, cs.drop_last()) + set_bits16(
            corner_cell_mask::<D>(x, cs.last()),
            D::edge_slots() as nat,
        )
    }
}

/// The crossing edges of a square cell, in the order in which its segments list them.
pub open spec fn square_edges(x: u8) -> Seq<u16> {
    cell_edge_list::<D2>(x, cell_corners::<D2>(x, 4))
}

impl ToMarchPrimitives<D2> for Corners<D2> {
    /// The crossing edges, corner by corner, taken two at a time as line segments.
    fn march_primitives(self) -> (r: MarchPrimitives<D2>)
        ensures
            r@.len() == (square_edges(self.0).len() + 1) / 2,
            forall|i: int|
                0 <= i < r@.len() ==> {
                    let p = #[trigger] r@[i];
                    &&& p.indices is None
                    &&& p.edges@.len() == if 2 * i + 2 <= square_edges(self.0).len() {
                        2nat
                    } else {
                        1nat
                    }
                    &&& forall|j: int|
                        0 <= j < p.edges@.len() ==> #[trigger] p.edges@[j]@ == 1u16 << square_edges(
                            self.0,
                        )[2 * i + j]
                },
    {
        let x = self.0;
        let cell = self.cell();
        let ghost cs = cell_corners::<D2>(x, 4);
        let mut flat: Vec<Edge<D2>> = Vec::new();
        let mut k: usize = 0;
        while k < cell.len()
            invariant
                k <= cell@.len(),
                cell@.len() == cs.len(),
                forall|q: int|
                    0 <= q < cell@.len() ==> super::cell::is_corner_cell_edges::<D2>(
                        x,
                        #[trigger] cs[q],
                        cell@[q].1.0,
                    ),
                flat@.len() == cell_edge_list::<D2>(x, cs.take(k as int)).len(),
                forall|j: int|
                    0 <= j < flat@.len() ==> #[trigger] flat@[j]@ == 1u16 << cell_edge_list::<D2>(
                        x,
                        cs.take(k as int),
                    )[j],
            decreases cell@.len() - k,
        {
            let es = cell[k].1.edges();
            proof {
                lemma_corner_cell_mask::<D2>(x, cs[k as int], cell@[k as int].1.0);
                assert(cs.take(k + 1).drop_last() =~= cs.take(k as int));
                assert(cs.take(k + 1).last() == cs[k as int]);
            }
            let ghost before = flat@;
            let ghost prefix = cell_edge_list::<D2>(x, cs.take(k as int));
            let ghost part = set_bits16(corner_cell_mask::<D2>(x, cs[k as int]), 4);
            let mut j: usize = 0;
            while j < es.len()
                invariant
                    j <= es@.len(),
                    es@.len() == part.len(),
                    forall|q: int| 0 <= q < es@.len() ==> #[trigger] es@[q]@ == 1u16 << part[q],
                    before.len() == prefix.len(),
                    forall|q: int| 0 <= q < before.len() ==> #[trigger] before[q]@ == 1u16 << prefix[q],
                    flat@.len() == before.len() + j,
                    forall|q: int| 0 <= q < before.len() ==> flat@[q] == before[q],
                    forall|q: int| 0 <= q < j ==> #[trigger] flat@[before.len() + q]@ == 1u16 << part[q],
                decreases es@.len() - j,
            {
                flat.push(es[j]);
                j += 1;
            }
            proof {
                let next = cell_edge_list::<D2>(x, cs.take(k + 1));
                assert(next =~= prefix + part);
                assert forall|q: int| 0 <= q < flat@.len() implies #[trigger] flat@[q]@ == 1u16 << next[q] by {
                    if q < before.len() {
                        assert(flat@[q] == before[q]);
                    } else {
                        assert(flat@[before.len() + (q - before.len())]@ == 1u16 << part[q - before.len()]);
                    }
                }
            }
            k += 1;
        }
        proof {
            assert(cs.take(cs.len() as int) =~= cs);
        }
        let ghost flat_spec = square_edges(x);
        let mut lines: Vec<MarchPrimitive<D2>> = Vec::new();
        let mut i: usize = 0;
        while i < flat.len()
            invariant
                flat@.len() == flat_spec.len(),
                forall|j: int| 0 <= j < flat@.len() ==> #[trigger] flat@[j]@ == 1u16 << flat_spec[j],
                i % 2 == 0 || i == flat@.len(),
                i <= flat@.len(),
                lines@.len() == (i + 1) / 2,
                forall|q: int|
                    0 <= q < lines@.len() ==> {
                        let p = #[trigger] lines@[q];
                        &&& p.indices is None
                        &&& p.edges@.len() == if 2 * q + 2 <= flat_spec.len() {
                            2nat
                        } else {
                            1nat
                        }
                        &&& forall|j: int|
                            0 <= j < p.edges@.len() ==> #[trigger] p.edges@[j]@ == 1u16 << flat_spec[2
                                * q + j]
                    },
            decreases flat@.len() - i,
        {
            let mut line: Vec<Edge<D2>> = Vec::new();
            line.push(flat[i]);
            let pair = i + 1 < flat.len();
            if pair {
                line.push(flat[i + 1]);
            }
            let prim = MarchPrimitive { edges: line, indices: None };
            proof {
                let q = (i / 2) as int;
                assert(2 * q == i);
                assert forall|j: int| 0 <= j < prim.edges@.len() implies #[trigger] prim.edges@[j]@
                    == 1u16 << flat_spec[2 * q + j] by {
                    if j == 0 {
                        assert(prim.edges@[0] == flat@[i as int]);
                    } else {
                        assert(prim.edges@[1] == flat@[i + 1]);
                    }
                }
            }
            lines.push(prim);
            if pair {
                i += 2;
            } else {
                i += 1;
            }
        }
        MarchPrimitives::from_vec(lines)
    }
}

/// An edge reported at a corner of the square crosses the surface.
proof fn lemma_reported_crossing(x: u8, c: u8, e: u16)
    requires
        e < 16,
        bit16(corner_cell_mask::<D2>(x, c), e),
    ensures
        crossing::<D2>(x, e),
{
    lemma_bit16_and(<D2 as CellTopology>::corner_edge_mask(c), crossing_mask::<D2>(x, 16), e);
    lemma_crossing_mask::<D2>(x, 16, e);
}

/// The edges listed for the first `k` corners of the square: no edge twice, and exactly the
/// edges reported at those corners.
proof fn lemma_square_list(x: u8, k: nat)
    requires
        k <= cell_corners::<D2>(x, 4).len(),
    ensures
        cell_edge_list::<D2>(x, cell_corners::<D2>(x, 4).take(k as int)).no_duplicates(),
        forall|e: u16|
            #[trigger] cell_edge_list::<D2>(x, cell_corners::<D2>(x, 4).take(k as int)).contains(e)
                <==> e < 4 && exists|j: int|
                0 <= j < k && bit16(corner_cell_mask::<D2>(x, cell_corners::<D2>(x, 4)[j]), e),
    decreases k,
{
    let cs = cell_corners::<D2>(x, 4);
    let l = cell_edge_list::<D2>(x, cs.take(k as int));
    if k == 0 {
        assert(l =~= Seq::empty());
    } else {
        lemma_square_list(x, (k - 1) as nat);
        let prev = cell_edge_list::<D2>(x, cs.take(k - 1));
        let m = corner_cell_mask::<D2>(x, cs[k - 1]);
        let part = set_bits16(m, 4);
        assert(cs.take(k as int).drop_last() =~= cs.take(k - 1));
        assert(l == prev + part);
        lemma_set_bits16_sorted(m, 4);
        assert forall|e: u16| #[trigger] part.contains(e) <==> e < 4 && bit16(m, e) by {
            if e < 4 && bit16(m, e) {
                lemma_set_bits16_complete(m, 4, e);
            }
        }
        assert forall|i: int, j: int| 0 <= i < l.len() && 0 <= j < l.len() && i != j implies l[i]
            != l[j] by {
            if i < prev.len() && j < prev.len() {
                assert(l[i] == prev[i] && l[j] == prev[j]);
            } else if i >= prev.len() && j >= prev.len() {
                assert(l[i] == part[i - prev.len()] && l[j] == part[j - prev.len()]);
                if i < j {
                    assert(part[i - prev.len()] < part[j - prev.len()]);
                } else {
                    assert(part[j - prev.len()] < part[i - prev.len()]);
                }
            } else {
                let (a, b) = if i < prev.len() { (i, j) } else { (j, i) };
                if l[a] == l[b] {
                    let e = l[a];
                    assert(prev.contains(e)) by {
                        assert(prev[a] == e);
                    }
                    assert(part.contains(e)) by {
                        assert(part[b - prev.len()] == e);
                    }
                    let j0 = choose|j0: int|
                        0 <= j0 < k - 1 && bit16(corner_cell_mask::<D2>(x, cs[j0]), e);
                    lemma_reported_crossing(x, cs[j0], e);
                    lemma_cell_reports_edge_once::<D2>(x, e);
                    assert(bit16(corner_cell_mask::<D2>(x, cs[k - 1]), e));
                }
            }
        }
        assert forall|e: u16|
            #[trigger] l.contains(e) <==> e < 4 && exists|j: int|
                0 <= j < k && bit16(corner_cell_mask::<D2>(x, cs[j]), e) by {
            if l.contains(e) {
                let i = choose|i: int| 0 <= i < l.len() && l[i] == e;
                if i < prev.len() {
                    assert(prev[i] == e);
                    assert(prev.contains(e));
                } else {
                    assert(part[i - prev.len()] == e);
                    assert(part.contains(e));
                }
            }
            if e < 4 && exists|j: int| 0 <= j < k && bit16(corner_cell_mask::<D2>(x, cs[j]), e) {
                let j = choose|j: int| 0 <= j < k && bit16(corner_cell_mask::<D2>(x, cs[j]), e);
                if j < k - 1 {
                    assert(prev.contains(e));
                    let i = choose|i: int| 0 <= i < prev.len() && prev[i] == e;
                    assert(l[i] == e);
                } else {
                    assert(part.contains(e));
                    let i = choose|i: int| 0 <= i < part.len() && part[i] == e;
                    assert(l[prev.len() + i] == e);
                }
            }
        }
    }
}

/// The edges among the first `n` that cross the surface of square `x`.
pub open spec fn crossing_set(x: u8, n: nat) -> Set<u16>
    decreases n,
{
    if n == 0 {
        Set::empty()
    } else if crossing::<D2>(x, (n - 1) as u16) {
        crossing_set(x, (n - 1) as nat).insert((n - 1) as u16)
    } else {
        crossing_set(x, (n - 1) as nat)
    }
}

/// How many of the first `n` edges cross the surface of square `x`.
pub open spec fn crossing_count(x: u8, n: nat) -> nat
    decreases n,
{
    if n == 0 {
        0
    } else {
        crossing_count(x, (n - 1) as nat) + if crossing::<D2>(x, (n - 1) as u16) {
            1nat
        } else {
            0nat
        }
    }
}

/// The crossing edges below `n` as a set, with as many members as `crossing_count` says.
proof fn lemma_crossing_set(x: u8, n: nat)
    requires
        n <= 4,
    ensures
        crossing_set(x, n).finite(),
        crossing_set(x, n).len() == crossing_count(x, n),
        forall|e: u16| #[trigger] crossing_set(x, n).contains(e) <==> e < n && crossing::<D2>(x, e),
    decreases n,
{
    if n > 0 {
        lemma_crossing_set(x, (n - 1) as nat);
    }
}

/// Every square cuts its surface an even number of times.
proof fn lemma_crossing_count_even(x: u8)
    ensures
        crossing_count(x, 4) % 2 == 0,
{
    let c0 = x & 5 != 0 && x & 5 != 5;
    let c1 = x & 10 != 0 && x & 10 != 10;
    let c2 = x & 12 != 0 && x & 12 != 12;
    let c3 = x & 3 != 0 && x & 3 != 3;
    assert((c0 != c1) == (c2 != c3)) by (bit_vector)
        requires
            c0 == (x & 5 != 0 && x & 5 != 5),
            c1 == (x & 10 != 0 && x & 10 != 10),
            c2 == (x & 12 != 0 && x & 12 != 12),
            c3 == (x & 3 != 0 && x & 3 != 3),
    ;
    assert(crossing::<D2>(x, 0) == c0 && crossing::<D2>(x, 1) == c1);
    assert(crossing::<D2>(x, 2) == c2 && crossing::<D2>(x, 3) == c3);
    reveal_with_fuel(crossing_count, 5);
}

/// Marching squares lists each crossing edge of a square exactly once, and no other edge,
/// in an even number: every segment joins two crossing edges, and together they cut each
/// crossing edge once.
pub proof fn lemma_square_edges(x: u8)
    ensures
        square_edges(x).no_duplicates(),
        forall|e: u16| #[trigger] square_edges(x).contains(e) <==> crossing::<D2>(x, e),
        square_edges(x).len() % 2 == 0,
{
    let cs = cell_corners::<D2>(x, 4);
    lemma_square_list(x, cs.len());
    assert(cs.take(cs.len() as int) =~= cs);
    let l = square_edges(x);
    assert forall|e: u16| #[trigger] l.contains(e) <==> crossing::<D2>(x, e) by {
        if l.contains(e) {
            let j = choose|j: int| 0 <= j < cs.len() && bit16(corner_cell_mask::<D2>(x, cs[j]), e);
            lemma_reported_crossing(x, cs[j], e);
        }
        if crossing::<D2>(x, e) {
            assert(e < 4);
            lemma_cell_reports_edge_once::<D2>(x, e);
        }
    }
    lemma_crossing_set(x, 4);
    l.unique_seq_to_set();
    assert(l.to_set() =~= crossing_set(x, 4));
    lemma_crossing_count_even(x);
}

} // verus!
