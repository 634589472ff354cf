//! How the corners, edges and faces of a unit cell meet, per vector space.
//!
//! Corners, edges and faces are numbered by bit index; sets of them are masks.
use vstd::prelude::*;
use vstd::arithmetic::power2::{pow2, lemma2_to64};
use crate::bits::{bit8, bit16};
use crate::vector_space::{D2, D3, VectorDimension};

verus! {

/// The incidence tables of the unit cell of a vector space.
pub trait CellTopology: VectorDimension {
    /// Number of corner bits a corner mask is read over.
    spec fn corner_slots() -> u8;

    /// Number of edge bits an edge mask is read over.
    spec fn edge_slots() -> u16;

    /// Number of face bits a face mask is read over.
    spec fn face_slots() -> u8;

    /// Number of edges of the cell.
    spec fn edge_count() -> u16;

    /// Number of faces of the cell.
    spec fn face_count() -> u8;

    /// The two corners joined by edge `e`.
    spec fn edge_corner_mask(e: u16) -> u8;

    /// The edges that meet at corner `c`.
    spec fn corner_edge_mask(c: u8) -> u16;

    /// The corners of face `f`.
    spec fn face_corner_mask(f: u8) -> u8;

    /// One end of edge `e`.
    spec fn edge_end_a(e: u16) -> u8;

    /// The other end of edge `e`.
    spec fn edge_end_b(e: u16) -> u8;

    /// `edge_count`, at run time.
    fn edge_count_exec() -> (r: u16)
        ensures
            r == Self::edge_count(),
    ;

    /// `corner_slots`, at run time.
    fn corner_slot_count() -> (r: u8)
        ensures
            r == Self::corner_slots(),
    ;

    /// `edge_slots`, at run time.
    fn edge_slot_count() -> (r: u16)
        ensures
            r == Self::edge_slots(),
    ;

    /// `face_slots`, at run time.
    fn face_slot_count() -> (r: u8)
        ensures
            r == Self::face_slots(),
    ;

    /// The corners joined by edge `e`, as a mask.
    fn edge_corners(e: u16) -> (r: u8)
        requires
            e < Self::edge_count(),
        ensures
            r == Self::edge_corner_mask(e),
    ;

    /// The edges that meet at corner `c`, as a mask.
    fn corner_edges(c: u8) -> (r: u16)
        requires
            c < Self::corner_slots(),
        ensures
            r == Self::corner_edge_mask(c),
    ;

    /// The corners of face `f`, as a mask.
    fn face_corners(f: u8) -> (r: u8)
        requires
            f < Self::face_count(),
        ensures
            r == Self::face_corner_mask(f),
    ;

    /// The sizes of the tables.
    proof fn lemma_slots()
        ensures
            Self::DIMENSION <= 3,
            Self::corner_slots() as nat == pow2(Self::DIMENSION as nat),
            0 < Self::corner_slots() <= 8,
            0 < Self::edge_count() <= Self::edge_slots() <= 16,
            0 < Self::face_count() <= Self::face_slots() <= 8,
    ;

    /// An edge meets a corner exactly when the corner is an end of the edge.
    proof fn lemma_incidence(c: u8, e: u16)
        requires
            c < Self::corner_slots(),
            e < 16,
        ensures
            bit16(Self::corner_edge_mask(c), e) == (e < Self::edge_count() && bit8(
                Self::edge_corner_mask(e),
                c,
            )),
    ;

    /// Edge `e` joins exactly the corners `edge_end_a(e)` and `edge_end_b(e)`.
    proof fn lemma_edge_ends(e: u16, c: u8)
        requires
            e < Self::edge_count(),
            c < 8,
        ensures
            Self::edge_end_a(e) != Self::edge_end_b(e),
            Self::edge_end_a(e) < Self::corner_slots(),
            Self::edge_end_b(e) < Self::corner_slots(),
            bit8(Self::edge_corner_mask(e), c) == (c == Self::edge_end_a(e) || c == Self::edge_end_b(
                e,
            )),
    ;

    /// Every edge joins two corners of the cell.
    proof fn lemma_edge_corners(e: u16, c: u8)
        requires
            e < Self::edge_count(),
            c < 8,
        ensures
            bit8(Self::edge_corner_mask(e), c) ==> c < Self::corner_slots(),
    ;

    /// The corners of a face lie in the cell.
    proof fn lemma_face_corners(f: u8, c: u8)
        requires
            f < Self::face_count(),
            c < 8,
        ensures
            bit8(Self::face_corner_mask(f), c) ==> c < Self::corner_slots(),
    ;
}

/// The corners joined by each edge of a square.
pub open spec fn d2_edge_corner_mask(e: u16) -> u8 {
    if e == 0 { 0x5u8 }          // L: DL, UL
    else if e == 1 { 0xAu8 }     // R: DR, UR
    else if e == 2 { 0xCu8 }     // U: UL, UR
    else if e == 3 { 0x3u8 }     // D: DL, DR
    else { 0u8 }
}

/// The edges that meet at each corner of a square.
pub open spec fn d2_corner_edge_mask(c: u8) -> u16 {
    if c == 0 { 0x9u16 }         // DL: D, L
    else if c == 1 { 0xAu16 }    // DR: D, R
    else if c == 2 { 0x5u16 }    // UL: U, L
    else if c == 3 { 0x6u16 }    // UR: U, R
    else { 0u16 }
}

/// The corners of each side of a square.
pub open spec fn d2_face_corner_mask(f: u8) -> u8 {
    if f == 0 { 0x5u8 }          // L: DL, UL
    else if f == 1 { 0xAu8 }     // R: DR, UR
    else if f == 2 { 0xCu8 }     // U: UL, UR
    else if f == 3 { 0x3u8 }     // D: DL, DR
    else { 0u8 }
}

/// The corners joined by each edge of a cube.
pub open spec fn d3_edge_corner_mask(e: u16) -> u8 {
    if e == 0 { 0x30u8 }         // FD: FDL, FDR
    else if e == 1 { 0xA0u8 }    // FR: FDR, FUR
    else if e == 2 { 0xC0u8 }    // FU: FUL, FUR
    else if e == 3 { 0x50u8 }    // FL: FDL, FUL
    else if e == 4 { 0x03u8 }    // BD: BDL, BDR
    else if e == 5 { 0x0Au8 }    // BR: BDR, BUR
    else if e == 6 { 0x0Cu8 }    // BU: BUL, BUR
    else if e == 7 { 0x05u8 }    // BL: BDL, BUL
    else if e == 8 { 0x11u8 }    // LD: FDL, BDL
    else if e == 9 { 0x22u8 }    // RD: FDR, BDR
    else if e == 10 { 0x88u8 }   // RU: FUR, BUR
    else if e == 11 { 0x44u8 }   // LU: FUL, BUL
    else { 0u8 }
}

/// The edges that meet at each corner of a cube.
pub open spec fn d3_corner_edge_mask(c: u8) -> u16 {
    if c == 0 { 0x190u16 }       // BDL: BD, BL, LD
    else if c == 1 { 0x230u16 }  // BDR: BD, BR, RD
    else if c == 2 { 0x8C0u16 }  // BUL: BU, BL, LU
    else if c == 3 { 0x460u16 }  // BUR: BU, BR, RU
    else if c == 4 { 0x109u16 }  // FDL: FD, FL, LD
    else if c == 5 { 0x203u16 }  // FDR: FD, FR, RD
    else if c == 6 { 0x80Cu16 }  // FUL: FU, FL, LU
    else if c == 7 { 0x406u16 }  // FUR: FU, FR, RU
    else { 0u16 }
}

/// The corners of each face of a cube.
pub open spec fn d3_face_corner_mask(f: u8) -> u8 {
    if f == 0 { 0x55u8 }         // L: FDL, FUL, BDL, BUL
    else if f == 1 { 0xAAu8 }    // R: FDR, FUR, BDR, BUR
    else if f == 2 { 0xCCu8 }    // U: FUL, FUR, BUL, BUR
    else if f == 3 { 0x33u8 }    // D: FDL, FDR, BDL, BDR
    else if f == 4 { 0xF0u8 }    // F: FUL, FUR, FDL, FDR
    else if f == 5 { 0x0Fu8 }    // B: BUL, BUR, BDL, BDR
    else { 0u8 }
}

/// One end of each edge of a square.
pub open spec fn d2_edge_end_a(e: u16) -> u8 {
    if e == 0 { 0u8 } else if e == 1 { 1u8 } else if e == 2 { 2u8 } else if e == 3 { 0u8 } else { 0u8 }
}

/// The other end of each edge of a square.
pub open spec fn d2_edge_end_b(e: u16) -> u8 {
    if e == 0 { 2u8 } else if e == 1 { 3u8 } else if e == 2 { 3u8 } else if e == 3 { 1u8 } else { 0u8 }
}

/// One end of each edge of a cube.
pub open spec fn d3_edge_end_a(e: u16) -> u8 {
    if e == 0 { 4u8 } else if e == 1 { 5u8 } else if e == 2 { 6u8 } else if e == 3 { 4u8 } else if e == 4 { 0u8 } else if e == 5 { 1u8 } else if e == 6 { 2u8 } else if e == 7 { 0u8 } else if e == 8 { 4u8 } else if e == 9 { 5u8 } else if e == 10 { 7u8 } else if e == 11 { 6u8 } else { 0u8 }
}

/// The other end of each edge of a cube.
pub open spec fn d3_edge_end_b(e: u16) -> u8 {
    if e == 0 { 5u8 } else if e == 1 { 7u8 } else if e == 2 { 7u8 } else if e == 3 { 6u8 } else if e == 4 { 1u8 } else if e == 5 { 3u8 } else if e == 6 { 3u8 } else if e == 7 { 2u8 } else if e == 8 { 0u8 } else if e == 9 { 1u8 } else if e == 10 { 3u8 } else if e == 11 { 2u8 } else { 0u8 }
}

/// Each edge of a square joins exactly its two ends.
proof fn lemma_d2_edge_ends(e: u16, c: u8)
    by (bit_vector)
    requires
        e < 4,
        c < 8,
    ensures
        d2_edge_end_a(e) != d2_edge_end_b(e),
        d2_edge_end_a(e) < 4,
        d2_edge_end_b(e) < 4,
        bit8(d2_edge_corner_mask(e), c) == (c == d2_edge_end_a(e) || c == d2_edge_end_b(e)),
{
}

/// Each edge of a cube joins exactly its two ends.
proof fn lemma_d3_edge_ends(e: u16, c: u8)
    by (bit_vector)
    requires
        e < 12,
        c < 8,
    ensures
        d3_edge_end_a(e) != d3_edge_end_b(e),
        d3_edge_end_a(e) < 8,
        d3_edge_end_b(e) < 8,
        bit8(d3_edge_corner_mask(e), c) == (c == d3_edge_end_a(e) || c == d3_edge_end_b(e)),
{
}

/// An edge of a square meets a corner exactly when the corner is one of its ends.
proof fn lemma_d2_incidence(c: u8, e: u16)
    by (bit_vector)
    requires
        c < 4,
        e < 16,
    ensures
        bit16(d2_corner_edge_mask(c), e) == (e < 4 && bit8(d2_edge_corner_mask(e), c)),
{
}

/// An edge of a cube meets a corner exactly when the corner is one of its ends.
proof fn lemma_d3_incidence(c: u8, e: u16)
    by (bit_vector)
    requires
        c < 8,
        e < 16,
    ensures
        bit16(d3_corner_edge_mask(c), e) == (e < 12 && bit8(d3_edge_corner_mask(e), c)),
{
}

/// The edges and sides of a square only name its four corners.
proof fn lemma_d2_in_cell(e: u16, f: u8, c: u8)
    by (bit_vector)
    requires
        c < 8,
    ensures
        (e < 4 && bit8(d2_edge_corner_mask(e), c)) ==> c < 4,
        (f < 4 && bit8(d2_face_corner_mask(f), c)) ==> c < 4,
{
}

impl CellTopology for D2 {
    open spec fn corner_slots() -> u8 {
        4
    }

    open spec fn edge_slots() -> u16 {
        4
    }

    open spec fn face_slots() -> u8 {
        4
    }

    open spec fn edge_count() -> u16 {
        4
    }

    open spec fn face_count() -> u8 {
        4
    }

    open spec fn edge_end_a(e: u16) -> u8 {
        d2_edge_end_a(e)
    }

    open spec fn edge_end_b(e: u16) -> u8 {
        d2_edge_end_b(e)
    }

    open spec fn edge_corner_mask(e: u16) -> u8 {
        d2_edge_corner_mask(e)
    }

    open spec fn corner_edge_mask(c: u8) -> u16 {
        d2_corner_edge_mask(c)
    }

    open spec fn face_corner_mask(f: u8) -> u8 {
        d2_face_corner_mask(f)
    }

    fn edge_count_exec() -> (r: u16) {
        4
    }

    fn corner_slot_count() -> (r: u8) {
        4
    }

    fn edge_slot_count() -> (r: u16) {
        4
    }

    fn face_slot_count() -> (r: u8) {
        4
    }

    fn edge_corners(e: u16) -> (r: u8) {
        if e == 0 { 0x5 } else if e == 1 { 0xA } else if e == 2 { 0xC } else { 0x3 }
    }

    fn corner_edges(c: u8) -> (r: u16) {
        if c == 0 { 0x9 } else if c == 1 { 0xA } else if c == 2 { 0x5 } else { 0x6 }
    }

    fn face_corners(f: u8) -> (r: u8) {
        if f == 0 { 0x5 } else if f == 1 { 0xA } else if f == 2 { 0xC } else { 0x3 }
    }

    proof fn lemma_slots() {
        lemma2_to64();
        crate::vector_space::lemma_dimensions();
    }

    proof fn lemma_incidence(c: u8, e: u16) {
        lemma_d2_incidence(c, e);
    }

    proof fn lemma_edge_ends(e: u16, c: u8) {
        lemma_d2_edge_ends(e, c);
    }

    proof fn lemma_edge_corners(e: u16, c: u8) {
        lemma_d2_in_cell(e, 0, c);
    }

    proof fn lemma_face_corners(f: u8, c: u8) {
        lemma_d2_in_cell(0, f, c);
    }
}

impl CellTopology for D3 {
    open spec fn corner_slots() -> u8 {
        8
    }

    open spec fn edge_slots() -> u16 {
        16
    }

    open spec fn face_slots() -> u8 {
        8
    }

    open spec fn edge_count() -> u16 {
        12
    }

    open spec fn face_count() -> u8 {
        6
    }

    open spec fn edge_end_a(e: u16) -> u8 {
        d3_edge_end_a(e)
    }

    open spec fn edge_end_b(e: u16) -> u8 {
        d3_edge_end_b(e)
    }

    open spec fn edge_corner_mask(e: u16) -> u8 {
        d3_edge_corner_mask(e)
    }

    open spec fn corner_edge_mask(c: u8) -> u16 {
        d3_corner_edge_mask(c)
    }

    open spec fn face_corner_mask(f: u8) -> u8 {
        d3_face_corner_mask(f)
    }

    fn edge_count_exec() -> (r: u16) {
        12
    }

    fn corner_slot_count() -> (r: u8) {
        8
    }

    fn edge_slot_count() -> (r: u16) {
        16
    }

    fn face_slot_count() -> (r: u8) {
        8
    }

    fn edge_corners(e: u16) -> (r: u8) {
        if e == 0 { 0x30 }
        else if e == 1 { 0xA0 }
        else if e == 2 { 0xC0 }
        else if e == 3 { 0x50 }
        else if e == 4 { 0x03 }
        else if e == 5 { 0x0A }
        else if e == 6 { 0x0C }
        else if e == 7 { 0x05 }
        else if e == 8 { 0x11 }
        else if e == 9 { 0x22 }
        else if e == 10 { 0x88 }
        else { 0x44 }
    }

    fn corner_edges(c: u8) -> (r: u16) {
        if c == 0 { 0x190 }
        else if c == 1 { 0x230 }
        else if c == 2 { 0x8C0 }
        else if c == 3 { 0x460 }
        else if c == 4 { 0x109 }
        else if c == 5 { 0x203 }
        else if c == 6 { 0x80C }
        else { 0x406 }
    }

    fn face_corners(f: u8) -> (r: u8) {
        if f == 0 { 0x55 }
        else if f == 1 { 0xAA }
        else if f == 2 { 0xCC }
        else if f == 3 { 0x33 }
        else if f == 4 { 0xF0 }
        else { 0x0F }
    }

    proof fn lemma_slots() {
        lemma2_to64();
        crate::vector_space::lemma_dimensions();
    }

    proof fn lemma_incidence(c: u8, e: u16) {
        lemma_d3_incidence(c, e);
    }

    proof fn lemma_edge_ends(e: u16, c: u8) {
        lemma_d3_edge_ends(e, c);
    }

    proof fn lemma_edge_corners(e: u16, c: u8) {
    }

    proof fn lemma_face_corners(f: u8, c: u8) {
    }
}

} // verus!
