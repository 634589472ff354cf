//! Marching cubes: the triangles and quads that a cube cell's crossing edges form.
//!
//! Edge positions are those of the unit cube with corners at `±1`: each edge's midpoint
//! has coordinates in `{-1, 0, 1}`, so every distance that the grouping compares is an exact
//! integer (squared, and doubled where it is taken from the middle of two edges).
use vstd::prelude::*;
use crate::bits::{set_bits16, bit16, lemma_bit16_and, lemma_set_bits16_sorted, lemma_u16_one_shl_injective};
use crate::vector_space::D3;
use super::cell::{
    Cell, cell_corners, corner_cell_mask, crossing, crossing_mask, lemma_corner_cell_mask,
    lemma_crossing_mask, lemma_cell_reports_edge_once,
};
use super::corners::Corners;
use super::edge::Edge;

verus! {

/// A point of the cube, with integer coordinates.
pub type IPoint = (int, int, int);

/// The midpoint of the edge with bit `b`; the origin for a bit that is no edge of a cube.
pub open spec fn edge_point(b: u16) -> IPoint {
    if b == 1 {
        (0, -1, 1)
    } else if b == 2 {
        (1, 0, 1)
    } else if b == 4 {
        (0, 1, 1)
    } else if b == 8 {
        (-1, 0, 1)
    } else if b == 16 {
        (0, -1, -1)
    } else if b == 32 {
        (1, 0, -1)
    } else if b == 64 {
        (0, 1, -1)
    } else if b == 128 {
        (-1, 0, -1)
    } else if b == 256 {
        (-1, -1, 0)
    } else if b == 512 {
        (1, -1, 0)
    } else if b == 1024 {
        (1, 1, 0)
    } else if b == 2048 {
        (-1, 1, 0)
    } else {
        (0, 0, 0)
    }
}

/// The squared distance between two points.
pub open spec fn dist2(p: IPoint, q: IPoint) -> int {
    (p.0 - q.0) * (p.0 - q.0) + (p.1 - q.1) * (p.1 - q.1) + (p.2 - q.2) * (p.2 - q.2)
}

/// The point scaled by two.
pub open spec fn double(p: IPoint) -> IPoint {
    (2 * p.0, 2 * p.1, 2 * p.2)
}

/// Twice the midpoint of the two edges of a line.
pub open spec fn line_center2(l: (u16, u16)) -> IPoint {
    let (a, b) = (edge_point(l.0), edge_point(l.1));
    (a.0 + b.0, a.1 + b.1, a.2 + b.2)
}

/// The midpoint of an edge, exactly.
pub fn edge_point_exec(e: &Edge<D3>) -> (r: (i8, i8, i8))
    ensures
        (r.0 as int, r.1 as int, r.2 as int) == edge_point(e@),
{
    let b = e.0.get();
    if b == 1 {
        (0, -1, 1)
    } else if b == 2 {
        (1, 0, 1)
    } else if b == 4 {
        (0, 1, 1)
    } else if b == 8 {
        (-1, 0, 1)
    } else if b == 16 {
        (0, -1, -1)
    } else if b == 32 {
        (1, 0, -1)
    } else if b == 64 {
        (0, 1, -1)
    } else if b == 128 {
        (-1, 0, -1)
    } else if b == 256 {
        (-1, -1, 0)
    } else if b == 512 {
        (1, -1, 0)
    } else if b == 1024 {
        (1, 1, 0)
    } else if b == 2048 {
        (-1, 1, 0)
    } else {
        (0, 0, 0)
    }
}

/// The squared distance between two points with small coordinates.
fn dist2_exec(p: (i32, i32, i32), q: (i32, i32, i32)) -> (r: i32)
    requires
        -8 <= p.0 <= 8,
        -8 <= p.1 <= 8,
        -8 <= p.2 <= 8,
        -8 <= q.0 <= 8,
        -8 <= q.1 <= 8,
        -8 <= q.2 <= 8,
    ensures
        r == dist2((p.0 as int, p.1 as int, p.2 as int), (q.0 as int, q.1 as int, q.2 as int)),
{
    let (dx, dy, dz) = (p.0 - q.0, p.1 - q.1, p.2 - q.2);
    assert(dx * dx <= 256 && dy * dy <= 256 && dz * dz <= 256) by (nonlinear_arith)
        requires
            -16 <= dx <= 16,
            -16 <= dy <= 16,
            -16 <= dz <= 16,
    ;
    assert(dx * dx >= 0 && dy * dy >= 0 && dz * dz >= 0) by (nonlinear_arith);
    dx * dx + dy * dy + dz * dz
}

/// `s` with `x` inserted after every element whose key is at most `x`'s, scanning from the
/// back: one step of a stable insertion sort.
pub open spec fn sort_insert<T>(s: Seq<(T, int)>, x: (T, int)) -> Seq<(T, int)>
    decreases s.len(),
{
    if s.len() == 0 {
        seq![x]
    } else if s.last().1 <= x.1 {
        s.push(x)
    } else {
        sort_insert(s.drop_last(), x).push(s.last())
    }
}

/// `s` sorted by key, elements with equal keys kept in their order in `s`.
pub open spec fn sort_stable<T>(s: Seq<(T, int)>) -> Seq<(T, int)>
    decreases s.len(),
{
    if s.len() == 0 {
        s
    } else {
        sort_insert(sort_stable(s.drop_last()), s.last())
    }
}

/// The keyed items of `s`, with their keys as integers.
pub open spec fn keyed<T>(s: Seq<(T, i32)>) -> Seq<(T, int)> {
    s.map_values(|p: (T, i32)| (p.0, p.1 as int))
}

/// Inserting at the place where the scan from the back stops is the insertion step.
proof fn lemma_sort_insert_at<T>(s: Seq<(T, int)>, x: (T, int), j: int)
    requires
        0 <= j <= s.len(),
        forall|i: int| j <= i < s.len() ==> s[i].1 > x.1,
        j == 0 || s[j - 1].1 <= x.1,
    ensures
        sort_insert(s, x) == s.take(j).push(x) + s.skip(j),
    decreases s.len(),
{
    if s.len() == j {
        if j == 0 {
            assert(s.take(0).push(x) + s.skip(0) =~= seq![x]);
        } else {
            assert(s.take(j).push(x) + s.skip(j) =~= s.push(x));
        }
    } else {
        lemma_sort_insert_at(s.drop_last(), x, j);
        assert(s.drop_last().take(j) =~= s.take(j));
        assert((s.take(j).push(x) + s.drop_last().skip(j)).push(s.last()) =~= s.take(j).push(x)
            + s.skip(j));
    }
}

/// Sort `v` by its keys, stably.
pub fn sort_by_key_stable<T: Copy>(v: &Vec<(T, i32)>) -> (r: Vec<(T, i32)>)
    ensures
        keyed(r@) == sort_stable(keyed(v@)),
{
    let mut out: Vec<(T, i32)> = Vec::new();
    let mut i: usize = 0;
    while i < v.len()
        invariant
            i <= v@.len(),
            keyed(out@) == sort_stable(keyed(v@.take(i as int))),
        decreases v@.len() - i,
    {
        let x = v[i];
        let mut j: usize = out.len();
        while j > 0 && out[j - 1].1 > x.1
            invariant
                j <= out@.len(),
                forall|k: int| j <= k < out@.len() ==> out@[k].1 > x.1,
            decreases j,
        {
            j -= 1;
        }
        let ghost before = out@;
        out.insert(j, x);
        proof {
            let s = keyed(before);
            let kx = (x.0, x.1 as int);
            lemma_sort_insert_at(s, kx, j as int);
            assert(keyed(v@.take(i + 1)).drop_last() =~= keyed(v@.take(i as int)));
            assert(keyed(v@.take(i + 1)).last() == kx);
            assert(keyed(out@) =~= s.take(j as int).push(kx) + s.skip(j as int));
        }
        i += 1;
    }
    proof {
        assert(v@.take(v@.len() as int) =~= v@);
    }
    out
}

/// The order in which to join the four vertices of a quad as two triangles.
pub const QUAD_INDICES: [u32; 6] = [0, 1, 3, 3, 1, 2];

/// The order in which to join the four vertices of a quad as two triangles.
pub open spec fn quad_indices() -> Seq<u32> {
    seq![0, 1, 3, 3, 1, 2]
}

/// A group of edges as plain values: their bits, and whether they form a quad.
pub type GroupView = (Seq<u16>, bool);

/// A group of edges: the polygon's vertices, and for a quad the order that joins them.
pub type Group = (Vec<Edge<D3>>, Option<Vec<u32>>);

/// The bits of a list of edges.
pub open spec fn edge_bits(s: Seq<Edge<D3>>) -> Seq<u16> {
    s.map_values(|e: Edge<D3>| e@)
}

/// A group as plain values.
pub open spec fn group_view(g: Group) -> GroupView {
    (edge_bits(g.0@), g.1 is Some)
}

/// Groups as plain values.
pub open spec fn groups_view(gs: Seq<Group>) -> Seq<GroupView> {
    gs.map_values(|g: Group| group_view(g))
}

/// Every quad of the groups carries the quad indices.
pub open spec fn quads_indexed(gs: Seq<Group>) -> bool {
    forall|i: int| 0 <= i < gs.len() ==> ((#[trigger] gs[i]).1 matches Some(v) ==> v@ == quad_indices())
}

/// The bits of a list of lines, each a pair of edges.
pub open spec fn line_bits(s: Seq<(Edge<D3>, Edge<D3>)>) -> Seq<(u16, u16)> {
    s.map_values(|l: (Edge<D3>, Edge<D3>)| (l.0@, l.1@))
}

/// The group of `edges`, a quad when `quad` holds.
fn group(edges: Vec<Edge<D3>>, quad: bool) -> (r: Group)
    ensures
        group_view(r) == (edge_bits(edges@), quad),
        r.1 matches Some(v) ==> v@ == quad_indices(),
{
    if quad {
        let v: Vec<u32> = vec![0, 1, 3, 3, 1, 2];
        proof {
            assert(v@ =~= quad_indices());
        }
        (edges, Some(v))
    } else {
        (edges, None)
    }
}

/// The point of an edge, widened.
fn point(e: &Edge<D3>) -> (r: (i32, i32, i32))
    ensures
        (r.0 as int, r.1 as int, r.2 as int) == edge_point(e@),
        -1 <= r.0 <= 1,
        -1 <= r.1 <= 1,
        -1 <= r.2 <= 1,
{
    let (x, y, z) = edge_point_exec(e);
    (x as i32, y as i32, z as i32)
}

/// The point of an edge, scaled by two.
fn point2(e: &Edge<D3>) -> (r: (i32, i32, i32))
    ensures
        (r.0 as int, r.1 as int, r.2 as int) == double(edge_point(e@)),
        -2 <= r.0 <= 2,
        -2 <= r.1 <= 2,
        -2 <= r.2 <= 2,
{
    let (x, y, z) = point(e);
    (2 * x, 2 * y, 2 * z)
}

/// Twice the midpoint of a line.
fn center2(l: &(Edge<D3>, Edge<D3>)) -> (r: (i32, i32, i32))
    ensures
        (r.0 as int, r.1 as int, r.2 as int) == line_center2((l.0@, l.1@)),
        -2 <= r.0 <= 2,
        -2 <= r.1 <= 2,
        -2 <= r.2 <= 2,
{
    let (a, b) = (point(&l.0), point(&l.1));
    (a.0 + b.0, a.1 + b.1, a.2 + b.2)
}

/// The end of line `l` farther from `from`; the second end when both are as far.
#[verifier::opaque]
pub open spec fn far_end(l: (u16, u16), from: IPoint) -> u16 {
    if dist2(edge_point(l.1), from) >= dist2(edge_point(l.0), from) {
        l.1
    } else {
        l.0
    }
}

/// Computes `far_end`.
fn far_end_exec(l: &(Edge<D3>, Edge<D3>), from: (i32, i32, i32)) -> (r: Edge<D3>)
    requires
        -2 <= from.0 <= 2,
        -2 <= from.1 <= 2,
        -2 <= from.2 <= 2,
    ensures
        r@ == far_end((l.0@, l.1@), (from.0 as int, from.1 as int, from.2 as int)),
{
    reveal(far_end);
    if dist2_exec(point(&l.1), from) >= dist2_exec(point(&l.0), from) {
        l.1
    } else {
        l.0
    }
}

/// The squared distance from an edge's point, doubled when `doubled` holds, to `to`.
pub open spec fn near_key(e: u16, to: IPoint, doubled: bool) -> int {
    dist2(
        if doubled {
            double(edge_point(e))
        } else {
            edge_point(e)
        },
        to,
    )
}

/// The first of three edges nearest to `to`.
#[verifier::opaque]
pub open spec fn nearest_of3(s: Seq<u16>, to: IPoint, doubled: bool) -> u16 {
    let m = if near_key(s[1], to, doubled) < near_key(s[0], to, doubled) {
        s[1]
    } else {
        s[0]
    };
    if near_key(s[2], to, doubled) < near_key(m, to, doubled) {
        s[2]
    } else {
        m
    }
}

/// The first of three edges nearest to `to`, distances taken between doubled points when
/// `doubled` holds.
fn nearest3(s: &Vec<Edge<D3>>, to: (i32, i32, i32), doubled: bool) -> (r: Edge<D3>)
    requires
        s@.len() == 3,
        -4 <= to.0 <= 4,
        -4 <= to.1 <= 4,
        -4 <= to.2 <= 4,
    ensures
        r@ == nearest_of3(edge_bits(s@), (to.0 as int, to.1 as int, to.2 as int), doubled),
{
    proof {
        assert(edge_bits(s@)[0] == s@[0]@ && edge_bits(s@)[1] == s@[1]@ && edge_bits(s@)[2] == s@[2]@);
        reveal(nearest_of3);
    }
    let k0 = dist2_exec(if doubled { point2(&s[0]) } else { point(&s[0]) }, to);
    let k1 = dist2_exec(if doubled { point2(&s[1]) } else { point(&s[1]) }, to);
    let k2 = dist2_exec(if doubled { point2(&s[2]) } else { point(&s[2]) }, to);
    let (m, km) = if k1 < k0 {
        (s[1], k1)
    } else {
        (s[0], k0)
    };
    if k2 < km {
        s[2]
    } else {
        m
    }
}

/// Append the group of `edges` to `out`.
fn push_group(out: &mut Vec<Group>, edges: Vec<Edge<D3>>, quad: bool)
    requires
        quads_indexed(old(out)@),
    ensures
        groups_view(final(out)@) == groups_view(old(out)@).push((edge_bits(edges@), quad)),
        quads_indexed(final(out)@),
{
    let g = group(edges, quad);
    let ghost before = out@;
    out.push(g);
    proof {
        assert(groups_view(out@) =~= groups_view(before).push((edge_bits(edges@), quad)));
    }
}

/// The bits of three edges.
proof fn lemma_bits3(v: Vec<Edge<D3>>, a: Edge<D3>, b: Edge<D3>, c: Edge<D3>)
    requires
        v@ == seq![a, b, c],
    ensures
        edge_bits(v@) == seq![a@, b@, c@],
{
    assert(edge_bits(v@) =~= seq![a@, b@, c@]);
}

/// The bits of four edges.
proof fn lemma_bits4(v: Vec<Edge<D3>>, a: Edge<D3>, b: Edge<D3>, c: Edge<D3>, d: Edge<D3>)
    requires
        v@ == seq![a, b, c, d],
    ensures
        edge_bits(v@) == seq![a@, b@, c@, d@],
{
    assert(edge_bits(v@) =~= seq![a@, b@, c@, d@]);
}

/// A point and two lines: a triangle from each line to the point, and one between the
/// lines' ends farthest from the point.
pub open spec fn fan_groups(p: u16, la: (u16, u16), lb: (u16, u16)) -> Seq<GroupView> {
    seq![
        (seq![la.0, la.1, p], false),
        (seq![lb.0, lb.1, p], false),
        (seq![far_end(la, edge_point(p)), p, far_end(lb, edge_point(p))], false),
    ]
}

/// One triangle fan round a lone corner point, closed by two lines.
fn fan(points: &Vec<Edge<D3>>, lines: &Vec<(Edge<D3>, Edge<D3>)>) -> (r: Vec<Group>)
    requires
        points@.len() == 1,
        lines@.len() == 2,
    ensures
        groups_view(r@) == fan_groups(points@[0]@, line_bits(lines@)[0], line_bits(lines@)[1]),
        quads_indexed(r@),
{
    let pt = points[0];
    let (la, lb) = (lines[0], lines[1]);
    let p = point(&pt);
    let edge_a = far_end_exec(&la, p);
    let edge_b = far_end_exec(&lb, p);
    let mut out: Vec<Group> = Vec::new();
    proof {
        assert(groups_view(out@) =~= Seq::empty());
    }
    let v = vec![la.0, la.1, pt];
    proof { lemma_bits3(v, la.0, la.1, pt); }
    push_group(&mut out, v, false);
    let v = vec![lb.0, lb.1, pt];
    proof { lemma_bits3(v, lb.0, lb.1, pt); }
    push_group(&mut out, v, false);
    let v = vec![edge_a, pt, edge_b];
    proof { lemma_bits3(v, edge_a, pt, edge_b); }
    push_group(&mut out, v, false);
    proof {
        assert(groups_view(out@) =~= fan_groups(pt@, line_bits(lines@)[0], line_bits(lines@)[1]));
    }
    out
}

/// The first of three edges that is neither `a` nor `b`; the last if there is none.
pub open spec fn other3(s: Seq<u16>, a: u16, b: u16) -> u16 {
    if s[0] != a && s[0] != b {
        s[0]
    } else if s[1] != a && s[1] != b {
        s[1]
    } else {
        s[2]
    }
}

/// Three points and a line: the points nearest the line's ends and the third point fan
/// around the line in three triangles.
pub open spec fn inverse_fan_groups(ps: Seq<u16>, l: (u16, u16)) -> Seq<GroupView> {
    let pl = nearest_of3(ps, edge_point(l.0), false);
    let pr = nearest_of3(ps, edge_point(l.1), false);
    let pc = other3(ps, pl, pr);
    seq![(seq![pl, pc, l.0], false), (seq![l.0, pc, l.1], false), (seq![l.1, pc, pr], false)]
}

/// The fan that covers three points and a line.
fn inverse_fan(points: &Vec<Edge<D3>>, lines: &Vec<(Edge<D3>, Edge<D3>)>) -> (r: Vec<Group>)
    requires
        points@.len() == 3,
        lines@.len() == 1,
    ensures
        groups_view(r@) == inverse_fan_groups(edge_bits(points@), line_bits(lines@)[0]),
        quads_indexed(r@),
{
    let (line_left, line_right) = lines[0];
    let point_left = nearest3(points, point(&line_left), false);
    let point_right = nearest3(points, point(&line_right), false);
    let (bl, br) = (point_left.0.get(), point_right.0.get());
    let point_center = if points[0].0.get() != bl && points[0].0.get() != br {
        points[0]
    } else if points[1].0.get() != bl && points[1].0.get() != br {
        points[1]
    } else {
        points[2]
    };
    let mut out: Vec<Group> = Vec::new();
    let v = vec![point_left, point_center, line_left];
    proof { lemma_bits3(v, point_left, point_center, line_left); }
    push_group(&mut out, v, false);
    let v = vec![line_left, point_center, line_right];
    proof { lemma_bits3(v, line_left, point_center, line_right); }
    push_group(&mut out, v, false);
    let v = vec![line_right, point_center, point_right];
    proof { lemma_bits3(v, line_right, point_center, point_right); }
    push_group(&mut out, v, false);
    proof {
        let ps = edge_bits(points@);
        assert(ps[0] == points@[0]@ && ps[1] == points@[1]@ && ps[2] == points@[2]@);
        assert(groups_view(out@) =~= inverse_fan_groups(ps, line_bits(lines@)[0]));
    }
    out
}

/// Of two edges, the one whose doubled point is farthest from `to` (the second when both
/// are as far) when `farthest` holds, else the first that is nearest.
#[verifier::opaque]
pub open spec fn pick2(base: Seq<u16>, to: IPoint, farthest: bool) -> u16 {
    if farthest {
        if near_key(base[1], to, true) >= near_key(base[0], to, true) {
            base[1]
        } else {
            base[0]
        }
    } else {
        if near_key(base[1], to, true) < near_key(base[0], to, true) {
            base[1]
        } else {
            base[0]
        }
    }
}

/// Computes `pick2`.
fn pick2_exec(a: Edge<D3>, b: Edge<D3>, to: (i32, i32, i32), farthest: bool) -> (r: Edge<D3>)
    requires
        -2 <= to.0 <= 2,
        -2 <= to.1 <= 2,
        -2 <= to.2 <= 2,
    ensures
        r@ == pick2(seq![a@, b@], (to.0 as int, to.1 as int, to.2 as int), farthest),
{
    reveal(pick2);
    let ka = dist2_exec(point2(&a), to);
    let kb = dist2_exec(point2(&b), to);
    if farthest {
        if kb >= ka {
            b
        } else {
            a
        }
    } else {
        if kb < ka {
            b
        } else {
            a
        }
    }
}

/// Two lines and a base of two edges, the base either two points (`folded`) or a third
/// line between them: a triangle from each line to the base edge nearest it (farthest,
/// when folded), and a quad between them.
pub open spec fn hexagon_groups(ps: Seq<u16>, ls: Seq<(u16, u16)>, folded: bool) -> Seq<GroupView> {
    let base = if folded {
        ps
    } else {
        seq![ls[1].0, ls[1].1]
    };
    let l = ls[0];
    let r = if folded {
        ls[1]
    } else {
        ls[2]
    };
    let pl = pick2(base, line_center2(l), folded);
    let pr = pick2(base, line_center2(r), folded);
    let fl = far_end(l, edge_point(pl));
    let fr = far_end(r, edge_point(pr));
    seq![
        (seq![l.0, l.1, pl], false),
        (seq![r.0, r.1, pr], false),
        (if folded {
            seq![pl, fl, fr, pr]
        } else {
            seq![fl, pl, pr, fr]
        }, true),
    ]
}

/// The hexagon that three lines (or two points and two lines, folded) span.
fn hexagon(points: &Vec<Edge<D3>>, lines: &Vec<(Edge<D3>, Edge<D3>)>, folded: bool) -> (r: Vec<
    Group,
>)
    requires
        folded ==> points@.len() == 2 && lines@.len() == 2,
        !folded ==> lines@.len() == 3,
    ensures
        groups_view(r@) == hexagon_groups(edge_bits(points@), line_bits(lines@), folded),
        quads_indexed(r@),
{
    let (b0, b1) = if folded {
        (points[0], points[1])
    } else {
        lines[1]
    };
    let line_left = lines[0];
    let line_right = if folded {
        lines[1]
    } else {
        lines[2]
    };
    let point_left = pick2_exec(b0, b1, center2(&line_left), folded);
    let point_right = pick2_exec(b0, b1, center2(&line_right), folded);
    let far_left = far_end_exec(&line_left, point(&point_left));
    let far_right = far_end_exec(&line_right, point(&point_right));
    let mut out: Vec<Group> = Vec::new();
    let v = vec![line_left.0, line_left.1, point_left];
    proof { lemma_bits3(v, line_left.0, line_left.1, point_left); }
    push_group(&mut out, v, false);
    let v = vec![line_right.0, line_right.1, point_right];
    proof { lemma_bits3(v, line_right.0, line_right.1, point_right); }
    push_group(&mut out, v, false);
    let v = if folded {
        vec![point_left, far_left, far_right, point_right]
    } else {
        vec![far_left, point_left, point_right, far_right]
    };
    proof {
        if folded {
            lemma_bits4(v, point_left, far_left, far_right, point_right);
        } else {
            lemma_bits4(v, far_left, point_left, point_right, far_right);
        }
    }
    push_group(&mut out, v, true);
    proof {
        let ps = edge_bits(points@);
        let ls = line_bits(lines@);
        if folded {
            assert(seq![b0@, b1@] =~= ps);
        } else {
            assert(seq![b0@, b1@] =~= seq![ls[1].0, ls[1].1]);
        }
        assert(groups_view(out@) =~= hexagon_groups(ps, ls, folded));
    }
    out
}

/// The keyed items of `s` with `f` applied to each item.
pub open spec fn map_items<T, U>(s: Seq<(T, int)>, f: spec_fn(T) -> U) -> Seq<(U, int)> {
    s.map_values(|p: (T, int)| (f(p.0), p.1))
}

/// Sorting by key commutes with changing the items.
proof fn lemma_sort_insert_map<T, U>(s: Seq<(T, int)>, x: (T, int), f: spec_fn(T) -> U)
    ensures
        map_items(sort_insert(s, x), f) == sort_insert(map_items(s, f), (f(x.0), x.1)),
    decreases s.len(),
{
    if s.len() == 0 {
        assert(map_items(sort_insert(s, x), f) =~= seq![(f(x.0), x.1)]);
    } else if s.last().1 <= x.1 {
        assert(map_items(s.push(x), f) =~= map_items(s, f).push((f(x.0), x.1)));
    } else {
        lemma_sort_insert_map(s.drop_last(), x, f);
        assert(map_items(s, f).drop_last() =~= map_items(s.drop_last(), f));
        assert(map_items(sort_insert(s.drop_last(), x).push(s.last()), f) =~= map_items(
            sort_insert(s.drop_last(), x),
            f,
        ).push((f(s.last().0), s.last().1)));
    }
}

/// Sorting by key commutes with changing the items.
proof fn lemma_sort_stable_map<T, U>(s: Seq<(T, int)>, f: spec_fn(T) -> U)
    ensures
        map_items(sort_stable(s), f) == sort_stable(map_items(s, f)),
    decreases s.len(),
{
    if s.len() > 0 {
        lemma_sort_stable_map(s.drop_last(), f);
        lemma_sort_insert_map(sort_stable(s.drop_last()), s.last(), f);
        assert(map_items(s, f).drop_last() =~= map_items(s.drop_last(), f));
    }
}

/// Sorting keeps the length.
proof fn lemma_sort_len<T>(s: Seq<(T, int)>)
    ensures
        sort_stable(s).len() == s.len(),
    decreases s.len(),
{
    if s.len() > 0 {
        lemma_sort_len(s.drop_last());
        lemma_sort_insert_len(sort_stable(s.drop_last()), s.last());
    }
}

/// Inserting adds one item.
proof fn lemma_sort_insert_len<T>(s: Seq<(T, int)>, x: (T, int))
    ensures
        sort_insert(s, x).len() == s.len() + 1,
    decreases s.len(),
{
    if s.len() > 0 && s.last().1 > x.1 {
        lemma_sort_insert_len(s.drop_last(), x);
    }
}

/// Four lines: the first joined in a quad with the line whose middle is the median distance
/// from its own, the other two in a second quad.
pub open spec fn double_quad_groups(ls: Seq<(u16, u16)>) -> Seq<GroupView> {
    let a = ls[0];
    let pa = line_center2(a);
    let sorted = sort_stable(
        seq![
            (ls[1], dist2(line_center2(ls[1]), pa)),
            (ls[2], dist2(line_center2(ls[2]), pa)),
            (ls[3], dist2(line_center2(ls[3]), pa)),
        ],
    );
    let (o0, mid, o1) = (sorted[0].0, sorted[1].0, sorted[2].0);
    seq![(seq![a.0, a.1, mid.0, mid.1], true), (seq![o0.0, o0.1, o1.0, o1.1], true)]
}

/// The two quads that four lines span.
fn double_quad(lines: &Vec<(Edge<D3>, Edge<D3>)>) -> (r: Vec<Group>)
    requires
        lines@.len() == 4,
    ensures
        groups_view(r@) == double_quad_groups(line_bits(lines@)),
        quads_indexed(r@),
{
    let edge_a = lines[0];
    let position_a = center2(&edge_a);
    let mut cands: Vec<((Edge<D3>, Edge<D3>), i32)> = Vec::new();
    let mut i: usize = 1;
    while i < 4
        invariant
            1 <= i <= 4,
            lines@.len() == 4,
            -2 <= position_a.0 <= 2 && -2 <= position_a.1 <= 2 && -2 <= position_a.2 <= 2,
            cands@.len() == i - 1,
            forall|j: int|
                0 <= j < i - 1 ==> (#[trigger] cands@[j]).0 == lines@[j + 1] && cands@[j].1 as int
                    == dist2(
                    line_center2((lines@[j + 1].0@, lines@[j + 1].1@)),
                    (position_a.0 as int, position_a.1 as int, position_a.2 as int),
                ),
        decreases 4 - i,
    {
        let l = lines[i];
        let k = dist2_exec(center2(&l), position_a);
        cands.push((l, k));
        i += 1;
    }
    let sorted = sort_by_key_stable(&cands);
    let ghost pa = (position_a.0 as int, position_a.1 as int, position_a.2 as int);
    let ghost f = |l: (Edge<D3>, Edge<D3>)| (l.0@, l.1@);
    proof {
        lemma_sort_stable_map(keyed(cands@), f);
        lemma_sort_len(keyed(cands@));
        let ls = line_bits(lines@);
        assert(map_items(keyed(cands@), f) =~= seq![
            (ls[1], dist2(line_center2(ls[1]), pa)),
            (ls[2], dist2(line_center2(ls[2]), pa)),
            (ls[3], dist2(line_center2(ls[3]), pa)),
        ]);
    }
    let (o0, mid, o1) = (sorted[0].0, sorted[1].0, sorted[2].0);
    let mut out: Vec<Group> = Vec::new();
    let v = vec![edge_a.0, edge_a.1, mid.0, mid.1];
    proof { lemma_bits4(v, edge_a.0, edge_a.1, mid.0, mid.1); }
    push_group(&mut out, v, true);
    let v = vec![o0.0, o0.1, o1.0, o1.1];
    proof { lemma_bits4(v, o0.0, o0.1, o1.0, o1.1); }
    push_group(&mut out, v, true);
    proof {
        let ls = line_bits(lines@);
        let sorted_bits = map_items(keyed(sorted@), f);
        assert(sorted_bits[0].0 == f(o0) && sorted_bits[1].0 == f(mid) && sorted_bits[2].0 == f(o1));
        assert(groups_view(out@) =~= double_quad_groups(ls));
    }
    out
}

/// The elements of `s` other than `x`, in order.
pub open spec fn without(s: Seq<u16>, x: u16) -> Seq<u16>
    decreases s.len(),
{
    if s.len() == 0 {
        s
    } else if s.last() != x {
        without(s.drop_last(), x).push(s.last())
    } else {
        without(s.drop_last(), x)
    }
}

/// Each edge of `s` keyed by its squared distance from `from`.
pub open spec fn keys_from(s: Seq<u16>, from: IPoint) -> Seq<(u16, int)> {
    s.map_values(|e: u16| (e, dist2(edge_point(e), from)))
}

/// The items of keyed edges.
pub open spec fn items(s: Seq<(u16, int)>) -> Seq<u16> {
    s.map_values(|p: (u16, int)| p.0)
}

/// Three points and two lines: the point nearest the lines joins the two line ends nearest
/// it in a triangle, and the other two line ends join the other two points in a quad.
pub open spec fn quad_and_triangle_groups(ps: Seq<u16>, ls: Seq<(u16, u16)>) -> Seq<GroupView> {
    let (c0, c1) = (line_center2(ls[0]), line_center2(ls[1]));
    let lc = (c0.0 + c1.0, c0.1 + c1.1, c0.2 + c1.2);
    let base = nearest_of3(ps, lc, true);
    let rest = without(ps, base);
    let lv = items(
        sort_stable(keys_from(seq![ls[0].0, ls[0].1, ls[1].0, ls[1].1], edge_point(base))),
    );
    seq![(seq![lv[0], lv[1], base], false), (seq![lv[2], lv[3]] + rest, true)]
}

/// Key each edge of `s` by its squared distance from `from`.
fn keys_from_exec(s: &Vec<Edge<D3>>, from: (i32, i32, i32)) -> (r: Vec<(Edge<D3>, i32)>)
    requires
        -1 <= from.0 <= 1,
        -1 <= from.1 <= 1,
        -1 <= from.2 <= 1,
    ensures
        map_items(keyed(r@), |e: Edge<D3>| e@) == keys_from(
            edge_bits(s@),
            (from.0 as int, from.1 as int, from.2 as int),
        ),
{
    let ghost fp = (from.0 as int, from.1 as int, from.2 as int);
    let mut out: Vec<(Edge<D3>, i32)> = Vec::new();
    let mut i: usize = 0;
    while i < s.len()
        invariant
            i <= s@.len(),
            -1 <= from.0 <= 1 && -1 <= from.1 <= 1 && -1 <= from.2 <= 1,
            fp == (from.0 as int, from.1 as int, from.2 as int),
            map_items(keyed(out@), |e: Edge<D3>| e@) == keys_from(edge_bits(s@.take(i as int)), fp),
        decreases s@.len() - i,
    {
        let e = s[i];
        let k = dist2_exec(point(&e), from);
        let ghost before = out@;
        out.push((e, k));
        proof {
            assert(edge_bits(s@.take(i + 1)) =~= edge_bits(s@.take(i as int)).push(e@));
            assert(keyed(out@) =~= keyed(before).push((e, k as int)));
            assert(map_items(keyed(out@), |e: Edge<D3>| e@) =~= map_items(
                keyed(before),
                |e: Edge<D3>| e@,
            ).push((e@, dist2(edge_point(e@), fp))));
            assert(keys_from(edge_bits(s@.take(i + 1)), fp) =~= keys_from(
                edge_bits(s@.take(i as int)),
                fp,
            ).push((e@, dist2(edge_point(e@), fp))));
        }
        i += 1;
    }
    proof {
        assert(s@.take(s@.len() as int) =~= s@);
    }
    out
}

/// The edges of keyed edges sorted by key.
fn sorted_edges(v: &Vec<(Edge<D3>, i32)>, Ghost(spec): Ghost<Seq<(u16, int)>>) -> (r: Vec<Edge<D3>>)
    requires
        map_items(keyed(v@), |e: Edge<D3>| e@) == spec,
    ensures
        edge_bits(r@) == items(sort_stable(spec)),
{
    let sorted = sort_by_key_stable(v);
    proof {
        lemma_sort_stable_map(keyed(v@), |e: Edge<D3>| e@);
        lemma_sort_len(keyed(v@));
    }
    let mut out: Vec<Edge<D3>> = Vec::new();
    let mut i: usize = 0;
    while i < sorted.len()
        invariant
            i <= sorted@.len(),
            map_items(keyed(sorted@), |e: Edge<D3>| e@) == sort_stable(spec),
            edge_bits(out@) == items(sort_stable(spec)).take(i as int),
        decreases sorted@.len() - i,
    {
        let ghost before = out@;
        out.push(sorted[i].0);
        proof {
            let ms = map_items(keyed(sorted@), |e: Edge<D3>| e@);
            assert(keyed(sorted@)[i as int].0 == sorted@[i as int].0);
            assert(ms[i as int].0 == sorted@[i as int].0@);
            assert(edge_bits(out@) =~= edge_bits(before).push(sorted@[i as int].0@));
            assert(items(sort_stable(spec)).take(i + 1) =~= items(sort_stable(spec)).take(
                i as int,
            ).push(ms[i as int].0));
        }
        i += 1;
    }
    proof {
        assert(items(sort_stable(spec)).take(i as int) =~= items(sort_stable(spec)));
    }
    out
}

fn quad_and_triangle(points: &Vec<Edge<D3>>, lines: &Vec<(Edge<D3>, Edge<D3>)>) -> (r: Vec<Group>)
    requires
        points@.len() == 3,
        lines@.len() == 2,
    ensures
        groups_view(r@) == quad_and_triangle_groups(edge_bits(points@), line_bits(lines@)),
        quads_indexed(r@),
{
    let (c0, c1) = (center2(&lines[0]), center2(&lines[1]));
    let lines_center = (c0.0 + c1.0, c0.1 + c1.1, c0.2 + c1.2);
    let base = nearest3(points, lines_center, true);
    let bb = base.0.get();
    let mut rest: Vec<Edge<D3>> = Vec::new();
    let mut i: usize = 0;
    while i < points.len()
        invariant
            i <= points@.len(),
            bb == base@,
            edge_bits(rest@) == without(edge_bits(points@.take(i as int)), base@),
        decreases points@.len() - i,
    {
        let ghost before = rest@;
        if points[i].0.get() != bb {
            rest.push(points[i]);
        }
        proof {
            let t = edge_bits(points@.take(i + 1));
            assert(t.drop_last() =~= edge_bits(points@.take(i as int)));
            assert(t.last() == points@[i as int]@);
            assert(edge_bits(rest@) =~= if points@[i as int]@ != base@ {
                edge_bits(before).push(points@[i as int]@)
            } else {
                edge_bits(before)
            });
        }
        i += 1;
    }
    proof {
        assert(points@.take(3) =~= points@);
    }
    let line_verts = vec![lines[0].0, lines[0].1, lines[1].0, lines[1].1];
    let keyed_verts = keys_from_exec(&line_verts, point(&base));
    let ghost ls = line_bits(lines@);
    proof {
        lemma_bits4(line_verts, lines@[0].0, lines@[0].1, lines@[1].0, lines@[1].1);
    }
    let lv = sorted_edges(
        &keyed_verts,
        Ghost(keys_from(seq![ls[0].0, ls[0].1, ls[1].0, ls[1].1], edge_point(base@))),
    );
    proof {
        let sp = keys_from(seq![ls[0].0, ls[0].1, ls[1].0, ls[1].1], edge_point(base@));
        lemma_sort_len(sp);
        assert(sp.len() == 4);
        assert(items(sort_stable(sp)).len() == 4);
        assert(edge_bits(lv@).len() == lv@.len());
    }
    let mut out: Vec<Group> = Vec::new();
    let v = vec![lv[0], lv[1], base];
    proof { lemma_bits3(v, lv@[0], lv@[1], base); }
    push_group(&mut out, v, false);
    let mut v = vec![lv[2], lv[3]];
    let ghost head = v@;
    let mut rest2 = rest;
    v.append(&mut rest2);
    proof {
        assert(edge_bits(v@) =~= seq![lv@[2]@, lv@[3]@] + edge_bits(rest@));
    }
    push_group(&mut out, v, true);
    proof {
        let lvb = edge_bits(lv@);
        assert(lvb[0] == lv@[0]@ && lvb[1] == lv@[1]@ && lvb[2] == lv@[2]@ && lvb[3] == lv@[3]@);
        assert(groups_view(out@) =~= quad_and_triangle_groups(edge_bits(points@), ls));
    }
    out
}

/// Six points: the three nearest the first, and the other three, as two triangles.
pub open spec fn double_triangle_groups(ps: Seq<u16>) -> Seq<GroupView> {
    let s = items(sort_stable(keys_from(ps, edge_point(ps[0]))));
    seq![(s.subrange(0, 3), false), (s.subrange(3, 6), false)]
}

fn double_triangle(points: &Vec<Edge<D3>>) -> (r: Vec<Group>)
    requires
        points@.len() == 6,
    ensures
        groups_view(r@) == double_triangle_groups(edge_bits(points@)),
        quads_indexed(r@),
{
    let base = points[0];
    let keyed_points = keys_from_exec(points, point(&base));
    let ghost ps = edge_bits(points@);
    proof {
        assert(ps[0] == base@);
    }
    let s = sorted_edges(&keyed_points, Ghost(keys_from(ps, edge_point(ps[0]))));
    proof {
        let sp = keys_from(ps, edge_point(ps[0]));
        lemma_sort_len(sp);
        assert(sp.len() == 6);
        assert(items(sort_stable(sp)).len() == 6);
        assert(edge_bits(s@).len() == s@.len());
    }
    let mut out: Vec<Group> = Vec::new();
    let v = vec![s[0], s[1], s[2]];
    proof { lemma_bits3(v, s@[0], s@[1], s@[2]); }
    push_group(&mut out, v, false);
    let v = vec![s[3], s[4], s[5]];
    proof { lemma_bits3(v, s@[3], s@[4], s@[5]); }
    push_group(&mut out, v, false);
    proof {
        let sb = edge_bits(s@);
        assert(sb.subrange(0, 3) =~= seq![s@[0]@, s@[1]@, s@[2]@]);
        assert(sb.subrange(3, 6) =~= seq![s@[3]@, s@[4]@, s@[5]@]);
        assert(groups_view(out@) =~= double_triangle_groups(ps));
    }
    out
}

fn triangle(edges: Vec<Edge<D3>>) -> (r: Vec<Group>)
    ensures
        groups_view(r@) == seq![(edge_bits(edges@), false)],
        quads_indexed(r@),
{
    let mut out: Vec<Group> = Vec::new();
    push_group(&mut out, edges, false);
    proof {
        assert(groups_view(out@) =~= seq![(edge_bits(edges@), false)]);
    }
    out
}

fn point_quad(points: Vec<Edge<D3>>) -> (r: Vec<Group>)
    ensures
        groups_view(r@) == seq![(edge_bits(points@), true)],
        quads_indexed(r@),
{
    let mut out: Vec<Group> = Vec::new();
    push_group(&mut out, points, true);
    proof {
        assert(groups_view(out@) =~= seq![(edge_bits(points@), true)]);
    }
    out
}

/// The ends of each line, in order.
pub open spec fn line_ends(ls: Seq<(u16, u16)>) -> Seq<u16>
    decreases ls.len(),
{
    if ls.len() == 0 {
        Seq::empty()
    } else {
        line_ends(ls.drop_last()) + seq![ls.last().0, ls.last().1]
    }
}

fn line_quad(lines: &Vec<(Edge<D3>, Edge<D3>)>) -> (r: Vec<Group>)
    ensures
        groups_view(r@) == seq![(line_ends(line_bits(lines@)), true)],
        quads_indexed(r@),
{
    let mut v: Vec<Edge<D3>> = Vec::new();
    let mut i: usize = 0;
    while i < lines.len()
        invariant
            i <= lines@.len(),
            edge_bits(v@) == line_ends(line_bits(lines@.take(i as int))),
        decreases lines@.len() - i,
    {
        let ghost before = v@;
        v.push(lines[i].0);
        v.push(lines[i].1);
        proof {
            assert(line_bits(lines@.take(i + 1)).drop_last() =~= line_bits(lines@.take(i as int)));
            assert(edge_bits(v@) =~= edge_bits(before) + seq![lines@[i as int].0@, lines@[i as int].1@]);
        }
        i += 1;
    }
    proof {
        assert(lines@.take(lines@.len() as int) =~= lines@);
    }
    let mut out: Vec<Group> = Vec::new();
    push_group(&mut out, v, true);
    proof {
        assert(groups_view(out@) =~= seq![(line_ends(line_bits(lines@)), true)]);
    }
    out
}

/// The bits of the edges set in mask `m`, lowest first.
pub open spec fn mask_edges(m: u16) -> Seq<u16> {
    set_bits16(m, 16).map_values(|i: u16| 1u16 << i)
}

/// For each corner of cube cell `x` that meets a crossing edge, lowest first, its crossing
/// edges, lowest first.
pub open spec fn corner_lists(x: u8) -> Seq<Seq<u16>> {
    cell_corners::<D3>(x, 8).map_values(|c: u8| mask_edges(corner_cell_mask::<D3>(x, c)))
}

/// The corners cut off on their own: a triangle of the three edges of each.
pub open spec fn isolated_groups(ls: Seq<Seq<u16>>) -> Seq<GroupView>
    decreases ls.len(),
{
    if ls.len() == 0 {
        Seq::empty()
    } else {
        isolated_groups(ls.drop_last()) + if ls.last().len() == 3 {
            seq![(ls.last(), false)]
        } else {
            Seq::empty()
        }
    }
}

/// The edges of the corners with a single crossing edge, in order.
pub open spec fn point_edges(ls: Seq<Seq<u16>>) -> Seq<u16>
    decreases ls.len(),
{
    if ls.len() == 0 {
        Seq::empty()
    } else {
        point_edges(ls.drop_last()) + if ls.last().len() == 1 {
            ls.last()
        } else {
            Seq::empty()
        }
    }
}

/// The pairs of edges of the corners with two crossing edges, in order.
pub open spec fn line_edges(ls: Seq<Seq<u16>>) -> Seq<(u16, u16)>
    decreases ls.len(),
{
    if ls.len() == 0 {
        Seq::empty()
    } else {
        line_edges(ls.drop_last()) + if ls.last().len() == 2 {
            seq![(ls.last()[0], ls.last()[1])]
        } else {
            Seq::empty()
        }
    }
}

/// The polygons that the single points and the lines of a cube cell form, by how many of
/// each there are; none for a count that no cell has.
pub open spec fn remainder_groups(ps: Seq<u16>, ls: Seq<(u16, u16)>) -> Seq<GroupView> {
    if ps.len() == 3 && ls.len() == 0 {
        seq![(ps, false)]
    } else if ps.len() == 4 && ls.len() == 0 {
        seq![(ps, true)]
    } else if ps.len() == 0 && ls.len() == 2 {
        seq![(line_ends(ls), true)]
    } else if ps.len() == 1 && ls.len() == 2 {
        fan_groups(ps[0], ls[0], ls[1])
    } else if ps.len() == 3 && ls.len() == 1 {
        inverse_fan_groups(ps, ls[0])
    } else if ps.len() == 0 && ls.len() == 3 {
        hexagon_groups(ps, ls, false)
    } else if ps.len() == 2 && ls.len() == 2 {
        hexagon_groups(ps, ls, true)
    } else if ps.len() == 6 && ls.len() == 0 {
        double_triangle_groups(ps)
    } else if ps.len() == 0 && ls.len() == 4 {
        double_quad_groups(ls)
    } else if ps.len() == 3 && ls.len() == 2 {
        quad_and_triangle_groups(ps, ls)
    } else {
        Seq::empty()
    }
}

/// The polygons of cube cell `x`, before their vertices are put in winding order: the
/// isolated corners' triangles, then those of the remaining points and lines.
pub open spec fn cube_groups(x: u8) -> Seq<GroupView> {
    let ls = corner_lists(x);
    isolated_groups(ls) + remainder_groups(point_edges(ls), line_edges(ls))
}

impl Corners<D3> {
    /// The polygons of the cube cell, each as the edges that carry its vertices and, for a
    /// quad, the order that joins them; the vertices are not yet in winding order.
    pub fn march_cube_groups(self) -> (r: Vec<Group>)
        ensures
            groups_view(r@) == cube_groups(self.0),
            quads_indexed(r@),
    {
        let x = self.0;
        let cell = self.cell();
        let ghost cs = cell_corners::<D3>(x, 8);
        let ghost lists = corner_lists(x);
        let mut triangles: Vec<Group> = Vec::new();
        let mut points: Vec<Edge<D3>> = Vec::new();
        let mut lines: Vec<(Edge<D3>, Edge<D3>)> = Vec::new();
        let mut k: usize = 0;
        while k < cell.len()
            invariant
                k <= cell@.len(),
                cell@.len() == cs.len(),
                lists == cs.map_values(|c: u8| mask_edges(corner_cell_mask::<D3>(x, c))),
                forall|q: int|
                    0 <= q < cell@.len() ==> super::cell::is_corner_cell_edges::<D3>(
                        x,
                        #[trigger] cs[q],
                        cell@[q].1.0,
                    ),
                groups_view(triangles@) == isolated_groups(lists.take(k as int)),
                quads_indexed(triangles@),
                edge_bits(points@) == point_edges(lists.take(k as int)),
                line_bits(lines@) == line_edges(lists.take(k as int)),
            decreases cell@.len() - k,
        {
            let es = cell[k].1.edges();
            let ghost l = lists[k as int];
            proof {
                lemma_corner_cell_mask::<D3>(x, cs[k as int], cell@[k as int].1.0);
                assert(edge_bits(es@) =~= l);
                assert(lists.take(k + 1).drop_last() =~= lists.take(k as int));
                assert(lists.take(k + 1).last() == l);
            }
            let ghost (t0, p0, l0) = (triangles@, points@, lines@);
            if es.len() == 3 {
                push_group(&mut triangles, es, false);
            } else if es.len() == 1 {
                points.push(es[0]);
                proof {
                    assert(edge_bits(points@) =~= edge_bits(p0) + l);
                }
            } else if es.len() == 2 {
                lines.push((es[0], es[1]));
                proof {
                    assert(line_bits(lines@) =~= line_bits(l0) + seq![(l[0], l[1])]);
                }
            }
            proof {
                if es@.len() != 1 {
                    assert(points@ == p0);
                }
                if es@.len() != 2 {
                    assert(lines@ == l0);
                }
                if es@.len() != 3 {
                    assert(triangles@ == t0);
                }
            }
            k += 1;
        }
        proof {
            assert(lists.take(cell@.len() as int) =~= lists);
        }
        let (np, nl) = (points.len(), lines.len());
        let mut rest = if np == 3 && nl == 0 {
            triangle(points)
        } else if np == 4 && nl == 0 {
            point_quad(points)
        } else if np == 0 && nl == 2 {
            line_quad(&lines)
        } else if np == 1 && nl == 2 {
            fan(&points, &lines)
        } else if np == 3 && nl == 1 {
            inverse_fan(&points, &lines)
        } else if np == 0 && nl == 3 {
            hexagon(&points, &lines, false)
        } else if np == 2 && nl == 2 {
            hexagon(&points, &lines, true)
        } else if np == 6 && nl == 0 {
            double_triangle(&points)
        } else if np == 0 && nl == 4 {
            double_quad(&lines)
        } else if np == 3 && nl == 2 {
            quad_and_triangle(&points, &lines)
        } else {
            let v: Vec<Group> = Vec::new();
            proof {
                assert(groups_view(v@) =~= Seq::empty());
            }
            v
        };
        let ghost (t0, r0) = (triangles@, rest@);
        triangles.append(&mut rest);
        proof {
            assert(groups_view(triangles@) =~= groups_view(t0) + groups_view(r0));
            assert forall|i: int| 0 <= i < triangles@.len() implies ((#[trigger] triangles@[i]).1 matches Some(
                v,
            ) ==> v@ == quad_indices()) by {
                if i >= t0.len() {
                    assert(triangles@[i] == r0[i - t0.len()]);
                }
            }
        }
        triangles
    }
}

/// Edge bit `b` is a crossing edge of cube cell `x`.
pub open spec fn is_crossing_bit(x: u8, b: u16) -> bool {
    exists|i: u16| i < 16 && b == 1u16 << i && #[trigger] crossing::<D3>(x, i)
}

/// A triangle without indices, or a quad with them.
pub open spec fn group_shaped(g: GroupView) -> bool {
    (g.0.len() == 3 && !g.1) || (g.0.len() == 4 && g.1)
}

/// Every edge of `s` satisfies `p`.
pub open spec fn edges_with(s: Seq<u16>, p: spec_fn(u16) -> bool) -> bool {
    forall|i: int| 0 <= i < s.len() ==> p(#[trigger] s[i])
}

/// Both ends of every line of `ls` satisfy `p`.
pub open spec fn lines_with(ls: Seq<(u16, u16)>, p: spec_fn(u16) -> bool) -> bool {
    forall|i: int| 0 <= i < ls.len() ==> p((#[trigger] ls[i]).0) && p(ls[i].1)
}

/// Every group is shaped, with every edge satisfying `p`.
pub open spec fn groups_with(gs: Seq<GroupView>, p: spec_fn(u16) -> bool) -> bool {
    forall|i: int| 0 <= i < gs.len() ==> group_shaped(#[trigger] gs[i]) && edges_with(gs[i].0, p)
}

/// No edge occurs twice in the lists, neither within one nor across two.
pub open spec fn lists_distinct(ls: Seq<Seq<u16>>) -> bool {
    forall|k1: int, j1: int, k2: int, j2: int|
        0 <= k1 < ls.len() && 0 <= k2 < ls.len() && 0 <= j1 < ls[k1].len() && 0 <= j2 < ls[k2].len()
            && #[trigger] ls[k1][j1] == #[trigger] ls[k2][j2] ==> k1 == k2 && j1 == j2
}

/// No edge occurs twice in `s`.
pub open spec fn no_repeats(s: Seq<u16>) -> bool {
    forall|i: int, j: int| 0 <= i < j < s.len() ==> #[trigger] s[i] != #[trigger] s[j]
}

/// The crossing edges of the cell's corners are crossing edges, each reported once.
proof fn lemma_corner_lists(x: u8)
    ensures
        forall|k: int|
            0 <= k < corner_lists(x).len() ==> edges_with(
                #[trigger] corner_lists(x)[k],
                |b: u16| is_crossing_bit(x, b),
            ),
        lists_distinct(corner_lists(x)),
{
    let ls = corner_lists(x);
    let cs = cell_corners::<D3>(x, 8);
    let p = |b: u16| is_crossing_bit(x, b);
    assert forall|k: int, j: int| 0 <= k < ls.len() && 0 <= j < ls[k].len() implies {
        let i = set_bits16(corner_cell_mask::<D3>(x, cs[k]), 16)[j];
        &&& i < 16
        &&& #[trigger] ls[k][j] == 1u16 << i
        &&& bit16(corner_cell_mask::<D3>(x, cs[k]), i)
        &&& crossing::<D3>(x, i)
    } by {
        let m = corner_cell_mask::<D3>(x, cs[k]);
        lemma_set_bits16_sorted(m, 16);
        let i = set_bits16(m, 16)[j];
        lemma_bit16_and(
            <D3 as crate::cell_topology::CellTopology>::corner_edge_mask(cs[k]),
            crossing_mask::<D3>(x, 16),
            i,
        );
        lemma_crossing_mask::<D3>(x, 16, i);
    }
    assert forall|k: int| 0 <= k < ls.len() implies edges_with(#[trigger] ls[k], p) by {
        assert forall|j: int| 0 <= j < ls[k].len() implies p(#[trigger] ls[k][j]) by {
            let i = set_bits16(corner_cell_mask::<D3>(x, cs[k]), 16)[j];
            assert(ls[k][j] == 1u16 << i);
            assert(crossing::<D3>(x, i));
        }
    }
    assert forall|k1: int, j1: int, k2: int, j2: int|
        0 <= k1 < ls.len() && 0 <= k2 < ls.len() && 0 <= j1 < ls[k1].len() && 0 <= j2 < ls[k2].len()
            && #[trigger] ls[k1][j1] == #[trigger] ls[k2][j2] implies k1 == k2 && j1 == j2 by {
        let m1 = corner_cell_mask::<D3>(x, cs[k1]);
        let m2 = corner_cell_mask::<D3>(x, cs[k2]);
        let i1 = set_bits16(m1, 16)[j1];
        let i2 = set_bits16(m2, 16)[j2];
        assert(ls[k1][j1] == 1u16 << i1);
        assert(ls[k2][j2] == 1u16 << i2);
        if i1 != i2 {
            lemma_u16_one_shl_injective(i1, i2);
        }
        lemma_cell_reports_edge_once::<D3>(x, i1);
        assert(k1 == k2);
        lemma_set_bits16_sorted(m1, 16);
        if j1 < j2 {
            assert(set_bits16(m1, 16)[j1] < set_bits16(m1, 16)[j2]);
        } else if j2 < j1 {
            assert(set_bits16(m1, 16)[j2] < set_bits16(m1, 16)[j1]);
        }
    }
}

/// The isolated corners' triangles are shaped, with edges from the lists.
proof fn lemma_isolated_groups(ls: Seq<Seq<u16>>, p: spec_fn(u16) -> bool)
    requires
        forall|k: int| 0 <= k < ls.len() ==> edges_with(#[trigger] ls[k], p),
    ensures
        groups_with(isolated_groups(ls), p),
    decreases ls.len(),
{
    if ls.len() > 0 {
        let prev = ls.drop_last();
        assert forall|k: int| 0 <= k < prev.len() implies edges_with(#[trigger] prev[k], p) by {
            assert(prev[k] == ls[k]);
        }
        lemma_isolated_groups(prev, p);
        assert(edges_with(ls[ls.len() - 1], p));
        let all = isolated_groups(ls);
        let head = isolated_groups(prev);
        assert forall|i: int| 0 <= i < all.len() implies group_shaped(#[trigger] all[i])
            && edges_with(all[i].0, p) by {
            if i < head.len() {
                assert(all[i] == head[i]);
            }
        }
    }
}

/// The single points come from the lists' one-edge entries: they satisfy what the lists do,
/// and, the lists holding no edge twice, none repeats.
proof fn lemma_point_edges(ls: Seq<Seq<u16>>, p: spec_fn(u16) -> bool)
    requires
        forall|k: int| 0 <= k < ls.len() ==> edges_with(#[trigger] ls[k], p),
        lists_distinct(ls),
    ensures
        edges_with(point_edges(ls), p),
        no_repeats(point_edges(ls)),
        forall|i: int|
            0 <= i < point_edges(ls).len() ==> exists|k: int|
                0 <= k < ls.len() && ls[k].len() == 1 && #[trigger] point_edges(ls)[i] == ls[k][0],
    decreases ls.len(),
{
    if ls.len() > 0 {
        let prev = ls.drop_last();
        let last = ls.last();
        let n = ls.len() - 1;
        assert forall|k: int| 0 <= k < prev.len() implies edges_with(#[trigger] prev[k], p) by {
            assert(prev[k] == ls[k]);
        }
        assert forall|k1: int, j1: int, k2: int, j2: int|
            0 <= k1 < prev.len() && 0 <= k2 < prev.len() && 0 <= j1 < prev[k1].len() && 0 <= j2
                < prev[k2].len() && #[trigger] prev[k1][j1] == #[trigger] prev[k2][j2] implies k1 == k2
            && j1 == j2 by {
            assert(prev[k1] == ls[k1] && prev[k2] == ls[k2]);
            assert(ls[k1][j1] == ls[k2][j2]);
        }
        lemma_point_edges(prev, p);
        let head = point_edges(prev);
        let all = point_edges(ls);
        assert(edges_with(ls[n], p));
        if last.len() == 1 {
            assert(all == head + last);
            assert forall|i: int| 0 <= i < all.len() implies p(#[trigger] all[i]) by {
                if i < head.len() {
                    assert(all[i] == head[i]);
                } else {
                    assert(all[i] == ls[n][0]);
                }
            }
            assert forall|i: int, j: int| 0 <= i < j < all.len() implies #[trigger] all[i]
                != #[trigger] all[j] by {
                if j < head.len() {
                    assert(all[i] == head[i] && all[j] == head[j]);
                } else {
                    assert(all[i] == head[i]);
                    let k = choose|k: int|
                        0 <= k < prev.len() && prev[k].len() == 1 && #[trigger] head[i] == prev[k][0];
                    assert(prev[k] == ls[k]);
                    assert(all[j] == ls[n][0]);
                    if all[i] == all[j] {
                        assert(ls[k][0] == ls[n][0]);
                    }
                }
            }
            assert forall|i: int| 0 <= i < all.len() implies exists|k: int|
                0 <= k < ls.len() && ls[k].len() == 1 && #[trigger] all[i] == ls[k][0] by {
                if i < head.len() {
                    assert(all[i] == head[i]);
                    let k = choose|k: int|
                        0 <= k < prev.len() && prev[k].len() == 1 && #[trigger] head[i] == prev[k][0];
                    assert(prev[k] == ls[k]);
                } else {
                    assert(all[i] == ls[n][0]);
                }
            }
        } else {
            assert(all == head);
            assert forall|i: int| 0 <= i < all.len() implies exists|k: int|
                0 <= k < ls.len() && ls[k].len() == 1 && #[trigger] all[i] == ls[k][0] by {
                let k = choose|k: int|
                    0 <= k < prev.len() && prev[k].len() == 1 && #[trigger] head[i] == prev[k][0];
                assert(prev[k] == ls[k]);
            }
        }
    }
}

/// The lines' ends come from the lists.
proof fn lemma_line_edges(ls: Seq<Seq<u16>>, p: spec_fn(u16) -> bool)
    requires
        forall|k: int| 0 <= k < ls.len() ==> edges_with(#[trigger] ls[k], p),
    ensures
        lines_with(line_edges(ls), p),
    decreases ls.len(),
{
    if ls.len() > 0 {
        let prev = ls.drop_last();
        assert forall|k: int| 0 <= k < prev.len() implies edges_with(#[trigger] prev[k], p) by {
            assert(prev[k] == ls[k]);
        }
        lemma_line_edges(prev, p);
        let n = ls.len() - 1;
        assert(edges_with(ls[n], p));
        let head = line_edges(prev);
        let all = line_edges(ls);
        assert forall|i: int| 0 <= i < all.len() implies p((#[trigger] all[i]).0) && p(all[i].1) by {
            if i < head.len() {
                assert(all[i] == head[i]);
            } else {
                assert(all[i] == (ls[n][0], ls[n][1]));
            }
        }
    }
}

/// Sorting only reorders: every element of the sorted sequence is one of the input's.
proof fn lemma_sort_members<T>(s: Seq<(T, int)>)
    ensures
        sort_stable(s).len() == s.len(),
        forall|i: int| 0 <= i < sort_stable(s).len() ==> s.contains(#[trigger] sort_stable(s)[i]),
    decreases s.len(),
{
    lemma_sort_len(s);
    if s.len() > 0 {
        let prev = s.drop_last();
        lemma_sort_members(prev);
        lemma_sort_insert_members(sort_stable(prev), s.last());
        let r = sort_stable(s);
        assert forall|i: int| 0 <= i < r.len() implies s.contains(#[trigger] r[i]) by {
            if r[i] == s.last() {
                assert(s[s.len() - 1] == r[i]);
            } else {
                assert(sort_stable(prev).contains(r[i]));
                let j = choose|j: int| 0 <= j < sort_stable(prev).len() && sort_stable(prev)[j] == r[i];
                assert(prev.contains(sort_stable(prev)[j]));
                let k = choose|k: int| 0 <= k < prev.len() && prev[k] == r[i];
                assert(s[k] == r[i]);
            }
        }
    }
}

/// Inserting adds only the inserted item.
proof fn lemma_sort_insert_members<T>(s: Seq<(T, int)>, x: (T, int))
    ensures
        forall|i: int|
            0 <= i < sort_insert(s, x).len() ==> #[trigger] sort_insert(s, x)[i] == x || s.contains(
                sort_insert(s, x)[i],
            ),
    decreases s.len(),
{
    if s.len() > 0 && s.last().1 > x.1 {
        let prev = s.drop_last();
        lemma_sort_insert_members(prev, x);
        let r = sort_insert(s, x);
        let h = sort_insert(prev, x);
        assert forall|i: int| 0 <= i < r.len() implies #[trigger] r[i] == x || s.contains(r[i]) by {
            if i < h.len() {
                assert(r[i] == h[i]);
                if h[i] != x {
                    let k = choose|k: int| 0 <= k < prev.len() && prev[k] == h[i];
                    assert(s[k] == r[i]);
                }
            } else {
                assert(r[i] == s[s.len() - 1]);
            }
        }
    } else if s.len() > 0 {
        let r = sort_insert(s, x);
        assert forall|i: int| 0 <= i < r.len() implies #[trigger] r[i] == x || s.contains(r[i]) by {
            if i < s.len() {
                assert(r[i] == s[i]);
            }
        }
    }
}

/// The edges of `keys_from(s, _)`, sorted, are edges of `s`, as many.
proof fn lemma_sorted_keys_from(s: Seq<u16>, from: IPoint, p: spec_fn(u16) -> bool)
    requires
        edges_with(s, p),
    ensures
        items(sort_stable(keys_from(s, from))).len() == s.len(),
        edges_with(items(sort_stable(keys_from(s, from))), p),
{
    let t = keys_from(s, from);
    lemma_sort_members(t);
    let r = items(sort_stable(t));
    assert forall|i: int| 0 <= i < r.len() implies p(#[trigger] r[i]) by {
        assert(t.contains(sort_stable(t)[i]));
        let j = choose|j: int| 0 <= j < t.len() && t[j] == sort_stable(t)[i];
        assert(t[j].0 == s[j]);
    }
}

/// Removing an edge keeps the rest; when it occurs once, exactly one goes.
proof fn lemma_without(s: Seq<u16>, x: u16, p: spec_fn(u16) -> bool)
    requires
        edges_with(s, p),
        no_repeats(s),
    ensures
        edges_with(without(s, x), p),
        without(s, x).len() == if s.contains(x) {
            s.len() - 1
        } else {
            s.len() as int
        },
    decreases s.len(),
{
    if s.len() > 0 {
        let prev = s.drop_last();
        assert forall|i: int| 0 <= i < prev.len() implies p(#[trigger] prev[i]) by {
            assert(prev[i] == s[i]);
        }
        assert forall|i: int, j: int| 0 <= i < j < prev.len() implies #[trigger] prev[i]
            != #[trigger] prev[j] by {
            assert(prev[i] == s[i] && prev[j] == s[j]);
        }
        lemma_without(prev, x, p);
        let w = without(s, x);
        let hw = without(prev, x);
        assert(p(s[s.len() - 1]));
        assert forall|i: int| 0 <= i < w.len() implies p(#[trigger] w[i]) by {
            if i < hw.len() {
                assert(w[i] == hw[i]);
            }
        }
        if s.last() == x {
            assert(!prev.contains(x)) by {
                if prev.contains(x) {
                    let j = choose|j: int| 0 <= j < prev.len() && prev[j] == x;
                    assert(s[j] == s[s.len() - 1]);
                }
            }
            assert(s.contains(x)) by {
                assert(s[s.len() - 1] == x);
            }
        } else {
            assert(s.contains(x) == prev.contains(x)) by {
                if s.contains(x) {
                    let j = choose|j: int| 0 <= j < s.len() && s[j] == x;
                    assert(prev[j] == x);
                }
                if prev.contains(x) {
                    let j = choose|j: int| 0 <= j < prev.len() && prev[j] == x;
                    assert(s[j] == x);
                }
            }
        }
    }
}

/// A line's ends, listed in order: two per line, each an end of some line.
proof fn lemma_line_ends(ls: Seq<(u16, u16)>, p: spec_fn(u16) -> bool)
    requires
        lines_with(ls, p),
    ensures
        line_ends(ls).len() == 2 * ls.len(),
        edges_with(line_ends(ls), p),
    decreases ls.len(),
{
    if ls.len() > 0 {
        let prev = ls.drop_last();
        assert forall|i: int| 0 <= i < prev.len() implies p((#[trigger] prev[i]).0) && p(prev[i].1) by {
            assert(prev[i] == ls[i]);
        }
        lemma_line_ends(prev, p);
        let n = ls.len() - 1;
        assert(p(ls[n].0) && p(ls[n].1));
        let all = line_ends(ls);
        let head = line_ends(prev);
        assert forall|i: int| 0 <= i < all.len() implies p(#[trigger] all[i]) by {
            if i < head.len() {
                assert(all[i] == head[i]);
            } else if i == head.len() {
                assert(all[i] == ls[n].0);
            } else {
                assert(all[i] == ls[n].1);
            }
        }
    }
}

/// Fan groups are shaped and use only the given edges.
proof fn lemma_fan_groups(pt: u16, la: (u16, u16), lb: (u16, u16), p: spec_fn(u16) -> bool)
    requires
        p(pt) && p(la.0) && p(la.1) && p(lb.0) && p(lb.1),
    ensures
        groups_with(fan_groups(pt, la, lb), p),
{
    reveal(far_end);
    let gs = fan_groups(pt, la, lb);
    assert forall|i: int| 0 <= i < gs.len() implies group_shaped(#[trigger] gs[i]) && edges_with(
        gs[i].0,
        p,
    ) by {
        assert forall|j: int| 0 <= j < gs[i].0.len() implies p(#[trigger] gs[i].0[j]) by {}
    }
}

proof fn lemma_inverse_fan_groups(ps: Seq<u16>, l: (u16, u16), p: spec_fn(u16) -> bool)
    requires
        ps.len() == 3,
        p(ps[0]) && p(ps[1]) && p(ps[2]) && p(l.0) && p(l.1),
    ensures
        groups_with(inverse_fan_groups(ps, l), p),
{
    reveal(nearest_of3);
    let gs = inverse_fan_groups(ps, l);
    assert forall|i: int| 0 <= i < gs.len() implies group_shaped(#[trigger] gs[i]) && edges_with(
        gs[i].0,
        p,
    ) by {
        assert forall|j: int| 0 <= j < gs[i].0.len() implies p(#[trigger] gs[i].0[j]) by {}
    }
}

proof fn lemma_hexagon_groups(ps: Seq<u16>, ls: Seq<(u16, u16)>, folded: bool, p: spec_fn(u16) -> bool)
    requires
        folded ==> ps.len() == 2 && ls.len() == 2 && p(ps[0]) && p(ps[1]),
        !folded ==> ls.len() == 3 && p(ls[2].0) && p(ls[2].1),
        p(ls[0].0) && p(ls[0].1) && p(ls[1].0) && p(ls[1].1),
    ensures
        groups_with(hexagon_groups(ps, ls, folded), p),
{
    reveal(far_end);
    reveal(pick2);
    let gs = hexagon_groups(ps, ls, folded);
    assert forall|i: int| 0 <= i < gs.len() implies group_shaped(#[trigger] gs[i]) && edges_with(
        gs[i].0,
        p,
    ) by {
        assert forall|j: int| 0 <= j < gs[i].0.len() implies p(#[trigger] gs[i].0[j]) by {}
    }
}

proof fn lemma_double_triangle_groups(ps: Seq<u16>, p: spec_fn(u16) -> bool)
    requires
        ps.len() == 6,
        edges_with(ps, p),
    ensures
        groups_with(double_triangle_groups(ps), p),
{
    lemma_sorted_keys_from(ps, edge_point(ps[0]), p);
    let srt = items(sort_stable(keys_from(ps, edge_point(ps[0]))));
    let gs = double_triangle_groups(ps);
    assert forall|i: int| 0 <= i < gs.len() implies group_shaped(#[trigger] gs[i]) && edges_with(
        gs[i].0,
        p,
    ) by {
        assert forall|j: int| 0 <= j < gs[i].0.len() implies p(#[trigger] gs[i].0[j]) by {
            if i == 0 {
                assert(gs[i].0[j] == srt[j]);
            } else {
                assert(gs[i].0[j] == srt[j + 3]);
            }
        }
    }
}

proof fn lemma_double_quad_groups(ls: Seq<(u16, u16)>, p: spec_fn(u16) -> bool)
    requires
        ls.len() == 4,
        lines_with(ls, p),
    ensures
        groups_with(double_quad_groups(ls), p),
{
    let a = ls[0];
    let pa = line_center2(a);
    let t = seq![
        (ls[1], dist2(line_center2(ls[1]), pa)),
        (ls[2], dist2(line_center2(ls[2]), pa)),
        (ls[3], dist2(line_center2(ls[3]), pa)),
    ];
    lemma_sort_members(t);
    let srt = sort_stable(t);
    assert forall|k: int| 0 <= k < 3 implies p((#[trigger] srt[k]).0.0) && p(srt[k].0.1) by {
        assert(t.contains(srt[k]));
        let j = choose|j: int| 0 <= j < t.len() && t[j] == srt[k];
        assert(t[j].0 == ls[j + 1]);
    }
    assert(p(a.0) && p(a.1));
    let gs = double_quad_groups(ls);
    assert forall|i: int| 0 <= i < gs.len() implies group_shaped(#[trigger] gs[i]) && edges_with(
        gs[i].0,
        p,
    ) by {
        assert(p(srt[0].0.0) && p(srt[1].0.0) && p(srt[2].0.0));
        assert forall|j: int| 0 <= j < gs[i].0.len() implies p(#[trigger] gs[i].0[j]) by {}
    }
}

proof fn lemma_quad_and_triangle_groups(ps: Seq<u16>, ls: Seq<(u16, u16)>, p: spec_fn(u16) -> bool)
    requires
        ps.len() == 3,
        ls.len() == 2,
        edges_with(ps, p),
        lines_with(ls, p),
        no_repeats(ps),
    ensures
        groups_with(quad_and_triangle_groups(ps, ls), p),
{
    let (c0, c1) = (line_center2(ls[0]), line_center2(ls[1]));
    let lc = (c0.0 + c1.0, c0.1 + c1.1, c0.2 + c1.2);
    let base = nearest_of3(ps, lc, true);
    assert(ps.contains(base)) by {
        reveal(nearest_of3);
        if base == ps[0] {
            assert(ps[0] == base);
        } else if base == ps[1] {
            assert(ps[1] == base);
        } else {
            assert(ps[2] == base);
        }
    }
    lemma_without(ps, base, p);
    let line_verts = seq![ls[0].0, ls[0].1, ls[1].0, ls[1].1];
    assert(p(ls[0].0) && p(ls[0].1) && p(ls[1].0) && p(ls[1].1));
    assert forall|j: int| 0 <= j < 4 implies p(#[trigger] line_verts[j]) by {}
    lemma_sorted_keys_from(line_verts, edge_point(base), p);
    let lv = items(sort_stable(keys_from(line_verts, edge_point(base))));
    let rest = without(ps, base);
    assert(ps.contains(base));
    let gs = quad_and_triangle_groups(ps, ls);
    assert forall|i: int| 0 <= i < gs.len() implies group_shaped(#[trigger] gs[i]) && edges_with(
        gs[i].0,
        p,
    ) by {
        assert(p(lv[0]) && p(lv[1]) && p(lv[2]) && p(lv[3]));
        assert(p(base));
        assert forall|j: int| 0 <= j < gs[i].0.len() implies p(#[trigger] gs[i].0[j]) by {
            if i == 1 && j >= 2 {
                assert(gs[i].0[j] == rest[j - 2]);
            }
        }
    }
}

/// The polygons of the points and lines are shaped, with edges from the points and lines.
proof fn lemma_remainder_groups(ps: Seq<u16>, ls: Seq<(u16, u16)>, p: spec_fn(u16) -> bool)
    requires
        edges_with(ps, p),
        lines_with(ls, p),
        no_repeats(ps),
    ensures
        groups_with(remainder_groups(ps, ls), p),
{
    let gs = remainder_groups(ps, ls);
    if ps.len() == 3 && ls.len() == 0 {
        assert forall|i: int| 0 <= i < gs.len() implies group_shaped(#[trigger] gs[i]) && edges_with(
            gs[i].0,
            p,
        ) by {}
    } else if ps.len() == 4 && ls.len() == 0 {
        assert forall|i: int| 0 <= i < gs.len() implies group_shaped(#[trigger] gs[i]) && edges_with(
            gs[i].0,
            p,
        ) by {}
    } else if ps.len() == 0 && ls.len() == 2 {
        lemma_line_ends(ls, p);
        assert forall|i: int| 0 <= i < gs.len() implies group_shaped(#[trigger] gs[i]) && edges_with(
            gs[i].0,
            p,
        ) by {}
    } else if ps.len() == 1 && ls.len() == 2 {
        assert(p(ps[0]) && p(ls[0].0) && p(ls[0].1) && p(ls[1].0) && p(ls[1].1));
        lemma_fan_groups(ps[0], ls[0], ls[1], p);
    } else if ps.len() == 3 && ls.len() == 1 {
        assert(p(ps[0]) && p(ps[1]) && p(ps[2]) && p(ls[0].0) && p(ls[0].1));
        lemma_inverse_fan_groups(ps, ls[0], p);
    } else if ps.len() == 0 && ls.len() == 3 {
        assert(p(ls[0].0) && p(ls[0].1) && p(ls[1].0) && p(ls[1].1) && p(ls[2].0) && p(ls[2].1));
        lemma_hexagon_groups(ps, ls, false, p);
    } else if ps.len() == 2 && ls.len() == 2 {
        assert(p(ls[0].0) && p(ls[0].1) && p(ls[1].0) && p(ls[1].1) && p(ps[0]) && p(ps[1]));
        lemma_hexagon_groups(ps, ls, true, p);
    } else if ps.len() == 6 && ls.len() == 0 {
        lemma_double_triangle_groups(ps, p);
    } else if ps.len() == 0 && ls.len() == 4 {
        lemma_double_quad_groups(ls, p);
    } else if ps.len() == 3 && ls.len() == 2 {
        lemma_quad_and_triangle_groups(ps, ls, p);
    }
}

/// Every polygon of a cube cell is a triangle without indices, or a quad with the quad
/// indices, and each of its vertices lies on a crossing edge of the cell.
pub proof fn lemma_cube_groups(x: u8)
    ensures
        groups_with(cube_groups(x), |b: u16| is_crossing_bit(x, b)),
{
    let p = |b: u16| is_crossing_bit(x, b);
    let ls = corner_lists(x);
    lemma_corner_lists(x);
    lemma_isolated_groups(ls, p);
    lemma_point_edges(ls, p);
    lemma_line_edges(ls, p);
    lemma_remainder_groups(point_edges(ls), line_edges(ls), p);
    let a = isolated_groups(ls);
    let b = remainder_groups(point_edges(ls), line_edges(ls));
    let all = cube_groups(x);
    assert(all == a + b);
    assert forall|i: int| 0 <= i < all.len() implies group_shaped(#[trigger] all[i]) && edges_with(
        all[i].0,
        p,
    ) by {
        if i < a.len() {
            assert(all[i] == a[i]);
        } else {
            assert(all[i] == b[i - a.len()]);
        }
    }
}


/// The squared distance between the midpoints of two cube edges.
pub open spec fn edge_dist2(a: u16, b: u16) -> int {
    dist2(edge_point(a), edge_point(b))
}

/// The fan of a point and two lines: each line forms a triangle with the point, and the third
/// triangle closes the fan from each line's end farthest from the point, through the point,
/// so that the three triangles tile the pentagon that the five edges span.
pub proof fn lemma_fan_far_ends(p: u16, la: (u16, u16), lb: (u16, u16))
    ensures
        ({
            let g = fan_groups(p, la, lb);
            &&& g.len() == 3
            &&& g[0] == (seq![la.0, la.1, p], false)
            &&& g[1] == (seq![lb.0, lb.1, p], false)
            &&& !g[2].1 && g[2].0.len() == 3 && g[2].0[1] == p
            &&& (g[2].0[0] == la.0 || g[2].0[0] == la.1)
            &&& edge_dist2(g[2].0[0], p) >= edge_dist2(la.0, p)
            &&& edge_dist2(g[2].0[0], p) >= edge_dist2(la.1, p)
            &&& (g[2].0[2] == lb.0 || g[2].0[2] == lb.1)
            &&& edge_dist2(g[2].0[2], p) >= edge_dist2(lb.0, p)
            &&& edge_dist2(g[2].0[2], p) >= edge_dist2(lb.1, p)
        }),
{
    reveal(far_end);
}

/// Three points and a line: the fan turns around one of the points, from the point nearest
/// the line's first end, over the line, to the point nearest its second end; when those two
/// are different points, the centre is the third.
pub proof fn lemma_inverse_fan_nearest(ps: Seq<u16>, l: (u16, u16))
    requires
        ps.len() == 3,
        ps[0] != ps[1] && ps[0] != ps[2] && ps[1] != ps[2],
    ensures
        ({
            let g = inverse_fan_groups(ps, l);
            let (pl, pc, pr) = (g[0].0[0], g[0].0[1], g[2].0[2]);
            &&& g.len() == 3
            &&& g[0] == (seq![pl, pc, l.0], false)
            &&& g[1] == (seq![l.0, pc, l.1], false)
            &&& g[2] == (seq![l.1, pc, pr], false)
            &&& ps.contains(pl) && ps.contains(pc) && ps.contains(pr)
            &&& forall|i: int| 0 <= i < 3 ==> edge_dist2(pl, l.0) <= edge_dist2(#[trigger] ps[i], l.0)
            &&& forall|i: int| 0 <= i < 3 ==> edge_dist2(pr, l.1) <= edge_dist2(#[trigger] ps[i], l.1)
            &&& pl != pr ==> pc != pl && pc != pr
        }),
{
    reveal(nearest_of3);
    let g = inverse_fan_groups(ps, l);
    let pl = nearest_of3(ps, edge_point(l.0), false);
    let pr = nearest_of3(ps, edge_point(l.1), false);
    let pc = other3(ps, pl, pr);
    assert(ps.contains(pl)) by {
        if pl == ps[0] { assert(ps[0] == pl); } else if pl == ps[1] { assert(ps[1] == pl); } else { assert(ps[2] == pl); }
    }
    assert(ps.contains(pr)) by {
        if pr == ps[0] { assert(ps[0] == pr); } else if pr == ps[1] { assert(ps[1] == pr); } else { assert(ps[2] == pr); }
    }
    assert(ps.contains(pc)) by {
        if pc == ps[0] { assert(ps[0] == pc); } else if pc == ps[1] { assert(ps[1] == pc); } else { assert(ps[2] == pc); }
    }
}

/// The first line's partner line in the four-line case: the one whose middle is at the median
/// distance from the first line's middle.
pub open spec fn line_key(ls: Seq<(u16, u16)>, j: int) -> int {
    dist2(line_center2(ls[j]), line_center2(ls[0]))
}

/// Four lines: the first quad joins the first line with the line whose middle lies at the
/// median distance from the first line's middle (one of the other two lines is no farther,
/// the other no nearer), and the second quad joins those two other lines.
pub proof fn lemma_double_quad_median(ls: Seq<(u16, u16)>)
    requires
        ls.len() == 4,
    ensures
        exists|m: int, o0: int, o1: int|
            {
                &&& 1 <= m < 4 && 1 <= o0 < 4 && 1 <= o1 < 4
                &&& m != o0 && m != o1 && o0 != o1
                &&& line_key(ls, o0) <= line_key(ls, m) <= line_key(ls, o1)
                &&& #[trigger] double_quad_groups(ls) == seq![
                    (seq![ls[0].0, ls[0].1, ls[m].0, ls[m].1], true),
                    (seq![ls[o0].0, ls[o0].1, ls[o1].0, ls[o1].1], true),
                ]
            },
{
    reveal_with_fuel(sort_stable, 4);
    reveal_with_fuel(sort_insert, 4);
    let (k1, k2, k3) = (line_key(ls, 1), line_key(ls, 2), line_key(ls, 3));
    let s = seq![(ls[1], k1), (ls[2], k2), (ls[3], k3)];
    assert(s.drop_last().drop_last() =~= seq![(ls[1], k1)]);
    assert(s.drop_last() =~= seq![(ls[1], k1), (ls[2], k2)]);
    assert(seq![(ls[1], k1)].drop_last() =~= Seq::<((u16, u16), int)>::empty());
    let sorted = sort_stable(s);
    let g = double_quad_groups(ls);
    if k1 <= k2 {
        if k2 <= k3 {
            assert(sorted =~= seq![(ls[1], k1), (ls[2], k2), (ls[3], k3)]);
            assert(g == seq![(seq![ls[0].0, ls[0].1, ls[2].0, ls[2].1], true), (seq![ls[1].0, ls[1].1, ls[3].0, ls[3].1], true)]);
        } else if k1 <= k3 {
            assert(sorted =~= seq![(ls[1], k1), (ls[3], k3), (ls[2], k2)]);
            assert(g == seq![(seq![ls[0].0, ls[0].1, ls[3].0, ls[3].1], true), (seq![ls[1].0, ls[1].1, ls[2].0, ls[2].1], true)]);
        } else {
            assert(sorted =~= seq![(ls[3], k3), (ls[1], k1), (ls[2], k2)]);
            assert(g == seq![(seq![ls[0].0, ls[0].1, ls[1].0, ls[1].1], true), (seq![ls[3].0, ls[3].1, ls[2].0, ls[2].1], true)]);
        }
    } else {
        if k1 <= k3 {
            assert(sorted =~= seq![(ls[2], k2), (ls[1], k1), (ls[3], k3)]);
            assert(g == seq![(seq![ls[0].0, ls[0].1, ls[1].0, ls[1].1], true), (seq![ls[2].0, ls[2].1, ls[3].0, ls[3].1], true)]);
        } else if k2 <= k3 {
            assert(sorted =~= seq![(ls[2], k2), (ls[3], k3), (ls[1], k1)]);
            assert(g == seq![(seq![ls[0].0, ls[0].1, ls[3].0, ls[3].1], true), (seq![ls[2].0, ls[2].1, ls[1].0, ls[1].1], true)]);
        } else {
            assert(sorted =~= seq![(ls[3], k3), (ls[2], k2), (ls[1], k1)]);
            assert(g == seq![(seq![ls[0].0, ls[0].1, ls[2].0, ls[2].1], true), (seq![ls[3].0, ls[3].1, ls[1].0, ls[1].1], true)]);
        }
    }
}

/// The keys of `s` never decrease.
pub open spec fn keys_sorted<T>(s: Seq<(T, int)>) -> bool {
    forall|i: int, j: int| 0 <= i < j < s.len() ==> s[i].1 <= s[j].1
}

/// Inserting into a sequence sorted by key keeps it sorted and adds just the inserted item.
proof fn lemma_sort_insert_props<T>(s: Seq<(T, int)>, x: (T, int))
    requires
        keys_sorted(s),
    ensures
        keys_sorted(sort_insert(s, x)),
        sort_insert(s, x).to_multiset() =~= s.to_multiset().insert(x),
    decreases s.len(),
{
    broadcast use vstd::seq_lib::to_multiset_build, vstd::seq_lib::to_multiset_contains;
    broadcast use vstd::multiset::group_multiset_axioms;
    if s.len() == 0 {
        assert(seq![x] =~= s.push(x));
    } else if s.last().1 <= x.1 {
    } else {
        let p = s.drop_last();
        let last = s.last();
        assert(p.push(last) =~= s);
        lemma_sort_insert_props(p, x);
        let q = sort_insert(p, x);
        assert forall|i: int| 0 <= i < q.len() implies q[i].1 <= last.1 by {
            assert(q.contains(q[i]));
            assert(q.to_multiset().count(q[i]) > 0);
            if q[i] != x {
                assert(p.to_multiset().count(q[i]) > 0);
                assert(p.contains(q[i]));
                let k = choose|k: int| 0 <= k < p.len() && p[k] == q[i];
                assert(s[k] == p[k]);
                assert(s[k].1 <= s[s.len() - 1].1);
            }
        }
        assert(sort_insert(s, x) == q.push(last));
        assert forall|i: int, j: int| 0 <= i < j < q.push(last).len() implies q.push(last)[i].1
            <= q.push(last)[j].1 by {
            if j == q.len() {
                assert(q.push(last)[i] == q[i]);
            } else {
                assert(q.push(last)[i] == q[i]);
                assert(q.push(last)[j] == q[j]);
            }
        }
    }
}

/// Sorting by key gives a sequence sorted by key with the same items, each as often.
pub proof fn lemma_sort_stable_props<T>(s: Seq<(T, int)>)
    ensures
        keys_sorted(sort_stable(s)),
        sort_stable(s).to_multiset() =~= s.to_multiset(),
    decreases s.len(),
{
    broadcast use vstd::seq_lib::to_multiset_build;
    if s.len() > 0 {
        lemma_sort_stable_props(s.drop_last());
        lemma_sort_insert_props(sort_stable(s.drop_last()), s.last());
        assert(s.drop_last().push(s.last()) =~= s);
    }
}

/// Edges sorted by their distance from `from`: as many as given, nearest first, each keyed
/// by its own distance, each one of the given edges, and every given edge among them.
proof fn lemma_sorted_keys(ps: Seq<u16>, from: IPoint)
    ensures
        ({
            let st = sort_stable(keys_from(ps, from));
            &&& st.len() == ps.len()
            &&& keys_sorted(st)
            &&& forall|i: int|
                0 <= i < st.len() ==> st[i].1 == dist2(edge_point(st[i].0), from) && ps.contains(
                    #[trigger] st[i].0,
                )
            &&& forall|i: int| 0 <= i < ps.len() ==> items(st).contains(#[trigger] ps[i])
        }),
{
    broadcast use vstd::seq_lib::to_multiset_contains, vstd::seq_lib::to_multiset_len;
    let k = keys_from(ps, from);
    let st = sort_stable(k);
    lemma_sort_stable_props(k);
    assert(st.len() == st.to_multiset().len());
    assert(k.len() == k.to_multiset().len());
    assert forall|i: int| 0 <= i < st.len() implies st[i].1 == dist2(edge_point(st[i].0), from)
        && ps.contains(#[trigger] st[i].0) by {
        assert(st.contains(st[i]));
        assert(st.to_multiset().count(st[i]) > 0);
        assert(k.contains(st[i]));
        let j = choose|j: int| 0 <= j < k.len() && k[j] == st[i];
        assert(ps[j] == st[i].0);
    }
    assert forall|i: int| 0 <= i < ps.len() implies items(st).contains(#[trigger] ps[i]) by {
        assert(k[i] == (ps[i], dist2(edge_point(ps[i]), from)));
        assert(k.contains(k[i]));
        assert(k.to_multiset().count(k[i]) > 0);
        assert(st.contains(k[i]));
        let j = choose|j: int| 0 <= j < st.len() && st[j] == k[i];
        assert(items(st)[j] == ps[i]);
    }
}

/// Six points: two triangles that together use each of them, the first made of points no
/// farther from the first point than any point of the second.
pub proof fn lemma_double_triangle_nearest(ps: Seq<u16>)
    requires
        ps.len() == 6,
    ensures
        ({
            let g = double_triangle_groups(ps);
            &&& g.len() == 2 && !g[0].1 && !g[1].1
            &&& g[0].0.len() == 3 && g[1].0.len() == 3
            &&& forall|k: int, i: int| 0 <= k < 2 && 0 <= i < 3 ==> ps.contains(#[trigger] g[k].0[i])
            &&& forall|j: int| 0 <= j < 6 ==> g[0].0.contains(#[trigger] ps[j]) || g[1].0.contains(ps[j])
            &&& forall|i: int, j: int|
                0 <= i < 3 && 0 <= j < 3 ==> edge_dist2(#[trigger] g[0].0[i], ps[0]) <= edge_dist2(
                    #[trigger] g[1].0[j],
                    ps[0],
                )
        }),
{
    let from = edge_point(ps[0]);
    lemma_sorted_keys(ps, from);
    let st = sort_stable(keys_from(ps, from));
    let it = items(st);
    let g = double_triangle_groups(ps);
    assert(g[0].0 =~= it.subrange(0, 3));
    assert(g[1].0 =~= it.subrange(3, 6));
    assert forall|k: int, i: int| 0 <= k < 2 && 0 <= i < 3 implies ps.contains(#[trigger] g[k].0[i]) by {
        assert(g[k].0[i] == st[3 * k + i].0);
    }
    assert forall|j: int| 0 <= j < 6 implies g[0].0.contains(#[trigger] ps[j]) || g[1].0.contains(ps[j]) by {
        let m = choose|m: int| 0 <= m < it.len() && it[m] == ps[j];
        if m < 3 {
            assert(g[0].0[m] == ps[j]);
        } else {
            assert(g[1].0[m - 3] == ps[j]);
        }
    }
    assert forall|i: int, j: int| 0 <= i < 3 && 0 <= j < 3 implies edge_dist2(
        #[trigger] g[0].0[i],
        ps[0],
    ) <= edge_dist2(#[trigger] g[1].0[j], ps[0]) by {
        assert(g[0].0[i] == st[i].0);
        assert(g[1].0[j] == st[3 + j].0);
        assert(st[i].1 <= st[3 + j].1);
    }
}

/// Three points and two lines: the triangle joins the point nearest the middle of the two
/// lines with the two line ends nearest that point; the quad joins the other two line ends
/// with the other two points.
pub proof fn lemma_quad_and_triangle_nearest(ps: Seq<u16>, ls: Seq<(u16, u16)>)
    requires
        ps.len() == 3,
        ls.len() == 2,
        ps[0] != ps[1] && ps[0] != ps[2] && ps[1] != ps[2],
    ensures
        ({
            let g = quad_and_triangle_groups(ps, ls);
            let ends = seq![ls[0].0, ls[0].1, ls[1].0, ls[1].1];
            let (c0, c1) = (line_center2(ls[0]), line_center2(ls[1]));
            let lc = (c0.0 + c1.0, c0.1 + c1.1, c0.2 + c1.2);
            let base = g[0].0[2];
            &&& g.len() == 2 && !g[0].1 && g[1].1
            &&& g[0].0.len() == 3 && g[1].0.len() == 4
            &&& ps.contains(base)
            &&& forall|i: int|
                0 <= i < 3 ==> dist2(double(edge_point(base)), lc) <= dist2(
                    double(edge_point(#[trigger] ps[i])),
                    lc,
                )
            &&& ends.contains(g[0].0[0]) && ends.contains(g[0].0[1])
            &&& ends.contains(g[1].0[0]) && ends.contains(g[1].0[1])
            &&& forall|j: int|
                0 <= j < 4 ==> g[0].0.contains(#[trigger] ends[j]) || g[1].0.contains(ends[j])
            &&& forall|i: int, j: int|
                0 <= i < 2 && 0 <= j < 2 ==> edge_dist2(#[trigger] g[0].0[i], base) <= edge_dist2(
                    #[trigger] g[1].0[j],
                    base,
                )
            &&& ps.contains(g[1].0[2]) && ps.contains(g[1].0[3])
            &&& g[1].0[2] != base && g[1].0[3] != base && g[1].0[2] != g[1].0[3]
        }),
{
    reveal(nearest_of3);
    let g = quad_and_triangle_groups(ps, ls);
    let ends = seq![ls[0].0, ls[0].1, ls[1].0, ls[1].1];
    let (c0, c1) = (line_center2(ls[0]), line_center2(ls[1]));
    let lc = (c0.0 + c1.0, c0.1 + c1.1, c0.2 + c1.2);
    let base = nearest_of3(ps, lc, true);
    assert(ps.contains(base)) by {
        if base == ps[0] { assert(ps[0] == base); } else if base == ps[1] { assert(ps[1] == base); } else { assert(ps[2] == base); }
    }
    let from = edge_point(base);
    lemma_sorted_keys(ends, from);
    let st = sort_stable(keys_from(ends, from));
    let lv = items(st);
    assert(g[0].0 == seq![lv[0], lv[1], base]);
    let rest = without(ps, base);
    reveal_with_fuel(without, 4);
    assert(ps.drop_last().drop_last().drop_last() =~= Seq::<u16>::empty());
    assert(ps.drop_last().drop_last() =~= seq![ps[0]]);
    assert(ps.drop_last() =~= seq![ps[0], ps[1]]);
    if base == ps[0] {
        assert(rest =~= seq![ps[1], ps[2]]);
    } else if base == ps[1] {
        assert(rest =~= seq![ps[0], ps[2]]);
    } else {
        assert(rest =~= seq![ps[0], ps[1]]);
    }
    assert(g[1].0 =~= seq![lv[2], lv[3]] + rest);
    assert(ends.contains(lv[0]) && ends.contains(lv[1]) && ends.contains(lv[2]) && ends.contains(lv[3])) by {
        assert(lv[0] == st[0].0 && lv[1] == st[1].0 && lv[2] == st[2].0 && lv[3] == st[3].0);
    }
    assert forall|j: int| 0 <= j < 4 implies g[0].0.contains(#[trigger] ends[j]) || g[1].0.contains(ends[j]) by {
        let m = choose|m: int| 0 <= m < lv.len() && lv[m] == ends[j];
        if m < 2 {
            assert(g[0].0[m] == ends[j]);
        } else {
            assert(g[1].0[m - 2] == ends[j]);
        }
    }
    assert forall|i: int, j: int| 0 <= i < 2 && 0 <= j < 2 implies edge_dist2(#[trigger] g[0].0[i], base)
        <= edge_dist2(#[trigger] g[1].0[j], base) by {
        assert(g[0].0[i] == st[i].0);
        assert(g[1].0[j] == st[2 + j].0);
        assert(st[i].1 <= st[2 + j].1);
    }
}

/// Two lines and a base of two edges (two points when `folded`, else the middle line): each
/// line makes a triangle with the base edge nearest its middle (farthest, when folded), and
/// the quad joins those two base edges with each line's end farthest from its base edge.
#[verifier::spinoff_prover]
#[verifier::rlimit(40)]
pub proof fn lemma_hexagon_picks(ps: Seq<u16>, ls: Seq<(u16, u16)>, folded: bool)
    requires
        folded ==> ps.len() == 2 && ls.len() == 2,
        !folded ==> ls.len() == 3,
    ensures
        ({
            let g = hexagon_groups(ps, ls, folded);
            let base = if folded { ps } else { seq![ls[1].0, ls[1].1] };
            let l = ls[0];
            let r = if folded { ls[1] } else { ls[2] };
            let (pl, pr) = (g[0].0[2], g[1].0[2]);
            let q = g[2].0;
            let (fl, fr) = if folded { (q[1], q[2]) } else { (q[0], q[3]) };
            &&& g.len() == 3
            &&& g[0] == (seq![l.0, l.1, pl], false)
            &&& g[1] == (seq![r.0, r.1, pr], false)
            &&& g[2].1 && q.len() == 4
            &&& q == (if folded { seq![pl, fl, fr, pr] } else { seq![fl, pl, pr, fr] })
            &&& base.contains(pl) && base.contains(pr)
            &&& folded ==> forall|i: int|
                0 <= i < 2 ==> dist2(double(edge_point(pl)), line_center2(l)) >= dist2(
                    double(edge_point(#[trigger] base[i])),
                    line_center2(l),
                ) && dist2(double(edge_point(pr)), line_center2(r)) >= dist2(
                    double(edge_point(base[i])),
                    line_center2(r),
                )
            &&& !folded ==> forall|i: int|
                0 <= i < 2 ==> dist2(double(edge_point(pl)), line_center2(l)) <= dist2(
                    double(edge_point(#[trigger] base[i])),
                    line_center2(l),
                ) && dist2(double(edge_point(pr)), line_center2(r)) <= dist2(
                    double(edge_point(base[i])),
                    line_center2(r),
                )
            &&& (fl == l.0 || fl == l.1) && (fr == r.0 || fr == r.1)
            &&& edge_dist2(fl, pl) >= edge_dist2(l.0, pl) && edge_dist2(fl, pl) >= edge_dist2(l.1, pl)
            &&& edge_dist2(fr, pr) >= edge_dist2(r.0, pr) && edge_dist2(fr, pr) >= edge_dist2(r.1, pr)
        }),
{
    reveal(pick2);
    reveal(far_end);
    let base = if folded { ps } else { seq![ls[1].0, ls[1].1] };
    let l = ls[0];
    let r = if folded { ls[1] } else { ls[2] };
    let pl = pick2(base, line_center2(l), folded);
    let pr = pick2(base, line_center2(r), folded);
    assert(base.contains(pl)) by {
        if pl == base[0] { assert(base[0] == pl); } else { assert(base[1] == pl); }
    }
    assert(base.contains(pr)) by {
        if pr == base[0] { assert(base[0] == pr); } else { assert(base[1] == pr); }
    }
}
} // verus!
