//! The faces of a three-dimensional dual contour.
//!
//! Each dual edge joins the points placed in two neighbouring cells; points are named by
//! index. Two dual edges that share an end make a path of three points with the shared point
//! in the middle, and two paths with the same ends and different middles close a
//! quadrilateral: a face of the contour.
use vstd::prelude::*;

verus! {

/// Nothing, or the one value.
pub open spec fn option_seq<T>(o: Option<T>) -> Seq<T> {
    match o {
        Some(x) => seq![x],
        None => Seq::empty(),
    }
}

/// What `f` makes of `l` with each of `rs`, in order.
pub open spec fn row_of<A, B>(l: A, rs: Seq<A>, f: spec_fn(A, A) -> Option<B>) -> Seq<B>
    decreases rs.len(),
{
    if rs.len() == 0 {
        Seq::empty()
    } else {
        row_of(l, rs.drop_last(), f) + option_seq(f(l, rs.last()))
    }
}

/// What `f` makes of each of `ls` with each of `rs`, row by row.
pub open spec fn all_pairs<A, B>(ls: Seq<A>, rs: Seq<A>, f: spec_fn(A, A) -> Option<B>) -> Seq<B>
    decreases ls.len(),
{
    if ls.len() == 0 {
        Seq::empty()
    } else {
        all_pairs(ls.drop_last(), rs, f) + row_of(ls.last(), rs, f)
    }
}

/// `s` without each item that an earlier kept item covers: an item is kept unless one
/// already kept covers it.
pub open spec fn dedup_by<T>(s: Seq<T>, covers: spec_fn(T, T) -> bool) -> Seq<T>
    decreases s.len(),
{
    if s.len() == 0 {
        Seq::empty()
    } else {
        let u = dedup_by(s.drop_last(), covers);
        if exists|k: int| 0 <= k < u.len() && covers(u[k], s.last()) {
            u
        } else {
            u.push(s.last())
        }
    }
}

/// The path of three points that dual edges `l` and `r` make where they share an end, the
/// shared point in the middle; none where the edges are equal or share no end.
pub open spec fn path_of(l: (usize, usize), r: (usize, usize)) -> Option<(usize, usize, usize)> {
    if l == r {
        None
    } else if l.0 == r.0 {
        Some((l.1, l.0, r.1))
    } else if l.0 == r.1 {
        Some((l.1, l.0, r.0))
    } else if l.1 == r.0 {
        Some((l.0, l.1, r.1))
    } else if l.1 == r.1 {
        Some((l.0, l.1, r.0))
    } else {
        None
    }
}

/// `path_of`, as a function value.
pub open spec fn path_fn() -> spec_fn((usize, usize), (usize, usize)) -> Option<
    (usize, usize, usize),
> {
    |l: (usize, usize), r: (usize, usize)| path_of(l, r)
}

/// The kept path `kept` is candidate `cand`, read either way.
pub open spec fn same_path(kept: (usize, usize, usize), cand: (usize, usize, usize)) -> bool {
    (cand.0 == kept.0 && cand.1 == kept.1 && cand.2 == kept.2) || (cand.0 == kept.2 && cand.1
        == kept.1 && cand.2 == kept.0)
}

/// `same_path`, as a function value.
pub open spec fn same_path_fn() -> spec_fn((usize, usize, usize), (usize, usize, usize)) -> bool {
    |kept: (usize, usize, usize), cand: (usize, usize, usize)| same_path(kept, cand)
}

/// The quadrilateral that paths `l` and `r` close where they have the same ends and
/// different middles: `l`'s points, then `r`'s middle.
pub open spec fn loop_of(l: (usize, usize, usize), r: (usize, usize, usize)) -> Option<
    (usize, usize, usize, usize),
> {
    if l.0 == r.0 && l.1 != r.1 && l.2 == r.2 {
        Some((l.0, l.1, l.2, r.1))
    } else if l.2 == r.0 && l.1 != r.1 && l.0 == r.2 {
        Some((l.2, l.1, l.0, r.1))
    } else {
        None
    }
}

/// `loop_of`, as a function value.
pub open spec fn loop_fn() -> spec_fn((usize, usize, usize), (usize, usize, usize)) -> Option<
    (usize, usize, usize, usize),
> {
    |l: (usize, usize, usize), r: (usize, usize, usize)| loop_of(l, r)
}

/// Point `p` is a corner of quadrilateral `q`.
pub open spec fn quad_has(q: (usize, usize, usize, usize), p: usize) -> bool {
    q.0 == p || q.1 == p || q.2 == p || q.3 == p
}

/// Every corner of candidate `cand` is a corner of the kept quadrilateral `kept`.
pub open spec fn quad_covers(kept: (usize, usize, usize, usize), cand: (usize, usize, usize, usize)) -> bool {
    quad_has(kept, cand.0) && quad_has(kept, cand.1) && quad_has(kept, cand.2) && quad_has(
        kept,
        cand.3,
    )
}

/// `quad_covers`, as a function value.
pub open spec fn quad_covers_fn() -> spec_fn((usize, usize, usize, usize), (usize, usize, usize, usize)) -> bool {
    |kept: (usize, usize, usize, usize), cand: (usize, usize, usize, usize)| quad_covers(kept, cand)
}

/// The paths of three points that the dual edges make, each counted once either way round.
pub open spec fn dual_paths(edges: Seq<(usize, usize)>) -> Seq<(usize, usize, usize)> {
    dedup_by(all_pairs(edges, edges, path_fn()), same_path_fn())
}

/// The faces of the dual contour with dual edges `edges`: the quadrilaterals that its paths
/// close, each set of corners counted once.
pub open spec fn dual_quads_of(edges: Seq<(usize, usize)>) -> Seq<(usize, usize, usize, usize)> {
    let paths = dual_paths(edges);
    dedup_by(all_pairs(paths, paths, loop_fn()), quad_covers_fn())
}

fn path_of_exec(l: (usize, usize), r: (usize, usize)) -> (o: Option<(usize, usize, usize)>)
    ensures
        o == path_of(l, r),
{
    if l.0 == r.0 && l.1 == r.1 {
        None
    } else if l.0 == r.0 {
        Some((l.1, l.0, r.1))
    } else if l.0 == r.1 {
        Some((l.1, l.0, r.0))
    } else if l.1 == r.0 {
        Some((l.0, l.1, r.1))
    } else if l.1 == r.1 {
        Some((l.0, l.1, r.0))
    } else {
        None
    }
}

fn loop_of_exec(l: (usize, usize, usize), r: (usize, usize, usize)) -> (o: Option<
    (usize, usize, usize, usize),
>)
    ensures
        o == loop_of(l, r),
{
    if l.0 == r.0 && l.1 != r.1 && l.2 == r.2 {
        Some((l.0, l.1, l.2, r.1))
    } else if l.2 == r.0 && l.1 != r.1 && l.0 == r.2 {
        Some((l.2, l.1, l.0, r.1))
    } else {
        None
    }
}

/// Taking one more item of the left side adds its row.
proof fn lemma_all_pairs_step<A, B>(s: Seq<A>, rs: Seq<A>, i: int, f: spec_fn(A, A) -> Option<B>)
    requires
        0 <= i < s.len(),
    ensures
        all_pairs(s.take(i + 1), rs, f) == all_pairs(s.take(i), rs, f) + row_of(s[i], rs, f),
{
    assert(s.take(i + 1).drop_last() =~= s.take(i));
}

/// Taking one more item of the right side adds what `f` makes of it.
proof fn lemma_row_step<A, B>(l: A, s: Seq<A>, j: int, f: spec_fn(A, A) -> Option<B>)
    requires
        0 <= j < s.len(),
    ensures
        row_of(l, s.take(j + 1), f) == row_of(l, s.take(j), f) + option_seq(f(l, s[j])),
{
    assert(s.take(j + 1).drop_last() =~= s.take(j));
}

/// Every path of three points that two of the dual edges make where they share an end,
/// for each edge in turn against each edge.
pub fn edge_paths(edges: &Vec<(usize, usize)>) -> (r: Vec<(usize, usize, usize)>)
    ensures
        r@ == all_pairs(edges@, edges@, path_fn()),
{
    let ghost f = path_fn();
    let mut out: Vec<(usize, usize, usize)> = Vec::new();
    let mut i: usize = 0;
    while i < edges.len()
        invariant
            i <= edges@.len(),
            f == path_fn(),
            out@ == all_pairs(edges@.take(i as int), edges@, f),
        decreases edges@.len() - i,
    {
        let l = edges[i];
        let mut j: usize = 0;
        while j < edges.len()
            invariant
                i < edges@.len(),
                j <= edges@.len(),
                l == edges@[i as int],
                f == path_fn(),
                out@ == all_pairs(edges@.take(i as int), edges@, f) + row_of(
                    l,
                    edges@.take(j as int),
                    f,
                ),
            decreases edges@.len() - j,
        {
            let r = edges[j];
            proof {
                lemma_row_step(l, edges@, j as int, f);
            }
            match path_of_exec(l, r) {
                Some(p) => {
                    out.push(p);
                },
                None => {},
            }
            j += 1;
        }
        proof {
            assert(edges@.take(edges@.len() as int) =~= edges@);
            lemma_all_pairs_step(edges@, edges@, i as int, f);
        }
        i += 1;
    }
    proof {
        assert(edges@.take(edges@.len() as int) =~= edges@);
    }
    out
}

/// The paths, each kept unless an earlier kept path is the same path either way round.
pub fn unique_paths(paths: &Vec<(usize, usize, usize)>) -> (r: Vec<(usize, usize, usize)>)
    ensures
        r@ == dedup_by(paths@, same_path_fn()),
{
    let ghost f = same_path_fn();
    let mut out: Vec<(usize, usize, usize)> = Vec::new();
    let mut i: usize = 0;
    while i < paths.len()
        invariant
            i <= paths@.len(),
            f == same_path_fn(),
            out@ == dedup_by(paths@.take(i as int), f),
        decreases paths@.len() - i,
    {
        let cand = paths[i];
        let mut found = false;
        let mut k: usize = 0;
        while k < out.len()
            invariant
                k <= out@.len(),
                f == same_path_fn(),
                found <==> exists|m: int| 0 <= m < k && #[trigger] f(out@[m], cand),
            decreases out@.len() - k,
        {
            let kept = out[k];
            if (cand.0 == kept.0 && cand.1 == kept.1 && cand.2 == kept.2) || (cand.0 == kept.2
                && cand.1 == kept.1 && cand.2 == kept.0) {
                found = true;
            }
            assert(f(out@[k as int], cand) == same_path(kept, cand));
            k += 1;
        }
        proof {
            assert(paths@.take(i + 1).drop_last() =~= paths@.take(i as int));
            assert(paths@.take(i + 1).last() == cand);
        }
        if !found {
            out.push(cand);
        }
        i += 1;
    }
    proof {
        assert(paths@.take(paths@.len() as int) =~= paths@);
    }
    out
}

/// Every quadrilateral that two of the paths close, for each path in turn against each path.
pub fn edge_loops(paths: &Vec<(usize, usize, usize)>) -> (r: Vec<(usize, usize, usize, usize)>)
    ensures
        r@ == all_pairs(paths@, paths@, loop_fn()),
{
    let ghost f = loop_fn();
    let mut out: Vec<(usize, usize, usize, usize)> = Vec::new();
    let mut i: usize = 0;
    while i < paths.len()
        invariant
            i <= paths@.len(),
            f == loop_fn(),
            out@ == all_pairs(paths@.take(i as int), paths@, f),
        decreases paths@.len() - i,
    {
        let l = paths[i];
        let mut j: usize = 0;
        while j < paths.len()
            invariant
                i < paths@.len(),
                j <= paths@.len(),
                l == paths@[i as int],
                f == loop_fn(),
                out@ == all_pairs(paths@.take(i as int), paths@, f) + row_of(
                    l,
                    paths@.take(j as int),
                    f,
                ),
            decreases paths@.len() - j,
        {
            let r = paths[j];
            proof {
                lemma_row_step(l, paths@, j as int, f);
            }
            match loop_of_exec(l, r) {
                Some(q) => {
                    out.push(q);
                },
                None => {},
            }
            j += 1;
        }
        proof {
            assert(paths@.take(paths@.len() as int) =~= paths@);
            lemma_all_pairs_step(paths@, paths@, i as int, f);
        }
        i += 1;
    }
    proof {
        assert(paths@.take(paths@.len() as int) =~= paths@);
    }
    out
}

/// The quadrilaterals, each kept unless an earlier kept one has all of its corners.
pub fn unique_loops(loops: &Vec<(usize, usize, usize, usize)>) -> (r: Vec<
    (usize, usize, usize, usize),
>)
    ensures
        r@ == dedup_by(loops@, quad_covers_fn()),
{
    let ghost f = quad_covers_fn();
    let mut out: Vec<(usize, usize, usize, usize)> = Vec::new();
    let mut i: usize = 0;
    while i < loops.len()
        invariant
            i <= loops@.len(),
            f == quad_covers_fn(),
            out@ == dedup_by(loops@.take(i as int), f),
        decreases loops@.len() - i,
    {
        let cand = loops[i];
        let mut found = false;
        let mut k: usize = 0;
        while k < out.len()
            invariant
                k <= out@.len(),
                f == quad_covers_fn(),
                found <==> exists|m: int| 0 <= m < k && #[trigger] f(out@[m], cand),
            decreases out@.len() - k,
        {
            let r = out[k];
            let has0 = r.0 == cand.0 || r.1 == cand.0 || r.2 == cand.0 || r.3 == cand.0;
            let has1 = r.0 == cand.1 || r.1 == cand.1 || r.2 == cand.1 || r.3 == cand.1;
            let has2 = r.0 == cand.2 || r.1 == cand.2 || r.2 == cand.2 || r.3 == cand.2;
            let has3 = r.0 == cand.3 || r.1 == cand.3 || r.2 == cand.3 || r.3 == cand.3;
            if has0 && has1 && has2 && has3 {
                found = true;
            }
            assert(f(out@[k as int], cand) == quad_covers(r, cand));
            k += 1;
        }
        proof {
            assert(loops@.take(i + 1).drop_last() =~= loops@.take(i as int));
            assert(loops@.take(i + 1).last() == cand);
        }
        if !found {
            out.push(cand);
        }
        i += 1;
    }
    proof {
        assert(loops@.take(loops@.len() as int) =~= loops@);
    }
    out
}

/// The faces of the dual contour whose dual edges are `edges`: the paths that the edges
/// make, each counted once, closed into quadrilaterals, each set of corners counted once.
pub fn dual_quads(edges: &Vec<(usize, usize)>) -> (r: Vec<(usize, usize, usize, usize)>)
    ensures
        r@ == dual_quads_of(edges@),
{
    let paths = unique_paths(&edge_paths(edges));
    let loops = edge_loops(&paths);
    unique_loops(&loops)
}

/// What `f` makes of `l` with one of `rs` is in the row, and nothing else is.
proof fn lemma_row_members<A, B>(l: A, rs: Seq<A>, f: spec_fn(A, A) -> Option<B>, x: B)
    ensures
        row_of(l, rs, f).contains(x) <==> exists|j: int| 0 <= j < rs.len() && f(l, rs[j]) == Some(x),
    decreases rs.len(),
{
    if rs.len() > 0 {
        let prev = row_of(l, rs.drop_last(), f);
        let tail = option_seq(f(l, rs.last()));
        lemma_row_members(l, rs.drop_last(), f, x);
        if row_of(l, rs, f).contains(x) {
            let k = choose|k: int| 0 <= k < row_of(l, rs, f).len() && row_of(l, rs, f)[k] == x;
            if k < prev.len() {
                assert(prev[k] == x);
                let j = choose|j: int| 0 <= j < rs.drop_last().len() && f(l, rs.drop_last()[j]) == Some(x);
                assert(rs.drop_last()[j] == rs[j]);
            } else {
                assert(tail[k - prev.len()] == x);
                assert(f(l, rs[rs.len() - 1]) == Some(x));
            }
        }
        if exists|j: int| 0 <= j < rs.len() && f(l, rs[j]) == Some(x) {
            let j = choose|j: int| 0 <= j < rs.len() && f(l, rs[j]) == Some(x);
            if j < rs.len() - 1 {
                assert(rs.drop_last()[j] == rs[j]);
                let k = choose|k: int| 0 <= k < prev.len() && prev[k] == x;
                assert(row_of(l, rs, f)[k] == x);
            } else {
                assert(row_of(l, rs, f)[prev.len() as int] == x);
            }
        }
    }
}

/// What `f` makes of one of `ls` with one of `rs` is among all pairs, and nothing else is.
pub proof fn lemma_all_pairs_members<A, B>(
    ls: Seq<A>,
    rs: Seq<A>,
    f: spec_fn(A, A) -> Option<B>,
    x: B,
)
    ensures
        all_pairs(ls, rs, f).contains(x) <==> exists|i: int, j: int|
            0 <= i < ls.len() && 0 <= j < rs.len() && f(ls[i], rs[j]) == Some(x),
    decreases ls.len(),
{
    if ls.len() > 0 {
        let prev = all_pairs(ls.drop_last(), rs, f);
        let row = row_of(ls.last(), rs, f);
        lemma_all_pairs_members(ls.drop_last(), rs, f, x);
        lemma_row_members(ls.last(), rs, f, x);
        let all = all_pairs(ls, rs, f);
        if all.contains(x) {
            let k = choose|k: int| 0 <= k < all.len() && all[k] == x;
            if k < prev.len() {
                assert(prev[k] == x);
                let (i, j) = choose|i: int, j: int|
                    0 <= i < ls.drop_last().len() && 0 <= j < rs.len() && f(ls.drop_last()[i], rs[j])
                        == Some(x);
                assert(ls.drop_last()[i] == ls[i]);
            } else {
                assert(row[k - prev.len()] == x);
                let j = choose|j: int| 0 <= j < rs.len() && f(ls.last(), rs[j]) == Some(x);
                assert(f(ls[ls.len() - 1], rs[j]) == Some(x));
            }
        }
        if exists|i: int, j: int| 0 <= i < ls.len() && 0 <= j < rs.len() && f(ls[i], rs[j]) == Some(x) {
            let (i, j) = choose|i: int, j: int|
                0 <= i < ls.len() && 0 <= j < rs.len() && f(ls[i], rs[j]) == Some(x);
            if i < ls.len() - 1 {
                assert(ls.drop_last()[i] == ls[i]);
                let k = choose|k: int| 0 <= k < prev.len() && prev[k] == x;
                assert(all[k] == x);
            } else {
                let k = choose|k: int| 0 <= k < row.len() && row[k] == x;
                assert(all[prev.len() + k] == x);
            }
        }
    }
}

/// Deduplication keeps only items of its input, keeps none that an earlier kept item
/// covers, and keeps or covers each item of its input.
pub proof fn lemma_dedup_by<T>(s: Seq<T>, covers: spec_fn(T, T) -> bool)
    ensures
        forall|k: int|
            0 <= k < dedup_by(s, covers).len() ==> s.contains(#[trigger] dedup_by(s, covers)[k]),
        forall|a: int, b: int|
            0 <= a < b < dedup_by(s, covers).len() ==> !covers(
                #[trigger] dedup_by(s, covers)[a],
                #[trigger] dedup_by(s, covers)[b],
            ),
        forall|i: int|
            0 <= i < s.len() ==> exists|k: int|
                0 <= k < dedup_by(s, covers).len() && (dedup_by(s, covers)[k] == #[trigger] s[i]
                    || covers(dedup_by(s, covers)[k], s[i])),
    decreases s.len(),
{
    if s.len() > 0 {
        let p = s.drop_last();
        let u = dedup_by(p, covers);
        let d = dedup_by(s, covers);
        lemma_dedup_by(p, covers);
        assert forall|k: int| 0 <= k < d.len() implies s.contains(#[trigger] d[k]) by {
            if k < u.len() {
                assert(d[k] == u[k]);
                let i = choose|i: int| 0 <= i < p.len() && p[i] == u[k];
                assert(s[i] == p[i]);
            } else {
                assert(d[k] == s[s.len() - 1]);
            }
        }
        assert forall|i: int| 0 <= i < s.len() implies exists|k: int|
            0 <= k < d.len() && (d[k] == #[trigger] s[i] || covers(d[k], s[i])) by {
            if i < s.len() - 1 {
                assert(p[i] == s[i]);
                let k = choose|k: int| 0 <= k < u.len() && (u[k] == p[i] || covers(u[k], p[i]));
                assert(d[k] == u[k]);
            } else if exists|k: int| 0 <= k < u.len() && covers(u[k], s.last()) {
                let k = choose|k: int| 0 <= k < u.len() && covers(u[k], s.last());
                assert(d[k] == u[k]);
            } else {
                assert(d[u.len() as int] == s[i]);
            }
        }
    }
}

/// Points `a` and `b` are the ends of one of the dual edges, either way round.
pub open spec fn joined(edges: Seq<(usize, usize)>, a: usize, b: usize) -> bool {
    exists|k: int|
        0 <= k < edges.len() && ((#[trigger] edges[k].0 == a && edges[k].1 == b) || (edges[k].0
            == b && edges[k].1 == a))
}

/// Each path that the dual edges make runs along two of them.
proof fn lemma_dual_path_sides(edges: Seq<(usize, usize)>, p: (usize, usize, usize))
    requires
        dual_paths(edges).contains(p),
    ensures
        joined(edges, p.0, p.1),
        joined(edges, p.1, p.2),
{
    let all = all_pairs(edges, edges, path_fn());
    lemma_dedup_by(all, same_path_fn());
    let d = dual_paths(edges);
    let k = choose|k: int| 0 <= k < d.len() && d[k] == p;
    assert(all.contains(d[k]));
    lemma_all_pairs_members(edges, edges, path_fn(), p);
    let (i, j) = choose|i: int, j: int|
        0 <= i < edges.len() && 0 <= j < edges.len() && path_fn()(edges[i], edges[j]) == Some(p);
    let (l, r) = (edges[i], edges[j]);
    assert(path_of(l, r) == Some(p));
    assert(edges[i].0 == l.0);
    assert(edges[j].0 == r.0);
}

/// Each face of the dual contour is a quadrilateral whose four sides, in order round it,
/// are dual edges, and whose two middle corners are apart.
pub proof fn lemma_dual_quads_sides(edges: Seq<(usize, usize)>, q: (usize, usize, usize, usize))
    requires
        dual_quads_of(edges).contains(q),
    ensures
        joined(edges, q.0, q.1),
        joined(edges, q.1, q.2),
        joined(edges, q.2, q.3),
        joined(edges, q.3, q.0),
        q.1 != q.3,
{
    let paths = dual_paths(edges);
    let all = all_pairs(paths, paths, loop_fn());
    lemma_dedup_by(all, quad_covers_fn());
    let d = dual_quads_of(edges);
    let k = choose|k: int| 0 <= k < d.len() && d[k] == q;
    assert(all.contains(d[k]));
    lemma_all_pairs_members(paths, paths, loop_fn(), q);
    let (i, j) = choose|i: int, j: int|
        0 <= i < paths.len() && 0 <= j < paths.len() && loop_fn()(paths[i], paths[j]) == Some(q);
    let (l, r) = (paths[i], paths[j]);
    assert(loop_of(l, r) == Some(q));
    assert(paths.contains(l) && paths.contains(r)) by {
        assert(paths[i] == l);
        assert(paths[j] == r);
    }
    lemma_dual_path_sides(edges, l);
    lemma_dual_path_sides(edges, r);
}

} // verus!
