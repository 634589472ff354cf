//! The vector spaces that cells live in, and the shapes that depend on their dimension.
use vstd::prelude::*;
use vstd::arithmetic::power2::{pow2, lemma2_to64};

verus! {

/// 1D Vector Space (a marker: a unit struct, since Verus takes no enum without variants)
#[derive(Debug, Copy, Clone, PartialEq, Eq, PartialOrd, Ord, Hash)]
pub struct D1;

/// 2D Vector Space
#[derive(Debug, Copy, Clone, PartialEq, Eq, PartialOrd, Ord, Hash)]
pub struct D2;

/// 3D Vector Space
#[derive(Debug, Copy, Clone, PartialEq, Eq, PartialOrd, Ord, Hash)]
pub struct D3;

/// An N-dimension vector space
pub trait VectorDimension {
    const DIMENSION: usize;
}

impl VectorDimension for D1 {
    const DIMENSION: usize = 1;
}

impl VectorDimension for D2 {
    const DIMENSION: usize = 2;
}

impl VectorDimension for D3 {
    const DIMENSION: usize = 3;
}

/// The dimensions of the vector spaces.
pub proof fn lemma_dimensions()
    ensures
        D1::DIMENSION == 1,
        D2::DIMENSION == 2,
        D3::DIMENSION == 3,
{
}

/// The position of the `i`th subcell along axis `axis`: the axis's bit of `i`, x lowest.
pub open spec fn subdivision_coordinate(i: int, axis: int) -> int {
    (i / pow2(axis as nat) as int) % 2
}

/// The number of cells needed to uniformly subdivide a vector space
pub trait VectorSubdivision: VectorDimension {
    const SUBDIVISION: usize;

    /// The position of each subcell, one coordinate per axis, x varying fastest.
    fn subdivision_indices() -> Vec<Vec<usize>>;

    /// A cell splits into two halves along each dimension.
    proof fn lemma_subdivision()
        ensures
            Self::SUBDIVISION as nat == pow2(Self::DIMENSION as nat),
    ;
}

impl VectorSubdivision for D1 {
    const SUBDIVISION: usize = 2;

    proof fn lemma_subdivision() {
        lemma2_to64();
    }
    fn subdivision_indices() -> (r: Vec<Vec<usize>>)
        ensures
            r@.len() == 1,
            r@[0]@ == seq![0usize],
    {
        let mut r: Vec<Vec<usize>> = Vec::new();
        let mut first: Vec<usize> = Vec::new();
        first.push(0);
        r.push(first);
        r
    }

}

impl VectorSubdivision for D2 {
    const SUBDIVISION: usize = 4;

    proof fn lemma_subdivision() {
        lemma2_to64();
    }
    fn subdivision_indices() -> (r: Vec<Vec<usize>>)
        ensures
            r@.len() == 4,
            forall|i: int|
                0 <= i < 4 ==> (#[trigger] r@[i])@.len() == 2 && r@[i]@[0] == subdivision_coordinate(
                    i,
                    0,
                ) && r@[i]@[1] == subdivision_coordinate(i, 1),
    {
        proof {
            lemma2_to64();
        }
        let mut r: Vec<Vec<usize>> = Vec::new();
        let mut y: usize = 0;
        while y < 2
            invariant
                y <= 2,
                r@.len() == 2 * y,
                pow2(0) == 1,
                pow2(1) == 2,
                forall|i: int|
                    0 <= i < r@.len() ==> (#[trigger] r@[i])@.len() == 2 && r@[i]@[0]
                        == subdivision_coordinate(i, 0) && r@[i]@[1] == subdivision_coordinate(i, 1),
            decreases 2 - y,
        {
            let mut x: usize = 0;
            while x < 2
                invariant
                    x <= 2,
                    y < 2,
                    r@.len() == 2 * y + x,
                    pow2(0) == 1,
                    pow2(1) == 2,
                    forall|i: int|
                        0 <= i < r@.len() ==> (#[trigger] r@[i])@.len() == 2 && r@[i]@[0]
                            == subdivision_coordinate(i, 0) && r@[i]@[1] == subdivision_coordinate(
                            i,
                            1,
                        ),
                decreases 2 - x,
            {
                let mut p: Vec<usize> = Vec::new();
                p.push(x);
                p.push(y);
                proof {
                    let i = (2 * y + x) as int;
                    assert(subdivision_coordinate(i, 0) == x && subdivision_coordinate(i, 1) == y) by {
                        assert(i / 1 == i);
                        if y == 0 {
                            assert(i == x);
                        } else {
                            assert(i == 2 + x);
                        }
                    }
                }
                r.push(p);
                x += 1;
            }
            y += 1;
        }
        r
    }

}

impl VectorSubdivision for D3 {
    const SUBDIVISION: usize = 8;

    proof fn lemma_subdivision() {
        lemma2_to64();
    }
    fn subdivision_indices() -> (r: Vec<Vec<usize>>)
        ensures
            r@.len() == 8,
            forall|i: int|
                0 <= i < 8 ==> (#[trigger] r@[i])@.len() == 3 && r@[i]@[0] == subdivision_coordinate(
                    i,
                    0,
                ) && r@[i]@[1] == subdivision_coordinate(i, 1) && r@[i]@[2]
                    == subdivision_coordinate(i, 2),
    {
        proof {
            lemma2_to64();
        }
        let mut r: Vec<Vec<usize>> = Vec::new();
        let mut z: usize = 0;
        while z < 2
            invariant
                z <= 2,
                r@.len() == 4 * z,
                pow2(0) == 1,
                pow2(1) == 2,
                pow2(2) == 4,
                forall|i: int|
                    0 <= i < r@.len() ==> (#[trigger] r@[i])@.len() == 3 && r@[i]@[0]
                        == subdivision_coordinate(i, 0) && r@[i]@[1] == subdivision_coordinate(i, 1)
                        && r@[i]@[2] == subdivision_coordinate(i, 2),
            decreases 2 - z,
        {
            let mut y: usize = 0;
            while y < 2
                invariant
                    y <= 2,
                    z < 2,
                    r@.len() == 4 * z + 2 * y,
                    pow2(0) == 1,
                    pow2(1) == 2,
                    pow2(2) == 4,
                    forall|i: int|
                        0 <= i < r@.len() ==> (#[trigger] r@[i])@.len() == 3 && r@[i]@[0]
                            == subdivision_coordinate(i, 0) && r@[i]@[1] == subdivision_coordinate(
                            i,
                            1,
                        ) && r@[i]@[2] == subdivision_coordinate(i, 2),
                decreases 2 - y,
            {
                let mut x: usize = 0;
                while x < 2
                    invariant
                        x <= 2,
                        y < 2,
                        z < 2,
                        r@.len() == 4 * z + 2 * y + x,
                        pow2(0) == 1,
                        pow2(1) == 2,
                        pow2(2) == 4,
                        forall|i: int|
                            0 <= i < r@.len() ==> (#[trigger] r@[i])@.len() == 3 && r@[i]@[0]
                                == subdivision_coordinate(i, 0) && r@[i]@[1]
                                == subdivision_coordinate(i, 1) && r@[i]@[2]
                                == subdivision_coordinate(i, 2),
                    decreases 2 - x,
                {
                    let mut p: Vec<usize> = Vec::new();
                    p.push(x);
                    p.push(y);
                    p.push(z);
                    proof {
                        let i = (4 * z + 2 * y + x) as int;
                        assert(subdivision_coordinate(i, 0) == x && subdivision_coordinate(i, 1) == y
                            && subdivision_coordinate(i, 2) == z) by {
                            assert(i / 1 == i);
                            assert(0 <= i < 8);
                            if i == 0 {
                            } else if i == 1 {
                            } else if i == 2 {
                            } else if i == 3 {
                            } else if i == 4 {
                                assert(i / 4 == 1);
                            } else if i == 5 {
                                assert(i / 4 == 1);
                            } else if i == 6 {
                                assert(i / 4 == 1);
                            } else {
                                assert(i / 4 == 1);
                            }
                        }
                    }
                    r.push(p);
                    x += 1;
                }
                y += 1;
            }
            z += 1;
        }
        r
    }

}

/// The subdivision counts of the vector spaces.
pub proof fn lemma_subdivisions()
    ensures
        D1::SUBDIVISION == 2,
        D2::SUBDIVISION == 4,
        D3::SUBDIVISION == 8,
{
}

/// Array type corresponding to the number of dimensions in a vector space
pub trait DimensionArray<T>: VectorDimension {
    type DimensionArray;
}

impl<T> DimensionArray<T> for D1 {
    type DimensionArray = T;
}

impl<T> DimensionArray<T> for D2 {
    type DimensionArray = [T; 2];
}

impl<T> DimensionArray<T> for D3 {
    type DimensionArray = [T; 3];
}

/// Array type corresponding to the number of cells required
/// to evenly subdivide a vector space
pub trait SubdivisionArray<T>: VectorSubdivision {
    type SubdivisionArray;

}

impl<T> SubdivisionArray<T> for D1 {
    type SubdivisionArray = [T; 2];
}

impl<T> SubdivisionArray<T> for D2 {
    type SubdivisionArray = [T; 4];
}

impl<T> SubdivisionArray<T> for D3 {
    type SubdivisionArray = [T; 8];
}

} // verus!
