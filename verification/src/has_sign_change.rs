//! Whether a cell changes sign across one of its faces.
use vstd::prelude::*;
use crate::bits::{bit8, set_bits8, lemma_bit8_test};
use crate::cell_topology::CellTopology;
use crate::marching_cells::{Corners, Face, ToCorners};
use crate::neighbours::lemma_set_bits8_below;

verus! {

/// Cells that can be tested for a sign change on a face.
pub trait HasSignChange<D> {
    /// Whether `has_sign_change` is defined for this side.
    spec fn has_sign_change_defined(&self, side: &Face<D>) -> bool;

    /// What `has_sign_change` returns.
    spec fn spec_has_sign_change(&self, side: &Face<D>) -> bool;

    fn has_sign_change(&self, side: &Face<D>) -> (r: bool)
        requires
            self.has_sign_change_defined(side),
        ensures
            r == self.spec_has_sign_change(side),
    ;
}

impl<D: CellTopology> HasSignChange<D> for Corners<D> {
    open spec fn has_sign_change_defined(&self, side: &Face<D>) -> bool {
        side.to_corners_defined()
    }

    /// Some corner of the face is not in the set.
    open spec fn spec_has_sign_change(&self, side: &Face<D>) -> bool {
        exists|c: u8|
            c < D::corner_slots() && #[trigger] bit8(side.spec_to_corners(), c) && !bit8(self.0, c)
    }

    fn has_sign_change(&self, side: &Face<D>) -> (r: bool) {
        let corners = side.to_corners();
        let on = corners.corners();
        let ghost son = set_bits8(corners.0, D::corner_slots() as nat);
        let mut acc = false;
        let mut k: usize = 0;
        proof {
            D::lemma_slots();
            assert forall|j: int| 0 <= j < son.len() implies son[j] < D::corner_slots() && bit8(
                corners.0,
                son[j],
            ) by {
                lemma_set_bits8_below(corners.0, D::corner_slots() as nat, j);
            }
        }
        while k < on.len()
            invariant
                k <= on@.len(),
                on@.len() == son.len(),
                D::corner_slots() <= 8,
                forall|j: int| 0 <= j < on@.len() ==> #[trigger] on@[j]@ == 1u8 << son[j],
                forall|j: int|
                    0 <= j < son.len() ==> son[j] < D::corner_slots() && bit8(corners.0, son[j]),
                acc == exists|j: int| 0 <= j < k && !bit8(self.0, #[trigger] son[j]),
            decreases on@.len() - k,
        {
            let c = on[k].0.get();
            proof {
                assert(on@[k as int]@ == 1u8 << son[k as int]);
                lemma_bit8_test(self.0, son[k as int]);
            }
            let ghost old_acc = acc;
            acc = acc || ((self.0 & c) == 0);
            proof {
                if !bit8(self.0, son[k as int]) {
                    assert(0 <= k < k + 1 && !bit8(self.0, son[k as int]));
                }
                if acc && !(!bit8(self.0, son[k as int])) {
                    assert(old_acc);
                }
                if exists|j: int| 0 <= j < k + 1 && !bit8(self.0, #[trigger] son[j]) {
                    let j = choose|j: int| 0 <= j < k + 1 && !bit8(self.0, #[trigger] son[j]);
                    if j < k {
                        assert(old_acc);
                    }
                }
            }
            k += 1;
        }
        proof {
            if acc {
                let j = choose|j: int| 0 <= j < k && !bit8(self.0, #[trigger] son[j]);
                assert(bit8(side.spec_to_corners(), son[j]));
            }
            if exists|c: u8|
                c < D::corner_slots() && #[trigger] bit8(side.spec_to_corners(), c) && !bit8(self.0, c)
            {
                let c = choose|c: u8|
                    c < D::corner_slots() && #[trigger] bit8(side.spec_to_corners(), c) && !bit8(
                        self.0,
                        c,
                    );
                lemma_set_bits8_complete(corners.0, D::corner_slots() as nat, c);
            }
        }
        acc
    }
}

/// Every set bit below the bound is listed by `set_bits8`.
pub proof fn lemma_set_bits8_complete(x: u8, n: nat, c: u8)
    requires
        c < n,
        bit8(x, c),
    ensures
        exists|j: int| 0 <= j < set_bits8(x, n).len() && set_bits8(x, n)[j] == c,
    decreases n,
{
    let prev = set_bits8(x, (n - 1) as nat);
    if c == n - 1 {
        assert(set_bits8(x, n)[prev.len() as int] == c);
    } else {
        lemma_set_bits8_complete(x, (n - 1) as nat, c);
        let j = choose|j: int| 0 <= j < prev.len() && prev[j] == c;
        assert(set_bits8(x, n)[j] == c);
    }
}

} // verus!
