use core::marker::PhantomData;
use vstd::prelude::*;
use vstd::std_specs::ops::{BitAndSpecImpl, BitOrSpecImpl, BitXorSpecImpl, NotSpecImpl};
use crate::bits::{set_bits8, lemma_bit8_shift_step, lemma_u8_one_shl};
use crate::cell_topology::CellTopology;
use crate::power2::is_power_of_two;
use crate::vector_space::{D2, D3};
use super::face::Face;
use super::All;

verus! {

/// A set of faces of a cell, as a bit mask.
#[derive(Debug, PartialEq, Eq, PartialOrd, Ord, Hash)]
pub struct Faces<D>(pub u8, pub PhantomData<D>);

impl<D> Clone for Faces<D> {
    fn clone(&self) -> (r: Self)
        ensures
            r == *self,
    {
        Faces(self.0, PhantomData)
    }
}

impl<D> Copy for Faces<D> {

}

impl<D> Faces<D> {
    /// The empty set of faces.
    #[allow(non_snake_case)]
    pub fn EMPTY() -> (r: Self)
        ensures
            r.0 == 0,
    {
        Faces(0, PhantomData)
    }

    /// The set of faces with bit mask `faces`.
    pub fn new(faces: u8) -> (r: Self)
        ensures
            r.0 == faces,
    {
        Faces(faces, PhantomData)
    }
}

impl<D: CellTopology> Faces<D> {
    /// The faces in the set, lowest bit first, over the face slots of `D`.
    pub fn faces(&self) -> (r: Vec<Face<D>>)
        ensures
            r@.len() == set_bits8(self.0, D::face_slots() as nat).len(),
            forall|k: int|
                0 <= k < r@.len() ==> #[trigger] r@[k]@ == 1u8 << set_bits8(
                    self.0,
                    D::face_slots() as nat,
                )[k],
    {
        proof {
            D::lemma_slots();
        }
        let n = D::face_slot_count();
        let mut cand = self.0;
        let mut out: Vec<Face<D>> = Vec::new();
        let mut i: u8 = 0;
        proof {
            lemma_bit8_shift_step(self.0, 0);
        }
        while i < n
            invariant
                i <= n,
                n == D::face_slots(),
                n <= 8,
                cand == self.0 >> i,
                out@.len() == set_bits8(self.0, i as nat).len(),
                forall|k: int|
                    0 <= k < out@.len() ==> #[trigger] out@[k]@ == 1u8 << set_bits8(self.0, i as nat)[k],
            decreases n - i,
        {
            proof {
                lemma_bit8_shift_step(self.0, i);
            }
            let v = cand & 1;
            cand = cand >> 1;
            if v > 0 {
                proof {
                    lemma_u8_one_shl(i);
                    assert(is_power_of_two((1u8 << i) as int));
                }
                out.push(Face::new_unchecked(v << i));
            }
            i += 1;
        }
        out
    }
}

impl All for Faces<D2> {
    /// Every face of the square.
    fn all() -> (r: Self)
        ensures
            r.0 == 0xF,
    {
        Faces(0xF, PhantomData)
    }
}

impl All for Faces<D3> {
    /// Every face of the cube.
    fn all() -> (r: Self)
        ensures
            r.0 == 0x3F,
    {
        Faces(0x3F, PhantomData)
    }
}

impl<D> core::ops::BitAnd<Face<D>> for Faces<D> {
    type Output = Faces<D>;

    fn bitand(self, rhs: Face<D>) -> (r: Faces<D>) {
        Faces(self.0 & rhs.0.get(), PhantomData)
    }
}

impl<D> BitAndSpecImpl<Face<D>> for Faces<D> {
    open spec fn obeys_bitand_spec() -> bool {
        true
    }

    open spec fn bitand_req(self, rhs: Face<D>) -> bool {
        true
    }

    open spec fn bitand_spec(self, rhs: Face<D>) -> Faces<D> {
        Faces(self.0 & rhs@, PhantomData)
    }
}

impl<D> core::ops::BitAnd<Faces<D>> for Faces<D> {
    type Output = Faces<D>;

    fn bitand(self, rhs: Faces<D>) -> (r: Faces<D>) {
        Faces(self.0 & rhs.0, PhantomData)
    }
}

impl<D> BitAndSpecImpl<Faces<D>> for Faces<D> {
    open spec fn obeys_bitand_spec() -> bool {
        true
    }

    open spec fn bitand_req(self, rhs: Faces<D>) -> bool {
        true
    }

    open spec fn bitand_spec(self, rhs: Faces<D>) -> Faces<D> {
        Faces(self.0 & rhs.0, PhantomData)
    }
}

impl<D> core::ops::BitOr<Face<D>> for Faces<D> {
    type Output = Faces<D>;

    fn bitor(self, rhs: Face<D>) -> (r: Faces<D>) {
        Faces(self.0 | rhs.0.get(), PhantomData)
    }
}

impl<D> BitOrSpecImpl<Face<D>> for Faces<D> {
    open spec fn obeys_bitor_spec() -> bool {
        true
    }

    open spec fn bitor_req(self, rhs: Face<D>) -> bool {
        true
    }

    open spec fn bitor_spec(self, rhs: Face<D>) -> Faces<D> {
        Faces(self.0 | rhs@, PhantomData)
    }
}

impl<D> core::ops::BitOr<Faces<D>> for Faces<D> {
    type Output = Faces<D>;

    fn bitor(self, rhs: Faces<D>) -> (r: Faces<D>) {
        Faces(self.0 | rhs.0, PhantomData)
    }
}

impl<D> BitOrSpecImpl<Faces<D>> for Faces<D> {
    open spec fn obeys_bitor_spec() -> bool {
        true
    }

    open spec fn bitor_req(self, rhs: Faces<D>) -> bool {
        true
    }

    open spec fn bitor_spec(self, rhs: Faces<D>) -> Faces<D> {
        Faces(self.0 | rhs.0, PhantomData)
    }
}

impl<D> core::ops::BitXor<Face<D>> for Faces<D> {
    type Output = Faces<D>;

    fn bitxor(self, rhs: Face<D>) -> (r: Faces<D>) {
        Faces(self.0 ^ rhs.0.get(), PhantomData)
    }
}

impl<D> BitXorSpecImpl<Face<D>> for Faces<D> {
    open spec fn obeys_bitxor_spec() -> bool {
        true
    }

    open spec fn bitxor_req(self, rhs: Face<D>) -> bool {
        true
    }

    open spec fn bitxor_spec(self, rhs: Face<D>) -> Faces<D> {
        Faces(self.0 ^ rhs@, PhantomData)
    }
}

impl<D> core::ops::BitXor<Faces<D>> for Faces<D> {
    type Output = Faces<D>;

    fn bitxor(self, rhs: Faces<D>) -> (r: Faces<D>) {
        Faces(self.0 ^ rhs.0, PhantomData)
    }
}

impl<D> BitXorSpecImpl<Faces<D>> for Faces<D> {
    open spec fn obeys_bitxor_spec() -> bool {
        true
    }

    open spec fn bitxor_req(self, rhs: Faces<D>) -> bool {
        true
    }

    open spec fn bitxor_spec(self, rhs: Faces<D>) -> Faces<D> {
        Faces(self.0 ^ rhs.0, PhantomData)
    }
}

impl<D> core::ops::Not for Faces<D> {
    type Output = Faces<D>;

    fn not(self) -> (r: Faces<D>) {
        Faces(!self.0, PhantomData)
    }
}

impl<D> NotSpecImpl for Faces<D> {
    open spec fn obeys_not_spec() -> bool {
        true
    }

    open spec fn not_req(self) -> bool {
        true
    }

    open spec fn not_spec(self) -> Faces<D> {
        Faces(!self.0, PhantomData)
    }
}

} // verus!
