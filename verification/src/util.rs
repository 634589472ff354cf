//! Collecting a run of items into an array of a fixed length.
use vstd::prelude::*;

verus! {

/// Takes the items of `v` as an array of length `N`, or hands `v` back.
///
/// Trusted: `<[T; N] as TryFrom<Vec<T>>>::try_from`, which std documents as giving the whole
/// contents of the vector as an array when its length is exactly `N`, and the vector itself,
/// unchanged, as the error otherwise.
#[verifier::external_body]
fn vec_try_into_array<T, const N: usize>(v: Vec<T>) -> (r: Result<[T; N], Vec<T>>)
    ensures
        match r {
            Ok(a) => v@.len() == N && a@ == v@,
            Err(e) => v@.len() != N && e@ == v@,
        },
{
    <[T; N]>::try_from(v)
}

/// A run of items that can be collected into an array of length `N`.
pub trait CollectArray<T, const N: usize>: Sized {
    /// The items, in order.
    spec fn items(&self) -> Seq<T>;

    /// The items as an array when there are exactly `N` of them; otherwise the items back,
    /// in order.
    fn try_collect_array(self) -> (r: Result<[T; N], Vec<T>>)
        ensures
            match r {
                Ok(a) => self.items().len() == N && a@ == self.items(),
                Err(e) => self.items().len() != N && e@ == self.items(),
            },
    ;

    /// The items as an array; there must be exactly `N` of them.
    fn collect_array(self) -> (r: [T; N])
        requires
            self.items().len() == N,
        ensures
            r@ == self.items(),
    {
        match self.try_collect_array() {
            Ok(a) => a,
            Err(_) => vstd::pervasive::unreached(),
        }
    }
}

impl<T, const N: usize> CollectArray<T, N> for Vec<T> {
    open spec fn items(&self) -> Seq<T> {
        self@
    }

    fn try_collect_array(self) -> (r: Result<[T; N], Vec<T>>) {
        vec_try_into_array(self)
    }
}

} // verus!
