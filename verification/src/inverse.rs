use crate::ring::Ring;
use vstd::prelude::*;

verus! {

/// Multiplicative inverse for a coefficient type.  `inverse` returns `None`
/// exactly where the value has no multiplicative inverse in the ring; the
/// implementing type pins the returned value down through `spec_inverse`.
pub trait Inverse: Ring {
    /// The inverse as a specification-level value: `None` where the value is
    /// not invertible.
    spec fn spec_inverse(self) -> Option<Self>;

    /// Consumes the value and returns its multiplicative inverse, if any.
    fn inverse(self) -> (r: Option<Self>)
        requires
            Self::type_wf(),
            self.wf(),
        ensures
            r == self.spec_inverse(),
            r matches Some(b) ==> b.wf(),
    ;
}

} // verus!
