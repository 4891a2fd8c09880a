use vstd::prelude::*;

verus! {

/// Additive identity for a coefficient type, together with the value model
/// every such type carries: `type_wf` is a side condition on the carrier as
/// a whole (for `ModInt<MOD>` it bounds the modulus), and `wf` is the
/// invariant each well-formed value satisfies (for `ModInt` the
/// representative is reduced).
pub trait Zero: Sized + Copy {
    /// Side condition on the carrier type as a whole.
    spec fn type_wf() -> bool;

    /// The invariant a single well-formed value satisfies.
    spec fn wf(self) -> bool;

    /// The additive identity, as a specification-level value.
    spec fn spec_zero() -> Self;

    /// The additive identity is itself well formed.
    proof fn zero_wf()
        requires
            Self::type_wf(),
        ensures
            Self::spec_zero().wf(),
    ;

    /// Produces the additive identity.
    fn zero() -> (r: Self)
        requires
            Self::type_wf(),
        ensures
            r == Self::spec_zero(),
            r.wf(),
    ;
}

/// Multiplicative identity for a coefficient type.
pub trait Identity: Zero {
    /// The multiplicative identity, as a specification-level value.
    spec fn spec_identity() -> Self;

    /// The multiplicative identity is itself well formed.
    proof fn identity_wf()
        requires
            Self::type_wf(),
        ensures
            Self::spec_identity().wf(),
    ;

    /// Produces the multiplicative identity.
    fn identity() -> (r: Self)
        requires
            Self::type_wf(),
        ensures
            r == Self::spec_identity(),
            r.wf(),
    ;
}

} // verus!
