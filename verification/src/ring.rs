use crate::identities::Identity;
use vstd::prelude::*;

verus! {

/// The arithmetic a coefficient type offers: addition, subtraction,
/// multiplication and negation, each pinned to a specification-level
/// counterpart, together with the commutative-ring laws those counterparts
/// obey.  The polynomial engine is generic over this trait, so every
/// polynomial proof holds for any coefficient type that implements it.
pub trait Ring: Identity {
    /// Specification-level addition.
    spec fn spec_add(self, other: Self) -> Self;

    /// Specification-level multiplication.
    spec fn spec_mul(self, other: Self) -> Self;

    /// Specification-level additive negation.
    spec fn spec_neg(self) -> Self;

    /// Addition.
    fn add(self, other: Self) -> (r: Self)
        requires
            Self::type_wf(),
            self.wf(),
            other.wf(),
        ensures
            r == self.spec_add(other),
            r.wf(),
    ;

    /// Subtraction; by definition it is addition of the negation.
    fn sub(self, other: Self) -> (r: Self)
        requires
            Self::type_wf(),
            self.wf(),
            other.wf(),
        ensures
            r == self.spec_add(other.spec_neg()),
            r.wf(),
    ;

    /// Multiplication.
    fn mul(self, other: Self) -> (r: Self)
        requires
            Self::type_wf(),
            self.wf(),
            other.wf(),
        ensures
            r == self.spec_mul(other),
            r.wf(),
    ;

    /// Additive negation.
    fn neg(self) -> (r: Self)
        requires
            Self::type_wf(),
            self.wf(),
        ensures
            r == self.spec_neg(),
            r.wf(),
    ;

    /// Runtime equality test that agrees with specification equality.
    fn eq_elem(self, other: Self) -> (r: bool)
        ensures
            r == (self == other),
    ;

    /// Well-formed values are closed under addition.
    proof fn law_add_closed(a: Self, b: Self)
        requires
            Self::type_wf(),
            a.wf(),
            b.wf(),
        ensures
            a.spec_add(b).wf(),
    ;

    /// Well-formed values are closed under multiplication.
    proof fn law_mul_closed(a: Self, b: Self)
        requires
            Self::type_wf(),
            a.wf(),
            b.wf(),
        ensures
            a.spec_mul(b).wf(),
    ;

    /// Well-formed values are closed under negation.
    proof fn law_neg_closed(a: Self)
        requires
            Self::type_wf(),
            a.wf(),
        ensures
            a.spec_neg().wf(),
    ;

    /// Addition is commutative.
    proof fn law_add_comm(a: Self, b: Self)
        requires
            Self::type_wf(),
            a.wf(),
            b.wf(),
        ensures
            a.spec_add(b) == b.spec_add(a),
    ;

    /// Addition is associative.
    proof fn law_add_assoc(a: Self, b: Self, c: Self)
        requires
            Self::type_wf(),
            a.wf(),
            b.wf(),
            c.wf(),
        ensures
            a.spec_add(b).spec_add(c) == a.spec_add(b.spec_add(c)),
    ;

    /// Zero is the additive identity.
    proof fn law_add_zero(a: Self)
        requires
            Self::type_wf(),
            a.wf(),
        ensures
            a.spec_add(Self::spec_zero()) == a,
    ;

    /// Every value and its negation sum to zero.
    proof fn law_add_neg(a: Self)
        requires
            Self::type_wf(),
            a.wf(),
        ensures
            a.spec_add(a.spec_neg()) == Self::spec_zero(),
    ;

    /// Multiplication is commutative.
    proof fn law_mul_comm(a: Self, b: Self)
        requires
            Self::type_wf(),
            a.wf(),
            b.wf(),
        ensures
            a.spec_mul(b) == b.spec_mul(a),
    ;

    /// Multiplication is associative.
    proof fn law_mul_assoc(a: Self, b: Self, c: Self)
        requires
            Self::type_wf(),
            a.wf(),
            b.wf(),
            c.wf(),
        ensures
            a.spec_mul(b).spec_mul(c) == a.spec_mul(b.spec_mul(c)),
    ;

    /// The multiplicative identity is neutral.
    proof fn law_mul_identity(a: Self)
        requires
            Self::type_wf(),
            a.wf(),
        ensures
            a.spec_mul(Self::spec_identity()) == a,
    ;

    /// Multiplication by zero yields zero.
    proof fn law_mul_zero(a: Self)
        requires
            Self::type_wf(),
            a.wf(),
        ensures
            a.spec_mul(Self::spec_zero()) == Self::spec_zero(),
    ;

    /// Multiplication distributes over addition.
    proof fn law_mul_distrib(a: Self, b: Self, c: Self)
        requires
            Self::type_wf(),
            a.wf(),
            b.wf(),
            c.wf(),
        ensures
            a.spec_mul(b.spec_add(c)) == a.spec_mul(b).spec_add(a.spec_mul(c)),
    ;
}

} // verus!
