use crate::gcd::{gcd, gcd_u64};
use crate::identities::{Identity, Zero};
use crate::inverse::Inverse;
use crate::ring::Ring;
use vstd::arithmetic::div_mod::{
    lemma_add_mod_noop, lemma_mod_bound, lemma_mod_self_0, lemma_mul_mod_noop_general,
    lemma_small_mod,
};
use vstd::arithmetic::power::{
    lemma_pow0, lemma_pow1, lemma_pow_adds, lemma_pow_mod_noop, lemma_pow_multiplies,
    lemma_square_is_pow2, pow,
};
use vstd::prelude::*;

verus! {

/// An element of `Z / MOD Z`, held as its canonical representative: the
/// unique member of its congruence class in `[0, MOD)`.
#[derive(Debug, Clone, Copy, PartialEq, Eq, Hash)]
pub struct ModInt<const MOD: u64> {
    representative: u64,
}

impl<const MOD: u64> View for ModInt<MOD> {
    type V = int;

    /// A `ModInt` is abstractly the integer it represents.
    closed spec fn view(&self) -> int {
        self.representative as int
    }
}

impl<const MOD: u64> ModInt<MOD> {
    /// The modulus is at least 2 (any prime is) and small enough that a
    /// product of two representatives fits in `u64`.
    pub open spec fn modulus_ok() -> bool {
        2 <= MOD && MOD <= 0x1_0000_0000
    }

    /// A well-formed value holds a representative below the modulus.
    pub proof fn lemma_wf_bound(self)
        requires
            self.wf(),
        ensures
            0 <= self@ < MOD as int,
    {
    }

    /// Two values with the same representative are the same value.
    pub proof fn lemma_view_injective(self, other: Self)
        requires
            self@ == other@,
        ensures
            self == other,
    {
    }

    /// The additive identity represents 0 and the multiplicative identity 1.
    pub proof fn lemma_identities_view()
        ensures
            Self::spec_zero()@ == 0,
            Self::spec_identity()@ == 1,
    {
    }

    /// What the ring operations do to the represented integers.
    pub proof fn lemma_ops_view(a: Self, b: Self)
        requires
            Self::modulus_ok(),
        ensures
            a.spec_add(b)@ == (a@ + b@) % (MOD as int),
            a.spec_mul(b)@ == (a@ * b@) % (MOD as int),
            a.spec_neg()@ == (MOD as int - a@) % (MOD as int),
    {
        lemma_mod_bound(a.representative + b.representative, MOD as int);
        lemma_mod_bound(a.representative * b.representative, MOD as int);
        lemma_mod_bound(MOD - a.representative, MOD as int);
    }

    /// What the inverse is: absent exactly when the representative shares a
    /// factor with the modulus, and otherwise `a^(MOD - 2) mod MOD`, the
    /// Fermat inverse.
    pub proof fn lemma_inverse_view(a: Self)
        requires
            Self::modulus_ok(),
        ensures
            a.spec_inverse() is None <==> gcd(a@ as nat, MOD as nat) != 1,
            a.spec_inverse() matches Some(b) ==> b@ == pow(a@, (MOD - 2) as nat) % (MOD as int),
    {
    }

    /// The inverse law: over a prime modulus, every residue coprime to the
    /// modulus is invertible, and what `inverse` returns is a true
    /// multiplicative inverse, by Fermat's little theorem.
    pub proof fn lemma_inverse_law(a: Self)
        requires
            Self::modulus_ok(),
            a.wf(),
            crate::gcd::spec_is_prime(MOD),
            gcd(a@ as nat, MOD as nat) == 1,
        ensures
            a.spec_inverse() is Some,
            a.spec_inverse() matches Some(b) ==> a.spec_mul(b) == Self::spec_identity(),
    {
        let c = a.representative;
        let ci = c as int;
        let pi = MOD as int;
        crate::fermat::lemma_fermat(MOD, c);
        let e = pow(ci, (MOD - 2) as nat);
        lemma_mod_bound(e, pi);
        lemma_mul_mod_noop_general(ci, e, pi);
        lemma_pow1(ci);
        lemma_pow_adds(ci, 1, (MOD - 2) as nat);
        assert(pow(ci, (MOD - 1) as nat) == ci * e);
        assert((ci * (e % pi)) % pi == 1);
    }

    /// The zero residue is never invertible: it shares the whole modulus
    /// with the modulus.
    pub proof fn lemma_inverse_of_zero()
        requires
            Self::modulus_ok(),
        ensures
            Self::spec_zero().spec_inverse() is None,
    {
        crate::gcd::lemma_gcd_zero(MOD as nat, MOD as nat);
        assert(gcd(0, MOD as nat) == MOD as nat);
    }

    /// Constructor: reduces the argument so that the representative is the
    /// unique canonical residue of its congruence class.
    pub fn new(n: u64) -> (r: Self)
        requires
            Self::modulus_ok(),
        ensures
            r.wf(),
            r@ == n as int % (MOD as int),
    {
        ModInt { representative: n % MOD }
    }

    /// Returns the canonical representative as a plain integer.
    pub fn to_int(&self) -> (r: u64)
        ensures
            r as int == self@,
    {
        self.representative
    }

    /// Exponentiation by repeated squaring; base and accumulator are reduced
    /// at every step so intermediates stay below `MOD * MOD`.
    pub fn modpow(&self, n: u64) -> (r: Self)
        requires
            Self::modulus_ok(),
            self.wf(),
        ensures
            r.wf(),
            r@ == pow(self@, n as nat) % (MOD as int),
    {
        let mut res: u64 = 1 % MOD;
        let mut a: u64 = self.representative;
        let mut m: u64 = n;
        proof {
            lemma_small_mod(1, MOD as nat);
        }
        while m != 0
            invariant
                Self::modulus_ok(),
                a < MOD,
                res < MOD,
                (res as int * pow(a as int, m as nat)) % (MOD as int) == pow(self@, n as nat) % (
                MOD as int),
            decreases m,
        {
            let ghost res0 = res as int;
            let ghost a0 = a as int;
            let ghost m0 = m as nat;
            let ghost md = MOD as int;
            proof {
                assert(res as int * a as int <= 0xffff_ffff_ffff_ffff) by(nonlinear_arith)
                    requires
                        res < MOD,
                        a < MOD,
                        MOD <= 0x1_0000_0000;
                assert(a as int * a as int <= 0xffff_ffff_ffff_ffff) by(nonlinear_arith)
                    requires
                        a < MOD,
                        MOD <= 0x1_0000_0000;
            }
            if m % 2 == 1 {
                res = (res * a) % MOD;
            }
            a = (a * a) % MOD;
            m = m / 2;
            proof {
                let m1 = m as nat;
                let a1 = a as int;
                let res1 = res as int;
                lemma_mod_bound(res0 * a0, md);
                lemma_mod_bound(a0 * a0, md);
                // pow(a0, 2 * m1) == pow(a0 * a0, m1)
                lemma_square_is_pow2(a0);
                lemma_pow_multiplies(a0, 2, m1);
                assert(pow(a0 * a0, m1) == pow(a0, 2 * m1));
                // reducing the base mod MOD does not change the residue
                lemma_pow_mod_noop(a0 * a0, m1, md);
                assert(pow(a1, m1) % md == pow(a0 * a0, m1) % md);
                if m0 % 2 == 1 {
                    assert(m0 == 2 * m1 + 1);
                    lemma_pow1(a0);
                    lemma_pow_adds(a0, 1, (m0 - 1) as nat);
                    assert(pow(a0, m0) == a0 * pow(a0, (m0 - 1) as nat));
                    assert(res1 == (res0 * a0) % md);
                    // (res1 * pow(a1, m1)) % md == (res0 * pow(a0, m0)) % md
                    lemma_mul_mod_noop_general(res0 * a0, pow(a1, m1), md);
                    lemma_mul_mod_noop_general(res0 * a0, pow(a0 * a0, m1), md);
                    assert(res0 * a0 * pow(a0, 2 * m1) == res0 * (a0 * pow(a0, 2 * m1)))
                        by(nonlinear_arith);
                    assert((res1 * pow(a1, m1)) % md == (res0 * pow(a0, m0)) % md);
                } else {
                    assert(m0 == 2 * m1);
                    lemma_mul_mod_noop_general(res0, pow(a1, m1), md);
                    lemma_mul_mod_noop_general(res0, pow(a0 * a0, m1), md);
                    assert((res1 * pow(a1, m1)) % md == (res0 * pow(a0, m0)) % md);
                }
            }
        }
        proof {
            lemma_pow0(a as int);
            lemma_small_mod(res as nat, MOD as nat);
        }
        ModInt { representative: res }
    }
}

impl<const MOD: u64> crate::render::Render for ModInt<MOD> {
    /// A modular integer displays as the decimal digits of its
    /// representative.
    open spec fn spec_render(self) -> Seq<char> {
        crate::render::dec_chars(self@ as nat)
    }

    fn render(&self) -> (r: Vec<char>) {
        crate::render::u64_to_chars(self.representative)
    }
}

impl<const MOD: u64> crate::solution_set::EqCheck for ModInt<MOD> {
    /// Residues are equal exactly when their canonical representatives are.
    fn eq_check(&self, other: &Self) -> (r: bool) {
        self.representative == other.representative
    }
}

impl<const MOD: u64> Zero for ModInt<MOD> {
    open spec fn type_wf() -> bool {
        Self::modulus_ok()
    }

    closed spec fn wf(self) -> bool {
        self.representative < MOD
    }

    closed spec fn spec_zero() -> Self {
        ModInt { representative: 0 }
    }

    proof fn zero_wf() {
    }

    fn zero() -> (r: Self) {
        ModInt { representative: 0 }
    }
}

impl<const MOD: u64> Identity for ModInt<MOD> {
    closed spec fn spec_identity() -> Self {
        ModInt { representative: 1 }
    }

    proof fn identity_wf() {
    }

    fn identity() -> (r: Self) {
        ModInt { representative: 1 }
    }
}

impl<const MOD: u64> Ring for ModInt<MOD> {
    closed spec fn spec_add(self, other: Self) -> Self {
        ModInt {
            representative: (((self.representative + other.representative) % (MOD as int)) as u64),
        }
    }

    closed spec fn spec_mul(self, other: Self) -> Self {
        ModInt {
            representative: (((self.representative * other.representative) % (MOD as int)) as u64),
        }
    }

    closed spec fn spec_neg(self) -> Self {
        ModInt { representative: (((MOD - self.representative) % (MOD as int)) as u64) }
    }

    /// Raw sum reduced modulo `MOD` in one step.
    fn add(self, other: Self) -> (r: Self) {
        ModInt { representative: (self.representative + other.representative) % MOD }
    }

    /// `MOD` is added before subtracting so the difference cannot underflow.
    fn sub(self, other: Self) -> (r: Self) {
        let r = ModInt {
            representative: (self.representative + MOD - other.representative) % MOD,
        };
        proof {
            let x = self.representative as int;
            let y = other.representative as int;
            let md = MOD as int;
            lemma_mod_bound(md - y, md);
            lemma_add_mod_noop(x, md - y, md);
            lemma_small_mod(self.representative as nat, MOD as nat);
            assert((x + (md - y) % md) % md == (x + md - y) % md);
        }
        r
    }

    /// Raw product reduced modulo `MOD` in one step.
    fn mul(self, other: Self) -> (r: Self) {
        proof {
            assert(self.representative as int * other.representative as int
                <= 0xffff_ffff_ffff_ffff) by(nonlinear_arith)
                requires
                    self.representative < MOD,
                    other.representative < MOD,
                    MOD <= 0x1_0000_0000;
        }
        ModInt { representative: (self.representative * other.representative) % MOD }
    }

    /// `MOD - representative`, reduced; the reduction folds the
    /// zero-representative case back to zero.
    fn neg(self) -> (r: Self) {
        ModInt { representative: (MOD - self.representative) % MOD }
    }

    fn eq_elem(self, other: Self) -> (r: bool) {
        self.representative == other.representative
    }

    proof fn law_add_closed(a: Self, b: Self) {
        lemma_mod_bound(a.representative + b.representative, MOD as int);
    }

    proof fn law_mul_closed(a: Self, b: Self) {
        lemma_mod_bound(a.representative * b.representative, MOD as int);
    }

    proof fn law_neg_closed(a: Self) {
        lemma_mod_bound(MOD - a.representative, MOD as int);
    }

    proof fn law_add_comm(a: Self, b: Self) {
    }

    proof fn law_add_assoc(a: Self, b: Self, c: Self) {
        let x = a.representative as int;
        let y = b.representative as int;
        let z = c.representative as int;
        let md = MOD as int;
        lemma_small_mod(c.representative as nat, MOD as nat);
        lemma_small_mod(a.representative as nat, MOD as nat);
        lemma_add_mod_noop(x + y, z, md);
        lemma_add_mod_noop(x, y + z, md);
        assert(((x + y) % md + z % md) % md == (x + y + z) % md);
        assert((x % md + (y + z) % md) % md == (x + y + z) % md);
    }

    proof fn law_add_zero(a: Self) {
        lemma_small_mod(a.representative as nat, MOD as nat);
    }

    proof fn law_add_neg(a: Self) {
        let x = a.representative as int;
        let md = MOD as int;
        lemma_mod_self_0(md);
        if x == 0 {
            lemma_small_mod(0, MOD as nat);
        } else {
            lemma_small_mod((MOD - a.representative) as nat, MOD as nat);
        }
    }

    proof fn law_mul_comm(a: Self, b: Self) {
    }

    proof fn law_mul_assoc(a: Self, b: Self, c: Self) {
        let x = a.representative as int;
        let y = b.representative as int;
        let z = c.representative as int;
        let md = MOD as int;
        lemma_mul_mod_noop_general(x * y, z, md);
        lemma_mul_mod_noop_general(x, y * z, md);
        assert(x * y * z == x * (y * z)) by(nonlinear_arith);
        lemma_small_mod(c.representative as nat, MOD as nat);
        lemma_small_mod(a.representative as nat, MOD as nat);
        assert(((x * y) % md * z) % md == (x * y * z) % md);
        assert((x * ((y * z) % md)) % md == (x * (y * z)) % md);
    }

    proof fn law_mul_identity(a: Self) {
        lemma_small_mod(a.representative as nat, MOD as nat);
    }

    proof fn law_mul_zero(a: Self) {
        lemma_small_mod(0, MOD as nat);
    }

    proof fn law_mul_distrib(a: Self, b: Self, c: Self) {
        let x = a.representative as int;
        let y = b.representative as int;
        let z = c.representative as int;
        let md = MOD as int;
        lemma_mul_mod_noop_general(x, y + z, md);
        assert(x * (y + z) == x * y + x * z) by(nonlinear_arith);
        lemma_add_mod_noop(x * y, x * z, md);
        assert((x * ((y + z) % md)) % md == (x * (y + z)) % md);
        assert(((x * y) % md + (x * z) % md) % md == (x * y + x * z) % md);
    }
}

impl<const MOD: u64> Inverse for ModInt<MOD> {
    closed spec fn spec_inverse(self) -> Option<Self> {
        if gcd(self.representative as nat, MOD as nat) != 1 {
            None
        } else {
            Some(
                ModInt {
                    representative: ((pow(self.representative as int, (MOD - 2) as nat) % (
                    MOD as int)) as u64),
                },
            )
        }
    }

    /// `None` when the representative and the modulus share a factor;
    /// otherwise the Fermat inverse `a^(MOD - 2) mod MOD`, which is a
    /// multiplicative inverse whenever the modulus is prime.
    fn inverse(self) -> (r: Option<Self>) {
        let n = self.to_int();
        let m: u64 = MOD;
        if gcd_u64(n, m) != 1 {
            None
        } else {
            let ret = self.modpow(MOD - 2);
            proof {
                lemma_mod_bound(pow(self.representative as int, (MOD - 2) as nat), MOD as int);
            }
            Some(ret)
        }
    }
}

} // verus!
