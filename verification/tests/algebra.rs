use modpoly::identities::{Identity, Zero};
use modpoly::inverse::Inverse;
use modpoly::modint::ModInt;
use modpoly::polynomial::Polynomial;
use modpoly::ring::Ring;

type M5 = ModInt<5>;
type M7 = ModInt<7>;

fn m5(n: u64) -> M5 {
    ModInt::new(n)
}

#[test]
fn ring_laws_mod_five() {
    for a in 0..5u64 {
        let x = m5(a);
        assert_eq!(x.add(M5::zero()), x);
        assert_eq!(x.mul(M5::identity()), x);
        assert_eq!(x.add(x.neg()), M5::zero());
        for b in 0..5u64 {
            let y = m5(b);
            assert_eq!(x.add(y), y.add(x));
            assert_eq!(x.mul(y), y.mul(x));
            for c in 0..5u64 {
                let z = m5(c);
                assert_eq!(x.add(y).add(z), x.add(y.add(z)));
                assert_eq!(x.mul(y).mul(z), x.mul(y.mul(z)));
                assert_eq!(x.mul(y.add(z)), x.mul(y).add(x.mul(z)));
            }
        }
    }
}

#[test]
fn subtraction_is_add_neg() {
    for a in 0..5u64 {
        for b in 0..5u64 {
            assert_eq!(m5(a).sub(m5(b)), m5(a).add(m5(b).neg()));
        }
    }
}

#[test]
fn canonical_representative() {
    assert_eq!(m5(0).to_int(), 0);
    assert_eq!(m5(7).to_int(), 2);
    assert_eq!(m5(12345).to_int(), 0);
    assert_eq!(ModInt::<5>::new(u64::MAX).to_int(), 0);
    for n in 0..30u64 {
        let r = m5(n).to_int();
        assert_eq!(r, n % 5);
        assert!(r < 5);
    }
}

#[test]
fn modpow_squares_and_multiplies() {
    assert_eq!(m5(2).modpow(10).to_int(), 1024 % 5);
    assert_eq!(m5(3).modpow(0).to_int(), 1);
    assert_eq!(m5(0).modpow(0).to_int(), 1);
    assert_eq!(m5(0).modpow(3).to_int(), 0);
    assert_eq!(ModInt::<7>::new(3).modpow(5).to_int(), 243 % 7);
}

#[test]
fn inverse_law_prime_modulus() {
    for a in 1..5u64 {
        let inv = m5(a).inverse().expect("coprime residue must be invertible");
        assert_eq!(m5(a).mul(inv), M5::identity());
    }
    for a in 1..7u64 {
        let x = ModInt::<7>::new(a);
        let inv = x.inverse().expect("coprime residue must be invertible");
        assert_eq!(x.mul(inv), M7::identity());
    }
}

#[test]
fn inverse_of_zero_is_none() {
    assert_eq!(m5(0).inverse(), None);
    assert_eq!(ModInt::<7>::new(0).inverse(), None);
}

#[test]
fn inverse_exact_value() {
    // 2 * 3 = 6 = 1 mod 5, and the Fermat inverse is 2^3 mod 5 = 3
    assert_eq!(m5(2).inverse(), Some(m5(3)));
    assert_eq!(m5(3).inverse(), Some(m5(2)));
    assert_eq!(m5(4).inverse(), Some(m5(4)));
}

#[test]
fn inverse_needs_coprime_residue() {
    // 2 and 3 share a factor with the composite modulus 6
    assert_eq!(ModInt::<6>::new(2).inverse(), None);
    assert_eq!(ModInt::<6>::new(3).inverse(), None);
}

#[test]
fn normalization_trims_trailing_zeros() {
    let with_zeros: Polynomial<M5> = Polynomial::new(&vec![m5(1), m5(2), m5(0), m5(0)]);
    let trimmed: Polynomial<M5> = Polynomial::new(&vec![m5(1), m5(2)]);
    assert_eq!(with_zeros, trimmed);
    assert_eq!(with_zeros.deg(), 1);
}

#[test]
fn normalization_of_all_zero_sequences() {
    let a: Polynomial<M5> = Polynomial::new(&vec![m5(0), m5(0), m5(0)]);
    let b: Polynomial<M5> = Polynomial::new(&Vec::new());
    let z: Polynomial<M5> = Polynomial::zero();
    assert_eq!(a, z);
    assert_eq!(b, z);
    assert_eq!(a.deg(), 0);
    assert_eq!(a.strict_deg(), None);
}

#[test]
fn strict_deg_of_nonzero_polynomials() {
    let p: Polynomial<M5> = Polynomial::new(&vec![m5(0), m5(1), m5(0), m5(3)]);
    assert_eq!(p.deg(), 3);
    assert_eq!(p.strict_deg(), Some(3));
    let c: Polynomial<M5> = Polynomial::new_constant(m5(4));
    assert_eq!(c.deg(), 0);
    assert_eq!(c.strict_deg(), Some(0));
}

#[test]
fn add_then_sub_cancels() {
    let p: Polynomial<M5> = Polynomial::new(&vec![m5(1), m5(2), m5(3)]);
    let q: Polynomial<M5> = Polynomial::new(&vec![m5(4), m5(4), m5(2), m5(1)]);
    assert_eq!(p.add(&q).sub(&q), p);
    assert_eq!(q.add(&p).sub(&p), q);
    // the sum of a polynomial and its negation is the zero polynomial
    assert_eq!(p.add(&p.neg()), Polynomial::zero());
}

#[test]
fn addition_cancels_leading_terms() {
    // (2 + 3x^2) + (1 + 2x^2) = 3 mod 5: the degree collapses
    let p: Polynomial<M5> = Polynomial::new(&vec![m5(2), m5(0), m5(3)]);
    let q: Polynomial<M5> = Polynomial::new(&vec![m5(1), m5(0), m5(2)]);
    let sum = p.add(&q);
    assert_eq!(sum, Polynomial::new_constant(m5(3)));
    assert_eq!(sum.deg(), 0);
}

#[test]
fn product_evaluation_is_pointwise_product() {
    let p: Polynomial<M5> = Polynomial::new(&vec![m5(1), m5(2), m5(3)]);
    let q: Polynomial<M5> = Polynomial::new(&vec![m5(4), m5(0), m5(1), m5(2)]);
    let prod = p.mul(&q);
    for t in 0..5u64 {
        let at = m5(t);
        assert_eq!(
            Polynomial::evaluate(&prod, at),
            Polynomial::evaluate(&p, at).mul(Polynomial::evaluate(&q, at))
        );
    }
}

#[test]
fn product_of_monomials() {
    // x * x^2 = x^3
    let x: Polynomial<M5> = Polynomial::new(&vec![m5(0), m5(1)]);
    let x2: Polynomial<M5> = Polynomial::new(&vec![m5(0), m5(0), m5(1)]);
    let x3: Polynomial<M5> = Polynomial::new(&vec![m5(0), m5(0), m5(0), m5(1)]);
    assert_eq!(x.mul(&x2), x3);
    assert_eq!(x.mul(&x2).deg(), 3);
}

#[test]
fn evaluate_exact_values() {
    // 3 + x^2 at 2 is 7 = 2 mod 5
    let f: Polynomial<M5> = Polynomial::new(&vec![m5(3), m5(0), m5(1)]);
    assert_eq!(Polynomial::evaluate(&f, m5(2)), m5(2));
    assert_eq!(Polynomial::evaluate(&f, m5(0)), m5(3));
    let z: Polynomial<M5> = Polynomial::zero();
    assert_eq!(Polynomial::evaluate(&z, m5(3)), m5(0));
}

#[test]
fn derivative_of_constant_is_zero() {
    let c: Polynomial<M5> = Polynomial::new_constant(m5(4));
    let d = Polynomial::derivative(&c);
    assert_eq!(d, Polynomial::zero());
    assert_eq!(d.deg(), 0);
}

#[test]
fn derivative_drops_one_degree() {
    // d/dx (x^2) = 2x
    let x2: Polynomial<M5> = Polynomial::new(&vec![m5(0), m5(0), m5(1)]);
    assert_eq!(Polynomial::derivative(&x2), Polynomial::new(&vec![m5(0), m5(2)]));
    // d/dx (1 + 2x + 3x^2) = 2 + 6x = 2 + x mod 5
    let p: Polynomial<M5> = Polynomial::new(&vec![m5(1), m5(2), m5(3)]);
    assert_eq!(Polynomial::derivative(&p), Polynomial::new(&vec![m5(2), m5(1)]));
}

#[test]
fn polynomial_zero_and_identity() {
    let z: Polynomial<M5> = Polynomial::zero();
    let one: Polynomial<M5> = Polynomial::identity();
    assert_eq!(z, Polynomial::new_constant(m5(0)));
    assert_eq!(one, Polynomial::new_constant(m5(1)));
}
