use crate::gcd::{
    gcd, lemma_coprime_cancel, lemma_coprime_mul, lemma_gcd_one, lemma_prime_coprime,
    spec_is_prime,
};
use vstd::arithmetic::div_mod::{lemma_mod_bound, lemma_mul_mod_noop_general, lemma_small_mod};
use vstd::arithmetic::power::{lemma_pow0, lemma_pow1, lemma_pow_adds, pow};
use vstd::prelude::*;
use vstd::seq_lib::{commutative_foldr, lemma_fold_right_permutation};

verus! {

/// The nonzero residues `1, 2, ..., p - 1`.
spec fn residues(p: nat) -> Seq<int> {
    Seq::new((p - 1) as nat, |k: int| k + 1)
}

/// Multiplication modulo `p`, as a fold operator.
spec fn mul_mod(p: nat) -> spec_fn(int, int) -> int {
    |x: int, acc: int| (x * acc) % (p as int)
}

/// The fold operator is commutative, so folds over it are invariant under
/// permutation.
proof fn lemma_mul_mod_commutative(p: nat)
    requires
        p >= 1,
    ensures
        commutative_foldr(mul_mod(p)),
{
    let f = mul_mod(p);
    let pi = p as int;
    assert forall|x: int, y: int, v: int| #[trigger] f(x, f(y, v)) == f(y, f(x, v)) by {
        lemma_mul_mod_noop_general(x, y * v, pi);
        lemma_mul_mod_noop_general(y, x * v, pi);
        assert(x * (y * v) == y * (x * v)) by (nonlinear_arith);
    }
}

/// A factor in the fold accumulator can be pulled out of the whole fold.
proof fn lemma_fold_acc_scale(p: nat, s: Seq<int>, q: int, z: int)
    requires
        p >= 1,
    ensures
        s.fold_right(mul_mod(p), (q * z) % (p as int)) == (q * s.fold_right(
            mul_mod(p),
            z % (p as int),
        )) % (p as int),
    decreases s.len(),
{
    let f = mul_mod(p);
    let pi = p as int;
    if s.len() == 0 {
        lemma_mul_mod_noop_general(q, z, pi);
    } else {
        let l = s.last();
        lemma_mul_mod_noop_general(l, q * z, pi);
        assert(l * (q * z) == q * (l * z)) by (nonlinear_arith);
        assert(f(l, (q * z) % pi) == (q * (l * z)) % pi);
        lemma_fold_acc_scale(p, s.drop_last(), q, l * z);
        lemma_mul_mod_noop_general(l, z, pi);
        assert(f(l, z % pi) == (l * z) % pi);
    }
}

/// Folding a pointwise-scaled sequence accumulates the scaling factor as a
/// power of the sequence length.
proof fn lemma_fold_scaled(p: nat, u: Seq<int>, v: Seq<int>, c: nat, b: int)
    requires
        p >= 1,
        0 <= b < p as int,
        u.len() == v.len(),
        forall|k: int| 0 <= k < u.len() ==> v[k] == (c as int * #[trigger] u[k]) % (p as int),
    ensures
        v.fold_right(mul_mod(p), b) == (pow(c as int, u.len()) * u.fold_right(mul_mod(p), b)) % (
        p as int),
    decreases u.len(),
{
    let f = mul_mod(p);
    let pi = p as int;
    let ci = c as int;
    if u.len() == 0 {
        lemma_pow0(ci);
        lemma_small_mod(b as nat, p);
    } else {
        let n = u.len() as int;
        let lu = u.last();
        let lv = v.last();
        assert(lv == (ci * lu) % pi);
        // the last fold step of v multiplies by (c * lu) mod p
        lemma_mul_mod_noop_general(ci * lu, b, pi);
        assert(ci * lu * b == ci * (lu * b)) by (nonlinear_arith);
        assert(f(lv, b) == (ci * (lu * b)) % pi);
        lemma_fold_acc_scale(p, v.drop_last(), ci, lu * b);
        lemma_mod_bound(lu * b, pi);
        assert forall|k: int| 0 <= k < u.drop_last().len() implies v.drop_last()[k] == (ci
            * #[trigger] u.drop_last()[k]) % pi by {
            assert(u.drop_last()[k] == u[k]);
            assert(v.drop_last()[k] == v[k]);
        }
        lemma_fold_scaled(p, u.drop_last(), v.drop_last(), c, (lu * b) % pi);
        let fr = u.drop_last().fold_right(f, (lu * b) % pi);
        // stitch the pieces together
        lemma_mul_mod_noop_general(ci, pow(ci, (n - 1) as nat) * fr, pi);
        assert(ci * (pow(ci, (n - 1) as nat) * fr) == (ci * pow(ci, (n - 1) as nat)) * fr)
            by (nonlinear_arith);
        lemma_pow1(ci);
        lemma_pow_adds(ci, 1, (n - 1) as nat);
        assert(pow(ci, u.len()) == ci * pow(ci, (n - 1) as nat));
        assert(f(lu, b) == (lu * b) % pi);
        assert(u.fold_right(f, b) == fr);
    }
}

/// Folding residues coprime to `p` over a coprime accumulator yields a
/// coprime result.
proof fn lemma_fold_coprime(p: nat, s: Seq<int>, b: int)
    requires
        p >= 1,
        0 <= b < p as int,
        gcd(b as nat, p) == 1,
        forall|k: int| 0 <= k < s.len() ==> 0 <= #[trigger] s[k] && gcd(s[k] as nat, p) == 1,
    ensures
        0 <= s.fold_right(mul_mod(p), b) < p as int,
        gcd(s.fold_right(mul_mod(p), b) as nat, p) == 1,
    decreases s.len(),
{
    let f = mul_mod(p);
    let pi = p as int;
    if s.len() == 0 {
    } else {
        let l = s.last();
        lemma_mod_bound(l * b, pi);
        lemma_coprime_mul(p, l as nat, b as nat);
        assert((l * b) % pi == ((l as nat * b as nat) % p) as int);
        assert(f(l, b) == (l * b) % pi);
        assert forall|k: int|
            0 <= k < s.drop_last().len() implies 0 <= #[trigger] s.drop_last()[k] && gcd(
            s.drop_last()[k] as nat,
            p,
        ) == 1 by {
            assert(s.drop_last()[k] == s[k]);
        }
        lemma_fold_coprime(p, s.drop_last(), (l * b) % pi);
    }
}

/// Multiplying the nonzero residues by a residue coprime to `p` permutes
/// them.
proof fn lemma_residues_permuted(p: u64, c: u64)
    requires
        spec_is_prime(p),
        gcd(c as nat, p as nat) == 1,
    ensures
        residues(p as nat).map_values(
            |x: int| (c as int * x) % (p as int),
        ).to_multiset() == residues(p as nat).to_multiset(),
{
    let pi = p as int;
    let pn = p as nat;
    let u = residues(pn);
    let v = u.map_values(|x: int| (c as int * x) % pi);
    lemma_small_mod(0, pn);
    assert(u.no_duplicates());
    assert forall|k: int| 0 <= k < v.len() implies 1 <= #[trigger] v[k] < pi by {
        lemma_mod_bound(c as int * u[k], pi);
        if v[k] == 0 {
            assert((c as int * 0) % pi == 0);
            lemma_coprime_cancel(pn, c as nat, u[k], 0);
            lemma_small_mod((k + 1) as nat, pn);
            assert(false);
        }
    }
    assert forall|k1: int, k2: int| 0 <= k1 < k2 < v.len() implies v[k1] != v[k2] by {
        if v[k1] == v[k2] {
            lemma_coprime_cancel(pn, c as nat, u[k1], u[k2]);
            lemma_small_mod((k1 + 1) as nat, pn);
            lemma_small_mod((k2 + 1) as nat, pn);
            assert(false);
        }
    }
    assert(v.no_duplicates());
    u.unique_seq_to_set();
    v.unique_seq_to_set();
    assert forall|x: int| v.to_set().contains(x) implies u.to_set().contains(x) by {
        let k = choose|k: int| 0 <= k < v.len() && v[k] == x;
        assert(1 <= x < pi);
        assert(u[x - 1] == x);
        assert(u.contains(x));
    }
    vstd::set_lib::lemma_subset_equality(v.to_set(), u.to_set());
    u.lemma_multiset_has_no_duplicates();
    v.lemma_multiset_has_no_duplicates();
    u.to_multiset_ensures();
    v.to_multiset_ensures();
    assert forall|x: int| u.to_multiset().count(x) == #[trigger] v.to_multiset().count(x) by {
        if u.contains(x) {
            assert(u.to_set().contains(x));
            assert(v.to_set().contains(x));
            assert(v.contains(x));
        } else {
            assert(!u.to_multiset().contains(x));
            if v.contains(x) {
                assert(v.to_set().contains(x));
                assert(u.to_set().contains(x));
                assert(false);
            }
            assert(!v.to_multiset().contains(x));
        }
    }
    assert(v.to_multiset() =~= u.to_multiset());
}

/// Fermat's little theorem: modulo a prime `p`, a residue coprime to `p`
/// raised to the power `p - 1` is one.
pub proof fn lemma_fermat(p: u64, c: u64)
    requires
        spec_is_prime(p),
        gcd(c as nat, p as nat) == 1,
    ensures
        pow(c as int, (p - 1) as nat) % (p as int) == 1,
{
    let pn = p as nat;
    let pi = p as int;
    let ci = c as int;
    let u = residues(pn);
    let v = u.map_values(|x: int| (ci * x) % pi);
    let f = mul_mod(pn);
    lemma_mul_mod_commutative(pn);
    lemma_residues_permuted(p, c);
    lemma_fold_right_permutation(v, u, f, 1int);
    lemma_fold_scaled(pn, u, v, c as nat, 1int);
    lemma_gcd_one(pn);
    assert forall|k: int| 0 <= k < u.len() implies 0 <= #[trigger] u[k] && gcd(u[k] as nat, pn)
        == 1 by {
        lemma_prime_coprime(p, (k + 1) as u64);
    }
    lemma_fold_coprime(pn, u, 1int);
    let bigf = u.fold_right(f, 1int);
    let e = pow(ci, (p - 1) as nat);
    lemma_mod_bound(e, pi);
    // the permuted fold carries the factor c^(p-1): bigf == (e * bigf) % p
    assert(v.fold_right(f, 1int) == bigf);
    assert(u.len() == (p - 1) as nat);
    assert(bigf == (e * bigf) % pi);
    // cancel the coprime factor bigf on both sides
    lemma_mul_mod_noop_general(bigf, e, pi);
    assert(bigf * (e % pi) == (e % pi) * bigf) by (nonlinear_arith);
    assert(e * bigf == bigf * e) by (nonlinear_arith);
    lemma_small_mod(bigf as nat, pn);
    assert((bigf * (e % pi)) % pi == bigf);
    assert((bigf * 1) % pi == bigf);
    lemma_coprime_cancel(pn, bigf as nat, e % pi, 1int);
    lemma_small_mod(1, pn);
    lemma_small_mod((e % pi) as nat, pn);
}

} // verus!
