use crate::identities::Zero;
use crate::modint::ModInt;
use crate::polynomial::{eval_at, Polynomial};
use crate::ring::Ring;
use crate::solution_set::SolutionSet;
use crate::gcd::spec_is_prime;
use vstd::arithmetic::div_mod::lemma_small_mod;
use vstd::prelude::*;

verus! {

/// Trial division over every candidate divisor.
pub fn is_prime(n: u64) -> (r: bool)
    ensures
        r == spec_is_prime(n),
{
    if n < 2 {
        return false;
    }
    let mut d: u64 = 2;
    while d < n
        invariant
            2 <= d,
            d <= n,
            forall|k: int| 2 <= k < d ==> #[trigger] (n as int % k) != 0,
        decreases n - d,
    {
        if n % d == 0 {
            return false;
        }
        d += 1;
    }
    true
}

/// Whether the pair `(x, y)` solves `f(x) = g(y)`.
pub open spec fn is_solution<const MOD: u64>(
    f: Seq<ModInt<MOD>>,
    g: Seq<ModInt<MOD>>,
    p: (ModInt<MOD>, ModInt<MOD>),
) -> bool {
    p.0.wf() && p.1.wf() && eval_at(f, p.0) == eval_at(g, p.1)
}

/// Brute-force search: enumerates every pair `(i, j)` with both components
/// below the modulus, and collects exactly those with `f(i) = g(j)`.  The
/// resulting set contains a pair if and only if it is a solution.
pub fn solve_equation<const MOD: u64>(
    f: &Polynomial<ModInt<MOD>>,
    g: &Polynomial<ModInt<MOD>>,
) -> (r: SolutionSet<(ModInt<MOD>, ModInt<MOD>)>)
    requires
        f.wf(),
        g.wf(),
    ensures
        r.wf(),
        forall|p: (ModInt<MOD>, ModInt<MOD>)| #[trigger]
            r@.contains(p) <==> is_solution(f@, g@, p),
{
    proof {
        f.lemma_wf_facts();
    }
    let mut s: SolutionSet<(ModInt<MOD>, ModInt<MOD>)> = SolutionSet::new(Vec::new());
    let mut i: u64 = 0;
    proof {
        assert forall|p: (ModInt<MOD>, ModInt<MOD>)| #[trigger]
            s@.contains(p) <==> (is_solution(f@, g@, p) && p.0@ < i as int) by {
            if is_solution(f@, g@, p) {
                p.0.lemma_wf_bound();
            }
            assert(s@.len() == 0);
        }
    }
    while i < MOD
        invariant
            f.wf(),
            g.wf(),
            ModInt::<MOD>::modulus_ok(),
            i <= MOD,
            s.wf(),
            forall|p: (ModInt<MOD>, ModInt<MOD>)| #[trigger]
                s@.contains(p) <==> (is_solution(f@, g@, p) && p.0@ < i as int),
        decreases MOD - i,
    {
        let mut j: u64 = 0;
        proof {
            assert forall|p: (ModInt<MOD>, ModInt<MOD>)| #[trigger]
                s@.contains(p) <==> (is_solution(f@, g@, p) && (p.0@ < i as int || (p.0@
                    == i as int && p.1@ < j as int))) by {
                if is_solution(f@, g@, p) {
                    p.1.lemma_wf_bound();
                }
            }
        }
        while j < MOD
            invariant
                f.wf(),
                g.wf(),
                ModInt::<MOD>::modulus_ok(),
                i < MOD,
                j <= MOD,
                s.wf(),
                forall|p: (ModInt<MOD>, ModInt<MOD>)| #[trigger]
                    s@.contains(p) <==> (is_solution(f@, g@, p) && (p.0@ < i as int || (p.0@
                        == i as int && p.1@ < j as int))),
            decreases MOD - j,
        {
            let x = ModInt::<MOD>::new(i);
            let y = ModInt::<MOD>::new(j);
            proof {
                lemma_small_mod(i as nat, MOD as nat);
                lemma_small_mod(j as nat, MOD as nat);
            }
            let fx = Polynomial::evaluate(f, x);
            let gy = Polynomial::evaluate(g, y);
            let ghost s0 = s@;
            let ghost t = (x, y);
            let b = fx.eq_elem(gy);
            if b {
                s.insert((x, y));
            }
            proof {
                assert forall|p: (ModInt<MOD>, ModInt<MOD>)| #[trigger]
                    s@.contains(p) <==> (is_solution(f@, g@, p) && (p.0@ < i as int || (p.0@
                        == i as int && p.1@ < j as int + 1))) by {
                    if is_solution(f@, g@, p) {
                        p.0.lemma_wf_bound();
                        p.1.lemma_wf_bound();
                    }
                    vstd::seq_lib::lemma_seq_contains_after_push(s0, t, p);
                    if p.0@ == i as int && p.1@ == j as int && p.0.wf() && p.1.wf() {
                        p.0.lemma_view_injective(x);
                        p.1.lemma_view_injective(y);
                        assert(p == t);
                    }
                }
            }
            j += 1;
        }
        i += 1;
        proof {
            assert forall|p: (ModInt<MOD>, ModInt<MOD>)| #[trigger]
                s@.contains(p) <==> (is_solution(f@, g@, p) && p.0@ < i as int) by {
                if is_solution(f@, g@, p) && p.0@ < i as int && !(p.0@ < i as int - 1) {
                    p.1.lemma_wf_bound();
                }
            }
        }
    }
    proof {
        assert forall|p: (ModInt<MOD>, ModInt<MOD>)| #[trigger]
            s@.contains(p) <==> is_solution(f@, g@, p) by {
            if is_solution(f@, g@, p) {
                p.0.lemma_wf_bound();
            }
        }
    }
    s
}

} // verus!
