use crate::identities::{Identity, Zero};
use crate::ring::Ring;
use vstd::prelude::*;

verus! {

/// Every entry of the sequence is a well-formed ring value.
pub open spec fn all_wf<T: Ring>(s: Seq<T>) -> bool {
    forall|i: int| 0 <= i < s.len() ==> (#[trigger] s[i]).wf()
}

/// The coefficient of degree `i`, reading zero outside the stored range, so
/// that a coefficient sequence denotes the same polynomial as any of its
/// zero-padded extensions.
pub open spec fn coeff<T: Ring>(s: Seq<T>, i: int) -> T {
    if 0 <= i < s.len() {
        s[i]
    } else {
        T::spec_zero()
    }
}

/// Canonical coefficient sequences: at least one coefficient, and a non-zero
/// leading coefficient unless the sequence is the single-term zero form.
pub open spec fn is_normalized<T: Ring>(s: Seq<T>) -> bool {
    s.len() >= 1 && (s.len() == 1 || s.last() != T::spec_zero())
}

/// Trims trailing zero coefficients down to the canonical form; an empty
/// sequence becomes the canonical zero polynomial.
pub open spec fn normalize<T: Ring>(s: Seq<T>) -> Seq<T>
    decreases s.len(),
{
    if s.len() == 0 {
        seq![T::spec_zero()]
    } else if s.len() == 1 {
        s
    } else if s.last() == T::spec_zero() {
        normalize(s.drop_last())
    } else {
        s
    }
}

/// Elementwise sum, zero-extended to the longer operand.
pub open spec fn poly_add<T: Ring>(a: Seq<T>, b: Seq<T>) -> Seq<T> {
    Seq::new(
        if a.len() >= b.len() {
            a.len()
        } else {
            b.len()
        },
        |i: int| coeff(a, i).spec_add(coeff(b, i)),
    )
}

/// Elementwise difference, zero-extended to the longer operand.
pub open spec fn poly_sub<T: Ring>(a: Seq<T>, b: Seq<T>) -> Seq<T> {
    Seq::new(
        if a.len() >= b.len() {
            a.len()
        } else {
            b.len()
        },
        |i: int| coeff(a, i).spec_add(coeff(b, i).spec_neg()),
    )
}

/// Elementwise negation.
pub open spec fn poly_neg<T: Ring>(a: Seq<T>) -> Seq<T> {
    Seq::new(a.len(), |i: int| a[i].spec_neg())
}

/// The convolution sum `a[0] * b[i] + a[1] * b[i - 1] + ...`, by recursion on
/// the left operand.
pub open spec fn conv_coeff<T: Ring>(a: Seq<T>, b: Seq<T>, i: int) -> T
    decreases a.len(),
{
    if a.len() == 0 {
        T::spec_zero()
    } else {
        a[0].spec_mul(coeff(b, i)).spec_add(conv_coeff(a.skip(1), b, i - 1))
    }
}

/// The discrete convolution of the two coefficient sequences: the standard
/// polynomial product, of length `deg(a) + deg(b) + 1`.
pub open spec fn poly_mul<T: Ring>(a: Seq<T>, b: Seq<T>) -> Seq<T> {
    Seq::new((a.len() + b.len() - 1) as nat, |i: int| conv_coeff(a, b, i))
}

/// The value of the polynomial at `t`, by the Horner recurrence
/// `s[0] + t * (rest of s at t)`.
pub open spec fn eval_at<T: Ring>(s: Seq<T>, t: T) -> T
    decreases s.len(),
{
    if s.len() == 0 {
        T::spec_zero()
    } else {
        s[0].spec_add(t.spec_mul(eval_at(s.skip(1), t)))
    }
}

/// The ring element standing for the natural number `n`: the n-fold sum of
/// the multiplicative identity.
pub open spec fn of_nat<T: Ring>(n: nat) -> T
    decreases n,
{
    if n == 0 {
        T::spec_zero()
    } else {
        of_nat::<T>((n - 1) as nat).spec_add(T::spec_identity())
    }
}

/// The coefficient sequence of the derivative: entry `i` is
/// `s[i + 1] * (i + 1)`.
pub open spec fn derived_seq<T: Ring>(s: Seq<T>) -> Seq<T> {
    Seq::new((s.len() - 1) as nat, |i: int| s[i + 1].spec_mul(of_nat::<T>((i + 1) as nat)))
}

/// A single-variable polynomial over a ring of coefficients.
///
/// `coefficients[i]` is the coefficient of the degree-`i` term; the cached
/// `degree` always equals the index of the last stored coefficient, and the
/// stored sequence is kept normalized: the leading coefficient is non-zero,
/// except in the canonical single-term zero polynomial.
#[derive(Debug, Clone, PartialEq, Eq, Hash)]
pub struct Polynomial<T> {
    coefficients: Vec<T>,
    degree: usize,
}

impl<T> View for Polynomial<T> {
    type V = Seq<T>;

    /// A polynomial is abstractly its coefficient sequence.
    closed spec fn view(&self) -> Seq<T> {
        self.coefficients@
    }
}

impl<T: Ring> Polynomial<T> {
    /// The structural invariant: well-formed coefficients in normalized form,
    /// with the cached degree consistent.
    pub closed spec fn wf(self) -> bool {
        &&& T::type_wf()
        &&& all_wf(self.coefficients@)
        &&& is_normalized(self.coefficients@)
        &&& self.degree == self.coefficients@.len() - 1
    }

    /// What the invariant gives about the abstract coefficient sequence.
    pub proof fn lemma_wf_facts(self)
        requires
            self.wf(),
        ensures
            T::type_wf(),
            all_wf(self@),
            is_normalized(self@),
            self@.len() >= 1,
    {
    }

    /// The degree; the canonical zero polynomial reports degree 0.
    pub fn deg(&self) -> (r: usize)
        requires
            self.wf(),
        ensures
            r as int == self@.len() - 1,
    {
        self.degree
    }

    /// A constant (degree-0) polynomial; a zero constant is exactly the
    /// canonical zero polynomial, so no trimming is needed.
    pub fn new_constant(t: T) -> (r: Self)
        requires
            T::type_wf(),
            t.wf(),
        ensures
            r.wf(),
            r@ == seq![t],
    {
        let mut f: Vec<T> = Vec::new();
        f.push(t);
        Polynomial { coefficients: f, degree: 0 }
    }

    /// The canonical zero polynomial.
    pub fn zero() -> (r: Self)
        requires
            T::type_wf(),
        ensures
            r.wf(),
            r@ == seq![T::spec_zero()],
    {
        proof {
            T::zero_wf();
        }
        Self::new_constant(T::zero())
    }

    /// The constant one polynomial.
    pub fn identity() -> (r: Self)
        requires
            T::type_wf(),
        ensures
            r.wf(),
            r@ == seq![T::spec_identity()],
    {
        proof {
            T::identity_wf();
        }
        Self::new_constant(T::identity())
    }

    /// The degree, with the zero polynomial singled out: `None` for the
    /// canonical zero polynomial, `Some(degree)` otherwise.
    pub fn strict_deg(&self) -> (r: Option<usize>)
        requires
            self.wf(),
        ensures
            r == (if self@.len() == 1 && self@[0] == T::spec_zero() {
                None::<usize>
            } else {
                Some((self@.len() - 1) as usize)
            }),
    {
        proof {
            T::zero_wf();
        }
        if self.coefficients.len() == 1 && self.coefficients[0].eq_elem(T::zero()) {
            None
        } else {
            Some(self.degree)
        }
    }

    /// Builds a polynomial from a raw coefficient sequence (ascending degree)
    /// by trimming trailing zero coefficients; an empty sequence yields the
    /// canonical zero polynomial.
    pub fn new(v: &Vec<T>) -> (r: Self)
        requires
            T::type_wf(),
            all_wf(v@),
        ensures
            r.wf(),
            r@ == normalize(v@),
    {
        proof {
            T::zero_wf();
        }
        let mut f: Vec<T> = Vec::new();
        if v.len() == 0 {
            f.push(T::zero());
            Polynomial { coefficients: f, degree: 0 }
        } else {
            let mut i: usize = 0;
            while i < v.len()
                invariant
                    T::type_wf(),
                    all_wf(v@),
                    i <= v.len(),
                    f@ == v@.subrange(0, i as int),
                decreases v.len() - i,
            {
                f.push(v[i]);
                i += 1;
            }
            proof {
                assert(f@ =~= v@);
            }
            while f.len() > 1 && f[f.len() - 1].eq_elem(T::zero())
                invariant
                    T::type_wf(),
                    all_wf(f@),
                    f@.len() >= 1,
                    normalize(f@) == normalize(v@),
                decreases f@.len(),
            {
                let ghost prev = f@;
                f.pop();
                proof {
                    assert(f@ == prev.drop_last());
                    assert(normalize(prev) == normalize(prev.drop_last()));
                }
            }
            proof {
                assert(is_normalized(f@));
                lemma_normalized_fixed(f@);
            }
            let d = f.len() - 1;
            Polynomial { coefficients: f, degree: d }
        }
    }

    /// Elementwise sum of the two coefficient sequences, renormalized.
    pub fn add(&self, rhs: &Self) -> (r: Self)
        requires
            self.wf(),
            rhs.wf(),
        ensures
            r.wf(),
            r@ == normalize(poly_add(self@, rhs@)),
    {
        let ghost a = self@;
        let ghost b = rhs@;
        let mut v: Vec<T> = Vec::new();
        let (short, long) = if self.coefficients.len() >= rhs.coefficients.len() {
            (rhs.coefficients.len(), self.coefficients.len())
        } else {
            (self.coefficients.len(), rhs.coefficients.len())
        };
        let mut i: usize = 0;
        while i < short
            invariant
                self.wf(),
                rhs.wf(),
                a == self@,
                b == rhs@,
                short <= a.len(),
                short <= b.len(),
                i <= short,
                v@.len() == i as int,
                forall|j: int| 0 <= j < i as int ==> v@[j] == poly_add(a, b)[j],
                forall|j: int| 0 <= j < i as int ==> (#[trigger] v@[j]).wf(),
            decreases short - i,
        {
            proof {
                T::law_add_closed(a[i as int], b[i as int]);
            }
            v.push(self.coefficients[i].add(rhs.coefficients[i]));
            i += 1;
        }
        while i < long
            invariant
                self.wf(),
                rhs.wf(),
                a == self@,
                b == rhs@,
                short == if a.len() >= b.len() {
                    b.len()
                } else {
                    a.len()
                },
                long == if a.len() >= b.len() {
                    a.len()
                } else {
                    b.len()
                },
                short <= i <= long,
                v@.len() == i as int,
                forall|j: int| 0 <= j < i as int ==> v@[j] == poly_add(a, b)[j],
                forall|j: int| 0 <= j < i as int ==> (#[trigger] v@[j]).wf(),
            decreases long - i,
        {
            if self.coefficients.len() >= rhs.coefficients.len() {
                proof {
                    T::zero_wf();
                    T::law_add_zero(a[i as int]);
                }
                v.push(self.coefficients[i]);
            } else {
                proof {
                    T::zero_wf();
                    T::law_add_zero(b[i as int]);
                    T::law_add_comm(T::spec_zero(), b[i as int]);
                }
                v.push(rhs.coefficients[i]);
            }
            i += 1;
        }
        proof {
            assert(v@ =~= poly_add(a, b));
        }
        Polynomial::new(&v)
    }

    /// Elementwise difference of the two coefficient sequences, renormalized;
    /// coefficients of the right operand beyond the left one's degree are
    /// negated.
    pub fn sub(&self, rhs: &Self) -> (r: Self)
        requires
            self.wf(),
            rhs.wf(),
        ensures
            r.wf(),
            r@ == normalize(poly_sub(self@, rhs@)),
    {
        let ghost a = self@;
        let ghost b = rhs@;
        let mut v: Vec<T> = Vec::new();
        let (short, long) = if self.coefficients.len() >= rhs.coefficients.len() {
            (rhs.coefficients.len(), self.coefficients.len())
        } else {
            (self.coefficients.len(), rhs.coefficients.len())
        };
        let mut i: usize = 0;
        while i < short
            invariant
                self.wf(),
                rhs.wf(),
                a == self@,
                b == rhs@,
                short <= a.len(),
                short <= b.len(),
                i <= short,
                v@.len() == i as int,
                forall|j: int| 0 <= j < i as int ==> v@[j] == poly_sub(a, b)[j],
                forall|j: int| 0 <= j < i as int ==> (#[trigger] v@[j]).wf(),
            decreases short - i,
        {
            proof {
                T::law_neg_closed(b[i as int]);
                T::law_add_closed(a[i as int], b[i as int].spec_neg());
            }
            v.push(self.coefficients[i].sub(rhs.coefficients[i]));
            i += 1;
        }
        while i < long
            invariant
                self.wf(),
                rhs.wf(),
                a == self@,
                b == rhs@,
                short == if a.len() >= b.len() {
                    b.len()
                } else {
                    a.len()
                },
                long == if a.len() >= b.len() {
                    a.len()
                } else {
                    b.len()
                },
                short <= i <= long,
                v@.len() == i as int,
                forall|j: int| 0 <= j < i as int ==> v@[j] == poly_sub(a, b)[j],
                forall|j: int| 0 <= j < i as int ==> (#[trigger] v@[j]).wf(),
            decreases long - i,
        {
            if self.coefficients.len() >= rhs.coefficients.len() {
                proof {
                    T::zero_wf();
                    lemma_neg_zero::<T>();
                    T::law_add_zero(a[i as int]);
                }
                v.push(self.coefficients[i]);
            } else {
                proof {
                    T::zero_wf();
                    T::law_neg_closed(b[i as int]);
                    T::law_add_comm(T::spec_zero(), b[i as int].spec_neg());
                    T::law_add_zero(b[i as int].spec_neg());
                }
                v.push(T::zero().sub(rhs.coefficients[i]));
            }
            i += 1;
        }
        proof {
            assert(v@ =~= poly_sub(a, b));
        }
        Polynomial::new(&v)
    }

    /// Coefficient-wise negation, renormalized.
    pub fn neg(&self) -> (r: Self)
        requires
            self.wf(),
        ensures
            r.wf(),
            r@ == normalize(poly_neg(self@)),
    {
        let ghost a = self@;
        let mut v: Vec<T> = Vec::new();
        let mut i: usize = 0;
        while i < self.coefficients.len()
            invariant
                self.wf(),
                a == self@,
                i <= a.len(),
                v@.len() == i as int,
                forall|j: int| 0 <= j < i as int ==> v@[j] == poly_neg(a)[j],
                forall|j: int| 0 <= j < i as int ==> (#[trigger] v@[j]).wf(),
            decreases a.len() - i,
        {
            proof {
                T::law_neg_closed(a[i as int]);
            }
            v.push(self.coefficients[i].neg());
            i += 1;
        }
        proof {
            assert(v@ =~= poly_neg(a));
        }
        Polynomial::new(&v)
    }
}

impl<T: Ring> Polynomial<T> {
    /// Discrete convolution of the coefficient sequences (the standard
    /// O(n^2) polynomial product), renormalized.
    pub fn mul(&self, rhs: &Self) -> (r: Self)
        requires
            self.wf(),
            rhs.wf(),
            self@.len() + rhs@.len() <= usize::MAX,
        ensures
            r.wf(),
            r@ == normalize(poly_mul(self@, rhs@)),
    {
        let ghost a = self@;
        let ghost b = rhs@;
        let alen = self.coefficients.len();
        let blen = rhs.coefficients.len();
        let n = alen + blen - 1;
        let mut v: Vec<T> = Vec::new();
        let mut i: usize = 0;
        while i < n
            invariant
                self.wf(),
                rhs.wf(),
                a == self@,
                b == rhs@,
                alen == a.len(),
                blen == b.len(),
                n == a.len() + b.len() - 1,
                i <= n,
                v@.len() == i as int,
                forall|j: int| 0 <= j < i as int ==> v@[j] == poly_mul(a, b)[j],
                forall|j: int| 0 <= j < i as int ==> (#[trigger] v@[j]).wf(),
            decreases n - i,
        {
            let mut acc: T = T::zero();
            let mut j: usize = 0;
            proof {
                T::zero_wf();
                assert(a.skip(0) =~= a);
                lemma_conv_coeff_wf(a, b, i as int);
                T::law_add_comm(T::spec_zero(), conv_coeff(a, b, i as int));
                T::law_add_zero(conv_coeff(a, b, i as int));
            }
            while j < alen
                invariant
                    self.wf(),
                    rhs.wf(),
                    a == self@,
                    b == rhs@,
                    alen == a.len(),
                    blen == b.len(),
                    j <= alen,
                    acc.wf(),
                    conv_coeff(a, b, i as int) == acc.spec_add(
                        conv_coeff(a.skip(j as int), b, i as int - j as int),
                    ),
                decreases alen - j,
            {
                let ghost s = a.skip(j as int);
                let ghost rest = conv_coeff(a.skip(j as int + 1), b, i as int - j as int - 1);
                proof {
                    T::zero_wf();
                    assert(s.len() > 0);
                    assert(s[0] == a[j as int]);
                    assert(s.skip(1) =~= a.skip(j as int + 1));
                    lemma_all_wf_skip(a, j as int + 1);
                    lemma_conv_coeff_wf(a.skip(j as int + 1), b, i as int - j as int - 1);
                }
                let c = self.coefficients[j];
                if j <= i && i - j < blen {
                    proof {
                        let term = a[j as int].spec_mul(b[i as int - j as int]);
                        T::law_mul_closed(a[j as int], b[i as int - j as int]);
                        T::law_add_assoc(acc, term, rest);
                        T::law_add_closed(acc, term);
                    }
                    acc = acc.add(c.mul(rhs.coefficients[i - j]));
                } else {
                    proof {
                        let term = a[j as int].spec_mul(coeff(b, i as int - j as int));
                        T::law_mul_zero(a[j as int]);
                        assert(term == T::spec_zero());
                        T::law_add_comm(T::spec_zero(), rest);
                        T::law_add_zero(rest);
                        assert(conv_coeff(s, b, i as int - j as int) == rest);
                    }
                }
                j += 1;
            }
            proof {
                assert(a.skip(alen as int).len() == 0);
                assert(conv_coeff(a.skip(alen as int), b, i as int - alen as int)
                    == T::spec_zero());
                T::law_add_zero(acc);
                assert(acc == conv_coeff(a, b, i as int));
                assert(poly_mul(a, b)[i as int] == conv_coeff(a, b, i as int));
            }
            v.push(acc);
            i += 1;
        }
        proof {
            assert(v@ =~= poly_mul(a, b));
        }
        Polynomial::new(&v)
    }

    /// The value of the polynomial at `t`: accumulates
    /// `coefficients[i] * t^i` with a running power of `t`.
    pub fn evaluate(f: &Self, t: T) -> (r: T)
        requires
            f.wf(),
            t.wf(),
        ensures
            r.wf(),
            r == eval_at(f@, t),
    {
        let ghost s = f@;
        let mut t_pow: T = T::identity();
        let mut ans: T = T::zero();
        let mut i: usize = 0;
        proof {
            T::zero_wf();
            T::identity_wf();
            assert(s.skip(0) =~= s);
            lemma_eval_wf(s, t);
            T::law_mul_comm(T::spec_identity(), eval_at(s, t));
            T::law_mul_identity(eval_at(s, t));
            T::law_add_comm(T::spec_zero(), eval_at(s, t));
            T::law_add_zero(eval_at(s, t));
        }
        while i < f.coefficients.len()
            invariant
                f.wf(),
                s == f@,
                t.wf(),
                i <= s.len(),
                ans.wf(),
                t_pow.wf(),
                eval_at(s, t) == ans.spec_add(t_pow.spec_mul(eval_at(s.skip(i as int), t))),
            decreases s.len() - i,
        {
            let ghost rest = eval_at(s.skip(i as int), t);
            let ghost rest1 = eval_at(s.skip(i as int + 1), t);
            proof {
                let c = s[i as int];
                assert(s.skip(i as int)[0] == c);
                assert(s.skip(i as int).skip(1) =~= s.skip(i as int + 1));
                lemma_all_wf_skip(s, i as int + 1);
                lemma_eval_wf(s.skip(i as int + 1), t);
                assert(rest == c.spec_add(t.spec_mul(rest1)));
                T::law_mul_closed(t, rest1);
                T::law_mul_distrib(t_pow, c, t.spec_mul(rest1));
                T::law_mul_closed(t_pow, c);
                T::law_mul_closed(t_pow, t.spec_mul(rest1));
                T::law_add_assoc(ans, t_pow.spec_mul(c), t_pow.spec_mul(t.spec_mul(rest1)));
                T::law_mul_comm(t_pow, c);
                T::law_mul_assoc(t_pow, t, rest1);
                T::law_add_closed(ans, c.spec_mul(t_pow));
                T::law_mul_closed(t_pow, t);
            }
            let c = f.coefficients[i];
            ans = ans.add(c.mul(t_pow));
            t_pow = t_pow.mul(t);
            i += 1;
        }
        proof {
            assert(s.skip(s.len() as int).len() == 0);
            assert(eval_at(s.skip(s.len() as int), t) == T::spec_zero());
            T::law_mul_zero(t_pow);
            T::law_add_zero(ans);
        }
        ans
    }

    /// The formal derivative: coefficient `i >= 1` is multiplied by the ring
    /// element standing for `i` (built by repeated addition of the
    /// multiplicative identity) and shifted down one degree.
    pub fn derivative(f: &Self) -> (r: Self)
        requires
            f.wf(),
        ensures
            r.wf(),
            r@ == normalize(derived_seq(f@)),
    {
        let ghost s = f@;
        let mut integer: T = T::identity();
        let mut v: Vec<T> = Vec::new();
        let mut i: usize = 1;
        proof {
            T::identity_wf();
            T::zero_wf();
            T::law_add_comm(T::spec_zero(), T::spec_identity());
            T::law_add_zero(T::spec_identity());
            assert(of_nat::<T>(0) == T::spec_zero());
            assert(of_nat::<T>(1) == of_nat::<T>(0).spec_add(T::spec_identity()));
            assert(of_nat::<T>(1) == T::spec_identity());
        }
        while i < f.coefficients.len()
            invariant
                f.wf(),
                s == f@,
                1 <= i <= s.len(),
                v@.len() == i as int - 1,
                forall|j: int| 0 <= j < i as int - 1 ==> v@[j] == derived_seq(s)[j],
                forall|j: int| 0 <= j < i as int - 1 ==> (#[trigger] v@[j]).wf(),
                integer == of_nat::<T>(i as nat),
                integer.wf(),
            decreases s.len() - i,
        {
            proof {
                T::law_mul_closed(s[i as int], integer);
                T::identity_wf();
                T::law_add_closed(integer, T::spec_identity());
            }
            let c = f.coefficients[i];
            v.push(c.mul(integer));
            integer = integer.add(T::identity());
            i += 1;
        }
        proof {
            assert(v@ =~= derived_seq(s));
        }
        Polynomial::new(&v)
    }
}

/// The characters of a single non-zero term: the coefficient (omitted for
/// the multiplicative identity, except in the constant term), then the
/// variable, then `^` and the exponent for degrees above one.
pub open spec fn term_chars<T: Ring + crate::render::Render>(c: T, i: int, var: char) -> Seq<
    char,
> {
    if i == 0 {
        c.spec_render()
    } else {
        (if c == T::spec_identity() {
            Seq::<char>::empty()
        } else {
            c.spec_render()
        }) + (if i == 1 {
            seq![var]
        } else {
            seq![var, '^'] + crate::render::dec_chars(i as nat)
        })
    }
}

/// The non-zero terms from index `i` on, joined by `" + "`; `first` records
/// whether no term has been printed yet, so the leading separator is
/// omitted exactly once.
pub open spec fn render_terms<T: Ring + crate::render::Render>(
    s: Seq<T>,
    var: char,
    i: int,
    first: bool,
) -> Seq<char>
    decreases s.len() - i,
{
    if i < 0 || i >= s.len() {
        Seq::empty()
    } else if s[i] == T::spec_zero() {
        render_terms(s, var, i + 1, first)
    } else {
        (if first {
            Seq::<char>::empty()
        } else {
            seq![' ', '+', ' ']
        }) + term_chars(s[i], i, var) + render_terms(s, var, i + 1, false)
    }
}

/// How a polynomial displays: a degree-0 polynomial prints its constant
/// coefficient even when zero; otherwise the non-zero terms are joined by
/// `" + "`, with the coefficient omitted when it is the multiplicative
/// identity.
pub open spec fn poly_chars<T: Ring + crate::render::Render>(s: Seq<T>, var: char) -> Seq<char> {
    if s.len() == 1 {
        s[0].spec_render()
    } else {
        render_terms(s, var, 0, true)
    }
}

impl<T: Ring + crate::render::Render> Polynomial<T> {
    /// Renders the polynomial with the given variable symbol.
    fn render_var(&self, var: char) -> (r: String)
        requires
            self.wf(),
        ensures
            r@ == poly_chars(self@, var),
    {
        let ghost s = self@;
        let mut out: Vec<char> = Vec::new();
        if self.coefficients.len() == 1 {
            let mut cs = self.coefficients[0].render();
            out.append(&mut cs);
            proof {
                assert(out@ =~= poly_chars(s, var));
            }
            return crate::render::chars_to_string(&out);
        }
        let mut first: bool = true;
        let mut i: usize = 0;
        proof {
            T::zero_wf();
            T::identity_wf();
            assert(Seq::<char>::empty() + render_terms(s, var, 0, true) =~= render_terms(
                s,
                var,
                0,
                true,
            ));
        }
        while i < self.coefficients.len()
            invariant
                self.wf(),
                s == self@,
                s.len() >= 2,
                i <= s.len(),
                poly_chars(s, var) == out@ + render_terms(s, var, i as int, first),
            decreases s.len() - i,
        {
            proof {
                T::zero_wf();
                T::identity_wf();
            }
            let ghost out0 = out@;
            let ghost first0 = first;
            let c = self.coefficients[i];
            if !c.eq_elem(T::zero()) {
                if !first {
                    out.push(' ');
                    out.push('+');
                    out.push(' ');
                }
                if i == 0 {
                    let mut cs = c.render();
                    out.append(&mut cs);
                } else {
                    if !c.eq_elem(T::identity()) {
                        let mut cs = c.render();
                        out.append(&mut cs);
                    }
                    out.push(var);
                    if i >= 2 {
                        out.push('^');
                        let mut ds = crate::render::u64_to_chars(i as u64);
                        out.append(&mut ds);
                    }
                }
                first = false;
                proof {
                    let sep: Seq<char> = if first0 {
                        Seq::<char>::empty()
                    } else {
                        seq![' ', '+', ' ']
                    };
                    assert(out@ =~= out0 + (sep + term_chars(s[i as int], i as int, var)));
                    assert(render_terms(s, var, i as int, first0) == (sep + term_chars(
                        s[i as int],
                        i as int,
                        var,
                    )) + render_terms(s, var, i as int + 1, false));
                    assert(out0 + ((sep + term_chars(s[i as int], i as int, var)) + render_terms(
                        s,
                        var,
                        i as int + 1,
                        false,
                    )) =~= (out0 + (sep + term_chars(s[i as int], i as int, var))) + render_terms(
                        s,
                        var,
                        i as int + 1,
                        false,
                    ));
                }
            } else {
                proof {
                    assert(render_terms(s, var, i as int, first0) == render_terms(
                        s,
                        var,
                        i as int + 1,
                        first0,
                    ));
                }
            }
            i += 1;
        }
        proof {
            assert(render_terms(s, var, s.len() as int, first) =~= Seq::<char>::empty());
            assert(out@ + Seq::<char>::empty() =~= out@);
        }
        crate::render::chars_to_string(&out)
    }

    /// Renders the polynomial as a function of `x`.
    pub fn print_f_of_x(&self) -> (r: String)
        requires
            self.wf(),
        ensures
            r@ == poly_chars(self@, 'x'),
    {
        self.render_var('x')
    }

    /// Renders the polynomial as a function of `y`, so the same value can
    /// serve as the right-hand side of a displayed equation.
    pub fn print_f_of_y(&self) -> (r: String)
        requires
            self.wf(),
        ensures
            r@ == poly_chars(self@, 'y'),
    {
        self.render_var('y')
    }
}

/// Every entry a ring element ever convolves to is well formed.
pub proof fn lemma_conv_coeff_wf<T: Ring>(a: Seq<T>, b: Seq<T>, i: int)
    requires
        T::type_wf(),
        all_wf(a),
        all_wf(b),
    ensures
        conv_coeff(a, b, i).wf(),
    decreases a.len(),
{
    T::zero_wf();
    if a.len() == 0 {
    } else {
        lemma_all_wf_skip(a, 1);
        lemma_conv_coeff_wf(a.skip(1), b, i - 1);
        T::law_mul_closed(a[0], coeff(b, i));
        T::law_add_closed(a[0].spec_mul(coeff(b, i)), conv_coeff(a.skip(1), b, i - 1));
    }
}

/// Evaluation of a well-formed sequence yields a well-formed value.
pub proof fn lemma_eval_wf<T: Ring>(s: Seq<T>, t: T)
    requires
        T::type_wf(),
        all_wf(s),
        t.wf(),
    ensures
        eval_at(s, t).wf(),
    decreases s.len(),
{
    T::zero_wf();
    if s.len() > 0 {
        lemma_all_wf_skip(s, 1);
        lemma_eval_wf(s.skip(1), t);
        T::law_mul_closed(t, eval_at(s.skip(1), t));
        T::law_add_closed(s[0], t.spec_mul(eval_at(s.skip(1), t)));
    }
}

/// Dropping a prefix keeps every remaining entry well formed.
pub proof fn lemma_all_wf_skip<T: Ring>(s: Seq<T>, n: int)
    requires
        all_wf(s),
        0 <= n <= s.len(),
    ensures
        all_wf(s.skip(n)),
{
    assert forall|k: int| 0 <= k < s.skip(n).len() implies (#[trigger] s.skip(n)[k]).wf() by {
        assert(s.skip(n)[k] == s[k + n]);
    }
}

/// Negating zero yields zero, a consequence of the ring laws.
pub proof fn lemma_neg_zero<T: Ring>()
    requires
        T::type_wf(),
    ensures
        T::spec_zero().spec_neg() == T::spec_zero(),
{
    T::zero_wf();
    T::law_add_neg(T::spec_zero());
    T::law_neg_closed(T::spec_zero());
    T::law_add_comm(T::spec_zero(), T::spec_zero().spec_neg());
    T::law_add_zero(T::spec_zero().spec_neg());
}

/// The rest of a coefficient sequence after its constant term; empty stays
/// empty, so the result is always well defined.
pub open spec fn ptail<T>(s: Seq<T>) -> Seq<T> {
    if s.len() == 0 {
        s
    } else {
        s.skip(1)
    }
}

/// Pointwise scaling of a coefficient sequence by a ring element.
pub open spec fn scale<T: Ring>(c: T, s: Seq<T>) -> Seq<T> {
    Seq::new(s.len(), |i: int| c.spec_mul(s[i]))
}

/// Dropping the constant term keeps every entry well formed.
pub proof fn lemma_all_wf_tail<T: Ring>(s: Seq<T>)
    requires
        all_wf(s),
    ensures
        all_wf(ptail(s)),
{
    if s.len() > 0 {
        lemma_all_wf_skip(s, 1);
    }
}

/// Every padded coefficient of a well-formed sequence is well formed.
pub proof fn lemma_coeff_wf<T: Ring>(s: Seq<T>, i: int)
    requires
        T::type_wf(),
        all_wf(s),
    ensures
        coeff(s, i).wf(),
{
    T::zero_wf();
}

/// Shifting indices through `ptail`.
pub proof fn lemma_coeff_tail<T: Ring>(s: Seq<T>, i: int)
    requires
        0 <= i,
    ensures
        coeff(ptail(s), i) == coeff(s, i + 1),
{
}

/// One step of the Horner recurrence, valid for the empty sequence as well.
pub proof fn lemma_eval_unfold<T: Ring>(s: Seq<T>, t: T)
    requires
        T::type_wf(),
        all_wf(s),
        t.wf(),
    ensures
        eval_at(s, t) == coeff(s, 0).spec_add(t.spec_mul(eval_at(ptail(s), t))),
{
    T::zero_wf();
    if s.len() == 0 {
        T::law_mul_zero(t);
        T::law_add_zero(T::spec_zero());
    }
}

/// Evaluation of a sequence of zero coefficients is zero.
pub proof fn lemma_eval_all_zero<T: Ring>(s: Seq<T>, t: T)
    requires
        T::type_wf(),
        t.wf(),
        forall|i: int| 0 <= i < s.len() ==> s[i] == T::spec_zero(),
    ensures
        eval_at(s, t) == T::spec_zero(),
    decreases s.len(),
{
    T::zero_wf();
    if s.len() > 0 {
        assert forall|k: int| 0 <= k < s.skip(1).len() implies s.skip(1)[k] == T::spec_zero() by {
            assert(s.skip(1)[k] == s[k + 1]);
        }
        lemma_eval_all_zero(s.skip(1), t);
        T::law_mul_zero(t);
        T::law_add_zero(T::spec_zero());
    }
}

/// A normalized sequence is already in canonical form.
pub proof fn lemma_normalized_fixed<T: Ring>(s: Seq<T>)
    requires
        is_normalized(s),
    ensures
        normalize(s) == s,
{
}

/// Normalization preserves the denoted polynomial: every coefficient, read
/// with zero padding, is unchanged; and the result is canonical and keeps
/// well-formedness.
pub proof fn lemma_normalize_facts<T: Ring>(s: Seq<T>)
    requires
        T::type_wf(),
        all_wf(s),
    ensures
        is_normalized(normalize(s)),
        all_wf(normalize(s)),
        normalize(s).len() <= s.len() || normalize(s) == seq![T::spec_zero()],
        forall|i: int| coeff(normalize(s), i) == coeff(s, i),
    decreases s.len(),
{
    T::zero_wf();
    if s.len() == 0 {
        assert(forall|i: int| coeff(normalize(s), i) == coeff(s, i));
    } else if s.len() == 1 {
    } else if s.last() == T::spec_zero() {
        lemma_normalize_facts(s.drop_last());
        assert(forall|i: int| coeff(s.drop_last(), i) == coeff(s, i));
    } else {
    }
}

/// Canonicity: a normalized sequence that denotes the same polynomial as `s`
/// is exactly the canonical form of `s`.
pub proof fn lemma_normalize_canonical<T: Ring>(s: Seq<T>, p: Seq<T>)
    requires
        is_normalized(p),
        forall|i: int| coeff(p, i) == coeff(s, i),
    ensures
        normalize(s) == p,
    decreases s.len(),
{
    if s.len() == 0 {
        if p.len() > 1 {
            assert(p.last() == coeff(p, p.len() - 1));
            assert(coeff(s, p.len() - 1) == T::spec_zero());
            assert(false);
        }
        assert(p[0] == coeff(p, 0));
        assert(coeff(s, 0) == T::spec_zero());
        assert(p =~= seq![T::spec_zero()]);
    } else if s.len() == 1 {
        if p.len() > 1 {
            assert(p.last() == coeff(p, p.len() - 1));
            assert(coeff(s, p.len() - 1) == T::spec_zero());
            assert(false);
        }
        assert(p[0] == coeff(p, 0));
        assert(coeff(s, 0) == s[0]);
        assert(p =~= s);
    } else if s.last() == T::spec_zero() {
        assert forall|i: int| coeff(s.drop_last(), i) == coeff(s, i) by {
            if i == s.len() - 1 {
                assert(coeff(s, i) == s.last());
            }
        }
        lemma_normalize_canonical(s.drop_last(), p);
    } else {
        let n = s.len() as int;
        assert(coeff(s, n - 1) == s.last());
        assert(coeff(p, n - 1) != T::spec_zero());
        assert(p.len() >= n);
        if p.len() > n {
            assert(p.last() == coeff(p, p.len() - 1));
            assert(coeff(s, p.len() - 1) == T::spec_zero());
            assert(false);
        }
        assert forall|i: int| 0 <= i < n implies p[i] == s[i] by {
            assert(coeff(p, i) == coeff(s, i));
        }
        assert(p =~= s);
    }
}

/// Two coefficient sequences denoting the same polynomial have the same
/// canonical form.
pub proof fn lemma_normalize_congruent<T: Ring>(s: Seq<T>, u: Seq<T>)
    requires
        T::type_wf(),
        all_wf(u),
        forall|i: int| coeff(s, i) == coeff(u, i),
    ensures
        normalize(s) == normalize(u),
{
    lemma_normalize_facts(u);
    assert forall|i: int| coeff(normalize(u), i) == coeff(s, i) by {
        assert(coeff(normalize(u), i) == coeff(u, i));
    }
    lemma_normalize_canonical(s, normalize(u));
}

/// Appending a trailing zero coefficient does not change the canonical form.
pub proof fn lemma_normalize_push_zero<T: Ring>(s: Seq<T>)
    ensures
        normalize(s.push(T::spec_zero())) == normalize(s),
{
    let u = s.push(T::spec_zero());
    if s.len() == 0 {
        assert(u =~= seq![T::spec_zero()]);
    } else {
        assert(u.last() == T::spec_zero());
        assert(u.drop_last() =~= s);
    }
}

/// A sequence of zero coefficients always denotes the canonical zero
/// polynomial, whatever its length.
pub proof fn lemma_normalize_all_zero<T: Ring>(s: Seq<T>)
    requires
        forall|i: int| 0 <= i < s.len() ==> s[i] == T::spec_zero(),
    ensures
        normalize(s) == seq![T::spec_zero()],
    decreases s.len(),
{
    if s.len() == 0 {
    } else if s.len() == 1 {
        assert(s =~= seq![T::spec_zero()]);
    } else {
        lemma_normalize_all_zero(s.drop_last());
    }
}

/// Normalization is idempotent.
pub proof fn lemma_normalize_idempotent<T: Ring>(s: Seq<T>)
    requires
        T::type_wf(),
        all_wf(s),
    ensures
        normalize(normalize(s)) == normalize(s),
{
    lemma_normalize_facts(s);
    lemma_normalized_fixed(normalize(s));
}

/// Adding a polynomial and then subtracting it gives back the original:
/// the abstract statement behind `p.add(q).sub(q) == p`.
pub proof fn lemma_add_sub_cancel<T: Ring>(p: Seq<T>, q: Seq<T>)
    requires
        T::type_wf(),
        all_wf(p),
        all_wf(q),
        is_normalized(p),
    ensures
        normalize(poly_sub(normalize(poly_add(p, q)), q)) == p,
{
    T::zero_wf();
    let s = normalize(poly_add(p, q));
    assert forall|i: int| 0 <= i < poly_add(p, q).len() implies (#[trigger] poly_add(p, q)[i]).wf()
    by {
        lemma_coeff_wf(p, i);
        lemma_coeff_wf(q, i);
        T::law_add_closed(coeff(p, i), coeff(q, i));
    }
    lemma_normalize_facts(poly_add(p, q));
    assert forall|i: int| coeff(poly_sub(s, q), i) == coeff(p, i) by {
        let pi = coeff(p, i);
        let qi = coeff(q, i);
        lemma_coeff_wf(p, i);
        lemma_coeff_wf(q, i);
        T::law_add_zero(T::spec_zero());
        assert(coeff(poly_add(p, q), i) == pi.spec_add(qi));
        assert(coeff(s, i) == pi.spec_add(qi));
        T::law_add_closed(pi, qi);
        T::law_neg_closed(qi);
        lemma_neg_zero::<T>();
        assert(coeff(poly_sub(s, q), i) == coeff(s, i).spec_add(qi.spec_neg()));
        T::law_add_assoc(pi, qi, qi.spec_neg());
        T::law_add_neg(qi);
        T::law_add_zero(pi);
    }
    lemma_normalize_canonical(poly_sub(s, q), p);
}

/// Rearranges `(p + q) + (x + y)` into `(p + x) + (q + y)`.
proof fn lemma_add_exchange<T: Ring>(p: T, q: T, x: T, y: T)
    requires
        T::type_wf(),
        p.wf(),
        q.wf(),
        x.wf(),
        y.wf(),
    ensures
        p.spec_add(q).spec_add(x.spec_add(y)) == p.spec_add(x).spec_add(q.spec_add(y)),
{
    T::law_add_closed(p, q);
    T::law_add_closed(x, y);
    T::law_add_closed(q, y);
    T::law_add_closed(p, x);
    T::law_add_closed(q, x);
    T::law_add_closed(x, q);
    T::law_add_assoc(p, q, x.spec_add(y));
    T::law_add_assoc(q, x, y);
    T::law_add_comm(q, x);
    T::law_add_assoc(x, q, y);
    T::law_add_closed(q, y);
    T::law_add_assoc(p, x, q.spec_add(y));
}

/// Evaluation is additive: the value of the elementwise sum is the sum of
/// the values.
pub proof fn lemma_eval_add<T: Ring>(a: Seq<T>, b: Seq<T>, t: T)
    requires
        T::type_wf(),
        all_wf(a),
        all_wf(b),
        t.wf(),
    ensures
        eval_at(poly_add(a, b), t) == eval_at(a, t).spec_add(eval_at(b, t)),
    decreases a.len() + b.len(),
{
    T::zero_wf();
    let m = poly_add(a, b);
    if m.len() == 0 {
        T::law_add_zero(T::spec_zero());
    } else {
        let ta = ptail(a);
        let tb = ptail(b);
        lemma_all_wf_tail(a);
        lemma_all_wf_tail(b);
        lemma_eval_add(ta, tb, t);
        assert forall|i: int| 0 <= i < m.skip(1).len() implies m.skip(1)[i] == poly_add(ta, tb)[i]
        by {
            assert(m.skip(1)[i] == m[i + 1]);
            lemma_coeff_tail::<T>(a, i);
            lemma_coeff_tail::<T>(b, i);
        }
        assert(m.skip(1) =~= poly_add(ta, tb));
        assert forall|i: int| 0 <= i < m.len() implies (#[trigger] m[i]).wf() by {
            lemma_coeff_wf(a, i);
            lemma_coeff_wf(b, i);
            T::law_add_closed(coeff(a, i), coeff(b, i));
        }
        lemma_eval_unfold(m, t);
        lemma_eval_unfold(a, t);
        lemma_eval_unfold(b, t);
        let a0 = coeff(a, 0);
        let b0 = coeff(b, 0);
        let ea = eval_at(ta, t);
        let eb = eval_at(tb, t);
        lemma_coeff_wf(a, 0);
        lemma_coeff_wf(b, 0);
        lemma_eval_wf(ta, t);
        lemma_eval_wf(tb, t);
        assert(coeff(m, 0) == a0.spec_add(b0));
        assert(eval_at(m, t) == a0.spec_add(b0).spec_add(t.spec_mul(ea.spec_add(eb))));
        T::law_mul_distrib(t, ea, eb);
        T::law_mul_closed(t, ea);
        T::law_mul_closed(t, eb);
        lemma_add_exchange(a0, b0, t.spec_mul(ea), t.spec_mul(eb));
    }
}

/// Evaluation commutes with scaling: the value of `c * s` is `c` times the
/// value of `s`.
pub proof fn lemma_eval_scale<T: Ring>(c: T, s: Seq<T>, t: T)
    requires
        T::type_wf(),
        c.wf(),
        all_wf(s),
        t.wf(),
    ensures
        eval_at(scale(c, s), t) == c.spec_mul(eval_at(s, t)),
    decreases s.len(),
{
    T::zero_wf();
    if s.len() == 0 {
        T::law_mul_zero(c);
    } else {
        lemma_all_wf_skip(s, 1);
        lemma_eval_scale(c, s.skip(1), t);
        assert forall|i: int|
            0 <= i < scale(c, s).skip(1).len() implies scale(c, s).skip(1)[i] == scale(
            c,
            s.skip(1),
        )[i] by {
            assert(scale(c, s).skip(1)[i] == scale(c, s)[i + 1]);
            assert(s.skip(1)[i] == s[i + 1]);
        }
        assert(scale(c, s).skip(1) =~= scale(c, s.skip(1)));
        let e1 = eval_at(s.skip(1), t);
        lemma_eval_wf(s.skip(1), t);
        // scale(c, s) is nonempty, so its Horner step unfolds directly
        assert(eval_at(scale(c, s), t) == c.spec_mul(s[0]).spec_add(
            t.spec_mul(c.spec_mul(e1)),
        ));
        T::law_mul_closed(c, e1);
        T::law_mul_assoc(t, c, e1);
        T::law_mul_comm(t, c);
        T::law_mul_assoc(c, t, e1);
        T::law_mul_closed(t, e1);
        T::law_mul_distrib(c, s[0], t.spec_mul(e1));
    }
}

/// The convolution against an empty sequence vanishes everywhere.
proof fn lemma_conv_coeff_empty_right<T: Ring>(a: Seq<T>, b: Seq<T>, i: int)
    requires
        T::type_wf(),
        all_wf(a),
        b.len() == 0,
    ensures
        conv_coeff(a, b, i) == T::spec_zero(),
    decreases a.len(),
{
    T::zero_wf();
    if a.len() > 0 {
        T::law_mul_zero(a[0]);
        lemma_all_wf_skip(a, 1);
        lemma_conv_coeff_empty_right(a.skip(1), b, i - 1);
        T::law_add_zero(T::spec_zero());
    }
}

/// The convolution sum vanishes outside the index range of the product.
pub proof fn lemma_conv_coeff_out_of_range<T: Ring>(a: Seq<T>, b: Seq<T>, i: int)
    requires
        T::type_wf(),
        all_wf(a),
        all_wf(b),
        i < 0 || i >= a.len() + b.len() - 1,
    ensures
        conv_coeff(a, b, i) == T::spec_zero(),
    decreases a.len(),
{
    T::zero_wf();
    if a.len() > 0 {
        assert(coeff(b, i) == T::spec_zero());
        T::law_mul_zero(a[0]);
        lemma_all_wf_skip(a, 1);
        lemma_conv_coeff_out_of_range(a.skip(1), b, i - 1);
        T::law_add_zero(T::spec_zero());
    }
}

/// Evaluation is multiplicative on the raw convolution: the value of the
/// product sequence is the product of the values.
pub proof fn lemma_eval_conv<T: Ring>(a: Seq<T>, b: Seq<T>, t: T)
    requires
        T::type_wf(),
        all_wf(a),
        all_wf(b),
        t.wf(),
    ensures
        eval_at(poly_mul(a, b), t) == eval_at(a, t).spec_mul(eval_at(b, t)),
    decreases a.len(),
{
    T::zero_wf();
    let m = poly_mul(a, b);
    let eb = eval_at(b, t);
    lemma_eval_wf(b, t);
    if a.len() == 0 {
        assert forall|i: int| 0 <= i < m.len() implies m[i] == T::spec_zero() by {
            assert(m[i] == conv_coeff(a, b, i));
        }
        lemma_eval_all_zero(m, t);
        T::law_mul_zero(eb);
        T::law_mul_comm(T::spec_zero(), eb);
    } else if b.len() == 0 {
        assert forall|i: int| 0 <= i < m.len() implies m[i] == T::spec_zero() by {
            assert(m[i] == conv_coeff(a, b, i));
            lemma_conv_coeff_empty_right(a, b, i);
        }
        lemma_eval_all_zero(m, t);
        lemma_eval_wf(a, t);
        T::law_mul_zero(eval_at(a, t));
    } else {
        let a0 = a[0];
        let ta = a.skip(1);
        lemma_all_wf_skip(a, 1);
        let sc = scale(a0, b);
        let sh = seq![T::spec_zero()] + poly_mul(ta, b);
        assert forall|i: int| 0 <= i < sc.len() implies (#[trigger] sc[i]).wf() by {
            T::law_mul_closed(a0, b[i]);
        }
        assert forall|i: int| 0 <= i < sh.len() implies (#[trigger] sh[i]).wf() by {
            if i >= 1 {
                assert(sh[i] == poly_mul(ta, b)[i - 1]);
                lemma_conv_coeff_wf(ta, b, i - 1);
            }
        }
        assert forall|i: int| 0 <= i < m.len() implies m[i] == poly_add(sc, sh)[i] by {
            lemma_coeff_wf(b, i);
            T::law_mul_closed(a0, coeff(b, i));
            assert(m[i] == a0.spec_mul(coeff(b, i)).spec_add(conv_coeff(ta, b, i - 1)));
            if i >= b.len() {
                T::law_mul_zero(a0);
            }
            assert(coeff(sc, i) == a0.spec_mul(coeff(b, i)));
            if i == 0 {
                lemma_conv_coeff_out_of_range(ta, b, -1);
                assert(coeff(sh, 0) == T::spec_zero());
            } else if i < sh.len() {
                assert(sh[i] == poly_mul(ta, b)[i - 1]);
                assert(coeff(sh, i) == conv_coeff(ta, b, i - 1));
            } else {
                lemma_conv_coeff_out_of_range(ta, b, i - 1);
            }
        }
        assert(m =~= poly_add(sc, sh));
        lemma_eval_add(sc, sh, t);
        lemma_eval_scale(a0, b, t);
        lemma_eval_conv(ta, b, t);
        // the shifted factor evaluates to t times the rest of the product
        lemma_eval_unfold(sh, t);
        assert(sh.len() > 0);
        assert(coeff(sh, 0) == T::spec_zero());
        assert forall|i: int| 0 <= i < ptail(sh).len() implies ptail(sh)[i] == poly_mul(ta, b)[i]
        by {
            assert(ptail(sh)[i] == sh[i + 1]);
        }
        assert(ptail(sh) =~= poly_mul(ta, b));
        let ea = eval_at(ta, t);
        lemma_eval_wf(ta, t);
        T::law_mul_closed(ea, eb);
        T::law_mul_closed(t, ea.spec_mul(eb));
        T::law_add_comm(T::spec_zero(), t.spec_mul(ea.spec_mul(eb)));
        T::law_add_zero(t.spec_mul(ea.spec_mul(eb)));
        assert(eval_at(sh, t) == t.spec_mul(ea.spec_mul(eb)));
        // fold both sides into (a0 + t * ea) * eb
        lemma_eval_unfold(a, t);
        T::law_mul_closed(t, ea);
        T::law_add_closed(a0, t.spec_mul(ea));
        T::law_mul_comm(a0.spec_add(t.spec_mul(ea)), eb);
        T::law_mul_distrib(eb, a0, t.spec_mul(ea));
        T::law_mul_comm(eb, a0);
        T::law_mul_comm(eb, t.spec_mul(ea));
        T::law_mul_assoc(t, ea, eb);
        T::law_mul_comm(t.spec_mul(ea), eb);
        assert(eval_at(a, t).spec_mul(eb) == a0.spec_mul(eb).spec_add(
            t.spec_mul(ea.spec_mul(eb)),
        ));
    }
}

/// Removing a trailing zero coefficient does not change any value.
proof fn lemma_eval_drop_last_zero<T: Ring>(s: Seq<T>, t: T)
    requires
        T::type_wf(),
        all_wf(s),
        t.wf(),
        s.len() >= 1,
        s.last() == T::spec_zero(),
    ensures
        eval_at(s.drop_last(), t) == eval_at(s, t),
    decreases s.len(),
{
    T::zero_wf();
    if s.len() == 1 {
        assert(s.drop_last() =~= Seq::<T>::empty());
        T::law_mul_zero(t);
        T::law_add_zero(T::spec_zero());
        assert(s.skip(1).len() == 0);
        assert(eval_at(s.skip(1), t) == T::spec_zero());
        assert(eval_at(s.drop_last(), t) == T::spec_zero());
        assert(eval_at(s, t) == s[0].spec_add(t.spec_mul(eval_at(s.skip(1), t))));
        assert(s[0] == T::spec_zero());
    } else {
        lemma_all_wf_skip(s, 1);
        assert(s.skip(1).len() >= 1);
        assert(s.skip(1).last() == s.last());
        lemma_eval_drop_last_zero(s.skip(1), t);
        assert forall|i: int|
            0 <= i < s.drop_last().skip(1).len() implies s.drop_last().skip(1)[i] == s.skip(
            1,
        ).drop_last()[i] by {
            assert(s.drop_last().skip(1)[i] == s.drop_last()[i + 1]);
            assert(s.skip(1).drop_last()[i] == s.skip(1)[i]);
        }
        assert(s.drop_last().skip(1) =~= s.skip(1).drop_last());
        assert(s.drop_last()[0] == s[0]);
        assert(eval_at(s, t) == s[0].spec_add(t.spec_mul(eval_at(s.skip(1), t))));
        assert(eval_at(s.drop_last(), t) == s.drop_last()[0].spec_add(
            t.spec_mul(eval_at(s.drop_last().skip(1), t)),
        ));
    }
}

/// Normalization does not change the value of the polynomial anywhere.
pub proof fn lemma_eval_normalize<T: Ring>(s: Seq<T>, t: T)
    requires
        T::type_wf(),
        all_wf(s),
        t.wf(),
    ensures
        eval_at(normalize(s), t) == eval_at(s, t),
    decreases s.len(),
{
    T::zero_wf();
    if s.len() == 0 {
        let z = seq![T::spec_zero()];
        assert(normalize(s) == z);
        assert(z.skip(1).len() == 0);
        T::law_mul_zero(t);
        T::law_add_zero(T::spec_zero());
        assert(eval_at(z.skip(1), t) == T::spec_zero());
        assert(eval_at(z, t) == z[0].spec_add(t.spec_mul(eval_at(z.skip(1), t))));
        assert(eval_at(s, t) == T::spec_zero());
    } else if s.len() == 1 {
    } else if s.last() == T::spec_zero() {
        assert forall|i: int| 0 <= i < s.drop_last().len() implies (
        #[trigger] s.drop_last()[i]).wf() by {
            assert(s.drop_last()[i] == s[i]);
        }
        lemma_eval_normalize(s.drop_last(), t);
        lemma_eval_drop_last_zero(s, t);
    } else {
    }
}

/// The evaluation of a product of polynomials is the product of the
/// evaluations: the abstract statement behind
/// `evaluate(p.mul(q), t) == evaluate(p, t) * evaluate(q, t)`.
pub proof fn lemma_mul_evaluate<T: Ring>(a: Seq<T>, b: Seq<T>, t: T)
    requires
        T::type_wf(),
        all_wf(a),
        all_wf(b),
        t.wf(),
    ensures
        eval_at(normalize(poly_mul(a, b)), t) == eval_at(a, t).spec_mul(eval_at(b, t)),
{
    assert forall|i: int| 0 <= i < poly_mul(a, b).len() implies (#[trigger] poly_mul(a, b)[i]).wf()
    by {
        lemma_conv_coeff_wf(a, b, i);
    }
    lemma_eval_normalize(poly_mul(a, b), t);
    lemma_eval_conv(a, b, t);
}

/// The derivative of a constant polynomial is the canonical zero polynomial.
pub proof fn lemma_derivative_of_constant<T: Ring>(s: Seq<T>)
    requires
        s.len() == 1,
    ensures
        normalize(derived_seq(s)) == seq![T::spec_zero()],
{
    assert(derived_seq(s).len() == 0);
}

} // verus!
