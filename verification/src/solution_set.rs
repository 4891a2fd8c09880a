use crate::render::Render;
use vstd::prelude::*;

verus! {

/// Runtime equality that agrees with specification equality, for the element
/// types a solution set deduplicates.
pub trait EqCheck: Sized {
    /// Decides equality of the two values.
    fn eq_check(&self, other: &Self) -> (r: bool)
        ensures
            r == (*self == *other),
    ;
}

impl<A: EqCheck, B: EqCheck> EqCheck for (A, B) {
    /// Pairs are equal exactly when both components are.
    fn eq_check(&self, other: &Self) -> (r: bool) {
        self.0.eq_check(&other.0) && self.1.eq_check(&other.1)
    }
}

impl<A: Render, B: Render> Render for (A, B) {
    /// A pair displays as `(left, right)`.
    open spec fn spec_render(self) -> Seq<char> {
        seq!['('] + self.0.spec_render() + seq![',', ' '] + self.1.spec_render() + seq![')']
    }

    fn render(&self) -> (r: Vec<char>) {
        let mut v: Vec<char> = Vec::new();
        v.push('(');
        let mut left = self.0.render();
        v.append(&mut left);
        v.push(',');
        v.push(' ');
        let mut right = self.1.render();
        v.append(&mut right);
        v.push(')');
        proof {
            assert(v@ =~= self.spec_render());
        }
        v
    }
}

/// The elements of a non-empty solution set, comma-joined, starting at
/// index `i`.
pub open spec fn items_chars<T: Render>(s: Seq<T>, i: int) -> Seq<char>
    decreases s.len() - i,
{
    if i < 0 || i >= s.len() {
        Seq::empty()
    } else {
        (if i > 0 {
            seq![',', ' ']
        } else {
            Seq::empty()
        }) + s[i].spec_render() + items_chars(s, i + 1)
    }
}

/// How a solution set displays: `{ }` when empty, else the comma-joined
/// elements in braces.
pub open spec fn set_chars<T: Render>(s: Seq<T>) -> Seq<char> {
    if s.len() == 0 {
        seq!['{', ' ', '}']
    } else {
        seq!['{'] + items_chars(s, 0) + seq!['}']
    }
}

/// A deduplicating collection of solutions: a sequence of elements with no
/// duplicates, so its length is the cardinality of the set it denotes.
#[derive(Debug, Clone, PartialEq, Eq)]
pub struct SolutionSet<T> {
    solutions: Vec<T>,
}

impl<T> View for SolutionSet<T> {
    type V = Seq<T>;

    /// A solution set is abstractly the sequence of its distinct elements.
    closed spec fn view(&self) -> Seq<T> {
        self.solutions@
    }
}

impl<T> SolutionSet<T> {
    /// The invariant: no element occurs twice.
    pub open spec fn wf(self) -> bool {
        self@.no_duplicates()
    }

    /// Wraps an already-deduplicated collection, taking ownership of it.
    pub fn new(s: Vec<T>) -> (r: Self)
        requires
            s@.no_duplicates(),
        ensures
            r.wf(),
            r@ == s@,
    {
        SolutionSet { solutions: s }
    }

    /// The number of distinct solutions.
    pub fn size(&self) -> (r: usize)
        ensures
            r == self@.len(),
    {
        self.solutions.len()
    }
}

impl<T: Copy> SolutionSet<T> {
    /// A copy of the underlying collection, for iteration by a display
    /// layer.
    pub fn unwrap(&self) -> (r: Vec<T>)
        ensures
            r@ == self@,
    {
        let mut v: Vec<T> = Vec::new();
        let mut i: usize = 0;
        while i < self.solutions.len()
            invariant
                i <= self@.len(),
                v@ == self@.subrange(0, i as int),
            decreases self@.len() - i,
        {
            v.push(self.solutions[i]);
            i += 1;
        }
        proof {
            assert(v@ =~= self@);
        }
        v
    }
}

impl<T: Copy + EqCheck> SolutionSet<T> {
    /// Adds an element; no effect if an equal element is already present.
    pub fn insert(&mut self, t: T)
        requires
            old(self).wf(),
        ensures
            final (self).wf(),
            final (self)@ == (if old(self)@.contains(t) {
                old(self)@
            } else {
                old(self)@.push(t)
            }),
    {
        let mut i: usize = 0;
        let mut found: bool = false;
        while i < self.solutions.len()
            invariant
                self.wf(),
                self == old(self),
                i <= self@.len(),
                found == exists|k: int| 0 <= k < i as int && self@[k] == t,
            decreases self@.len() - i,
        {
            if self.solutions[i].eq_check(&t) {
                found = true;
            }
            i += 1;
        }
        if !found {
            proof {
                assert(!self@.contains(t));
            }
            self.solutions.push(t);
        } else {
            proof {
                assert(self@.contains(t));
            }
        }
    }
}

impl<T: Copy + Render> SolutionSet<T> {
    /// Renders the set: `{ }` when empty, else the comma-joined elements in
    /// braces.
    pub fn render(&self) -> (r: String)
        ensures
            r@ == set_chars(self@),
    {
        let ghost s = self@;
        let mut out: Vec<char> = Vec::new();
        if self.solutions.len() == 0 {
            out.push('{');
            out.push(' ');
            out.push('}');
            proof {
                assert(out@ =~= set_chars(s));
            }
            return crate::render::chars_to_string(&out);
        }
        out.push('{');
        let mut i: usize = 0;
        while i < self.solutions.len()
            invariant
                s == self@,
                s.len() >= 1,
                i <= s.len(),
                seq!['{'] + items_chars(s, 0) == out@ + items_chars(s, i as int),
            decreases s.len() - i,
        {
            let ghost out0 = out@;
            if i > 0 {
                out.push(',');
                out.push(' ');
            }
            let mut cs = self.solutions[i].render();
            out.append(&mut cs);
            proof {
                let sep: Seq<char> = if i > 0 {
                    seq![',', ' ']
                } else {
                    Seq::empty()
                };
                assert(out@ =~= out0 + (sep + s[i as int].spec_render()));
                assert(items_chars(s, i as int) == (sep + s[i as int].spec_render()) + items_chars(
                    s,
                    i as int + 1,
                ));
                assert(out0 + ((sep + s[i as int].spec_render()) + items_chars(s, i as int + 1))
                    =~= (out0 + (sep + s[i as int].spec_render())) + items_chars(s, i as int + 1));
            }
            i += 1;
        }
        proof {
            assert(items_chars(s, s.len() as int) =~= Seq::<char>::empty());
            assert(out@ + Seq::<char>::empty() =~= out@);
        }
        out.push('}');
        proof {
            assert(out@ =~= set_chars(s));
        }
        crate::render::chars_to_string(&out)
    }
}

} // verus!
