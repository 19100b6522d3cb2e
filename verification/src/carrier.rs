//! The algebra the permutation is written against.
//!
//! The witness generator runs the permutation on field elements and the
//! constraint evaluator runs it on polynomial expressions over the cells of a
//! row. Both go through [`Carrier`], so the two can only agree.

use crate::field::{fadd, fmul, ints, Field};
use vstd::prelude::*;

verus! {

/// The larger of two degrees.
pub open spec fn larger(a: nat, b: nat) -> nat {
    if a >= b {
        a
    } else {
        b
    }
}

/// A value that stands for a residue once the cells of the row are known.
pub trait Carrier: Sized {
    /// The residue modulo `p` that this value takes when the row holds `env`.
    spec fn interp(&self, p: int, env: Seq<int>) -> int;

    /// An upper bound on the degree of this value as a polynomial in the
    /// cells of the row.
    spec fn degree(&self) -> nat;

    /// The field constant `c`.
    fn constant(field: &Field, c: u64) -> (r: Self)
        requires
            field.wf(),
        ensures
            forall|env: Seq<int>| #[trigger] r.interp(field.p(), env) == (c as int) % field.p(),
            r.degree() == 0,
    ;

    /// The sum of `self` and `rhs`.
    fn add(&self, rhs: &Self, field: &Field) -> (r: Self)
        requires
            field.wf(),
        ensures
            forall|env: Seq<int>| #[trigger]
                r.interp(field.p(), env) == fadd(
                    field.p(),
                    self.interp(field.p(), env),
                    rhs.interp(field.p(), env),
                ),
            r.degree() <= larger(self.degree(), rhs.degree()),
    ;

    /// The product of `self` and `rhs`.
    fn mul(&self, rhs: &Self, field: &Field) -> (r: Self)
        requires
            field.wf(),
        ensures
            forall|env: Seq<int>| #[trigger]
                r.interp(field.p(), env) == fmul(
                    field.p(),
                    self.interp(field.p(), env),
                    rhs.interp(field.p(), env),
                ),
            r.degree() <= self.degree() + rhs.degree(),
    ;

    /// A copy of `self`: a value that stands for the same residue on
    /// every row.
    fn dup(&self) -> (r: Self)
        ensures
            forall|p: int, env: Seq<int>| #[trigger] r.interp(p, env) == self.interp(p, env),
            r.degree() == self.degree(),
    ;
}

impl Carrier for u64 {
    open spec fn interp(&self, p: int, env: Seq<int>) -> int {
        *self as int
    }

    open spec fn degree(&self) -> nat {
        0
    }

    fn constant(field: &Field, c: u64) -> (r: u64)
        ensures
            r == (c as int) % field.p(),
    {
        c % field.order
    }

    fn add(&self, rhs: &u64, field: &Field) -> (r: u64)
        ensures
            r == fadd(field.p(), *self as int, *rhs as int),
    {
        field.add(*self, *rhs)
    }

    fn mul(&self, rhs: &u64, field: &Field) -> (r: u64)
        ensures
            r == fmul(field.p(), *self as int, *rhs as int),
    {
        field.mul(*self, *rhs)
    }

    fn dup(&self) -> (r: u64)
        ensures
            r == *self,
    {
        *self
    }
}

/// The residues that the entries of `s` take on the row `env`.
pub open spec fn interp_all<T: Carrier>(s: Seq<T>, p: int, env: Seq<int>) -> Seq<int> {
    Seq::new(s.len(), |i: int| s[i].interp(p, env))
}

/// Every entry of `s` has degree at most `k`.
pub open spec fn bounded<T: Carrier>(s: Seq<T>, k: nat) -> bool {
    forall|i: int| 0 <= i < s.len() ==> (#[trigger] s[i]).degree() <= k
}

/// A field element stands for itself on every row.
pub proof fn lemma_interp_ints(s: Seq<u64>, p: int, env: Seq<int>)
    ensures
        interp_all(s, p, env) == ints(s),
{
    assert(interp_all(s, p, env) =~= ints(s));
}

} // verus!
