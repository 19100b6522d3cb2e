//! Arithmetic on residues modulo the order of the field.
//!
//! Elements are held as `u64` values. Every operation reduces its result, so
//! whatever comes out of this module lies in `[0, order)`.

use vstd::arithmetic::div_mod::{lemma_add_mod_noop, lemma_mod_bound, lemma_mul_mod_noop};
use vstd::arithmetic::power::pow;
use vstd::prelude::*;

verus! {

/// The sum of `a` and `b` in the integers modulo `p`.
pub open spec fn fadd(p: int, a: int, b: int) -> int {
    (a + b) % p
}

/// The product of `a` and `b` in the integers modulo `p`.
pub open spec fn fmul(p: int, a: int, b: int) -> int {
    (a * b) % p
}

/// `x` raised to the power `d` in the integers modulo `p`.
pub open spec fn fpow(p: int, x: int, d: nat) -> int {
    pow(x, d) % p
}

/// Every entry of `s` is a reduced residue modulo `p`.
pub open spec fn all_reduced(p: int, s: Seq<int>) -> bool {
    forall|i: int| 0 <= i < s.len() ==> 0 <= #[trigger] s[i] < p
}

/// The entries of `v` as integers.
pub open spec fn ints(v: Seq<u64>) -> Seq<int> {
    Seq::new(v.len(), |i: int| v[i] as int)
}

/// Every entry of `v` is the canonical representative of its residue.
pub open spec fn canonical(p: int, v: Seq<u64>) -> bool {
    forall|i: int| 0 <= i < v.len() ==> (#[trigger] v[i]) < p
}

/// The rows of `t` as sequences of integers.
pub open spec fn table_ints(t: Seq<Vec<u64>>) -> Seq<Seq<int>> {
    Seq::new(t.len(), |k: int| ints(t[k]@))
}

/// `t` has `rows` rows of `cols` entries each.
pub open spec fn table_shape(t: Seq<Vec<u64>>, rows: int, cols: int) -> bool {
    &&& t.len() == rows
    &&& forall|k: int| 0 <= k < t.len() ==> (#[trigger] t[k])@.len() == cols
}

/// Every entry of every row of `t` is canonical.
pub open spec fn table_canonical(p: int, t: Seq<Vec<u64>>) -> bool {
    forall|k: int| 0 <= k < t.len() ==> canonical(p, (#[trigger] t[k])@)
}

/// Adding reduced representatives is adding the numbers they stand for.
pub proof fn lemma_fadd_reduces(p: int, a: int, b: int)
    requires
        p > 0,
    ensures
        fadd(p, a % p, b % p) == (a + b) % p,
        0 <= fadd(p, a, b) < p,
{
    lemma_add_mod_noop(a, b, p);
    lemma_mod_bound(a + b, p);
}

/// Sums of congruent numbers are congruent.
pub proof fn lemma_add_congruent(p: int, a: int, a2: int, b: int, b2: int)
    requires
        p > 0,
        a % p == a2 % p,
        b % p == b2 % p,
    ensures
        (a + b) % p == (a2 + b2) % p,
{
    lemma_add_mod_noop(a, b, p);
    lemma_add_mod_noop(a2, b2, p);
}

/// Products of congruent numbers are congruent.
pub proof fn lemma_mul_congruent(p: int, a: int, a2: int, b: int, b2: int)
    requires
        p > 0,
        a % p == a2 % p,
        b % p == b2 % p,
    ensures
        (a * b) % p == (a2 * b2) % p,
{
    lemma_mul_mod_noop(a, b, p);
    lemma_mul_mod_noop(a2, b2, p);
}

/// The integers modulo `order`. The arithmetic below is sound for every
/// order of at least two; the permutation is meant for a prime one.
#[derive(Clone, Copy, Debug, PartialEq, Eq)]
pub struct Field {
    /// The number of elements.
    pub order: u64,
}

impl Field {
    /// The order is large enough for the residues to form a ring with `0 != 1`.
    pub open spec fn wf(&self) -> bool {
        self.order >= 2
    }

    /// The order as a mathematical integer.
    pub open spec fn p(&self) -> int {
        self.order as int
    }

    /// The field of the given order, or `None` when the order is below two.
    pub fn new(order: u64) -> (r: Option<Field>)
        ensures
            r.is_some() <==> order >= 2,
            r.is_some() ==> r.unwrap().order == order && r.unwrap().wf(),
    {
        if order >= 2 {
            Some(Field { order })
        } else {
            None
        }
    }

    /// Whether `x` is the canonical representative of its residue.
    pub fn is_canonical(&self, x: u64) -> (b: bool)
        ensures
            b <==> x < self.order,
    {
        x < self.order
    }

    /// `(a + b) mod order`.
    pub fn add(&self, a: u64, b: u64) -> (r: u64)
        requires
            self.wf(),
        ensures
            r == fadd(self.p(), a as int, b as int),
            r < self.order,
    {
        let s: u128 = a as u128 + b as u128;
        let m: u128 = s % (self.order as u128);
        proof {
            lemma_mod_bound(a as int + b as int, self.p());
        }
        m as u64
    }

    /// `(a * b) mod order`.
    pub fn mul(&self, a: u64, b: u64) -> (r: u64)
        requires
            self.wf(),
        ensures
            r == fmul(self.p(), a as int, b as int),
            r < self.order,
    {
        assert(a as int * b as int <= 0xffff_ffff_ffff_ffff * 0xffff_ffff_ffff_ffff) by (nonlinear_arith)
            requires
                0 <= a as int <= 0xffff_ffff_ffff_ffff,
                0 <= b as int <= 0xffff_ffff_ffff_ffff,
        ;
        let s: u128 = (a as u128) * (b as u128);
        let m: u128 = s % (self.order as u128);
        proof {
            lemma_mod_bound(a as int * b as int, self.p());
        }
        m as u64
    }
}

/// Whether every entry of `v` is canonical.
pub fn all_canonical(field: &Field, v: &Vec<u64>) -> (b: bool)
    ensures
        b == canonical(field.p(), v@),
{
    let mut i: usize = 0;
    while i < v.len()
        invariant
            i <= v.len(),
            forall|k: int| 0 <= k < i ==> (#[trigger] v@[k]) < field.p(),
        decreases v.len() - i,
    {
        if v[i] >= field.order {
            return false;
        }
        i = i + 1;
    }
    true
}

/// Whether every entry of every row of `t` is canonical.
pub fn all_rows_canonical(field: &Field, t: &Vec<Vec<u64>>) -> (b: bool)
    ensures
        b == table_canonical(field.p(), t@),
{
    let mut k: usize = 0;
    while k < t.len()
        invariant
            k <= t.len(),
            forall|j: int| 0 <= j < k ==> canonical(field.p(), (#[trigger] t@[j])@),
        decreases t.len() - k,
    {
        if !all_canonical(field, &t[k]) {
            return false;
        }
        k = k + 1;
    }
    true
}

/// Whether `t` has `rows` rows of `cols` entries each.
pub fn has_shape(t: &Vec<Vec<u64>>, rows: usize, cols: usize) -> (b: bool)
    ensures
        b == table_shape(t@, rows as int, cols as int),
{
    if t.len() != rows {
        return false;
    }
    let mut k: usize = 0;
    while k < t.len()
        invariant
            k <= t.len(),
            t.len() == rows,
            forall|j: int| 0 <= j < k ==> (#[trigger] t@[j])@.len() == cols,
        decreases t.len() - k,
    {
        if t[k].len() != cols {
            return false;
        }
        k = k + 1;
    }
    true
}

} // verus!
