//! The S-box `x -> x^d` and the registers that reach it.
//!
//! A constraint may have degree at most three, so `x^d` is not asserted in
//! one step. The first register holds `x^3`; each register in the middle
//! multiplies the one before by `x^3` (by `x^6` for degree 11); the last
//! multiplies by `x^3`, `x` or `x^2`, as `d` leaves remainder 0, 1 or 2
//! modulo 3.

use crate::columns::{degree_supported, register_count, SBox};
use crate::field::{fmul, fpow, ints, lemma_mul_congruent, Field};
use vstd::arithmetic::div_mod::lemma_mod_twice;
use vstd::arithmetic::power::{lemma_pow1, lemma_pow_adds, pow};
use vstd::prelude::*;

verus! {

/// The exponent by which the last register exceeds the one before it.
pub open spec fn last_step(d: int) -> nat {
    if d % 3 == 0 {
        3
    } else if d % 3 == 1 {
        1
    } else {
        2
    }
}

/// The exponent of `x` that register `j` of `r` holds for degree `d`.
pub open spec fn register_exponent(d: int, r: int, j: int) -> nat
    decreases j,
{
    if j <= 0 {
        3
    } else if j < r - 1 {
        register_exponent(d, r, j - 1) + if d == 11 {
            6nat
        } else {
            3nat
        }
    } else {
        register_exponent(d, r, j - 1) + last_step(d)
    }
}

/// Register `j` of the S-box of `x`.
pub open spec fn sbox_register(p: int, d: int, r: int, x: int, j: int) -> int {
    fpow(p, x, register_exponent(d, r, j))
}

/// The `r` registers of the S-box of `x`.
pub open spec fn sbox_registers(p: int, d: int, r: int, x: int) -> Seq<int> {
    Seq::new(r as nat, |j: int| sbox_register(p, d, r, x, j))
}

/// The S-box applied to every cell of `s`.
pub open spec fn sbox_layer(p: int, d: int, s: Seq<int>) -> Seq<int> {
    Seq::new(s.len(), |i: int| fpow(p, s[i], d as nat))
}

/// `a` is congruent to the `m`-th power of `x`.
pub open spec fn is_power(p: int, x: int, a: int, m: nat) -> bool {
    a % p == fpow(p, x, m)
}

/// The product of a power of `x` and a power of `x` is the power of `x` to
/// the sum of the exponents.
pub proof fn lemma_power_product(p: int, x: int, a: int, m: nat, b: int, n: nat)
    requires
        p > 0,
        is_power(p, x, a, m),
        is_power(p, x, b, n),
    ensures
        fmul(p, a, b) == fpow(p, x, m + n),
        is_power(p, x, fmul(p, a, b), m + n),
{
    lemma_mul_congruent(p, a, pow(x, m), b, pow(x, n));
    lemma_pow_adds(x, m, n);
    lemma_mod_twice(a * b, p);
}

/// A number is its own first power, and a reduced power is a power.
pub proof fn lemma_is_power(p: int, x: int, m: nat)
    requires
        p > 0,
    ensures
        is_power(p, x, x, 1),
        is_power(p, x, fpow(p, x, m), m),
{
    lemma_pow1(x);
    lemma_mod_twice(pow(x, m), p);
}

/// With the register count that its degree calls for, the last register of
/// an S-box holds `x^d`.
pub proof fn lemma_last_register_is_power(p: int, d: int, x: int)
    requires
        degree_supported(d),
    ensures
        register_exponent(d, register_count(d), register_count(d) - 1) == d,
        sbox_registers(p, d, register_count(d), x)[register_count(d) - 1] == fpow(p, x, d as nat),
{
    let r = register_count(d);
    reveal_with_fuel(register_exponent, 4);
    assert(register_exponent(d, r, r - 1) == d);
}

/// The registers of the S-box of `x`.
///
/// The degree must be one of 3, 5, 7 and 11, and `registers` the number
/// that the degree calls for.
pub fn generate_sbox(field: &Field, degree: usize, registers: usize, x: u64) -> (sbox: SBox<u64>)
    requires
        field.wf(),
        degree_supported(degree as int),
        registers == register_count(degree as int),
    ensures
        ints(sbox@) == sbox_registers(field.p(), degree as int, registers as int, x as int),
{
    let ghost p = field.p();
    let ghost d = degree as int;
    let ghost r = registers as int;
    let ghost xi = x as int;
    let x2 = field.mul(x, x);
    let x3 = field.mul(x2, x);
    proof {
        lemma_is_power(p, xi, 1);
        lemma_power_product(p, xi, xi, 1, xi, 1);
        lemma_power_product(p, xi, x2 as int, 2, xi, 1);
    }
    let mut regs: Vec<u64> = Vec::new();
    regs.push(x3);
    if registers == 1 {
        assert(ints(regs@) =~= sbox_registers(p, d, r, xi));
        return SBox(regs);
    }
    let mut i: usize = 1;
    while i < registers - 1
        invariant
            field.wf(),
            p == field.p(),
            d == degree as int,
            r == registers as int,
            xi == x as int,
            registers >= 2,
            1 <= i <= registers - 1,
            regs.len() == i,
            forall|j: int| 0 <= j < i ==> #[trigger] regs@[j] as int == sbox_register(p, d, r, xi, j),
        decreases registers - i,
    {
        let mut value = field.mul(regs[0], regs[i - 1]);
        proof {
            lemma_is_power(p, xi, register_exponent(d, r, 0));
            lemma_is_power(p, xi, register_exponent(d, r, i - 1));
            lemma_power_product(
                p,
                xi,
                regs@[0] as int,
                register_exponent(d, r, 0),
                regs@[i - 1] as int,
                register_exponent(d, r, i - 1),
            );
        }
        if degree == 11 {
            let ghost before = value as int;
            value = field.mul(value, regs[0]);
            proof {
                lemma_power_product(
                    p,
                    xi,
                    before,
                    3 + register_exponent(d, r, i - 1),
                    regs@[0] as int,
                    3,
                );
            }
        }
        regs.push(value);
        i = i + 1;
    }
    let last = if degree % 3 == 0 {
        x3
    } else if degree % 3 == 1 {
        x
    } else {
        x2
    };
    let value = field.mul(last, regs[registers - 2]);
    proof {
        lemma_is_power(p, xi, register_exponent(d, r, r - 2));
        lemma_power_product(
            p,
            xi,
            last as int,
            last_step(d),
            regs@[r - 2] as int,
            register_exponent(d, r, r - 2),
        );
    }
    regs.push(value);
    assert(ints(regs@) =~= sbox_registers(p, d, r, xi));
    SBox(regs)
}

/// Replaces `x` by `x^degree`.
pub fn sbox_p(field: &Field, degree: usize, x: &mut u64)
    requires
        field.wf(),
        degree_supported(degree as int),
    ensures
        *final(x) == fpow(field.p(), *old(x) as int, degree as nat),
{
    let ghost p = field.p();
    let ghost xi = *x as int;
    let x1 = *x;
    let x2 = field.mul(x1, x1);
    proof {
        lemma_is_power(p, xi, 1);
        lemma_power_product(p, xi, xi, 1, xi, 1);
    }
    if degree == 3 {
        proof {
            lemma_power_product(p, xi, xi, 1, x2 as int, 2);
        }
        *x = field.mul(x1, x2);
    } else if degree == 5 {
        let x4 = field.mul(x2, x2);
        proof {
            lemma_power_product(p, xi, x2 as int, 2, x2 as int, 2);
            lemma_power_product(p, xi, xi, 1, x4 as int, 4);
        }
        *x = field.mul(x1, x4);
    } else if degree == 7 {
        let x4 = field.mul(x2, x2);
        let x6 = field.mul(x4, x2);
        proof {
            lemma_power_product(p, xi, x2 as int, 2, x2 as int, 2);
            lemma_power_product(p, xi, x4 as int, 4, x2 as int, 2);
            lemma_power_product(p, xi, xi, 1, x6 as int, 6);
        }
        *x = field.mul(x1, x6);
    } else {
        let x3 = field.mul(x2, x1);
        let x6 = field.mul(x3, x3);
        let x9 = field.mul(x6, x3);
        let x10 = field.mul(x9, x1);
        proof {
            lemma_power_product(p, xi, x2 as int, 2, xi, 1);
            lemma_power_product(p, xi, x3 as int, 3, x3 as int, 3);
            lemma_power_product(p, xi, x6 as int, 6, x3 as int, 3);
            lemma_power_product(p, xi, x9 as int, 9, xi, 1);
            lemma_power_product(p, xi, xi, 1, x10 as int, 10);
        }
        *x = field.mul(x1, x10);
    }
}

/// Replaces every cell of `state` by its power to `degree`.
pub fn sbox(field: &Field, degree: usize, state: &mut Vec<u64>)
    requires
        field.wf(),
        degree_supported(degree as int),
    ensures
        final(state).len() == old(state).len(),
        ints(final(state)@) == sbox_layer(field.p(), degree as int, ints(old(state)@)),
{
    let ghost before = state@;
    let n = state.len();
    let mut i: usize = 0;
    while i < n
        invariant
            field.wf(),
            degree_supported(degree as int),
            n == before.len(),
            state.len() == n,
            i <= n,
            forall|k: int| i <= k < n ==> state@[k] == before[k],
            forall|k: int|
                0 <= k < i ==> #[trigger] state@[k] as int == fpow(
                    field.p(),
                    before[k] as int,
                    degree as nat,
                ),
        decreases n - i,
    {
        let mut x = state[i];
        sbox_p(field, degree, &mut x);
        state[i] = x;
        i = i + 1;
    }
    assert(ints(state@) =~= sbox_layer(field.p(), degree as int, ints(before)));
}

} // verus!
