//! The external layer loses nothing over a prime field whose order does not
//! divide the determinant of its matrix: states that it sends to the same
//! state are the same state.

use crate::field::all_reduced;
use crate::linear::{external_layer, lane_sum, m4_cell, m4_layer, total};
use vstd::arithmetic::div_mod::{
    lemma_fundamental_div_mod, lemma_mod_bound, lemma_mod_equivalence, lemma_mod_multiples_basic,
    lemma_mul_mod_noop_left, lemma_small_mod,
};
use vstd::prelude::*;

verus! {

/// `p` is a prime number.
pub open spec fn is_prime(p: int) -> bool {
    &&& p >= 2
    &&& forall|d: int| 1 < d < p ==> #[trigger] (p % d) != 0
}

/// The number whose prime factors are those of the determinant of the
/// external matrix of width `w`: `w + 1` for the widths 2 and 3, and twice
/// the number of groups plus one from width 4 on.
pub open spec fn external_factor(w: int) -> int {
    if w < 4 {
        w + 1
    } else {
        2 * (w / 4 + 1)
    }
}

/// A multiple of a multiple of `p` is a multiple of `p`.
proof fn lemma_multiple(p: int, a: int, c: int)
    requires
        p > 0,
        a % p == 0,
    ensures
        (c * a) % p == 0,
{
    lemma_fundamental_div_mod(a, p);
    let q = a / p;
    assert(c * a == (c * q) * p) by (nonlinear_arith)
        requires
            a == p * q,
    ;
    lemma_mod_multiples_basic(c * q, p);
}

/// Sums and differences of multiples of `p` are multiples of `p`.
proof fn lemma_sum(p: int, a: int, b: int)
    requires
        p > 0,
        a % p == 0,
        b % p == 0,
    ensures
        (a + b) % p == 0,
        (a - b) % p == 0,
{
    lemma_fundamental_div_mod(a, p);
    lemma_fundamental_div_mod(b, p);
    let q = a / p;
    let r = b / p;
    assert(a + b == (q + r) * p) by (nonlinear_arith)
        requires
            a == p * q,
            b == p * r,
    ;
    assert(a - b == (q - r) * p) by (nonlinear_arith)
        requires
            a == p * q,
            b == p * r,
    ;
    lemma_mod_multiples_basic(q + r, p);
    lemma_mod_multiples_basic(q - r, p);
}

/// A combination of four multiples of `p` is a multiple of `p`.
proof fn lemma_combination(
    p: int,
    a0: int,
    a1: int,
    a2: int,
    a3: int,
    c0: int,
    c1: int,
    c2: int,
    c3: int,
)
    requires
        p > 0,
        a0 % p == 0,
        a1 % p == 0,
        a2 % p == 0,
        a3 % p == 0,
    ensures
        (c0 * a0 + c1 * a1 + c2 * a2 + c3 * a3) % p == 0,
{
    lemma_multiple(p, a0, c0);
    lemma_multiple(p, a1, c1);
    lemma_multiple(p, a2, c2);
    lemma_multiple(p, a3, c3);
    lemma_sum(p, c0 * a0, c1 * a1);
    lemma_sum(p, c0 * a0 + c1 * a1, c2 * a2);
    lemma_sum(p, c0 * a0 + c1 * a1 + c2 * a2, c3 * a3);
}

/// A prime that divides `k z`, with `0 < k < p`, divides `z`.
proof fn lemma_euclid(p: int, k: int, z: int)
    requires
        is_prime(p),
        0 < k < p,
        (k * z) % p == 0,
    ensures
        z % p == 0,
    decreases k,
{
    if k == 1 {
        assert(1 * z == z);
    } else {
        let q = p / k;
        let r = p % k;
        lemma_fundamental_div_mod(p, k);
        lemma_mod_bound(p, k);
        assert(r != 0);
        lemma_mod_multiples_basic(z, p);
        lemma_multiple(p, k * z, q);
        lemma_sum(p, z * p, q * (k * z));
        assert(r * z == z * p - q * (k * z)) by (nonlinear_arith)
            requires
                p == k * q + r,
        ;
        lemma_euclid(p, r, z);
    }
}

/// A prime that divides `k z` and not `k` divides `z`.
pub proof fn lemma_cancel(p: int, k: int, z: int)
    requires
        is_prime(p),
        k % p != 0,
        (k * z) % p == 0,
    ensures
        z % p == 0,
{
    lemma_mul_mod_noop_left(k, z, p);
    lemma_mod_bound(k, p);
    lemma_euclid(p, k % p, z);
}

/// Reduced residues that are congruent are equal.
proof fn lemma_reduced_equal(p: int, a: int, b: int)
    requires
        p > 0,
        0 <= a < p,
        0 <= b < p,
        (a - b) % p == 0,
    ensures
        a == b,
{
    lemma_mod_equivalence(a, b, p);
    lemma_small_mod(a as nat, p as nat);
    lemma_small_mod(b as nat, p as nat);
}

/// Where every cell of `x` plus `sx` is congruent to the cell of `y` plus
/// `sy`, the sums of the first `n` cells plus `n` times `sx` and `sy` are
/// congruent.
proof fn lemma_total_shift(p: int, x: Seq<int>, y: Seq<int>, sx: int, sy: int, n: nat)
    requires
        p > 0,
        n <= x.len(),
        x.len() == y.len(),
        forall|i: int| 0 <= i < n ==> ((#[trigger] x[i] + sx) - (y[i] + sy)) % p == 0,
    ensures
        ((total(x, n) + n * sx) - (total(y, n) + n * sy)) % p == 0,
    decreases n,
{
    if n > 0 {
        let m = (n - 1) as nat;
        lemma_total_shift(p, x, y, sx, sy, m);
        let _ = x[n - 1];
        lemma_sum(
            p,
            (total(x, m) + m * sx) - (total(y, m) + m * sy),
            (x[n - 1] + sx) - (y[n - 1] + sy),
        );
        assert(n * sx == m * sx + sx) by (nonlinear_arith)
            requires
                n == m + 1,
        ;
        assert(n * sy == m * sy + sy) by (nonlinear_arith)
            requires
                n == m + 1,
        ;
    } else {
        assert(0 * sx == 0);
        assert(0 * sy == 0);
        lemma_small_mod(0, p as nat);
    }
}

/// Where cell `l` of every group of `x` plus `sx` is congruent to that of
/// `y` plus `sy`, the sums of lane `l` over the first `n` groups plus `n`
/// times `sx` and `sy` are congruent.
proof fn lemma_lane_shift(p: int, x: Seq<int>, y: Seq<int>, l: int, sx: int, sy: int, n: nat)
    requires
        p > 0,
        forall|g: int|
            0 <= g < n ==> ((#[trigger] m4_cell(x, g, l) + sx) - (m4_cell(y, g, l) + sy)) % p == 0,
    ensures
        ((lane_sum(x, l, n) + n * sx) - (lane_sum(y, l, n) + n * sy)) % p == 0,
    decreases n,
{
    if n > 0 {
        let m = (n - 1) as nat;
        lemma_lane_shift(p, x, y, l, sx, sy, m);
        let _ = m4_cell(x, n - 1, l);
        lemma_sum(
            p,
            (lane_sum(x, l, m) + m * sx) - (lane_sum(y, l, m) + m * sy),
            (m4_cell(x, n - 1, l) + sx) - (m4_cell(y, n - 1, l) + sy),
        );
        assert(n * sx == m * sx + sx) by (nonlinear_arith)
            requires
                n == m + 1,
        ;
        assert(n * sy == m * sy + sy) by (nonlinear_arith)
            requires
                n == m + 1,
        ;
    } else {
        assert(0 * sx == 0);
        assert(0 * sy == 0);
        lemma_small_mod(0, p as nat);
    }
}

/// Where the 4x4 products of group `g` of `x` and of `y` are congruent
/// modulo an odd prime, the cells of the group are: the product with the
/// matrix `[[-1,3,-6,7],[1,-1,4,-5],[-6,7,-1,3],[4,-5,1,-1]]` gives back
/// eight times the cells.
proof fn lemma_m4_group(p: int, x: Seq<int>, y: Seq<int>, g: int)
    requires
        is_prime(p),
        2int % p != 0,
        forall|l: int| 0 <= l < 4 ==> (#[trigger] m4_cell(x, g, l) - m4_cell(y, g, l)) % p == 0,
    ensures
        forall|j: int| 0 <= j < 4 ==> (#[trigger] x[4 * g + j] - y[4 * g + j]) % p == 0,
{
    let d0 = m4_cell(x, g, 0) - m4_cell(y, g, 0);
    let d1 = m4_cell(x, g, 1) - m4_cell(y, g, 1);
    let d2 = m4_cell(x, g, 2) - m4_cell(y, g, 2);
    let d3 = m4_cell(x, g, 3) - m4_cell(y, g, 3);
    let u0 = x[4 * g] - y[4 * g];
    let u1 = x[4 * g + 1] - y[4 * g + 1];
    let u2 = x[4 * g + 2] - y[4 * g + 2];
    let u3 = x[4 * g + 3] - y[4 * g + 3];
    lemma_combination(p, d0, d1, d2, d3, -1, 3, -6, 7);
    lemma_combination(p, d0, d1, d2, d3, 1, -1, 4, -5);
    lemma_combination(p, d0, d1, d2, d3, -6, 7, -1, 3);
    lemma_combination(p, d0, d1, d2, d3, 4, -5, 1, -1);
    assert((-1) * d0 + 3 * d1 + (-6) * d2 + 7 * d3 == 2 * (2 * (2 * u0)));
    assert(1 * d0 + (-1) * d1 + 4 * d2 + (-5) * d3 == 2 * (2 * (2 * u1)));
    assert((-6) * d0 + 7 * d1 + (-1) * d2 + 3 * d3 == 2 * (2 * (2 * u2)));
    assert(4 * d0 + (-5) * d1 + 1 * d2 + (-1) * d3 == 2 * (2 * (2 * u3)));
    lemma_cancel(p, 2, 2 * (2 * u0));
    lemma_cancel(p, 2, 2 * u0);
    lemma_cancel(p, 2, u0);
    lemma_cancel(p, 2, 2 * (2 * u1));
    lemma_cancel(p, 2, 2 * u1);
    lemma_cancel(p, 2, u1);
    lemma_cancel(p, 2, 2 * (2 * u2));
    lemma_cancel(p, 2, 2 * u2);
    lemma_cancel(p, 2, u2);
    lemma_cancel(p, 2, 2 * (2 * u3));
    lemma_cancel(p, 2, 2 * u3);
    lemma_cancel(p, 2, u3);
    assert forall|j: int| 0 <= j < 4 implies (#[trigger] x[4 * g + j] - y[4 * g + j]) % p == 0 by {
        if j == 0 {
        } else if j == 1 {
        } else if j == 2 {
        } else {
        }
    }
}

/// Over an odd prime field the 4x4 matrix is invertible: reduced states
/// whose groups it sends to the same products are the same state.
pub proof fn lemma_m4_injective(p: int, x: Seq<int>, y: Seq<int>)
    requires
        is_prime(p),
        2int % p != 0,
        x.len() == y.len(),
        x.len() % 4 == 0,
        all_reduced(p, x),
        all_reduced(p, y),
        m4_layer(p, x) == m4_layer(p, y),
    ensures
        x == y,
{
    assert forall|i: int| 0 <= i < x.len() implies x[i] == y[i] by {
        let g = i / 4;
        assert forall|l: int| 0 <= l < 4 implies (#[trigger] m4_cell(x, g, l) - m4_cell(y, g, l))
            % p == 0 by {
            let c = 4 * g + l;
            assert(m4_layer(p, x)[c] == m4_cell(x, c / 4, c % 4) % p);
            assert(m4_layer(p, y)[c] == m4_cell(y, c / 4, c % 4) % p);
            lemma_mod_equivalence(m4_cell(x, g, l), m4_cell(y, g, l), p);
        }
        lemma_m4_group(p, x, y, g);
        assert((x[4 * g + i % 4] - y[4 * g + i % 4]) % p == 0);
        lemma_reduced_equal(p, x[i], y[i]);
    }
    assert(x =~= y);
}

/// Over a prime field whose order does not divide
/// [`external_factor`] the external matrix is invertible: reduced states
/// that the external layer sends to the same state are the same state.
pub proof fn lemma_external_injective(p: int, x: Seq<int>, y: Seq<int>)
    requires
        is_prime(p),
        x.len() == y.len(),
        x.len() >= 1,
        x.len() < 4 || x.len() % 4 == 0,
        external_factor(x.len() as int) % p != 0,
        all_reduced(p, x),
        all_reduced(p, y),
        external_layer(p, x) == external_layer(p, y),
    ensures
        x == y,
{
    let w = x.len() as int;
    if w < 4 {
        let sx = total(x, w as nat);
        let sy = total(y, w as nat);
        assert forall|i: int| 0 <= i < w implies ((#[trigger] x[i] + sx) - (y[i] + sy)) % p
            == 0 by {
            assert(external_layer(p, x)[i] == (x[i] + sx) % p);
            assert(external_layer(p, y)[i] == (y[i] + sy) % p);
            lemma_mod_equivalence(x[i] + sx, y[i] + sy, p);
        }
        lemma_total_shift(p, x, y, sx, sy, w as nat);
        assert((sx + w * sx) - (sy + w * sy) == (w + 1) * (sx - sy)) by (nonlinear_arith);
        lemma_cancel(p, w + 1, sx - sy);
        assert forall|i: int| 0 <= i < w implies x[i] == y[i] by {
            let _ = x[i];
            lemma_sum(p, (x[i] + sx) - (y[i] + sy), sx - sy);
            lemma_reduced_equal(p, x[i], y[i]);
        }
    } else {
        let t = w / 4;
        if 2int % p == 0 {
            lemma_multiple(p, 2, t + 1);
            assert((t + 1) * 2 == 2 * (t + 1)) by (nonlinear_arith);
        }
        if (t + 1) % p == 0 {
            lemma_multiple(p, t + 1, 2);
        }
        assert forall|i: int| 0 <= i < w implies x[i] == y[i] by {
            let g = i / 4;
            assert forall|l: int| 0 <= l < 4 implies (#[trigger] m4_cell(x, g, l) - m4_cell(
                y,
                g,
                l,
            )) % p == 0 by {
                let sx = lane_sum(x, l, t as nat);
                let sy = lane_sum(y, l, t as nat);
                assert forall|h: int| 0 <= h < t implies ((#[trigger] m4_cell(x, h, l) + sx) - (
                m4_cell(y, h, l) + sy)) % p == 0 by {
                    let c = 4 * h + l;
                    assert(external_layer(p, x)[c] == (m4_cell(x, c / 4, c % 4) + lane_sum(
                        x,
                        c % 4,
                        t as nat,
                    )) % p);
                    assert(external_layer(p, y)[c] == (m4_cell(y, c / 4, c % 4) + lane_sum(
                        y,
                        c % 4,
                        t as nat,
                    )) % p);
                    lemma_mod_equivalence(m4_cell(x, h, l) + sx, m4_cell(y, h, l) + sy, p);
                }
                lemma_lane_shift(p, x, y, l, sx, sy, t as nat);
                assert((sx + t * sx) - (sy + t * sy) == (t + 1) * (sx - sy)) by (nonlinear_arith);
                lemma_cancel(p, t + 1, sx - sy);
                let _ = m4_cell(x, g, l);
                lemma_sum(p, (m4_cell(x, g, l) + sx) - (m4_cell(y, g, l) + sy), sx - sy);
            }
            lemma_m4_group(p, x, y, g);
            assert((x[4 * g + i % 4] - y[4 * g + i % 4]) % p == 0);
            lemma_reduced_equal(p, x[i], y[i]);
        }
    }
    assert(x =~= y);
}

} // verus!
