//! The two linear layers of the permutation.
//!
//! The external layer mixes the whole state in the full rounds; the internal
//! layer is the cheap mixing of the partial rounds. Both are written once,
//! over any [`Carrier`], and specified on the residues the state stands for.

use crate::carrier::{bounded, interp_all, larger, Carrier};
use crate::error::ConfigError;
use crate::field::{fadd, lemma_add_congruent, lemma_fadd_reduces, lemma_mul_congruent, Field};
use vstd::arithmetic::div_mod::lemma_mod_twice;
use vstd::prelude::*;

verus! {

/// Cell `l` of the product of the 4x4 matrix
/// `[[5,7,1,3],[4,6,1,1],[1,3,5,7],[1,1,4,6]]` with group `g` of `x`, as an
/// integer that is not yet reduced.
pub open spec fn m4_cell(x: Seq<int>, g: int, l: int) -> int {
    let a = x[4 * g];
    let b = x[4 * g + 1];
    let c = x[4 * g + 2];
    let d = x[4 * g + 3];
    if l == 0 {
        5 * a + 7 * b + c + 3 * d
    } else if l == 1 {
        4 * a + 6 * b + c + d
    } else if l == 2 {
        a + 3 * b + 5 * c + 7 * d
    } else {
        a + b + 4 * c + 6 * d
    }
}

/// The 4x4 matrix applied to every group of four cells of `x`.
pub open spec fn m4_layer(p: int, x: Seq<int>) -> Seq<int> {
    Seq::new(x.len(), |i: int| m4_cell(x, i / 4, i % 4) % p)
}

/// The sum of cell `l` of the 4x4 product over the first `n` groups of `x`.
pub open spec fn lane_sum(x: Seq<int>, l: int, n: nat) -> int
    decreases n,
{
    if n == 0 {
        0
    } else {
        lane_sum(x, l, (n - 1) as nat) + m4_cell(x, n - 1, l)
    }
}

/// The sum of the first `n` cells of `x`.
pub open spec fn total(x: Seq<int>, n: nat) -> int
    decreases n,
{
    if n == 0 {
        0
    } else {
        total(x, (n - 1) as nat) + x[n - 1]
    }
}

/// The widths the external layer is defined for.
pub open spec fn external_supported(w: int) -> bool {
    w == 2 || w == 3 || w == 8 || w == 12 || w == 16 || w == 20 || w == 24
}

/// The widths the internal layer is defined for.
pub open spec fn internal_supported(w: int) -> bool {
    w == 2 || w == 3 || w == 4 || w == 8 || w == 12 || w == 16 || w == 20 || w == 24
}

/// Cell `i` of the external layer applied to `x`.
///
/// For the widths 2 and 3 the matrix is the circulant of `(2, 1)` and of
/// `(2, 1, 1)`: every cell gains the sum of all cells. For the other widths
/// the 4x4 matrix is applied to each group of four, and every cell then
/// gains the sum of its lane over all groups.
pub open spec fn external_cell(p: int, x: Seq<int>, i: int) -> int {
    if x.len() < 4 {
        (x[i] + total(x, x.len())) % p
    } else {
        (m4_cell(x, i / 4, i % 4) + lane_sum(x, i % 4, x.len() / 4)) % p
    }
}

/// The external layer applied to `x`.
pub open spec fn external_layer(p: int, x: Seq<int>) -> Seq<int> {
    Seq::new(x.len(), |i: int| external_cell(p, x, i))
}

/// Cell `i` of the internal layer with diagonal `d` applied to `x`.
///
/// From width 4 on, the matrix is the all-ones matrix plus `diag(d)`. For the
/// widths 2 and 3 the diagonal is fixed and `d` is not read: the matrices
/// are `[[2,1],[1,3]]` and `[[2,1,1],[1,2,1],[1,1,3]]`.
pub open spec fn internal_cell(p: int, x: Seq<int>, d: Seq<int>, i: int) -> int {
    if x.len() < 4 {
        if i == x.len() - 1 {
            (2 * x[i] + total(x, x.len())) % p
        } else {
            (x[i] + total(x, x.len())) % p
        }
    } else {
        (d[i] * x[i] + total(x, x.len())) % p
    }
}

/// The internal layer with diagonal `d` applied to `x`.
pub open spec fn internal_layer(p: int, x: Seq<int>, d: Seq<int>) -> Seq<int> {
    Seq::new(x.len(), |i: int| internal_cell(p, x, d, i))
}

/// The chain of additions that computes the 4x4 product arrives at the
/// matrix entries.
proof fn lemma_m4_chain(p: int, a: int, b: int, c: int, d: int)
    requires
        p > 0,
    ensures
        ({
            let t0 = fadd(p, a, b);
            let t1 = fadd(p, c, d);
            let t2 = fadd(p, fadd(p, b, b), t1);
            let t3 = fadd(p, fadd(p, d, d), t0);
            let t1x2 = fadd(p, t1, t1);
            let t4 = fadd(p, fadd(p, t1x2, t1x2), t3);
            let t0x2 = fadd(p, t0, t0);
            let t5 = fadd(p, fadd(p, t0x2, t0x2), t2);
            &&& fadd(p, t3, t5) == (5 * a + 7 * b + c + 3 * d) % p
            &&& t5 == (4 * a + 6 * b + c + d) % p
            &&& fadd(p, t2, t4) == (a + 3 * b + 5 * c + 7 * d) % p
            &&& t4 == (a + b + 4 * c + 6 * d) % p
        }),
{
    lemma_fadd_reduces(p, 2 * b, c + d);
    lemma_fadd_reduces(p, 2 * d, a + b);
    lemma_fadd_reduces(p, c + d, c + d);
    lemma_fadd_reduces(p, 2 * (c + d), 2 * (c + d));
    lemma_fadd_reduces(p, 4 * (c + d), 2 * d + a + b);
    lemma_fadd_reduces(p, a + b, a + b);
    lemma_fadd_reduces(p, 2 * (a + b), 2 * (a + b));
    lemma_fadd_reduces(p, 4 * (a + b), 2 * b + c + d);
    lemma_fadd_reduces(p, 2 * d + a + b, 4 * (a + b) + 2 * b + c + d);
    lemma_fadd_reduces(p, 2 * b + c + d, 4 * (c + d) + 2 * d + a + b);
}

/// The 4x4 product of one group of four cells.
fn m4_block<T: Carrier>(field: &Field, a: &T, b: &T, c: &T, d: &T) -> (out: (T, T, T, T))
    requires
        field.wf(),
    ensures
        forall|env: Seq<int>| #[trigger]
            out.0.interp(field.p(), env) == (5 * a.interp(field.p(), env) + 7 * b.interp(
                field.p(),
                env,
            ) + c.interp(field.p(), env) + 3 * d.interp(field.p(), env)) % field.p(),
        forall|env: Seq<int>| #[trigger]
            out.1.interp(field.p(), env) == (4 * a.interp(field.p(), env) + 6 * b.interp(
                field.p(),
                env,
            ) + c.interp(field.p(), env) + d.interp(field.p(), env)) % field.p(),
        forall|env: Seq<int>| #[trigger]
            out.2.interp(field.p(), env) == (a.interp(field.p(), env) + 3 * b.interp(
                field.p(),
                env,
            ) + 5 * c.interp(field.p(), env) + 7 * d.interp(field.p(), env)) % field.p(),
        forall|env: Seq<int>| #[trigger]
            out.3.interp(field.p(), env) == (a.interp(field.p(), env) + b.interp(field.p(), env)
                + 4 * c.interp(field.p(), env) + 6 * d.interp(field.p(), env)) % field.p(),
        ({
            let hi = larger(larger(a.degree(), b.degree()), larger(c.degree(), d.degree()));
            &&& out.0.degree() <= hi
            &&& out.1.degree() <= hi
            &&& out.2.degree() <= hi
            &&& out.3.degree() <= hi
        }),
{
    let t0 = a.add(b, field);
    let t1 = c.add(d, field);
    let b2 = b.add(b, field);
    let t2 = b2.add(&t1, field);
    let d2 = d.add(d, field);
    let t3 = d2.add(&t0, field);
    let t1x2 = t1.add(&t1, field);
    let t1x4 = t1x2.add(&t1x2, field);
    let t4 = t1x4.add(&t3, field);
    let t0x2 = t0.add(&t0, field);
    let t0x4 = t0x2.add(&t0x2, field);
    let t5 = t0x4.add(&t2, field);
    let t6 = t3.add(&t5, field);
    let t7 = t2.add(&t4, field);
    proof {
        let p = field.p();
        assert forall|env: Seq<int>|
            {
                &&& #[trigger] t6.interp(p, env) == (5 * a.interp(p, env) + 7 * b.interp(p, env)
                    + c.interp(p, env) + 3 * d.interp(p, env)) % p
                &&& t5.interp(p, env) == (4 * a.interp(p, env) + 6 * b.interp(p, env) + c.interp(
                    p,
                    env,
                ) + d.interp(p, env)) % p
                &&& t7.interp(p, env) == (a.interp(p, env) + 3 * b.interp(p, env) + 5 * c.interp(
                    p,
                    env,
                ) + 7 * d.interp(p, env)) % p
                &&& t4.interp(p, env) == (a.interp(p, env) + b.interp(p, env) + 4 * c.interp(
                    p,
                    env,
                ) + 6 * d.interp(p, env)) % p
            } by {
            lemma_m4_chain(
                p,
                a.interp(p, env),
                b.interp(p, env),
                c.interp(p, env),
                d.interp(p, env),
            );
        }
        assert forall|env: Seq<int>|
            #[trigger] t5.interp(p, env) == (4 * a.interp(p, env) + 6 * b.interp(p, env)
                + c.interp(p, env) + d.interp(p, env)) % p by {
            let _ = t6.interp(p, env);
        }
        assert forall|env: Seq<int>|
            #[trigger] t7.interp(p, env) == (a.interp(p, env) + 3 * b.interp(p, env) + 5
                * c.interp(p, env) + 7 * d.interp(p, env)) % p by {
            let _ = t6.interp(p, env);
        }
        assert forall|env: Seq<int>|
            #[trigger] t4.interp(p, env) == (a.interp(p, env) + b.interp(p, env) + 4 * c.interp(
                p,
                env,
            ) + 6 * d.interp(p, env)) % p by {
            let _ = t6.interp(p, env);
        }
    }
    (t6, t5, t7, t4)
}


/// Applies the 4x4 matrix to every group of four cells of `state`.
pub fn matmul_m4<T: Carrier>(field: &Field, state: &mut Vec<T>)
    requires
        field.wf(),
        old(state).len() % 4 == 0,
    ensures
        final(state).len() == old(state).len(),
        forall|env: Seq<int>| #[trigger]
            interp_all(final(state)@, field.p(), env) == m4_layer(
                field.p(),
                interp_all(old(state)@, field.p(), env),
            ),
        forall|k: nat| #[trigger] bounded(old(state)@, k) ==> bounded(final(state)@, k),
{
    let n = state.len();
    let ghost before = state@;
    let ghost p = field.p();
    let mut g: usize = 0;
    while g < n / 4
        invariant
            field.wf(),
            p == field.p(),
            n == before.len(),
            state.len() == n,
            n % 4 == 0,
            g <= n / 4,
            forall|i: int| 4 * g <= i < n ==> state@[i] == before[i],
            forall|env: Seq<int>, i: int|
                0 <= i < 4 * g ==> #[trigger] state@[i].interp(p, env) == m4_cell(
                    interp_all(before, p, env),
                    i / 4,
                    i % 4,
                ) % p,
            forall|k: nat| #[trigger] bounded(before, k) ==> bounded(state@, k),
        decreases n / 4 - g,
    {
        let s = 4 * g;
        let (o0, o1, o2, o3) = m4_block(field, &state[s], &state[s + 1], &state[s + 2], &state[s + 3]);
        proof {
            assert forall|env: Seq<int>|
                {
                    let x = interp_all(before, p, env);
                    &&& #[trigger] o0.interp(p, env) == m4_cell(x, g as int, 0) % p
                    &&& o1.interp(p, env) == m4_cell(x, g as int, 1) % p
                    &&& o2.interp(p, env) == m4_cell(x, g as int, 2) % p
                    &&& o3.interp(p, env) == m4_cell(x, g as int, 3) % p
                } by {
                let x = interp_all(before, p, env);
                assert(x[4 * g] == before[4 * g].interp(p, env));
                assert(x[4 * g + 1] == before[4 * g + 1].interp(p, env));
                assert(x[4 * g + 2] == before[4 * g + 2].interp(p, env));
                assert(x[4 * g + 3] == before[4 * g + 3].interp(p, env));
                let _ = o1.interp(p, env);
                let _ = o2.interp(p, env);
                let _ = o3.interp(p, env);
            }
        }
        let ghost mid = state@;
        state[s] = o0;
        state[s + 1] = o1;
        state[s + 2] = o2;
        state[s + 3] = o3;
        proof {
            assert forall|env: Seq<int>, i: int| 0 <= i < 4 * (g + 1) implies #[trigger] state@[i].interp(
                p,
                env,
            ) == m4_cell(interp_all(before, p, env), i / 4, i % 4) % p by {
                let _ = o0.interp(p, env);
                if i < 4 * g {
                    assert(state@[i] == mid[i]);
                }
            }
            assert forall|k: nat| #[trigger] bounded(before, k) implies bounded(state@, k) by {
                assert(bounded(mid, k));
                assert(mid[4 * g].degree() <= k);
                assert(mid[4 * g + 1].degree() <= k);
                assert(mid[4 * g + 2].degree() <= k);
                assert(mid[4 * g + 3].degree() <= k);
                assert forall|i: int| 0 <= i < n implies (#[trigger] state@[i]).degree() <= k by {
                    if i < 4 * g || i >= 4 * g + 4 {
                        assert(state@[i] == mid[i]);
                    }
                }
            }
        }
        g = g + 1;
    }
    proof {
        assert forall|env: Seq<int>| #[trigger]
            interp_all(state@, p, env) == m4_layer(p, interp_all(before, p, env)) by {
            assert(interp_all(state@, p, env) =~= m4_layer(p, interp_all(before, p, env)));
        }
    }
}

/// The sum of all cells of `state`.
fn sum_all<T: Carrier>(field: &Field, state: &Vec<T>) -> (sum: T)
    requires
        field.wf(),
        state.len() >= 1,
    ensures
        forall|env: Seq<int>| #[trigger]
            sum.interp(field.p(), env) % field.p() == total(
                interp_all(state@, field.p(), env),
                state@.len(),
            ) % field.p(),
        forall|k: nat| #[trigger] bounded(state@, k) ==> sum.degree() <= k,
{
    let ghost p = field.p();
    let n = state.len();
    let mut sum = state[0].dup();
    let mut j: usize = 1;
    proof {
        assert forall|env: Seq<int>| #[trigger]
            sum.interp(p, env) % p == total(interp_all(state@, p, env), 1) % p by {
            let x = interp_all(state@, p, env);
            assert(x[0] == state@[0].interp(p, env));
            assert(total(x, 1) == total(x, 0) + x[0]);
        }
    }
    while j < n
        invariant
            field.wf(),
            p == field.p(),
            n == state.len(),
            1 <= j <= n,
            forall|env: Seq<int>| #[trigger]
                sum.interp(p, env) % p == total(interp_all(state@, p, env), j as nat) % p,
            forall|k: nat| #[trigger] bounded(state@, k) ==> sum.degree() <= k,
        decreases n - j,
    {
        let next = sum.add(&state[j], field);
        proof {
            assert forall|env: Seq<int>| #[trigger]
                next.interp(p, env) % p == total(interp_all(state@, p, env), (j + 1) as nat)
                    % p by {
                let x = interp_all(state@, p, env);
                let _ = sum.interp(p, env);
                assert(x[j as int] == state@[j as int].interp(p, env));
                lemma_add_congruent(p, sum.interp(p, env), total(x, j as nat), x[j as int], x[j as int]);
                lemma_mod_twice(sum.interp(p, env) + x[j as int], p);
            }
        }
        sum = next;
        j = j + 1;
    }
    sum
}

/// The sum of cell `l` over the first `n` groups of four cells of `y`.
spec fn lane_total(y: Seq<int>, l: int, n: nat) -> int
    decreases n,
{
    if n == 0 {
        0
    } else {
        lane_total(y, l, (n - 1) as nat) + y[4 * (n - 1) + l]
    }
}

/// Summing a lane of the reduced 4x4 products is, modulo `p`, summing the
/// products themselves.
proof fn lemma_lane_total(p: int, x: Seq<int>, l: int, n: nat)
    requires
        p > 0,
        0 <= l < 4,
        4 * n <= x.len(),
    ensures
        lane_total(m4_layer(p, x), l, n) % p == lane_sum(x, l, n) % p,
    decreases n,
{
    if n > 0 {
        lemma_lane_total(p, x, l, (n - 1) as nat);
        let y = m4_layer(p, x);
        let i = 4 * (n - 1) + l;
        assert(y[i] == m4_cell(x, i / 4, i % 4) % p);
        lemma_mod_twice(m4_cell(x, n - 1, l), p);
        lemma_add_congruent(
            p,
            lane_total(y, l, (n - 1) as nat),
            lane_sum(x, l, (n - 1) as nat),
            y[i],
            m4_cell(x, n - 1, l),
        );
    }
}

/// The sum of each of the four lanes of `state` over its groups of four.
fn lane_sums<T: Carrier>(field: &Field, state: &Vec<T>) -> (lanes: Vec<T>)
    requires
        field.wf(),
        state.len() % 4 == 0,
        state.len() >= 4,
    ensures
        lanes.len() == 4,
        forall|env: Seq<int>, l: int|
            0 <= l < 4 ==> #[trigger] lanes@[l].interp(field.p(), env) % field.p() == lane_total(
                interp_all(state@, field.p(), env),
                l,
                state@.len() / 4,
            ) % field.p(),
        forall|k: nat| #[trigger] bounded(state@, k) ==> bounded(lanes@, k),
{
    let ghost p = field.p();
    let groups = state.len() / 4;
    let mut lanes: Vec<T> = Vec::new();
    let mut l: usize = 0;
    while l < 4
        invariant
            field.wf(),
            p == field.p(),
            state.len() % 4 == 0,
            groups == state.len() / 4,
            groups >= 1,
            l <= 4,
            lanes.len() == l,
            forall|env: Seq<int>, k: int|
                0 <= k < l ==> #[trigger] lanes@[k].interp(p, env) % p == lane_total(
                    interp_all(state@, p, env),
                    k,
                    groups as nat,
                ) % p,
            forall|k: nat| #[trigger] bounded(state@, k) ==> bounded(lanes@, k),
        decreases 4 - l,
    {
        let mut acc = state[l].dup();
        proof {
            assert forall|env: Seq<int>| #[trigger]
                acc.interp(p, env) % p == lane_total(interp_all(state@, p, env), l as int, 1)
                    % p by {
                let y = interp_all(state@, p, env);
                assert(y[l as int] == state@[l as int].interp(p, env));
                assert(lane_total(y, l as int, 1) == lane_total(y, l as int, 0) + y[4 * 0 + l]);
            }
        }
        let mut j: usize = 1;
        while j < groups
            invariant
                field.wf(),
                p == field.p(),
                state.len() % 4 == 0,
                groups == state.len() / 4,
                1 <= j <= groups,
                l < 4,
                forall|env: Seq<int>| #[trigger]
                    acc.interp(p, env) % p == lane_total(
                        interp_all(state@, p, env),
                        l as int,
                        j as nat,
                    ) % p,
                forall|k: nat| #[trigger] bounded(state@, k) ==> acc.degree() <= k,
            decreases groups - j,
        {
            let next = acc.add(&state[4 * j + l], field);
            proof {
                assert forall|env: Seq<int>| #[trigger]
                    next.interp(p, env) % p == lane_total(
                        interp_all(state@, p, env),
                        l as int,
                        (j + 1) as nat,
                    ) % p by {
                    let y = interp_all(state@, p, env);
                    let _ = acc.interp(p, env);
                    assert(y[4 * j + l] == state@[4 * j + l].interp(p, env));
                    lemma_add_congruent(
                        p,
                        acc.interp(p, env),
                        lane_total(y, l as int, j as nat),
                        y[4 * j + l],
                        y[4 * j + l],
                    );
                    lemma_mod_twice(acc.interp(p, env) + y[4 * j + l], p);
                }
            }
            acc = next;
            j = j + 1;
        }
        let ghost done = lanes@;
        lanes.push(acc);
        proof {
            assert forall|env: Seq<int>, k: int| 0 <= k < l + 1 implies #[trigger] lanes@[k].interp(
                p,
                env,
            ) % p == lane_total(interp_all(state@, p, env), k, groups as nat) % p by {
                if k < l {
                    assert(lanes@[k] == done[k]);
                } else {
                    let _ = acc.interp(p, env);
                }
            }
            assert forall|k: nat| #[trigger] bounded(state@, k) implies bounded(lanes@, k) by {
                assert(bounded(done, k));
                assert forall|i: int| 0 <= i < lanes@.len() implies (#[trigger] lanes@[i]).degree()
                    <= k by {
                    if i < l {
                        assert(lanes@[i] == done[i]);
                    }
                }
            }
        }
        l = l + 1;
    }
    lanes
}

/// Adds to every cell of `state` the addend of its lane: cell `i` gains
/// `addends[i mod addends.len()]`.
fn add_lanewise<T: Carrier>(field: &Field, state: &mut Vec<T>, addends: &Vec<T>)
    requires
        field.wf(),
        addends.len() >= 1,
    ensures
        final(state).len() == old(state).len(),
        forall|env: Seq<int>, i: int|
            0 <= i < old(state).len() ==> #[trigger] final(state)@[i].interp(field.p(), env)
                == fadd(
                field.p(),
                old(state)@[i].interp(field.p(), env),
                addends@[i % (addends@.len() as int)].interp(field.p(), env),
            ),
        forall|k: nat|
            #[trigger] bounded(old(state)@, k) && bounded(addends@, k) ==> bounded(
                final(state)@,
                k,
            ),
{
    let ghost p = field.p();
    let ghost before = state@;
    let n = state.len();
    let m = addends.len();
    let mut i: usize = 0;
    while i < n
        invariant
            field.wf(),
            p == field.p(),
            n == before.len(),
            state.len() == n,
            m == addends.len(),
            m >= 1,
            i <= n,
            forall|k: int| i <= k < n ==> state@[k] == before[k],
            forall|env: Seq<int>, k: int|
                0 <= k < i ==> #[trigger] state@[k].interp(p, env) == fadd(
                    p,
                    before[k].interp(p, env),
                    addends@[k % (m as int)].interp(p, env),
                ),
            forall|k: nat| #[trigger] bounded(before, k) && bounded(addends@, k) ==> bounded(state@, k),
        decreases n - i,
    {
        let v = state[i].add(&addends[i % m], field);
        let ghost mid = state@;
        state[i] = v;
        proof {
            assert forall|env: Seq<int>, k: int| 0 <= k < i + 1 implies #[trigger] state@[k].interp(
                p,
                env,
            ) == fadd(p, before[k].interp(p, env), addends@[k % (m as int)].interp(p, env)) by {
                if k < i {
                    assert(state@[k] == mid[k]);
                }
            }
            assert forall|k: nat| #[trigger] bounded(before, k) && bounded(addends@, k) implies bounded(
                state@,
                k,
            ) by {
                assert(bounded(mid, k));
                assert(mid[i as int].degree() <= k);
                assert(addends@[(i % m) as int].degree() <= k);
                assert forall|j: int| 0 <= j < n implies (#[trigger] state@[j]).degree() <= k by {
                    if j != i {
                        assert(state@[j] == mid[j]);
                    }
                }
            }
        }
        i = i + 1;
    }
}

/// What the external layer of width `w` answers to a state of `n` cells
/// that it cannot mix: nothing when it can.
pub open spec fn external_refusal(w: int, n: int) -> Option<ConfigError> {
    if !external_supported(w) {
        Some(ConfigError::UnsupportedWidth)
    } else if n != w {
        Some(ConfigError::WidthMismatch)
    } else {
        None
    }
}

/// What the internal layer of width `w` answers to a state of `n` cells and
/// a diagonal of `d` entries that it cannot mix: nothing when it can.
pub open spec fn internal_refusal(w: int, n: int, d: int) -> Option<ConfigError> {
    if !internal_supported(w) {
        Some(ConfigError::UnsupportedWidth)
    } else if n != w {
        Some(ConfigError::WidthMismatch)
    } else if d != w {
        Some(ConfigError::ConstantsShape)
    } else {
        None
    }
}

/// The linear layers of the permutation for one state width.
#[derive(Clone, Copy, Debug, PartialEq, Eq)]
pub struct LinearLayer {
    /// The number of cells of the states this layer mixes.
    pub width: usize,
}

impl LinearLayer {
    /// The linear layers for states of `width` cells.
    pub fn new(width: usize) -> (layer: LinearLayer)
        ensures
            layer.width == width,
    {
        LinearLayer { width }
    }

    /// Applies the external layer to `state` in place.
    ///
    /// A width without an external layer, or a state of another width than
    /// the layer's, is refused and `state` is left as it was.
    pub fn matmul_external<T: Carrier>(&self, field: &Field, state: &mut Vec<T>) -> (r: Result<
        (),
        ConfigError,
    >)
        requires
            field.wf(),
        ensures
            match r {
                Ok(_) => {
                    &&& external_refusal(self.width as int, old(state).len() as int) is None
                    &&& final(state).len() == old(state).len()
                    &&& forall|env: Seq<int>| #[trigger]
                        interp_all(final(state)@, field.p(), env) == external_layer(
                            field.p(),
                            interp_all(old(state)@, field.p(), env),
                        )
                    &&& forall|k: nat| #[trigger]
                        bounded(old(state)@, k) ==> bounded(final(state)@, k)
                },
                Err(e) => {
                    &&& external_refusal(self.width as int, old(state).len() as int) == Some(e)
                    &&& final(state)@ == old(state)@
                },
            },
    {
        let w = self.width;
        if !(w == 2 || w == 3 || w == 8 || w == 12 || w == 16 || w == 20 || w == 24) {
            return Err(ConfigError::UnsupportedWidth);
        }
        if state.len() != w {
            return Err(ConfigError::WidthMismatch);
        }
        let ghost p = field.p();
        let ghost before = state@;
        if w < 4 {
            let sum = sum_all(field, state);
            let mut addends: Vec<T> = Vec::new();
            addends.push(sum);
            add_lanewise(field, state, &addends);
            proof {
                assert forall|env: Seq<int>| #[trigger]
                    interp_all(state@, p, env) == external_layer(
                        p,
                        interp_all(before, p, env),
                    ) by {
                    let x = interp_all(before, p, env);
                    let out = interp_all(state@, p, env);
                    let _ = sum.interp(p, env);
                    assert forall|i: int| 0 <= i < w implies out[i] == external_cell(p, x, i) by {
                        assert(out[i] == state@[i].interp(p, env));
                        assert(x[i] == before[i].interp(p, env));
                        assert(addends@[i % 1] == sum);
                        lemma_add_congruent(p, x[i], x[i], sum.interp(p, env), total(x, w as nat));
                    }
                    assert(out =~= external_layer(p, x));
                }
                assert forall|k: nat| #[trigger] bounded(before, k) implies bounded(state@, k) by {
                    assert(bounded(addends@, k));
                }
            }
        } else {
            matmul_m4(field, state);
            let ghost mixed = state@;
            let lanes = lane_sums(field, state);
            add_lanewise(field, state, &lanes);
            proof {
                assert forall|env: Seq<int>| #[trigger]
                    interp_all(state@, p, env) == external_layer(
                        p,
                        interp_all(before, p, env),
                    ) by {
                    let x = interp_all(before, p, env);
                    let y = interp_all(mixed, p, env);
                    let out = interp_all(state@, p, env);
                    assert(y == m4_layer(p, x));
                    assert forall|i: int| 0 <= i < w implies out[i] == external_cell(p, x, i) by {
                        let l = i % 4;
                        assert(out[i] == state@[i].interp(p, env));
                        assert(y[i] == mixed[i].interp(p, env));
                        assert(y[i] == m4_cell(x, i / 4, i % 4) % p);
                        let _ = lanes@[l].interp(p, env);
                        lemma_lane_total(p, x, l, (w / 4) as nat);
                        lemma_mod_twice(m4_cell(x, i / 4, i % 4), p);
                        lemma_add_congruent(
                            p,
                            y[i],
                            m4_cell(x, i / 4, i % 4),
                            lanes@[l].interp(p, env),
                            lane_sum(x, l, (w / 4) as nat),
                        );
                    }
                    assert(out =~= external_layer(p, x));
                }
                assert forall|k: nat| #[trigger] bounded(before, k) implies bounded(state@, k) by {
                    assert(bounded(mixed, k));
                    assert(bounded(lanes@, k));
                }
            }
        }
        Ok(())
    }

    /// Applies the internal layer with the given diagonal to `state` in place.
    ///
    /// A width without an internal layer, or a state or a diagonal of another
    /// width than the layer's, is refused and `state` is left as it was.
    pub fn matmul_internal<T: Carrier>(
        &self,
        field: &Field,
        state: &mut Vec<T>,
        diagonal: &Vec<T>,
    ) -> (r: Result<(), ConfigError>)
        requires
            field.wf(),
        ensures
            match r {
                Ok(_) => {
                    &&& internal_refusal(
                        self.width as int,
                        old(state).len() as int,
                        diagonal.len() as int,
                    ) is None
                    &&& final(state).len() == old(state).len()
                    &&& forall|env: Seq<int>| #[trigger]
                        interp_all(final(state)@, field.p(), env) == internal_layer(
                            field.p(),
                            interp_all(old(state)@, field.p(), env),
                            interp_all(diagonal@, field.p(), env),
                        )
                    &&& forall|k: nat|
                        #[trigger] bounded(old(state)@, k) && bounded(diagonal@, 0) ==> bounded(
                            final(state)@,
                            k,
                        )
                },
                Err(e) => {
                    &&& internal_refusal(
                        self.width as int,
                        old(state).len() as int,
                        diagonal.len() as int,
                    ) == Some(e)
                    &&& final(state)@ == old(state)@
                },
            },
    {
        let w = self.width;
        if !(w == 2 || w == 3 || w == 4 || w == 8 || w == 12 || w == 16 || w == 20 || w == 24) {
            return Err(ConfigError::UnsupportedWidth);
        }
        if state.len() != w {
            return Err(ConfigError::WidthMismatch);
        }
        if diagonal.len() != w {
            return Err(ConfigError::ConstantsShape);
        }
        let ghost p = field.p();
        let ghost before = state@;
        let sum = sum_all(field, state);
        let mut i: usize = 0;
        while i < w
            invariant
                field.wf(),
                p == field.p(),
                w == before.len(),
                state.len() == w,
                diagonal.len() == w,
                i <= w,
                forall|k: int| i <= k < w ==> state@[k] == before[k],
                forall|env: Seq<int>| #[trigger]
                    sum.interp(p, env) % p == total(interp_all(before, p, env), w as nat) % p,
                forall|env: Seq<int>, k: int|
                    0 <= k < i ==> #[trigger] state@[k].interp(p, env) == internal_cell(
                        p,
                        interp_all(before, p, env),
                        interp_all(diagonal@, p, env),
                        k,
                    ),
                forall|k: nat| #[trigger] bounded(before, k) ==> sum.degree() <= k,
                forall|k: nat|
                    #[trigger] bounded(before, k) && bounded(diagonal@, 0) ==> bounded(state@, k),
            decreases w - i,
        {
            let scaled = if w >= 4 {
                state[i].mul(&diagonal[i], field)
            } else if i == w - 1 {
                state[i].add(&state[i], field)
            } else {
                state[i].dup()
            };
            let v = scaled.add(&sum, field);
            let ghost mid = state@;
            state[i] = v;
            proof {
                assert forall|env: Seq<int>, k: int| 0 <= k < i + 1 implies #[trigger] state@[k].interp(
                    p,
                    env,
                ) == internal_cell(
                    p,
                    interp_all(before, p, env),
                    interp_all(diagonal@, p, env),
                    k,
                ) by {
                    if k < i {
                        assert(state@[k] == mid[k]);
                    } else {
                        let x = interp_all(before, p, env);
                        let d = interp_all(diagonal@, p, env);
                        let s = sum.interp(p, env);
                        let t = total(x, w as nat);
                        assert(x[k] == before[k].interp(p, env));
                        assert(d[k] == diagonal@[k].interp(p, env));
                        let _ = scaled.interp(p, env);
                        if w >= 4 {
                            assert(x[k] * d[k] == d[k] * x[k]) by (nonlinear_arith);
                            lemma_mod_twice(d[k] * x[k], p);
                            lemma_add_congruent(p, scaled.interp(p, env), d[k] * x[k], s, t);
                        } else if k == w - 1 {
                            lemma_mod_twice(2 * x[k], p);
                            lemma_add_congruent(p, scaled.interp(p, env), 2 * x[k], s, t);
                        } else {
                            lemma_add_congruent(p, x[k], x[k], s, t);
                        }
                    }
                }
                assert forall|k: nat| #[trigger] bounded(before, k) && bounded(diagonal@, 0) implies bounded(
                    state@,
                    k,
                ) by {
                    assert(bounded(mid, k));
                    assert(mid[i as int].degree() <= k);
                    assert(diagonal@[i as int].degree() <= 0);
                    assert forall|j: int| 0 <= j < w implies (#[trigger] state@[j]).degree()
                        <= k by {
                        if j != i {
                            assert(state@[j] == mid[j]);
                        }
                    }
                }
            }
            i = i + 1;
        }
        proof {
            assert forall|env: Seq<int>| #[trigger]
                interp_all(state@, p, env) == internal_layer(
                    p,
                    interp_all(before, p, env),
                    interp_all(diagonal@, p, env),
                ) by {
                assert(interp_all(state@, p, env) =~= internal_layer(
                    p,
                    interp_all(before, p, env),
                    interp_all(diagonal@, p, env),
                ));
            }
        }
        Ok(())
    }
}

/// Entry `(i, j)` of the 4x4 matrix of the external layer.
pub open spec fn m4_entry(i: int, j: int) -> int {
    if i == 0 {
        if j == 0 {
            5
        } else if j == 1 {
            7
        } else if j == 2 {
            1
        } else {
            3
        }
    } else if i == 1 {
        if j == 0 {
            4
        } else if j == 1 {
            6
        } else {
            1
        }
    } else if i == 2 {
        if j == 0 {
            1
        } else if j == 1 {
            3
        } else if j == 2 {
            5
        } else {
            7
        }
    } else {
        if j <= 1 {
            1
        } else if j == 2 {
            4
        } else {
            6
        }
    }
}

/// Entry `(i, j)` of the matrix of the external layer of width `w`: for the
/// widths 2 and 3 the circulant of `(2, 1, ..)`; else the 4x4 matrix in
/// every block, doubled in the blocks of the diagonal.
pub open spec fn external_entry(w: int, i: int, j: int) -> int {
    if w < 4 {
        if i == j {
            2
        } else {
            1
        }
    } else if i / 4 == j / 4 {
        2 * m4_entry(i % 4, j % 4)
    } else {
        m4_entry(i % 4, j % 4)
    }
}

/// Entry `(i, j)` of the matrix of the internal layer of width `w` with
/// diagonal `d`: ones off the diagonal; on it `d[i] + 1`, or `(2, 3)` and
/// `(2, 2, 3)` for the widths 2 and 3.
pub open spec fn internal_entry(w: int, d: Seq<int>, i: int, j: int) -> int {
    if i != j {
        1
    } else if w >= 4 {
        d[i] + 1
    } else if i == w - 1 {
        3
    } else {
        2
    }
}

/// The sum of `row(j) * x[j]` over the first `n` indices `j`.
pub open spec fn dot(row: spec_fn(int) -> int, x: Seq<int>, n: nat) -> int
    decreases n,
{
    if n == 0 {
        0
    } else {
        dot(row, x, (n - 1) as nat) + row(n - 1) * x[n - 1]
    }
}

/// The product of a row of ones, with `c + 1` in place `i`, and `x` is the
/// sum of `x` and `c` times `x[i]`.
proof fn lemma_dot_ones(row: spec_fn(int) -> int, x: Seq<int>, n: nat, i: int, c: int)
    requires
        forall|j: int|
            #[trigger] row(j) == if j == i {
                c + 1
            } else {
                1
            },
    ensures
        dot(row, x, n) == total(x, n) + if 0 <= i < n {
            c * x[i]
        } else {
            0
        },
    decreases n,
{
    if n > 0 {
        lemma_dot_ones(row, x, (n - 1) as nat, i, c);
        let j = n - 1;
        assert(row(j) * x[j] == if j == i {
            c * x[j] + x[j]
        } else {
            x[j]
        }) by (nonlinear_arith)
            requires
                row(j) == if j == i {
                    c + 1
                } else {
                    1
                },
        ;
    }
}

/// The product of row `i` of the external matrix and the first `g` groups
/// of `x` is the sum of lane `i mod 4` over those groups, and once more the
/// cell of the group of `i`.
proof fn lemma_dot_blocks(x: Seq<int>, i: int, g: nat)
    requires
        x.len() >= 4,
        0 <= i < x.len(),
    ensures
        dot(|j: int| external_entry(x.len() as int, i, j), x, 4 * g) == lane_sum(x, i % 4, g)
            + if i / 4 < g {
            m4_cell(x, i / 4, i % 4)
        } else {
            0
        },
    decreases g,
{
    let row = |j: int| external_entry(x.len() as int, i, j);
    if g > 0 {
        lemma_dot_blocks(x, i, (g - 1) as nat);
        let b = 4 * (g - 1);
        reveal_with_fuel(dot, 5);
        assert(dot(row, x, 4 * g) == dot(row, x, b as nat) + row(b) * x[b] + row(b + 1) * x[b + 1]
            + row(b + 2) * x[b + 2] + row(b + 3) * x[b + 3]);
        let l = i % 4;
        let f: int = if i / 4 == g - 1 {
            2
        } else {
            1
        };
        assert(row(b) == f * m4_entry(l, 0));
        assert(row(b + 1) == f * m4_entry(l, 1));
        assert(row(b + 2) == f * m4_entry(l, 2));
        assert(row(b + 3) == f * m4_entry(l, 3));
        assert(row(b) * x[b] + row(b + 1) * x[b + 1] + row(b + 2) * x[b + 2] + row(b + 3) * x[b
            + 3] == f * m4_cell(x, g - 1, l)) by (nonlinear_arith)
            requires
                f == 1 || f == 2,
                0 <= l < 4,
                row(b) == f * m4_entry(l, 0),
                row(b + 1) == f * m4_entry(l, 1),
                row(b + 2) == f * m4_entry(l, 2),
                row(b + 3) == f * m4_entry(l, 3),
                b == 4 * (g - 1),
        ;
    }
}

/// The external layer is the product with the matrix of
/// [`external_entry`], reduced modulo `p`.
pub proof fn lemma_external_is_matrix_product(p: int, x: Seq<int>, i: int)
    requires
        x.len() < 4 || x.len() % 4 == 0,
        0 <= i < x.len(),
    ensures
        external_layer(p, x)[i] == dot(|j: int| external_entry(x.len() as int, i, j), x, x.len())
            % p,
{
    let w = x.len() as int;
    let row = |j: int| external_entry(w, i, j);
    if w < 4 {
        lemma_dot_ones(row, x, x.len(), i, 1);
    } else {
        lemma_dot_blocks(x, i, (w / 4) as nat);
    }
}

/// The internal layer is the product with the matrix of
/// [`internal_entry`], reduced modulo `p`.
pub proof fn lemma_internal_is_matrix_product(p: int, x: Seq<int>, d: Seq<int>, i: int)
    requires
        0 <= i < x.len(),
    ensures
        internal_layer(p, x, d)[i] == dot(
            |j: int| internal_entry(x.len() as int, d, i, j),
            x,
            x.len(),
        ) % p,
{
    let w = x.len() as int;
    let row = |j: int| internal_entry(w, d, i, j);
    let c = if w >= 4 {
        d[i]
    } else if i == w - 1 {
        2
    } else {
        1
    };
    lemma_dot_ones(row, x, x.len(), i, c);
}

} // verus!
