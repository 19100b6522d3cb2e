//! Polynomial expressions over the cells of one row.
//!
//! Sums and constant multiples of cells are kept as one affine form with a
//! coefficient for each column, so that a state that goes through many
//! linear layers stays as small as the row is wide. Products are kept as
//! trees.

use crate::carrier::Carrier;
use crate::field::{fadd, fmul, ints, lemma_add_congruent, lemma_mul_congruent, Field};
use vstd::arithmetic::div_mod::{lemma_mod_twice, lemma_small_mod};
use vstd::prelude::*;

verus! {

/// A polynomial in the cells of a row, with coefficients in the field.
#[derive(Debug, PartialEq, Eq)]
pub enum Expr {
    /// The cell in the given column.
    Var(usize),
    /// A field constant.
    Const(u64),
    /// An affine form: the constant plus the sum of `coeffs[k]` times the
    /// cell in column `k`.
    Lin {
        /// The constant term.
        constant: u64,
        /// The coefficient of each column; zero beyond the end.
        coeffs: Vec<u64>,
    },
    /// The sum of two expressions.
    Add(Box<Expr>, Box<Expr>),
    /// The product of two expressions.
    Mul(Box<Expr>, Box<Expr>),
}

/// The residue modulo `p` that the row `env` holds in column `k`. A column
/// outside the row reads as zero.
pub open spec fn cell(p: int, env: Seq<int>, k: int) -> int {
    if 0 <= k < env.len() {
        env[k] % p
    } else {
        0
    }
}

/// The coefficient of column `k` in `coeffs`: zero beyond its end.
pub open spec fn coefficient(coeffs: Seq<u64>, k: int) -> int {
    if 0 <= k < coeffs.len() {
        coeffs[k] as int
    } else {
        0
    }
}

/// The sum of the coefficient of column `k` times the cell in column `k`
/// over the first `n` columns.
pub open spec fn weighted(p: int, coeffs: Seq<u64>, env: Seq<int>, n: nat) -> int
    decreases n,
{
    if n == 0 {
        0
    } else {
        weighted(p, coeffs, env, (n - 1) as nat) + coefficient(coeffs, n - 1) * cell(p, env, n - 1)
    }
}

/// The residue of the affine form with the given constant and coefficients
/// on the row `env`.
pub open spec fn affine(p: int, constant: u64, coeffs: Seq<u64>, env: Seq<int>) -> int {
    (constant + weighted(p, coeffs, env, coeffs.len())) % p
}

/// Columns beyond the end of the coefficients add nothing.
proof fn lemma_weighted_beyond(p: int, coeffs: Seq<u64>, env: Seq<int>, n: nat)
    requires
        n >= coeffs.len(),
    ensures
        weighted(p, coeffs, env, n) == weighted(p, coeffs, env, coeffs.len()),
    decreases n,
{
    if n > coeffs.len() {
        lemma_weighted_beyond(p, coeffs, env, (n - 1) as nat);
        assert(coefficient(coeffs, n - 1) * cell(p, env, n - 1) == 0) by (nonlinear_arith)
            requires
                coefficient(coeffs, n - 1) == 0,
        ;
    }
}

/// Coefficients that are, column by column, congruent to the sum of two
/// others give a sum congruent to the sum of the two.
proof fn lemma_weighted_sum(p: int, out: Seq<u64>, a: Seq<u64>, b: Seq<u64>, env: Seq<int>, n: nat)
    requires
        p > 0,
        forall|k: int|
            0 <= k < n ==> coefficient(out, k) % p == (coefficient(a, k) + coefficient(b, k)) % p,
    ensures
        weighted(p, out, env, n) % p == (weighted(p, a, env, n) + weighted(p, b, env, n)) % p,
    decreases n,
{
    if n > 0 {
        let m = (n - 1) as nat;
        lemma_weighted_sum(p, out, a, b, env, m);
        let c = cell(p, env, n - 1);
        let ca = coefficient(a, n - 1);
        let cb = coefficient(b, n - 1);
        lemma_mul_congruent(p, coefficient(out, n - 1), ca + cb, c, c);
        assert((ca + cb) * c == ca * c + cb * c) by (nonlinear_arith);
        lemma_add_congruent(
            p,
            weighted(p, out, env, m),
            weighted(p, a, env, m) + weighted(p, b, env, m),
            coefficient(out, n - 1) * c,
            ca * c + cb * c,
        );
    }
}

/// Coefficients that are, column by column, congruent to `c` times others
/// give a sum congruent to `c` times the sum of the others.
proof fn lemma_weighted_scaled(p: int, out: Seq<u64>, a: Seq<u64>, c: int, env: Seq<int>, n: nat)
    requires
        p > 0,
        forall|k: int| 0 <= k < n ==> coefficient(out, k) % p == (c * coefficient(a, k)) % p,
    ensures
        weighted(p, out, env, n) % p == (c * weighted(p, a, env, n)) % p,
    decreases n,
{
    if n > 0 {
        let m = (n - 1) as nat;
        lemma_weighted_scaled(p, out, a, c, env, m);
        let x = cell(p, env, n - 1);
        let ca = coefficient(a, n - 1);
        lemma_mul_congruent(p, coefficient(out, n - 1), c * ca, x, x);
        assert(c * (weighted(p, a, env, m) + ca * x) == c * weighted(p, a, env, m) + (c * ca)
            * x) by (nonlinear_arith);
        lemma_add_congruent(
            p,
            weighted(p, out, env, m),
            c * weighted(p, a, env, m),
            coefficient(out, n - 1) * x,
            (c * ca) * x,
        );
    } else {
        assert(c * 0 == 0);
    }
}

/// Coefficients that are zero up to column `n` give the sum zero.
proof fn lemma_weighted_zero(p: int, coeffs: Seq<u64>, env: Seq<int>, n: nat)
    requires
        forall|k: int| 0 <= k < n ==> coefficient(coeffs, k) == 0,
    ensures
        weighted(p, coeffs, env, n) == 0,
    decreases n,
{
    if n > 0 {
        lemma_weighted_zero(p, coeffs, env, (n - 1) as nat);
        assert(coefficient(coeffs, n - 1) * cell(p, env, n - 1) == 0) by (nonlinear_arith)
            requires
                coefficient(coeffs, n - 1) == 0,
        ;
    }
}

/// The coefficients of the sum of the affine forms with coefficients `a`
/// and `b`.
fn add_coefficients(field: &Field, a: &Vec<u64>, b: &Vec<u64>) -> (out: Vec<u64>)
    requires
        field.wf(),
    ensures
        out@.len() == if a@.len() >= b@.len() {
            a@.len()
        } else {
            b@.len()
        },
        forall|env: Seq<int>| #[trigger]
            weighted(field.p(), out@, env, out@.len()) % field.p() == (weighted(
                field.p(),
                a@,
                env,
                a@.len(),
            ) + weighted(field.p(), b@, env, b@.len())) % field.p(),
{
    let ghost p = field.p();
    let n = if a.len() >= b.len() {
        a.len()
    } else {
        b.len()
    };
    let mut out: Vec<u64> = Vec::new();
    let mut k: usize = 0;
    while k < n
        invariant
            field.wf(),
            p == field.p(),
            n >= a.len(),
            n >= b.len(),
            k <= n,
            out.len() == k,
            forall|m: int|
                0 <= m < k ==> (#[trigger] out@[m]) as int == fadd(
                    p,
                    coefficient(a@, m),
                    coefficient(b@, m),
                ),
        decreases n - k,
    {
        let x = if k < a.len() {
            a[k]
        } else {
            0
        };
        let y = if k < b.len() {
            b[k]
        } else {
            0
        };
        out.push(field.add(x, y));
        k = k + 1;
    }
    proof {
        assert forall|env: Seq<int>| #[trigger]
            weighted(p, out@, env, out@.len()) % p == (weighted(p, a@, env, a@.len()) + weighted(
                p,
                b@,
                env,
                b@.len(),
            )) % p by {
            assert forall|m: int| 0 <= m < n implies coefficient(out@, m) % p == (coefficient(
                a@,
                m,
            ) + coefficient(b@, m)) % p by {
                let _ = out@[m];
                lemma_mod_twice(coefficient(a@, m) + coefficient(b@, m), p);
            }
            lemma_weighted_sum(p, out@, a@, b@, env, n as nat);
            lemma_weighted_beyond(p, a@, env, n as nat);
            lemma_weighted_beyond(p, b@, env, n as nat);
        }
    }
    out
}

/// The coefficients of `c` times the affine form with coefficients `a`.
fn scale_coefficients(field: &Field, a: &Vec<u64>, c: u64) -> (out: Vec<u64>)
    requires
        field.wf(),
    ensures
        out@.len() == a@.len(),
        forall|env: Seq<int>| #[trigger]
            weighted(field.p(), out@, env, out@.len()) % field.p() == (c * weighted(
                field.p(),
                a@,
                env,
                a@.len(),
            )) % field.p(),
{
    let ghost p = field.p();
    let mut out: Vec<u64> = Vec::new();
    let mut k: usize = 0;
    while k < a.len()
        invariant
            field.wf(),
            p == field.p(),
            k <= a.len(),
            out.len() == k,
            forall|m: int| 0 <= m < k ==> (#[trigger] out@[m]) as int == fmul(p, a@[m] as int, c as int),
        decreases a.len() - k,
    {
        out.push(field.mul(a[k], c));
        k = k + 1;
    }
    proof {
        assert forall|env: Seq<int>| #[trigger]
            weighted(p, out@, env, out@.len()) % p == (c * weighted(p, a@, env, a@.len()))
                % p by {
            assert forall|m: int| 0 <= m < a.len() implies coefficient(out@, m) % p == (c
                * coefficient(a@, m)) % p by {
                let _ = out@[m];
                lemma_mod_twice(a@[m] * c, p);
                assert(a@[m] * c == c * a@[m]) by (nonlinear_arith);
            }
            lemma_weighted_scaled(p, out@, a@, c as int, env, a@.len());
        }
    }
    out
}

impl Expr {
    /// The residue modulo `p` of the polynomial on the row `env`. A column
    /// outside the row reads as zero.
    pub open spec fn eval(self, p: int, env: Seq<int>) -> int
        decreases self,
    {
        match self {
            Expr::Var(i) => cell(p, env, i as int),
            Expr::Const(c) => (c as int) % p,
            Expr::Lin { constant, coeffs } => affine(p, constant, coeffs@, env),
            Expr::Add(a, b) => fadd(p, a.eval(p, env), b.eval(p, env)),
            Expr::Mul(a, b) => fmul(p, a.eval(p, env), b.eval(p, env)),
        }
    }

    /// An upper bound on the total degree of the polynomial in the cells.
    pub open spec fn total_degree(self) -> nat
        decreases self,
    {
        match self {
            Expr::Var(_) => 1,
            Expr::Const(_) => 0,
            Expr::Lin { constant, coeffs } => if coeffs@.len() == 0 {
                0
            } else {
                1
            },
            Expr::Add(a, b) => if a.total_degree() >= b.total_degree() {
                a.total_degree()
            } else {
                b.total_degree()
            },
            Expr::Mul(a, b) => a.total_degree() + b.total_degree(),
        }
    }

    /// The value of the polynomial on `row`.
    pub fn evaluate(&self, field: &Field, row: &Vec<u64>) -> (r: u64)
        requires
            field.wf(),
        ensures
            r == self.eval(field.p(), ints(row@)),
        decreases self,
    {
        match self {
            Expr::Var(i) => if *i < row.len() {
                row[*i] % field.order
            } else {
                0
            },
            Expr::Const(c) => *c % field.order,
            Expr::Lin { constant, coeffs } => {
                let ghost p = field.p();
                let ghost env = ints(row@);
                let mut acc = *constant % field.order;
                let mut k: usize = 0;
                while k < coeffs.len()
                    invariant
                        field.wf(),
                        p == field.p(),
                        env == ints(row@),
                        k <= coeffs.len(),
                        acc < p,
                        acc as int == (*constant + weighted(p, coeffs@, env, k as nat)) % p,
                    decreases coeffs.len() - k,
                {
                    let x = if k < row.len() {
                        row[k] % field.order
                    } else {
                        0
                    };
                    let term = field.mul(coeffs[k], x);
                    let next = field.add(acc, term);
                    proof {
                        let w = weighted(p, coeffs@, env, k as nat);
                        lemma_mod_twice(*constant + w, p);
                        lemma_mod_twice(coeffs@[k as int] * x, p);
                        lemma_add_congruent(
                            p,
                            acc as int,
                            *constant + w,
                            term as int,
                            coeffs@[k as int] * x,
                        );
                    }
                    acc = next;
                    k = k + 1;
                }
                acc
            },
            Expr::Add(a, b) => {
                let x = a.evaluate(field, row);
                let y = b.evaluate(field, row);
                field.add(x, y)
            },
            Expr::Mul(a, b) => {
                let x = a.evaluate(field, row);
                let y = b.evaluate(field, row);
                field.mul(x, y)
            },
        }
    }

    /// Whether the expression can be written as one affine form with a
    /// coefficient for each column: a constant, an affine form, or a cell
    /// whose column leaves room for its coefficient.
    pub open spec fn is_affine(self) -> bool {
        match self {
            Expr::Const(_) => true,
            Expr::Var(i) => i < usize::MAX,
            Expr::Lin { .. } => true,
            _ => false,
        }
    }

    /// The constant term of the expression as an affine form.
    pub open spec fn affine_constant(self) -> u64 {
        match self {
            Expr::Const(c) => c,
            Expr::Lin { constant, coeffs } => constant,
            _ => 0,
        }
    }

    /// The coefficients of the expression as an affine form: none for a
    /// constant; for the cell in column `i`, zeros up to column `i` and a
    /// one in it.
    pub open spec fn affine_coeffs(self) -> Seq<u64> {
        match self {
            Expr::Var(i) => Seq::new(
                (i + 1) as nat,
                |k: int|
                    if k == i {
                        1u64
                    } else {
                        0u64
                    },
            ),
            Expr::Lin { constant, coeffs } => coeffs@,
            _ => Seq::empty(),
        }
    }

    /// The constant and the coefficients of the expression, where it is a
    /// constant, a cell or an affine form; nothing for a sum or a product
    /// that is kept as a tree, and for a cell in the last column that a
    /// `usize` can name.
    fn affine_parts(&self, field: &Field) -> (parts: Option<(u64, Vec<u64>)>)
        requires
            field.wf(),
        ensures
            parts is Some <==> self.is_affine(),
            match parts {
                Some((constant, coeffs)) => {
                    &&& constant == self.affine_constant()
                    &&& coeffs@ == self.affine_coeffs()
                    &&& forall|env: Seq<int>| #[trigger]
                        self.eval(field.p(), env) == affine(field.p(), constant, coeffs@, env)
                    &&& coeffs@.len() > 0 ==> self.total_degree() >= 1
                },
                None => true,
            },
    {
        let ghost p = field.p();
        match self {
            Expr::Const(c) => {
                let coeffs: Vec<u64> = Vec::new();
                proof {
                    assert(coeffs@ =~= self.affine_coeffs());
                    assert forall|env: Seq<int>| #[trigger]
                        self.eval(p, env) == affine(p, *c, coeffs@, env) by {}
                }
                Some((*c, coeffs))
            },
            Expr::Var(i) => {
                if *i == usize::MAX {
                    return None;
                }
                let mut coeffs: Vec<u64> = Vec::new();
                let mut k: usize = 0;
                while k < *i
                    invariant
                        k <= *i,
                        coeffs.len() == k,
                        forall|m: int| 0 <= m < k ==> coeffs@[m] == 0,
                    decreases *i - k,
                {
                    coeffs.push(0);
                    k = k + 1;
                }
                coeffs.push(1);
                proof {
                    assert(coeffs@ =~= self.affine_coeffs());
                    assert forall|env: Seq<int>| #[trigger]
                        self.eval(p, env) == affine(p, 0, coeffs@, env) by {
                        lemma_weighted_zero(p, coeffs@, env, *i as nat);
                        let x = cell(p, env, *i as int);
                        assert(coefficient(coeffs@, *i as int) * x == x) by (nonlinear_arith)
                            requires
                                coefficient(coeffs@, *i as int) == 1,
                        ;
                        if 0 <= *i < env.len() {
                            lemma_mod_twice(env[*i as int], p);
                        } else {
                            lemma_small_mod(0, p as nat);
                        }
                    }
                }
                Some((0, coeffs))
            },
            Expr::Lin { constant, coeffs } => {
                let mut copy: Vec<u64> = Vec::new();
                let mut k: usize = 0;
                while k < coeffs.len()
                    invariant
                        k <= coeffs.len(),
                        copy@ == coeffs@.subrange(0, k as int),
                    decreases coeffs.len() - k,
                {
                    copy.push(coeffs[k]);
                    assert(copy@ =~= coeffs@.subrange(0, k + 1));
                    k = k + 1;
                }
                assert(copy@ =~= coeffs@);
                Some((*constant, copy))
            },
            _ => None,
        }
    }
}

impl Carrier for Expr {
    open spec fn interp(&self, p: int, env: Seq<int>) -> int {
        self.eval(p, env)
    }

    open spec fn degree(&self) -> nat {
        self.total_degree()
    }

    fn constant(field: &Field, c: u64) -> (r: Expr)
        ensures
            r == Expr::Const(c),
    {
        Expr::Const(c)
    }

    /// The sum of two affine forms is kept as one affine form.
    fn add(&self, rhs: &Expr, field: &Field) -> (r: Expr) {
        let ghost p = field.p();
        let left = self.affine_parts(field);
        let right = rhs.affine_parts(field);
        match (left, right) {
            (Some((c, a)), Some((d, b))) => {
                let constant = field.add(c, d);
                let coeffs = add_coefficients(field, &a, &b);
                let r = Expr::Lin { constant, coeffs };
                proof {
                    assert forall|env: Seq<int>| #[trigger]
                        r.interp(p, env) == fadd(p, self.interp(p, env), rhs.interp(p, env)) by {
                        let wa = weighted(p, a@, env, a@.len());
                        let wb = weighted(p, b@, env, b@.len());
                        let wr = weighted(p, coeffs@, env, coeffs@.len());
                        let _ = self.eval(p, env);
                        let _ = rhs.eval(p, env);
                        lemma_mod_twice(c + d, p);
                        lemma_add_congruent(p, constant as int, c + d, wr, wa + wb);
                        lemma_mod_twice(c + wa, p);
                        lemma_mod_twice(d + wb, p);
                        lemma_add_congruent(p, (c + wa) % p, c + wa, (d + wb) % p, d + wb);
                    }
                }
                r
            },
            _ => {
                let x = self.dup();
                let y = rhs.dup();
                proof {
                    assert forall|env: Seq<int>|
                        Expr::Add(Box::new(x), Box::new(y)).eval(p, env) == fadd(
                            p,
                            self.eval(p, env),
                            rhs.eval(p, env),
                        ) by {
                        let _ = x.interp(p, env);
                        let _ = y.interp(p, env);
                    }
                }
                Expr::Add(Box::new(x), Box::new(y))
            },
        }
    }

    /// The product of an affine form and a constant is kept as an affine
    /// form.
    fn mul(&self, rhs: &Expr, field: &Field) -> (r: Expr) {
        let ghost p = field.p();
        let scaled = match rhs {
            Expr::Const(c) => match self.affine_parts(field) {
                Some((constant, coeffs)) => Some((*c, constant, coeffs)),
                None => None,
            },
            _ => match self {
                Expr::Const(c) => match rhs.affine_parts(field) {
                    Some((constant, coeffs)) => Some((*c, constant, coeffs)),
                    None => None,
                },
                _ => None,
            },
        };
        match scaled {
            Some((c, constant, coeffs)) => {
                let r = Expr::Lin {
                    constant: field.mul(constant, c),
                    coeffs: scale_coefficients(field, &coeffs, c),
                };
                proof {
                    assert forall|env: Seq<int>| #[trigger]
                        r.interp(p, env) == fmul(p, self.interp(p, env), rhs.interp(p, env)) by {
                        let w = weighted(p, coeffs@, env, coeffs@.len());
                        let _ = self.eval(p, env);
                        let _ = rhs.eval(p, env);
                        let form = affine(p, constant, coeffs@, env);
                        match r {
                            Expr::Lin { constant: rc, coeffs: rv } => {
                                let wr = weighted(p, rv@, env, rv@.len());
                                lemma_mod_twice(constant * c, p);
                                lemma_add_congruent(p, rc as int, constant * c, wr, c * w);
                                assert(constant * c + c * w == (constant + w) * c)
                                    by (nonlinear_arith);
                                lemma_mod_twice(constant + w, p);
                                lemma_mod_twice(c as int, p);
                                lemma_mul_congruent(p, form, constant + w, c as int % p, c as int);
                                lemma_mul_congruent(p, c as int % p, c as int, form, constant + w);
                                assert((constant + w) * c == c * (constant + w))
                                    by (nonlinear_arith);
                            },
                            _ => {},
                        }
                    }
                }
                r
            },
            None => {
                let x = self.dup();
                let y = rhs.dup();
                proof {
                    assert forall|env: Seq<int>|
                        Expr::Mul(Box::new(x), Box::new(y)).eval(p, env) == fmul(
                            p,
                            self.eval(p, env),
                            rhs.eval(p, env),
                        ) by {
                        let _ = x.interp(p, env);
                        let _ = y.interp(p, env);
                    }
                }
                Expr::Mul(Box::new(x), Box::new(y))
            },
        }
    }

    fn dup(&self) -> (r: Expr)
        decreases self,
    {
        match self {
            Expr::Var(i) => Expr::Var(*i),
            Expr::Const(c) => Expr::Const(*c),
            Expr::Lin { constant, coeffs } => {
                let mut copy: Vec<u64> = Vec::new();
                let mut k: usize = 0;
                while k < coeffs.len()
                    invariant
                        k <= coeffs.len(),
                        copy@ == coeffs@.subrange(0, k as int),
                    decreases coeffs.len() - k,
                {
                    copy.push(coeffs[k]);
                    assert(copy@ =~= coeffs@.subrange(0, k + 1));
                    k = k + 1;
                }
                assert(copy@ =~= coeffs@);
                Expr::Lin { constant: *constant, coeffs: copy }
            },
            Expr::Add(a, b) => {
                let x = a.dup();
                let y = b.dup();
                proof {
                    assert forall|p: int, env: Seq<int>|
                        Expr::Add(Box::new(x), Box::new(y)).eval(p, env) == self.eval(p, env) by {
                        let _ = x.interp(p, env);
                        let _ = y.interp(p, env);
                    }
                }
                Expr::Add(Box::new(x), Box::new(y))
            },
            Expr::Mul(a, b) => {
                let x = a.dup();
                let y = b.dup();
                proof {
                    assert forall|p: int, env: Seq<int>|
                        Expr::Mul(Box::new(x), Box::new(y)).eval(p, env) == self.eval(p, env) by {
                        let _ = x.interp(p, env);
                        let _ = y.interp(p, env);
                    }
                }
                Expr::Mul(Box::new(x), Box::new(y))
            },
        }
    }
}

} // verus!
