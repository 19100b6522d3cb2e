//! Equalities between polynomials, and the builder that collects them.

use crate::expr::Expr;
use vstd::prelude::*;

verus! {

/// The assertion that two polynomials agree on a row.
#[derive(Debug, PartialEq, Eq)]
pub struct Constraint {
    /// The left side.
    pub lhs: Expr,
    /// The right side.
    pub rhs: Expr,
}

impl Constraint {
    /// Whether the two sides take the same residue modulo `p` on the row
    /// `env`.
    pub open spec fn holds(self, p: int, env: Seq<int>) -> bool {
        self.lhs.eval(p, env) == self.rhs.eval(p, env)
    }
}

/// Whether the constraints of `cs` from index `from` on all hold on the row
/// `env`.
pub open spec fn holds_from(cs: Seq<Constraint>, from: int, p: int, env: Seq<int>) -> bool {
    forall|k: int| from <= k < cs.len() ==> (#[trigger] cs[k]).holds(p, env)
}

/// Whether all constraints of `cs` hold on the row `env`.
pub open spec fn all_hold(cs: Seq<Constraint>, p: int, env: Seq<int>) -> bool {
    holds_from(cs, 0, p, env)
}

/// `after` is `before` with `n` constraints added at the end.
pub open spec fn grown(before: Seq<Constraint>, after: Seq<Constraint>, n: int) -> bool {
    &&& after.len() == before.len() + n
    &&& forall|k: int| 0 <= k < before.len() ==> after[k] == before[k]
}

/// The constraints of `cs` from index `from` on bind the columns `cols` in
/// their order: the left side of each is the cell of its column.
pub open spec fn binds(cs: Seq<Constraint>, from: int, cols: Seq<usize>) -> bool {
    forall|j: int| 0 <= j < cols.len() ==> (#[trigger] cs[from + j]).lhs == Expr::Var(cols[j])
}

/// The right sides of the constraints of `cs` from index `from` on have
/// degree at most `k`.
pub open spec fn degrees_within(cs: Seq<Constraint>, from: int, k: nat) -> bool {
    forall|j: int| from <= j < cs.len() ==> (#[trigger] cs[j]).rhs.total_degree() <= k
}

/// The degrees from `from` on are bounded when those of the old constraints
/// and those of the new ones are.
pub proof fn lemma_degrees_split(
    before: Seq<Constraint>,
    after: Seq<Constraint>,
    from: int,
    k: nat,
)
    requires
        0 <= from <= before.len() <= after.len(),
        forall|j: int| 0 <= j < before.len() ==> after[j] == before[j],
        degrees_within(before, from, k),
        degrees_within(after, before.len() as int, k),
    ensures
        degrees_within(after, from, k),
{
    assert forall|j: int| from <= j < after.len() implies (#[trigger] after[j]).rhs.total_degree()
        <= k by {
        if j < before.len() {
            assert(before[j].rhs.total_degree() <= k);
        }
    }
}

/// The constraints from `from` on hold when those from `from` up to `mid`
/// and those from `mid` on do.
pub proof fn lemma_holds_split(
    before: Seq<Constraint>,
    after: Seq<Constraint>,
    from: int,
    p: int,
    env: Seq<int>,
)
    requires
        0 <= from <= before.len() <= after.len(),
        forall|k: int| 0 <= k < before.len() ==> after[k] == before[k],
    ensures
        holds_from(after, from, p, env) <==> holds_from(before, from, p, env) && holds_from(
            after,
            before.len() as int,
            p,
            env,
        ),
{
    if holds_from(after, from, p, env) {
        assert forall|k: int| from <= k < before.len() implies (#[trigger] before[k]).holds(
            p,
            env,
        ) by {
            assert(after[k].holds(p, env));
        }
    }
    if holds_from(before, from, p, env) && holds_from(after, before.len() as int, p, env) {
        assert forall|k: int| from <= k < after.len() implies (#[trigger] after[k]).holds(
            p,
            env,
        ) by {
            if k < before.len() {
                assert(before[k].holds(p, env));
            }
        }
    }
}

/// Collects the constraints that an evaluation asserts, in the order in
/// which they are asserted.
#[derive(Debug)]
pub struct ConstraintBuilder {
    /// The constraints asserted so far.
    pub constraints: Vec<Constraint>,
}

impl ConstraintBuilder {
    /// A builder that holds no constraint yet.
    pub fn new() -> (builder: ConstraintBuilder)
        ensures
            builder.constraints@.len() == 0,
    {
        ConstraintBuilder { constraints: Vec::new() }
    }

    /// Asserts that `lhs` and `rhs` agree.
    pub fn assert_eq(&mut self, lhs: Expr, rhs: Expr)
        ensures
            final(self).constraints@ == old(self).constraints@.push(Constraint { lhs, rhs }),
    {
        self.constraints.push(Constraint { lhs, rhs });
    }

    /// Whether every constraint holds on `row`.
    pub fn check(&self, field: &crate::field::Field, row: &Vec<u64>) -> (ok: bool)
        requires
            field.wf(),
        ensures
            ok == all_hold(self.constraints@, field.p(), crate::field::ints(row@)),
    {
        let mut k: usize = 0;
        while k < self.constraints.len()
            invariant
                field.wf(),
                k <= self.constraints.len(),
                forall|m: int|
                    0 <= m < k ==> (#[trigger] self.constraints@[m]).holds(
                        field.p(),
                        crate::field::ints(row@),
                    ),
            decreases self.constraints.len() - k,
        {
            let l = self.constraints[k].lhs.evaluate(field, row);
            let r = self.constraints[k].rhs.evaluate(field, row);
            if l != r {
                return false;
            }
            k = k + 1;
        }
        true
    }
}

} // verus!
