//! The constraint side: the bundle of constants, and the equalities that a
//! row must satisfy to record the permutation of its input.

use crate::carrier::{bounded, interp_all, Carrier};
use crate::columns::{
    degree_supported, num_cols, register_count, FullRound, PartialRound, SBox, Shape,
};
use crate::columns::{full_rounds_view, make_col_map, partial_rounds_view, Poseidon2Cols};
use crate::generation::{add_full_round_constants, add_partial_round_constant};
use crate::layout::{
    beginning_start, ending_start, full_cells, full_index, full_rounds_of, full_rounds_shaped,
    lemma_cells_of_row_of, lemma_full_index, lemma_partial_index, lemma_sections, partial_cells,
    partial_column, partial_start, row_of,
};
use crate::linear::{external_layer, internal_layer};
use crate::permutation::add_constants;
use crate::sbox::{lemma_last_register_is_power, sbox_layer};
use crate::constraints::{
    binds, degrees_within, grown, holds_from, lemma_degrees_split, lemma_holds_split, Constraint,
    ConstraintBuilder,
};
use crate::error::ConfigError;
use crate::expr::Expr;
use crate::field::{fadd, fmul, fpow};
use crate::sbox::{
    is_power, last_step, lemma_is_power, lemma_power_product, register_exponent, sbox_register,
    sbox_registers,
};
use crate::field::{
    all_canonical, all_rows_canonical, canonical, has_shape, ints, table_canonical, table_ints,
    table_shape, Field,
};
use crate::linear::LinearLayer;
use crate::permutation::Instance;
use vstd::prelude::*;

verus! {

/// Why a set of constants is refused for a field, a shape and a linear
/// layer, or nothing when it is accepted. The first reason that applies is
/// given.
pub open spec fn air_refusal(
    field: Field,
    shape: Shape,
    layer: LinearLayer,
    beginning: Seq<Vec<u64>>,
    partial: Seq<u64>,
    ending: Seq<Vec<u64>>,
    diagonal: Seq<u64>,
) -> Option<ConfigError> {
    if !field.wf() {
        Some(ConfigError::FieldOrder)
    } else if shape.refusal() is Some {
        shape.refusal()
    } else if layer.width != shape.width {
        Some(ConfigError::WidthMismatch)
    } else if !(table_shape(beginning, shape.half_full_rounds as int, shape.width as int)
        && partial.len() == shape.partial_rounds && table_shape(
        ending,
        shape.half_full_rounds as int,
        shape.width as int,
    ) && diagonal.len() == shape.width) {
        Some(ConfigError::ConstantsShape)
    } else if !(table_canonical(field.p(), beginning) && canonical(field.p(), partial)
        && table_canonical(field.p(), ending) && canonical(field.p(), diagonal)) {
        Some(ConfigError::NotCanonical)
    } else {
        None
    }
}

/// The instance that a field, a shape and the constants of the rounds make.
pub open spec fn instance_of(
    field: Field,
    shape: Shape,
    beginning: Seq<Vec<u64>>,
    partial: Seq<u64>,
    ending: Seq<Vec<u64>>,
    diagonal: Seq<u64>,
) -> Instance {
    Instance {
        p: field.p(),
        width: shape.width as int,
        degree: shape.sbox_degree as int,
        registers: shape.sbox_registers as int,
        half_full_rounds: shape.half_full_rounds as int,
        partial_rounds: shape.partial_rounds as int,
        beginning: table_ints(beginning),
        partial: ints(partial),
        ending: table_ints(ending),
        diagonal: ints(diagonal),
    }
}

/// The permutation as a set of constraints: the field, the shape of a row,
/// the linear layers and the constants of every round.
#[derive(Debug)]
pub struct Poseidon2Air {
    /// The field the permutation is over.
    pub field: Field,
    /// The shape of a row.
    pub shape: Shape,
    /// The linear layers.
    pub layer: LinearLayer,
    /// The constants of the beginning full rounds.
    pub beginning_full_round_constants: Vec<Vec<u64>>,
    /// The constants of the partial rounds.
    pub partial_round_constants: Vec<u64>,
    /// The constants of the ending full rounds.
    pub ending_full_round_constants: Vec<Vec<u64>>,
    /// The diagonal of the internal layer.
    pub internal_matrix_diagonal: Vec<u64>,
}

impl View for Poseidon2Air {
    type V = Instance;

    open spec fn view(&self) -> Instance {
        instance_of(
            self.field,
            self.shape,
            self.beginning_full_round_constants@,
            self.partial_round_constants@,
            self.ending_full_round_constants@,
            self.internal_matrix_diagonal@,
        )
    }
}

impl Poseidon2Air {
    /// The bundle is one that [`Poseidon2Air::new_from_rng`] accepts.
    pub open spec fn wf(&self) -> bool {
        air_refusal(
            self.field,
            self.shape,
            self.layer,
            self.beginning_full_round_constants@,
            self.partial_round_constants@,
            self.ending_full_round_constants@,
            self.internal_matrix_diagonal@,
        ) is None
    }

    /// Bundles the constants of one instance of the permutation, or says
    /// why they are refused. The constants are taken as they are given:
    /// nothing is drawn at random.
    pub fn new_from_rng(
        field: Field,
        shape: Shape,
        layer: LinearLayer,
        beginning_full_round_constants: Vec<Vec<u64>>,
        partial_round_constants: Vec<u64>,
        ending_full_round_constants: Vec<Vec<u64>>,
        internal_matrix_diagonal: Vec<u64>,
    ) -> (r: Result<Poseidon2Air, ConfigError>)
        ensures
            match r {
                Ok(air) => {
                    &&& air.wf()
                    &&& air.field == field
                    &&& air.shape == shape
                    &&& air.layer == layer
                    &&& air.beginning_full_round_constants@ == beginning_full_round_constants@
                    &&& air.partial_round_constants@ == partial_round_constants@
                    &&& air.ending_full_round_constants@ == ending_full_round_constants@
                    &&& air.internal_matrix_diagonal@ == internal_matrix_diagonal@
                },
                Err(e) => air_refusal(
                    field,
                    shape,
                    layer,
                    beginning_full_round_constants@,
                    partial_round_constants@,
                    ending_full_round_constants@,
                    internal_matrix_diagonal@,
                ) == Some(e),
            },
    {
        if field.order < 2 {
            return Err(ConfigError::FieldOrder);
        }
        match shape.check() {
            Err(e) => {
                return Err(e);
            },
            Ok(_) => {},
        }
        if layer.width != shape.width {
            return Err(ConfigError::WidthMismatch);
        }
        if !(has_shape(&beginning_full_round_constants, shape.half_full_rounds, shape.width)
            && partial_round_constants.len() == shape.partial_rounds && has_shape(
            &ending_full_round_constants,
            shape.half_full_rounds,
            shape.width,
        ) && internal_matrix_diagonal.len() == shape.width) {
            return Err(ConfigError::ConstantsShape);
        }
        if !(all_rows_canonical(&field, &beginning_full_round_constants) && all_canonical(
            &field,
            &partial_round_constants,
        ) && all_rows_canonical(&field, &ending_full_round_constants) && all_canonical(
            &field,
            &internal_matrix_diagonal,
        )) {
            return Err(ConfigError::NotCanonical);
        }
        Ok(
            Poseidon2Air {
                field,
                shape,
                layer,
                beginning_full_round_constants,
                partial_round_constants,
                ending_full_round_constants,
                internal_matrix_diagonal,
            },
        )
    }

    /// The number of columns of the trace.
    pub fn width(&self) -> (n: usize)
        requires
            self.wf(),
        ensures
            n == self.shape.cells(),
    {
        num_cols(&self.shape)
    }

    /// Asserts, on `builder`, the constraints of the permutation on the
    /// cells of one row, and returns the state in which the permutation
    /// ends, as polynomials in those cells.
    ///
    /// The state starts as the input cells of the row and goes through the
    /// rounds in the order of the generator. The constraints that are
    /// added hold on a row exactly when the row records the permutation of
    /// its own input; on such a row the returned state takes the values of
    /// the permutation of that input.
    ///
    /// There is one constraint for each register, in the order of the
    /// columns: its left side is the cell of the register, its right side
    /// a product of degree at most three.
    pub fn eval(&self, builder: &mut ConstraintBuilder) -> (state: Vec<Expr>)
        requires
            self.wf(),
        ensures
            state.len() == self.shape.width,
            grown(
                old(builder).constraints@,
                final(builder).constraints@,
                2 * full_cells(self.shape) + partial_cells(self.shape),
            ),
            constrains(
                final(builder).constraints@,
                old(builder).constraints@.len() as int,
                self@,
                self.shape,
            ),
            computes(
                state@,
                final(builder).constraints@,
                old(builder).constraints@.len() as int,
                self@,
                self.shape,
            ),
            follows_columns(
                final(builder).constraints@,
                old(builder).constraints@.len() as int,
                self.shape,
            ),
            degrees_within(
                final(builder).constraints@,
                old(builder).constraints@.len() as int,
                3,
            ),
    {
        let ghost p = self.field.p();
        let ghost inst = self@;
        let ghost shape = self.shape;
        let ghost cs0 = builder.constraints@;
        let ghost n0 = cs0.len() as int;
        let cols = make_col_map(&self.shape);
        proof {
            lemma_cells_of_row_of(shape, column_indices(shape));
            lemma_sections(shape);
        }
        let w = self.shape.width;
        let mut state: Vec<Expr> = Vec::new();
        let mut i: usize = 0;
        while i < w
            invariant
                w == cols.inputs.len(),
                i <= w,
                state.len() == i,
                forall|k: int| 0 <= k < i ==> state@[k] == Expr::Var(cols.inputs@[k]),
            decreases w - i,
        {
            state.push(Expr::Var(cols.inputs[i]));
            i = i + 1;
        }
        let ghost state0 = state@;
        proof {
            assert forall|k: int| 0 <= k < state0.len() implies (#[trigger] state0[k]).degree()
                <= 1 by {
                assert(state0[k] == Expr::Var(cols.inputs@[k]));
            }
            assert(bounded(state0, 1));
        }
        let mixed = self.layer.matmul_external(&self.field, &mut state);
        assert(mixed is Ok);
        let ghost entering = state@;
        eval_full_rounds(
            self,
            &mut state,
            &cols.beginning_full_rounds,
            &self.beginning_full_round_constants,
            builder,
        );
        let ghost cs1 = builder.constraints@;
        let ghost state1 = state@;
        proof {
            assert forall|k: int| 0 <= k < cols.partial_rounds.len() implies (
            #[trigger] cols.partial_rounds@[k])@.len() == shape.sbox_registers by {
                assert(cols@.partial_rounds[k] == cols.partial_rounds@[k]@);
            }
        }
        eval_partial_rounds(self, &mut state, &cols.partial_rounds, builder);
        let ghost cs2 = builder.constraints@;
        let ghost state2 = state@;
        eval_full_rounds(
            self,
            &mut state,
            &cols.ending_full_rounds,
            &self.ending_full_round_constants,
            builder,
        );
        proof {
            let cs3 = builder.constraints@;
            let n1 = cs1.len() as int;
            let n2 = cs2.len() as int;
            lemma_degrees_split(cs1, cs2, n0, 3);
            lemma_degrees_split(cs2, cs3, n0, 3);
            let map = column_indices(shape);
            let r = shape.sbox_registers as int;
            assert forall|q: int|
                0 <= q < 2 * full_cells(shape) + partial_cells(shape) implies (
            #[trigger] cs3[n0 + q]).lhs == Expr::Var((beginning_start(shape) + q) as usize) by {
                crate::columns::lemma_per_round(shape);
                if q < full_cells(shape) {
                    crate::layout::lemma_full_place(shape, q);
                    let k = q / (shape.width * r);
                    let i = (q / r) % (shape.width as int);
                    let j = q % r;
                    let _ = full_rounds_view(cols.beginning_full_rounds@)[k][i][j];
                    assert(cols@.beginning_full_rounds[k][i][j] == map[beginning_start(shape)
                        + q]);
                    assert(cs3[n0 + q] == cs1[n0 + q]);
                } else if q < full_cells(shape) + partial_cells(shape) {
                    let t = q - full_cells(shape);
                    crate::layout::lemma_partial_place(shape, t);
                    let k = t / r;
                    let j = t % r;
                    let _ = partial_rounds_view(cols.partial_rounds@)[k][j];
                    assert(cols@.partial_rounds[k][j] == map[partial_column(shape, k, j)]);
                    assert(cs3[n0 + q] == cs2[n1 + k * r + j]);
                } else {
                    let t = q - full_cells(shape) - partial_cells(shape);
                    crate::layout::lemma_full_place(shape, t);
                    let k = t / (shape.width * r);
                    let i = (t / r) % (shape.width as int);
                    let j = t % r;
                    let _ = full_rounds_view(cols.ending_full_rounds@)[k][i][j];
                    assert(cols@.ending_full_rounds[k][i][j] == map[ending_start(shape) + t]);
                    assert(cs3[n0 + q] == cs3[n2 + full_index(shape, k, i, j)]);
                }
            }
            assert forall|env: Seq<int>| env.len() == shape.cells() implies ((#[trigger] holds_from(
                cs3,
                n0,
                p,
                env,
            ) <==> inst.accepts(row_of(shape, residues(p, env)))) && (holds_from(cs3, n0, p, env)
                ==> interp_all(state@, p, env) == inst.permutation(
                row_of(shape, residues(p, env)).inputs,
            ))) by {
                let row = row_of(shape, residues(p, env));
                lemma_reads_row(shape, p, env);
                lemma_holds_split(cs2, cs3, n0, p, env);
                lemma_holds_split(cs1, cs2, n0, p, env);
                let a = holds_from(cs1, n0, p, env);
                let b = holds_from(cs2, n1, p, env);
                let c = holds_from(cs3, n2, p, env);
                assert(interp_all(state0, p, env) =~= row.inputs) by {
                    assert forall|k: int| 0 <= k < w implies interp_all(state0, p, env)[k]
                        == row.inputs[k] by {
                        assert(cols@.inputs[k] == cols.inputs@[k]);
                    }
                }
                assert(interp_all(entering, p, env) == inst.entering_beginning(row.inputs));
                assert(read_rounds(p, env, full_rounds_view(cols.beginning_full_rounds@))
                    == row.beginning_full_rounds);
                assert(read_round(p, env, partial_rounds_view(cols.partial_rounds@))
                    == row.partial_rounds);
                assert(read_rounds(p, env, full_rounds_view(cols.ending_full_rounds@))
                    == row.ending_full_rounds);
                if a {
                    assert(interp_all(state1, p, env) == inst.entering_partial(row.inputs));
                    if b {
                        assert(interp_all(state2, p, env) == inst.entering_ending(row.inputs));
                    }
                }
            }
        }
        state
    }
}

/// The residue that the row `env` holds in column `c`.
pub open spec fn reads(p: int, env: Seq<int>, c: usize) -> int {
    Expr::Var(c).eval(p, env)
}

/// The residues that the row `env` holds in the columns `cols`.
pub open spec fn registers_read(p: int, env: Seq<int>, cols: Seq<usize>) -> Seq<int> {
    Seq::new(cols.len(), |j: int| reads(p, env, cols[j]))
}

/// The product of the residues that the row `env` holds in the columns
/// `cols[product[0]]`, ..., `cols[product[n - 1]]`.
pub open spec fn read_product(
    p: int,
    env: Seq<int>,
    cols: Seq<usize>,
    product: Seq<usize>,
    n: nat,
) -> int
    decreases n,
{
    if n == 0 {
        1
    } else if n == 1 {
        reads(p, env, cols[product[0] as int])
    } else {
        fmul(
            p,
            read_product(p, env, cols, product, (n - 1) as nat),
            reads(p, env, cols[product[n - 1] as int]),
        )
    }
}

/// Whether the first `n` of the columns `cols` hold, on the row `env`, the
/// first `n` registers of the S-box of `x`.
pub open spec fn registers_match(
    p: int,
    env: Seq<int>,
    cols: Seq<usize>,
    d: int,
    x: int,
    n: int,
) -> bool {
    forall|m: int|
        0 <= m < n ==> reads(p, env, #[trigger] cols[m]) == sbox_register(
            p,
            d,
            cols.len() as int,
            x,
            m,
        )
}

/// The factor by which the last register exceeds the one before it, where
/// the S-box is that of `x`: `x^3`, `x` or `x^2`, as the degree leaves
/// remainder 0, 1 or 2 modulo 3.
pub open spec fn last_factor(p: int, d: int, x: int) -> int {
    if d % 3 == 0 {
        fpow(p, x, 3)
    } else if d % 3 == 1 {
        x
    } else {
        fpow(p, x, 2)
    }
}

/// What the constraint of register `j` asserts the register to be on the
/// row `env`, where the S-box is that of `x`: the cube of `x` for the first
/// register; for one in the middle the first register times the one before
/// it, and for degree 11 times the first once more; for the last the
/// register before it times [`last_factor`].
pub open spec fn register_rhs(p: int, d: int, cols: Seq<usize>, env: Seq<int>, x: int, j: int) -> int {
    if j <= 0 {
        fpow(p, x, 3)
    } else if j < cols.len() - 1 {
        if d == 11 {
            fmul(
                p,
                fmul(p, reads(p, env, cols[0]), reads(p, env, cols[0])),
                reads(p, env, cols[j - 1]),
            )
        } else {
            fmul(p, reads(p, env, cols[0]), reads(p, env, cols[j - 1]))
        }
    } else {
        fmul(p, last_factor(p, d, x), reads(p, env, cols[j - 1]))
    }
}

/// The constraints of `cs` from index `from` on are those of the S-box
/// with the registers `cols` of the value `x`: on every row, the right side
/// of the one for register `j` is what [`register_rhs`] gives.
pub open spec fn asserts_sbox(
    cs: Seq<Constraint>,
    from: int,
    p: int,
    d: int,
    cols: Seq<usize>,
    x: spec_fn(Seq<int>) -> int,
) -> bool {
    forall|env: Seq<int>, j: int|
        0 <= j < cols.len() ==> #[trigger] cs[from + j].rhs.eval(p, env) == register_rhs(
            p,
            d,
            cols,
            env,
            x(env),
            j,
        )
}

/// Asserts that register `i` of `sbox` holds `value`.
pub fn load(sbox: &SBox<usize>, i: usize, value: Expr, builder: &mut ConstraintBuilder)
    requires
        i < sbox@.len(),
    ensures
        final(builder).constraints@ == old(builder).constraints@.push(
            Constraint { lhs: Expr::Var(sbox@[i as int]), rhs: value },
        ),
{
    builder.assert_eq(Expr::Var(sbox.0[i]), value);
}

/// Asserts that register `i` of `sbox` holds the product of the registers
/// whose indices `product` lists. The product of no registers is one.
pub fn load_product(
    field: &crate::field::Field,
    sbox: &SBox<usize>,
    i: usize,
    product: &Vec<usize>,
    builder: &mut ConstraintBuilder,
)
    requires
        field.wf(),
        i < sbox@.len(),
        forall|k: int| 0 <= k < product.len() ==> product@[k] < sbox@.len(),
    ensures
        grown(old(builder).constraints@, final(builder).constraints@, 1),
        final(builder).constraints@.last().lhs == Expr::Var(sbox@[i as int]),
        forall|env: Seq<int>| #[trigger]
            final(builder).constraints@.last().rhs.eval(field.p(), env) == read_product(
                field.p(),
                env,
                sbox@,
                product@,
                product@.len(),
            ),
        final(builder).constraints@.last().rhs.total_degree() <= product@.len(),
{
    let ghost p = field.p();
    let mut value = if product.len() == 0 {
        Expr::Const(1)
    } else {
        Expr::Var(sbox.0[product[0]])
    };
    let mut k: usize = if product.len() == 0 {
        0
    } else {
        1
    };
    proof {
        vstd::arithmetic::div_mod::lemma_small_mod(1, p as nat);
    }
    while k < product.len()
        invariant
            field.wf(),
            p == field.p(),
            k <= product.len(),
            product.len() > 0 ==> k >= 1,
            forall|m: int| 0 <= m < product.len() ==> product@[m] < sbox@.len(),
            forall|env: Seq<int>| #[trigger]
                value.eval(p, env) == read_product(p, env, sbox@, product@, k as nat),
            value.total_degree() <= k,
        decreases product.len() - k,
    {
        let factor = Expr::Var(sbox.0[product[k]]);
        let next = value.mul(&factor, field);
        proof {
            assert forall|env: Seq<int>| #[trigger]
                next.eval(p, env) == read_product(p, env, sbox@, product@, (k + 1) as nat) by {
                let _ = value.eval(p, env);
                let _ = next.interp(p, env);
            }
        }
        value = next;
        k = k + 1;
    }
    load(sbox, i, value, builder);
}

/// Asserts that the last register of `sbox` holds the product of the
/// register before it and of `x3`, `x` or `x2`, as the degree leaves
/// remainder 0, 1 or 2 modulo 3.
pub fn load_last_product(
    field: &crate::field::Field,
    degree: usize,
    sbox: &SBox<usize>,
    x: Expr,
    x2: Expr,
    x3: Expr,
    builder: &mut ConstraintBuilder,
)
    requires
        field.wf(),
        sbox@.len() >= 2,
    ensures
        final(builder).constraints@ == old(builder).constraints@.push(
            Constraint {
                lhs: Expr::Var(sbox@[sbox@.len() - 1]),
                rhs: Expr::Mul(
                    Box::new(
                        if degree % 3 == 0 {
                            x3
                        } else if degree % 3 == 1 {
                            x
                        } else {
                            x2
                        },
                    ),
                    Box::new(Expr::Var(sbox@[sbox@.len() - 2])),
                ),
            },
        ),
{
    let n = sbox.0.len();
    let last = if degree % 3 == 0 {
        x3
    } else if degree % 3 == 1 {
        x
    } else {
        x2
    };
    let value = Expr::Mul(Box::new(last), Box::new(Expr::Var(sbox.0[n - 2])));
    load(sbox, n - 1, value, builder);
}

/// Asserts that the registers of `sbox` hold the powers of `x` by which its
/// S-box is reached, and replaces `x` by the last register.
///
/// One constraint is added for each register, in their order: the first
/// register is the cube of `x`; a register in the middle is the first times
/// the one before it (for degree 11 times the first once more); the last is
/// the one before it times `x^3`, `x` or `x^2`, as the degree leaves
/// remainder 0, 1 or 2 modulo 3. Together they hold on a row exactly when
/// the row holds, in the columns of `sbox`, the registers of the S-box of
/// the value that `x` takes on that row.
///
/// The degree must be one of 3, 5, 7 and 11, and `sbox` must have the
/// number of registers that the degree calls for.
pub fn eval_sbox(
    field: &crate::field::Field,
    degree: usize,
    sbox: &SBox<usize>,
    x: &mut Expr,
    builder: &mut ConstraintBuilder,
)
    requires
        field.wf(),
        degree_supported(degree as int),
        sbox@.len() == register_count(degree as int),
    ensures
        grown(old(builder).constraints@, final(builder).constraints@, sbox@.len() as int),
        forall|env: Seq<int>, j: int|
            0 <= j < sbox@.len() ==> #[trigger] final(builder).constraints@[old(builder).constraints@.len() + j].rhs.eval(field.p(), env) == register_rhs(
                field.p(),
                degree as int,
                sbox@,
                env,
                old(x).eval(field.p(), env),
                j,
            ),
        forall|env: Seq<int>| #[trigger]
            holds_from(
                final(builder).constraints@,
                old(builder).constraints@.len() as int,
                field.p(),
                env,
            ) <==> registers_read(field.p(), env, sbox@) == sbox_registers(
                field.p(),
                degree as int,
                sbox@.len() as int,
                old(x).eval(field.p(), env),
            ),
        *final(x) == Expr::Var(sbox@[sbox@.len() - 1]),
        binds(final(builder).constraints@, old(builder).constraints@.len() as int, sbox@),
        old(x).total_degree() <= 1 ==> degrees_within(
            final(builder).constraints@,
            old(builder).constraints@.len() as int,
            3,
        ),
{
    let ghost p = field.p();
    let ghost d = degree as int;
    let ghost cols = sbox@;
    let ghost low = x.total_degree() <= 1;
    let ghost r = cols.len() as int;
    let ghost start = builder.constraints@;
    let ghost n0 = start.len() as int;
    let ghost x0 = *x;
    let registers = sbox.0.len();
    let x2 = x.mul(x, field);
    let x3 = x2.mul(x, field);
    let first = x3.dup();
    let ghost cube = first;
    load(sbox, 0, first, builder);
    proof {
        assert forall|env: Seq<int>| #[trigger]
            holds_from(builder.constraints@, n0, p, env) <==> registers_match(
                p,
                env,
                cols,
                d,
                x0.eval(p, env),
                1,
            ) by {
            let xv = x0.eval(p, env);
            lemma_is_power(p, xv, 1);
            lemma_power_product(p, xv, xv, 1, xv, 1);
            lemma_power_product(p, xv, fmul(p, xv, xv), 2, xv, 1);
            assert(x2.interp(p, env) == fmul(p, xv, xv));
            assert(x3.interp(p, env) == fmul(p, x2.interp(p, env), xv));
            assert(cube.interp(p, env) == x3.interp(p, env));
            assert(builder.constraints@[n0].holds(p, env) <==> reads(p, env, cols[0])
                == sbox_register(p, d, r, xv, 0));
            if registers_match(p, env, cols, d, xv, 1) {
                assert(reads(p, env, cols[0]) == sbox_register(p, d, r, xv, 0));
            }
        }
    }
    proof {
        assert(builder.constraints@[n0].lhs == Expr::Var(cols[0]));
        assert forall|env: Seq<int>, m: int| 0 <= m < 1 implies #[trigger] builder.constraints@[n0
            + m].rhs.eval(p, env) == register_rhs(p, d, cols, env, x0.eval(p, env), m) by {
            let xv = x0.eval(p, env);
            lemma_is_power(p, xv, 1);
            lemma_power_product(p, xv, xv, 1, xv, 1);
            lemma_power_product(p, xv, fmul(p, xv, xv), 2, xv, 1);
            assert(x2.interp(p, env) == fmul(p, xv, xv));
            assert(x3.interp(p, env) == fmul(p, x2.interp(p, env), xv));
            assert(cube.interp(p, env) == x3.interp(p, env));
        }
        if low {
            assert(x2.degree() <= 2);
            assert(x3.degree() <= 3);
            assert(cube.degree() <= 3);
            assert(builder.constraints@[n0].rhs.total_degree() <= 3);
        }
    }
    if registers == 1 {
        *x = Expr::Var(sbox.0[0]);
        proof {
            assert forall|env: Seq<int>| #[trigger]
                holds_from(builder.constraints@, n0, p, env) <==> registers_read(p, env, cols)
                    == sbox_registers(p, d, r, x0.eval(p, env)) by {
                lemma_match_is_equal(p, env, cols, d, x0.eval(p, env));
            }
        }
        return ;
    }
    let mut j: usize = 1;
    while j < registers - 1
        invariant
            field.wf(),
            p == field.p(),
            d == degree as int,
            cols == sbox@,
            r == cols.len(),
            registers == r,
            registers >= 2,
            1 <= j <= registers - 1,
            n0 == start.len(),
            grown(start, builder.constraints@, j as int),
            forall|env: Seq<int>| #[trigger]
                holds_from(builder.constraints@, n0, p, env) <==> registers_match(
                    p,
                    env,
                    cols,
                    d,
                    x0.eval(p, env),
                    j as int,
                ),
            forall|m: int| 0 <= m < j ==> (#[trigger] builder.constraints@[n0 + m]).lhs == Expr::Var(cols[m]),
            forall|env: Seq<int>, m: int|
                0 <= m < j ==> #[trigger] builder.constraints@[n0 + m].rhs.eval(p, env)
                    == register_rhs(p, d, cols, env, x0.eval(p, env), m),
            low ==> degrees_within(builder.constraints@, n0, 3),
        decreases registers - j,
    {
        let ghost before = builder.constraints@;
        let mut product: Vec<usize> = Vec::new();
        product.push(0);
        if degree == 11 {
            product.push(0);
        }
        product.push(j - 1);
        load_product(field, sbox, j, &product, builder);
        proof {
            let after = builder.constraints@;
            assert(after[before.len() as int] == after.last());
            assert forall|m: int| 0 <= m < j + 1 implies (#[trigger] after[n0 + m]).lhs
                == Expr::Var(cols[m]) by {
                if m < j {
                    assert(after[n0 + m] == before[n0 + m]);
                }
            }
            if low {
                assert(degrees_within(after, before.len() as int, 3));
                lemma_degrees_split(before, after, n0, 3);
            }
            assert forall|env: Seq<int>, m: int| 0 <= m < j + 1 implies #[trigger] after[n0
                + m].rhs.eval(p, env) == register_rhs(p, d, cols, env, x0.eval(p, env), m) by {
                if m < j {
                    assert(after[n0 + m] == before[n0 + m]);
                } else {
                    reveal_with_fuel(read_product, 4);
                    let _ = after.last().rhs.eval(p, env);
                }
            }
            assert forall|env: Seq<int>| #[trigger]
                holds_from(after, n0, p, env) <==> registers_match(
                    p,
                    env,
                    cols,
                    d,
                    x0.eval(p, env),
                    j + 1,
                ) by {
                let xv = x0.eval(p, env);
                let c = after.last();
                lemma_holds_split(before, after, n0, p, env);
                assert(after[before.len() as int] == c);
                assert(holds_from(after, before.len() as int, p, env) <==> c.holds(p, env));
                let _ = c.rhs.eval(p, env);
                let _ = holds_from(before, n0, p, env);
                reveal_with_fuel(read_product, 4);
                if registers_match(p, env, cols, d, xv, j as int) {
                    let a0 = reads(p, env, cols[0]);
                    let prev = reads(p, env, cols[j - 1]);
                    lemma_is_power(p, xv, register_exponent(d, r, 0));
                    lemma_is_power(p, xv, register_exponent(d, r, j - 1));
                    if degree == 11 {
                        lemma_power_product(p, xv, a0, 3, a0, 3);
                        lemma_power_product(
                            p,
                            xv,
                            fmul(p, a0, a0),
                            6,
                            prev,
                            register_exponent(d, r, j - 1),
                        );
                    } else {
                        lemma_power_product(p, xv, a0, 3, prev, register_exponent(d, r, j - 1));
                    }
                    assert(c.rhs.eval(p, env) == sbox_register(p, d, r, xv, j as int));
                }
                if registers_match(p, env, cols, d, xv, j + 1) {
                    assert(registers_match(p, env, cols, d, xv, j as int));
                    assert(reads(p, env, cols[j as int]) == sbox_register(p, d, r, xv, j as int));
                }
                if holds_from(after, n0, p, env) {
                    assert forall|m: int| 0 <= m < j + 1 implies reads(p, env, #[trigger] cols[m])
                        == sbox_register(p, d, r, xv, m) by {
                        if m < j {
                        }
                    }
                }
            }
        }
        j = j + 1;
    }
    let ghost before = builder.constraints@;
    let x1 = x.dup();
    let ghost base = x1;
    load_last_product(field, degree, sbox, x1, x2, x3, builder);
    *x = Expr::Var(sbox.0[registers - 1]);
    proof {
        let after = builder.constraints@;
        assert(after[before.len() as int] == after.last());
        assert forall|m: int| 0 <= m < r implies (#[trigger] after[n0 + m]).lhs == Expr::Var(
            cols[m],
        ) by {
            if m < r - 1 {
                assert(after[n0 + m] == before[n0 + m]);
            }
        }
        assert forall|env: Seq<int>, m: int| 0 <= m < r implies #[trigger] after[n0 + m].rhs.eval(
            p,
            env,
        ) == register_rhs(p, d, cols, env, x0.eval(p, env), m) by {
            if m < r - 1 {
                assert(after[n0 + m] == before[n0 + m]);
            } else {
                let xv = x0.eval(p, env);
                lemma_is_power(p, xv, 1);
                lemma_power_product(p, xv, xv, 1, xv, 1);
                lemma_power_product(p, xv, fmul(p, xv, xv), 2, xv, 1);
                assert(x2.interp(p, env) == fmul(p, xv, xv));
                assert(x3.interp(p, env) == fmul(p, x2.interp(p, env), xv));
                assert(base.interp(p, env) == xv);
            }
        }
        if low {
            assert(x2.degree() <= 2);
            assert(base.degree() <= 1);
            assert(degree % 3 != 0);
            assert(Expr::Var(cols[r - 2]).total_degree() == 1);
            assert(x2.total_degree() <= 2);
            assert(base.total_degree() <= 1);
            assert(after.last().rhs.total_degree() <= 3);
            assert(degrees_within(after, before.len() as int, 3));
            lemma_degrees_split(before, after, n0, 3);
        }
        assert forall|env: Seq<int>| #[trigger]
            holds_from(after, n0, p, env) <==> registers_read(p, env, cols) == sbox_registers(
                p,
                d,
                r,
                x0.eval(p, env),
            ) by {
            let xv = x0.eval(p, env);
            let c = after.last();
            lemma_holds_split(before, after, n0, p, env);
            assert(after[before.len() as int] == c);
            assert(holds_from(after, before.len() as int, p, env) <==> c.holds(p, env));
            let _ = holds_from(before, n0, p, env);
            lemma_match_is_equal(p, env, cols, d, xv);
            lemma_is_power(p, xv, 1);
            lemma_power_product(p, xv, xv, 1, xv, 1);
            lemma_power_product(p, xv, fmul(p, xv, xv), 2, xv, 1);
            assert(x2.interp(p, env) == fmul(p, xv, xv));
            assert(x3.interp(p, env) == fmul(p, x2.interp(p, env), xv));
            assert(base.interp(p, env) == xv);
            if registers_match(p, env, cols, d, xv, r - 1) {
                let prev = reads(p, env, cols[r - 2]);
                lemma_is_power(p, xv, register_exponent(d, r, r - 2));
                lemma_is_power(p, xv, 2);
                lemma_is_power(p, xv, 3);
                let t = if degree % 3 == 0 {
                    fpow(p, xv, 3)
                } else if degree % 3 == 1 {
                    xv
                } else {
                    fpow(p, xv, 2)
                };
                lemma_power_product(p, xv, t, last_step(d), prev, register_exponent(d, r, r - 2));
                assert(c.rhs.eval(p, env) == sbox_register(p, d, r, xv, r - 1));
            }
            if registers_match(p, env, cols, d, xv, r) {
                assert(registers_match(p, env, cols, d, xv, r - 1));
                assert(reads(p, env, cols[r - 1]) == sbox_register(p, d, r, xv, r - 1));
            }
            if holds_from(after, n0, p, env) {
                assert forall|m: int| 0 <= m < r implies reads(p, env, #[trigger] cols[m])
                    == sbox_register(p, d, r, xv, m) by {
                    if m < r - 1 {
                    }
                }
            }
        }
    }
}

/// The columns hold all registers of an S-box exactly when what is read
/// from them is the sequence of its registers.
pub proof fn lemma_match_is_equal(p: int, env: Seq<int>, cols: Seq<usize>, d: int, x: int)
    ensures
        registers_match(p, env, cols, d, x, cols.len() as int) <==> registers_read(p, env, cols)
            == sbox_registers(p, d, cols.len() as int, x),
{
    let got = registers_read(p, env, cols);
    let want = sbox_registers(p, d, cols.len() as int, x);
    if registers_match(p, env, cols, d, x, cols.len() as int) {
        assert forall|m: int| 0 <= m < cols.len() implies got[m] == want[m] by {
            let _ = cols[m];
        }
        assert(got =~= want);
    }
    if got == want {
        assert forall|m: int| 0 <= m < cols.len() implies reads(p, env, #[trigger] cols[m])
            == sbox_register(p, d, cols.len() as int, x, m) by {
            assert(got[m] == want[m]);
        }
    }
}

/// The residues that the row `env` holds in the columns of each S-box of
/// `cols`.
pub open spec fn read_round(p: int, env: Seq<int>, cols: Seq<Seq<usize>>) -> Seq<Seq<int>> {
    Seq::new(cols.len(), |i: int| registers_read(p, env, cols[i]))
}

/// The residues that the row `env` holds in the columns of each S-box of
/// each round of `cols`.
pub open spec fn read_rounds(p: int, env: Seq<int>, cols: Seq<Seq<Seq<usize>>>) -> Seq<
    Seq<Seq<int>>,
> {
    Seq::new(cols.len(), |k: int| read_round(p, env, cols[k]))
}

/// Whether the first `n` S-boxes of `cols` hold, on the row `env`, the
/// registers of the S-boxes of the first `n` entries of `xs`.
pub open spec fn lanes_match(
    p: int,
    env: Seq<int>,
    cols: Seq<Seq<usize>>,
    d: int,
    r: int,
    xs: Seq<int>,
    n: int,
) -> bool {
    forall|k: int|
        0 <= k < n ==> registers_read(p, env, #[trigger] cols[k]) == sbox_registers(
            p,
            d,
            r,
            xs[k],
        )
}

/// The residues that the row `env` holds in the last register of each
/// S-box of `cols`.
pub open spec fn last_registers_read(p: int, env: Seq<int>, cols: Seq<Seq<usize>>) -> Seq<int> {
    Seq::new(cols.len(), |i: int| reads(p, env, cols[i][cols[i].len() - 1]))
}

/// The constraints of one full round: adds the constants, constrains the
/// S-box of every cell, and applies the external layer to the registers
/// that stand for the powers.
///
/// The constraints that are added are, cell after cell, those of the S-box
/// of the cell with its constant added. They hold on a row exactly when the
/// row holds the registers of this round from the state that `state`
/// stands for. The new `state` is, on every row, the external layer of the
/// last registers that the row holds; on a row on which the constraints
/// hold, that is the state after the round.
pub fn eval_full_round(
    air: &Poseidon2Air,
    state: &mut Vec<Expr>,
    full_round: &FullRound<usize>,
    round_constants: &Vec<u64>,
    builder: &mut ConstraintBuilder,
)
    requires
        air.wf(),
        old(state).len() == air.shape.width,
        round_constants.len() == air.shape.width,
        full_round@.len() == air.shape.width,
        forall|i: int|
            0 <= i < full_round@.len() ==> (#[trigger] full_round@[i]).len()
                == air.shape.sbox_registers,
    ensures
        final(state).len() == air.shape.width,
        grown(
            old(builder).constraints@,
            final(builder).constraints@,
            air.shape.width * air.shape.sbox_registers,
        ),
        forall|env: Seq<int>| #[trigger]
            holds_from(
                final(builder).constraints@,
                old(builder).constraints@.len() as int,
                air.field.p(),
                env,
            ) <==> read_round(air.field.p(), env, full_round@) == air@.full_round_registers(
                interp_all(old(state)@, air.field.p(), env),
                ints(round_constants@),
            ),
        forall|env: Seq<int>|
            #[trigger] holds_from(
                final(builder).constraints@,
                old(builder).constraints@.len() as int,
                air.field.p(),
                env,
            ) ==> interp_all(final(state)@, air.field.p(), env) == air@.full_round(
                interp_all(old(state)@, air.field.p(), env),
                ints(round_constants@),
            ),
        forall|i: int, j: int|
            0 <= i < air.shape.width && 0 <= j < air.shape.sbox_registers ==> final(builder).constraints@[old(builder).constraints@.len() + i * air.shape.sbox_registers + j].lhs
                == Expr::Var(#[trigger] full_round@[i][j]),
        forall|i: int|
            0 <= i < air.shape.width ==> asserts_sbox(
                final(builder).constraints@,
                old(builder).constraints@.len() + i * air.shape.sbox_registers,
                air.field.p(),
                air.shape.sbox_degree as int,
                #[trigger] full_round@[i],
                |env: Seq<int>|
                    fadd(
                        air.field.p(),
                        old(state)@[i].interp(air.field.p(), env),
                        round_constants@[i] as int,
                    ),
            ),
        forall|env: Seq<int>| #[trigger]
            interp_all(final(state)@, air.field.p(), env) == external_layer(
                air.field.p(),
                last_registers_read(air.field.p(), env, full_round@),
            ),
        bounded(final(state)@, 1),
        bounded(old(state)@, 1) ==> degrees_within(
            final(builder).constraints@,
            old(builder).constraints@.len() as int,
            3,
        ),
{
    let ghost p = air.field.p();
    let ghost d = air.shape.sbox_degree as int;
    let ghost r = air.shape.sbox_registers as int;
    let ghost cols = full_round@;
    let ghost before = state@;
    let ghost start = builder.constraints@;
    let ghost n0 = start.len() as int;
    let w = air.shape.width;
    let ghost low = bounded(state@, 1);
    add_full_round_constants(&air.field, state, round_constants);
    let ghost added = state@;
    let mut i: usize = 0;
    proof {
        assert(0 * r == 0);
    }
    while i < w
        invariant
            air.wf(),
            p == air.field.p(),
            d == air.shape.sbox_degree as int,
            r == air.shape.sbox_registers as int,
            w == air.shape.width,
            cols == full_round@,
            cols.len() == w,
            forall|k: int| 0 <= k < cols.len() ==> (#[trigger] cols[k]).len() == r,
            n0 == start.len(),
            state.len() == w,
            added.len() == w,
            before.len() == w,
            round_constants.len() == w,
            i <= w,
            grown(start, builder.constraints@, i * r),
            forall|k: int| i <= k < w ==> state@[k] == added[k],
            forall|k: int| 0 <= k < i ==> state@[k] == Expr::Var(#[trigger] cols[k][r - 1]),
            low ==> bounded(added, 1),
            low ==> degrees_within(builder.constraints@, n0, 3),
            forall|a: int, b: int|
                0 <= a < i && 0 <= b < r ==> builder.constraints@[n0 + a * r + b].lhs
                    == Expr::Var(#[trigger] cols[a][b]),
            forall|a: int|
                0 <= a < i ==> asserts_sbox(
                    builder.constraints@,
                    n0 + a * r,
                    p,
                    d,
                    #[trigger] cols[a],
                    |env: Seq<int>| fadd(p, before[a].interp(p, env), round_constants@[a] as int),
                ),
            forall|env: Seq<int>| #[trigger]
                interp_all(added, p, env) == add_constants(
                    p,
                    interp_all(before, p, env),
                    ints(round_constants@),
                ),
            forall|env: Seq<int>| #[trigger]
                holds_from(builder.constraints@, n0, p, env) <==> lanes_match(
                    p,
                    env,
                    cols,
                    d,
                    r,
                    interp_all(added, p, env),
                    i as int,
                ),
        decreases w - i,
    {
        let ghost mid = builder.constraints@;
        let ghost lane = state@[i as int];
        assert(cols[i as int] == full_round.sbox@[i as int]@);
        assert(cols[i as int].len() == r);
        proof {
            crate::columns::lemma_per_round(air.shape);
        }
        proof {
            assert(i * r >= 0) by (nonlinear_arith)
                requires
                    i >= 0,
                    r >= 0,
            ;
            if low {
                assert(added[i as int].degree() <= 1);
            }
        }
        eval_sbox(&air.field, air.shape.sbox_degree, &full_round.sbox[i], &mut state[i], builder);
        proof {
            let after = builder.constraints@;
            assert((i + 1) * r == i * r + r) by (nonlinear_arith);
            if low {
                lemma_degrees_split(mid, after, n0, 3);
            }
            assert forall|a: int| 0 <= a < i + 1 implies asserts_sbox(
                after,
                n0 + a * r,
                p,
                d,
                #[trigger] cols[a],
                |env: Seq<int>| fadd(p, before[a].interp(p, env), round_constants@[a] as int),
            ) by {
                let x = |env: Seq<int>|
                    fadd(p, before[a].interp(p, env), round_constants@[a] as int);
                if a < i {
                    assert((a + 1) * r == a * r + r) by (nonlinear_arith);
                    vstd::arithmetic::mul::lemma_mul_inequality(a + 1, i as int, r);
                    assert(asserts_sbox(mid, n0 + a * r, p, d, cols[a], x));
                    assert forall|env: Seq<int>, j: int| 0 <= j < cols[a].len() implies #[trigger] after[n0
                        + a * r + j].rhs.eval(p, env) == register_rhs(
                        p,
                        d,
                        cols[a],
                        env,
                        x(env),
                        j,
                    ) by {
                        assert(after[n0 + a * r + j] == mid[n0 + a * r + j]);
                        assert(mid[n0 + a * r + j].rhs.eval(p, env) == register_rhs(
                            p,
                            d,
                            cols[a],
                            env,
                            x(env),
                            j,
                        ));
                    }
                } else {
                    assert forall|env: Seq<int>, j: int| 0 <= j < cols[a].len() implies #[trigger] after[n0
                        + a * r + j].rhs.eval(p, env) == register_rhs(
                        p,
                        d,
                        cols[a],
                        env,
                        x(env),
                        j,
                    ) by {
                        let xs = interp_all(added, p, env);
                        assert(xs[i as int] == lane.eval(p, env));
                        assert(interp_all(before, p, env)[i as int] == before[i as int].interp(
                            p,
                            env,
                        ));
                        assert(xs == add_constants(
                            p,
                            interp_all(before, p, env),
                            ints(round_constants@),
                        ));
                        assert(ints(round_constants@)[i as int] == round_constants@[i as int]);
                        assert(lane.eval(p, env) == x(env));
                        assert(a == i);
                        assert(n0 + a * r + j == mid.len() + j);
                        assert(after[mid.len() + j].rhs.eval(p, env) == register_rhs(
                            p,
                            d,
                            cols[a],
                            env,
                            lane.eval(p, env),
                            j,
                        ));
                    }
                }
            }
            assert forall|a: int, b: int| 0 <= a < i + 1 && 0 <= b < r implies after[n0 + a * r
                + b].lhs == Expr::Var(#[trigger] cols[a][b]) by {
                if a < i {
                    assert((a + 1) * r == a * r + r) by (nonlinear_arith);
                    vstd::arithmetic::mul::lemma_mul_inequality(a + 1, i as int, r);
                    assert(after[n0 + a * r + b] == mid[n0 + a * r + b]);
                } else {
                    assert(after[mid.len() + b].lhs == Expr::Var(cols[i as int][b]));
                }
            }
            assert forall|env: Seq<int>| #[trigger]
                holds_from(after, n0, p, env) <==> lanes_match(
                    p,
                    env,
                    cols,
                    d,
                    r,
                    interp_all(added, p, env),
                    i + 1,
                ) by {
                let xs = interp_all(added, p, env);
                lemma_holds_split(mid, after, n0, p, env);
                let _ = holds_from(after, mid.len() as int, p, env);
                let _ = holds_from(mid, n0, p, env);
                assert(xs[i as int] == lane.eval(p, env));
                if lanes_match(p, env, cols, d, r, xs, i + 1) {
                    assert(lanes_match(p, env, cols, d, r, xs, i as int));
                    assert(registers_read(p, env, cols[i as int]) == sbox_registers(
                        p,
                        d,
                        r,
                        xs[i as int],
                    ));
                }
                if holds_from(after, n0, p, env) {
                    assert forall|k: int| 0 <= k < i + 1 implies registers_read(
                        p,
                        env,
                        #[trigger] cols[k],
                    ) == sbox_registers(p, d, r, xs[k]) by {
                        if k < i {
                        }
                    }
                }
            }
        }
        i = i + 1;
    }
    let ghost powered = state@;
    proof {
        assert forall|k: int| 0 <= k < powered.len() implies (#[trigger] powered[k]).degree()
            <= 1 by {
            assert(powered[k] == Expr::Var(cols[k][r - 1]));
        }
        assert(bounded(powered, 1));
    }
    let mixed = air.layer.matmul_external(&air.field, state);
    proof {
        assert(mixed is Ok);
        let after = builder.constraints@;
        let rc = ints(round_constants@);
        assert forall|env: Seq<int>| #[trigger]
            interp_all(state@, p, env) == external_layer(
                p,
                last_registers_read(p, env, cols),
            ) by {
            let out = interp_all(powered, p, env);
            let want = last_registers_read(p, env, cols);
            assert forall|k: int| 0 <= k < w implies out[k] == want[k] by {
                assert(powered[k] == Expr::Var(cols[k][r - 1]));
            }
            assert(out =~= want);
        }
        assert forall|env: Seq<int>| #[trigger]
            holds_from(after, n0, p, env) <==> read_round(p, env, cols)
                == air@.full_round_registers(interp_all(before, p, env), rc) by {
            let s = interp_all(before, p, env);
            let xs = interp_all(added, p, env);
            let got = read_round(p, env, cols);
            let want = air@.full_round_registers(s, rc);
            assert(xs == add_constants(p, s, rc));
            if lanes_match(p, env, cols, d, r, xs, w as int) {
                assert forall|k: int| 0 <= k < w implies got[k] == want[k] by {
                    let _ = cols[k];
                }
                assert(got =~= want);
            }
            if got == want {
                assert forall|k: int| 0 <= k < w implies registers_read(
                    p,
                    env,
                    #[trigger] cols[k],
                ) == sbox_registers(p, d, r, xs[k]) by {
                    assert(got[k] == want[k]);
                }
            }
        }
        assert forall|env: Seq<int>| #[trigger]
            holds_from(after, n0, p, env) implies interp_all(state@, p, env) == air@.full_round(
            interp_all(before, p, env),
            rc,
        ) by {
            let s = interp_all(before, p, env);
            let xs = interp_all(added, p, env);
            assert(xs == add_constants(p, s, rc));
            assert(lanes_match(p, env, cols, d, r, xs, w as int));
            let out = interp_all(powered, p, env);
            assert forall|k: int| 0 <= k < w implies out[k] == sbox_layer(p, d, xs)[k] by {
                lemma_last_register_is_power(p, d, xs[k]);
                let regs = registers_read(p, env, cols[k]);
                assert(regs[r - 1] == reads(p, env, cols[k][r - 1]));
            }
            assert(out =~= sbox_layer(p, d, xs));
            let _ = interp_all(state@, p, env);
        }
    }
}

/// The field constants `constants` as elements of the carrier.
pub fn constants_as<T: Carrier>(field: &Field, constants: &Vec<u64>) -> (out: Vec<T>)
    requires
        field.wf(),
        canonical(field.p(), constants@),
    ensures
        out.len() == constants.len(),
        forall|env: Seq<int>| #[trigger] interp_all(out@, field.p(), env) == ints(constants@),
        bounded(out@, 0),
{
    let ghost p = field.p();
    let mut out: Vec<T> = Vec::new();
    let mut i: usize = 0;
    while i < constants.len()
        invariant
            field.wf(),
            p == field.p(),
            canonical(p, constants@),
            i <= constants.len(),
            out.len() == i,
            forall|env: Seq<int>, k: int|
                0 <= k < i ==> #[trigger] out@[k].interp(p, env) == constants@[k] as int,
            bounded(out@, 0),
        decreases constants.len() - i,
    {
        let c = T::constant(field, constants[i]);
        let ghost done = out@;
        out.push(c);
        proof {
            assert forall|env: Seq<int>, k: int| 0 <= k < i + 1 implies #[trigger] out@[k].interp(
                p,
                env,
            ) == constants@[k] as int by {
                if k < i {
                    assert(out@[k] == done[k]);
                } else {
                    let _ = c.interp(p, env);
                    assert(constants@[k] < p);
                    vstd::arithmetic::div_mod::lemma_small_mod(constants@[k] as nat, p as nat);
                }
            }
            assert forall|k: int| 0 <= k < out@.len() implies (#[trigger] out@[k]).degree()
                <= 0 by {
                if k < i {
                    assert(out@[k] == done[k]);
                }
            }
        }
        i = i + 1;
    }
    proof {
        assert forall|env: Seq<int>| #[trigger] interp_all(out@, p, env) == ints(constants@) by {
            assert(interp_all(out@, p, env) =~= ints(constants@));
        }
    }
    out
}

/// The constraints of one partial round: adds the constant to the first
/// cell, constrains its S-box, and applies the internal layer.
///
/// The constraints that are added are those of the S-box of the first cell
/// with the constant added. They hold on a row exactly when the row holds
/// the registers of this round from the state that `state` stands for. The
/// new `state` is, on every row, the internal layer of the old state with
/// the first cell replaced by the last register that the row holds; on a
/// row on which the constraints hold, that is the state after the round.
pub fn eval_partial_round(
    air: &Poseidon2Air,
    state: &mut Vec<Expr>,
    partial_round: &PartialRound<usize>,
    round_constant: u64,
    builder: &mut ConstraintBuilder,
)
    requires
        air.wf(),
        old(state).len() == air.shape.width,
        partial_round@.len() == air.shape.sbox_registers,
    ensures
        final(state).len() == air.shape.width,
        grown(
            old(builder).constraints@,
            final(builder).constraints@,
            air.shape.sbox_registers as int,
        ),
        forall|env: Seq<int>| #[trigger]
            holds_from(
                final(builder).constraints@,
                old(builder).constraints@.len() as int,
                air.field.p(),
                env,
            ) <==> registers_read(air.field.p(), env, partial_round@)
                == air@.partial_round_registers(
                interp_all(old(state)@, air.field.p(), env),
                round_constant as int,
            ),
        forall|env: Seq<int>|
            #[trigger] holds_from(
                final(builder).constraints@,
                old(builder).constraints@.len() as int,
                air.field.p(),
                env,
            ) ==> interp_all(final(state)@, air.field.p(), env) == air@.partial_round(
                interp_all(old(state)@, air.field.p(), env),
                round_constant as int,
            ),
        binds(
            final(builder).constraints@,
            old(builder).constraints@.len() as int,
            partial_round@,
        ),
        asserts_sbox(
            final(builder).constraints@,
            old(builder).constraints@.len() as int,
            air.field.p(),
            air.shape.sbox_degree as int,
            partial_round@,
            |env: Seq<int>|
                fadd(air.field.p(), old(state)@[0].interp(air.field.p(), env), round_constant as int),
        ),
        forall|env: Seq<int>| #[trigger]
            interp_all(final(state)@, air.field.p(), env) == internal_layer(
                air.field.p(),
                interp_all(old(state)@, air.field.p(), env).update(
                    0,
                    reads(air.field.p(), env, partial_round@[partial_round@.len() - 1]),
                ),
                ints(air.internal_matrix_diagonal@),
            ),
        bounded(old(state)@, 1) ==> bounded(final(state)@, 1) && degrees_within(
            final(builder).constraints@,
            old(builder).constraints@.len() as int,
            3,
        ),
{
    let ghost p = air.field.p();
    let ghost d = air.shape.sbox_degree as int;
    let ghost r = air.shape.sbox_registers as int;
    let ghost cols = partial_round@;
    let ghost before = state@;
    let ghost n0 = builder.constraints@.len() as int;
    proof {
        crate::columns::lemma_per_round(air.shape);
    }
    let ghost low = bounded(state@, 1);
    add_partial_round_constant(&air.field, state, round_constant);
    let ghost added = state@;
    proof {
        if low {
            assert(before[0].degree() <= 1);
        }
    }
    eval_sbox(&air.field, air.shape.sbox_degree, &partial_round.sbox, &mut state[0], builder);
    let ghost powered = state@;
    proof {
        if low {
            assert forall|k: int| 0 <= k < powered.len() implies (#[trigger] powered[k]).degree()
                <= 1 by {
                if k > 0 {
                    assert(powered[k] == before[k]);
                }
            }
            assert(bounded(powered, 1));
        }
    }
    let diagonal = constants_as::<Expr>(&air.field, &air.internal_matrix_diagonal);
    let mixed = air.layer.matmul_internal(&air.field, state, &diagonal);
    proof {
        assert(mixed is Ok);
        let after = builder.constraints@;
        let c = round_constant as int;
        assert forall|env: Seq<int>, j: int| 0 <= j < cols.len() implies #[trigger] after[n0
            + j].rhs.eval(p, env) == register_rhs(
            p,
            d,
            cols,
            env,
            fadd(p, before[0].interp(p, env), c),
            j,
        ) by {
            assert(added[0].interp(p, env) == fadd(p, before[0].interp(p, env), c));
        }
        assert forall|env: Seq<int>| #[trigger]
            interp_all(state@, p, env) == internal_layer(
                p,
                interp_all(before, p, env).update(0, reads(p, env, cols[r - 1])),
                ints(air.internal_matrix_diagonal@),
            ) by {
            let out = interp_all(powered, p, env);
            let want = interp_all(before, p, env).update(0, reads(p, env, cols[r - 1]));
            assert forall|k: int| 0 <= k < out.len() implies out[k] == want[k] by {
                if k > 0 {
                    assert(powered[k] == before[k]);
                }
            }
            assert(out =~= want);
            let _ = interp_all(diagonal@, p, env);
        }
        assert forall|env: Seq<int>| #[trigger]
            holds_from(after, n0, p, env) <==> registers_read(p, env, cols)
                == air@.partial_round_registers(interp_all(before, p, env), c) by {
            let s = interp_all(before, p, env);
            assert(s[0] == before[0].interp(p, env));
            assert(added[0].interp(p, env) == fadd(p, s[0], c));
        }
        assert forall|env: Seq<int>| #[trigger]
            holds_from(after, n0, p, env) implies interp_all(state@, p, env)
            == air@.partial_round(interp_all(before, p, env), c) by {
            let s = interp_all(before, p, env);
            assert(s[0] == before[0].interp(p, env));
            let x = fadd(p, s[0], c);
            assert(added[0].interp(p, env) == x);
            lemma_last_register_is_power(p, d, x);
            let regs = registers_read(p, env, cols);
            assert(regs[r - 1] == reads(p, env, cols[r - 1]));
            let out = interp_all(powered, p, env);
            assert(out =~= s.update(0, fpow(p, x, d as nat)));
            let _ = interp_all(diagonal@, p, env);
            let _ = interp_all(state@, p, env);
        }
    }
}

/// Whether the first `n` rounds of `cols` hold, on the row `env`, the
/// registers of the first `n` full rounds with constants `rcs` from `s`.
pub open spec fn rounds_match(
    inst: Instance,
    env: Seq<int>,
    cols: Seq<Seq<Seq<usize>>>,
    s: Seq<int>,
    rcs: Seq<Seq<int>>,
    n: int,
) -> bool {
    forall|k: int|
        0 <= k < n ==> read_round(inst.p, env, #[trigger] cols[k]) == inst.full_round_registers(
            inst.after_full_rounds(s, rcs, k as nat),
            rcs[k],
        )
}

/// Whether the first `n` rounds of `cols` hold, on the row `env`, the
/// registers of the first `n` partial rounds from `s`.
pub open spec fn partial_rounds_match(
    inst: Instance,
    env: Seq<int>,
    cols: Seq<Seq<usize>>,
    s: Seq<int>,
    n: int,
) -> bool {
    forall|k: int|
        0 <= k < n ==> registers_read(inst.p, env, #[trigger] cols[k])
            == inst.partial_round_registers(
            inst.after_partial_rounds(s, k as nat),
            inst.partial[k],
        )
}

/// The constraints of the full rounds of one half.
fn eval_full_rounds(
    air: &Poseidon2Air,
    state: &mut Vec<Expr>,
    rounds: &Vec<FullRound<usize>>,
    constants: &Vec<Vec<u64>>,
    builder: &mut ConstraintBuilder,
)
    requires
        air.wf(),
        old(state).len() == air.shape.width,
        full_rounds_shaped(air.shape, full_rounds_view(rounds@)),
        table_shape(constants@, air.shape.half_full_rounds as int, air.shape.width as int),
    ensures
        final(state).len() == air.shape.width,
        grown(old(builder).constraints@, final(builder).constraints@, full_cells(air.shape)),
        forall|env: Seq<int>| #[trigger]
            holds_from(
                final(builder).constraints@,
                old(builder).constraints@.len() as int,
                air.field.p(),
                env,
            ) <==> read_rounds(air.field.p(), env, full_rounds_view(rounds@))
                == air@.full_rounds_registers(
                interp_all(old(state)@, air.field.p(), env),
                table_ints(constants@),
            ),
        forall|env: Seq<int>|
            #[trigger] holds_from(
                final(builder).constraints@,
                old(builder).constraints@.len() as int,
                air.field.p(),
                env,
            ) ==> interp_all(final(state)@, air.field.p(), env) == air@.after_full_rounds(
                interp_all(old(state)@, air.field.p(), env),
                table_ints(constants@),
                air.shape.half_full_rounds as nat,
            ),
        forall|k: int, i: int, j: int|
            0 <= k < air.shape.half_full_rounds && 0 <= i < air.shape.width && 0 <= j
                < air.shape.sbox_registers ==> final(builder).constraints@[old(builder).constraints@.len() + full_index(air.shape, k, i, j)].lhs == Expr::Var(
                #[trigger] full_rounds_view(rounds@)[k][i][j],
            ),
        bounded(old(state)@, 1) ==> bounded(final(state)@, 1) && degrees_within(
            final(builder).constraints@,
            old(builder).constraints@.len() as int,
            3,
        ),
{
    let ghost p = air.field.p();
    let ghost inst = air@;
    let ghost cols = full_rounds_view(rounds@);
    let ghost rcs = table_ints(constants@);
    let ghost before = state@;
    let ghost start = builder.constraints@;
    let ghost n0 = start.len() as int;
    let ghost per_round = air.shape.width * air.shape.sbox_registers;
    let ghost low = bounded(state@, 1);
    let h = air.shape.half_full_rounds;
    let mut k: usize = 0;
    proof {
        assert(0 * per_round == 0);
    }
    while k < h
        invariant
            air.wf(),
            low ==> bounded(state@, 1),
            low ==> degrees_within(builder.constraints@, n0, 3),
            forall|m: int, i: int, j: int|
                0 <= m < k && 0 <= i < air.shape.width && 0 <= j < air.shape.sbox_registers
                    ==> builder.constraints@[n0 + full_index(air.shape, m, i, j)].lhs
                    == Expr::Var(#[trigger] cols[m][i][j]),
            p == air.field.p(),
            inst == air@,
            cols == full_rounds_view(rounds@),
            full_rounds_shaped(air.shape, cols),
            rcs == table_ints(constants@),
            table_shape(constants@, h as int, air.shape.width as int),
            h == air.shape.half_full_rounds,
            per_round == air.shape.width * air.shape.sbox_registers,
            n0 == start.len(),
            state.len() == air.shape.width,
            k <= h,
            grown(start, builder.constraints@, k * per_round),
            forall|env: Seq<int>| #[trigger]
                holds_from(builder.constraints@, n0, p, env) <==> rounds_match(
                    inst,
                    env,
                    cols,
                    interp_all(before, p, env),
                    rcs,
                    k as int,
                ),
            forall|env: Seq<int>|
                #[trigger] holds_from(builder.constraints@, n0, p, env) ==> interp_all(
                    state@,
                    p,
                    env,
                ) == inst.after_full_rounds(interp_all(before, p, env), rcs, k as nat),
        decreases h - k,
    {
        let ghost mid = builder.constraints@;
        let ghost entering = state@;
        proof {
            assert(cols[k as int] == rounds@[k as int]@);
            assert(rcs[k as int] == ints(constants@[k as int]@));
            assert forall|i: int| 0 <= i < rounds@[k as int]@.len() implies (
            #[trigger] rounds@[k as int]@[i]).len() == air.shape.sbox_registers by {
                assert(cols[k as int][i].len() == air.shape.sbox_registers);
            }
            crate::columns::lemma_per_round(air.shape);
            assert((k + 1) * per_round == k * per_round + per_round) by (nonlinear_arith);
            assert(k * per_round >= 0) by (nonlinear_arith)
                requires
                    k >= 0,
                    per_round >= 0,
            ;
        }
        eval_full_round(air, state, &rounds[k], &constants[k], builder);
        proof {
            let after = builder.constraints@;
            if low {
                lemma_degrees_split(mid, after, n0, 3);
            }
            assert forall|m: int, i: int, j: int|
                0 <= m < k + 1 && 0 <= i < air.shape.width && 0 <= j
                    < air.shape.sbox_registers implies after[n0 + full_index(
                air.shape,
                m,
                i,
                j,
            )].lhs == Expr::Var(#[trigger] cols[m][i][j]) by {
                let w = air.shape.width as int;
                let r = air.shape.sbox_registers as int;
                assert((m * w + i) * r + j == m * (w * r) + i * r + j) by (nonlinear_arith);
                assert(0 <= i * r + j < w * r) by (nonlinear_arith)
                    requires
                        0 <= i < w,
                        0 <= j < r,
                ;
                if m < k {
                    assert((m + 1) * (w * r) == m * (w * r) + w * r) by (nonlinear_arith);
                    vstd::arithmetic::mul::lemma_mul_inequality(m + 1, k as int, w * r);
                    assert(after[n0 + full_index(air.shape, m, i, j)] == mid[n0 + full_index(
                        air.shape,
                        m,
                        i,
                        j,
                    )]);
                } else {
                    assert(cols[k as int][i][j] == rounds@[k as int]@[i][j]);
                    assert(after[mid.len() + i * r + j].lhs == Expr::Var(
                        rounds@[k as int]@[i][j],
                    ));
                }
            }
            assert forall|env: Seq<int>| #[trigger]
                holds_from(after, n0, p, env) <==> rounds_match(
                    inst,
                    env,
                    cols,
                    interp_all(before, p, env),
                    rcs,
                    k + 1,
                ) by {
                let s0 = interp_all(before, p, env);
                lemma_holds_split(mid, after, n0, p, env);
                let _ = holds_from(after, mid.len() as int, p, env);
                let _ = holds_from(mid, n0, p, env);
                if rounds_match(inst, env, cols, s0, rcs, k + 1) {
                    assert(rounds_match(inst, env, cols, s0, rcs, k as int));
                    assert(read_round(p, env, cols[k as int]) == inst.full_round_registers(
                        inst.after_full_rounds(s0, rcs, k as nat),
                        rcs[k as int],
                    ));
                }
                if holds_from(after, n0, p, env) {
                    assert forall|m: int| 0 <= m < k + 1 implies read_round(
                        p,
                        env,
                        #[trigger] cols[m],
                    ) == inst.full_round_registers(
                        inst.after_full_rounds(s0, rcs, m as nat),
                        rcs[m],
                    ) by {
                        if m < k {
                        }
                    }
                }
            }
            assert forall|env: Seq<int>| #[trigger]
                holds_from(after, n0, p, env) implies interp_all(state@, p, env)
                == inst.after_full_rounds(interp_all(before, p, env), rcs, (k + 1) as nat) by {
                lemma_holds_split(mid, after, n0, p, env);
                let _ = holds_from(after, mid.len() as int, p, env);
                let _ = holds_from(mid, n0, p, env);
            }
        }
        k = k + 1;
    }
    proof {
        let after = builder.constraints@;
        assert(h * per_round == full_cells(air.shape));
        assert forall|env: Seq<int>| #[trigger]
            holds_from(after, n0, p, env) <==> read_rounds(p, env, cols)
                == inst.full_rounds_registers(interp_all(before, p, env), rcs) by {
            let s0 = interp_all(before, p, env);
            let got = read_rounds(p, env, cols);
            let want = inst.full_rounds_registers(s0, rcs);
            if rounds_match(inst, env, cols, s0, rcs, h as int) {
                assert forall|m: int| 0 <= m < h implies got[m] == want[m] by {
                    let _ = cols[m];
                }
                assert(got =~= want);
            }
            if got == want {
                assert forall|m: int| 0 <= m < h implies read_round(p, env, #[trigger] cols[m])
                    == inst.full_round_registers(
                    inst.after_full_rounds(s0, rcs, m as nat),
                    rcs[m],
                ) by {
                    assert(got[m] == want[m]);
                }
            }
        }
    }
}

/// The constraints of the partial rounds.
fn eval_partial_rounds(
    air: &Poseidon2Air,
    state: &mut Vec<Expr>,
    rounds: &Vec<PartialRound<usize>>,
    builder: &mut ConstraintBuilder,
)
    requires
        air.wf(),
        old(state).len() == air.shape.width,
        rounds.len() == air.shape.partial_rounds,
        forall|k: int|
            0 <= k < rounds.len() ==> (#[trigger] rounds@[k])@.len() == air.shape.sbox_registers,
    ensures
        final(state).len() == air.shape.width,
        grown(old(builder).constraints@, final(builder).constraints@, partial_cells(air.shape)),
        forall|env: Seq<int>| #[trigger]
            holds_from(
                final(builder).constraints@,
                old(builder).constraints@.len() as int,
                air.field.p(),
                env,
            ) <==> read_round(air.field.p(), env, partial_rounds_view(rounds@))
                == air@.partial_rounds_registers(interp_all(old(state)@, air.field.p(), env)),
        forall|env: Seq<int>|
            #[trigger] holds_from(
                final(builder).constraints@,
                old(builder).constraints@.len() as int,
                air.field.p(),
                env,
            ) ==> interp_all(final(state)@, air.field.p(), env) == air@.after_partial_rounds(
                interp_all(old(state)@, air.field.p(), env),
                air.shape.partial_rounds as nat,
            ),
        forall|k: int, j: int|
            0 <= k < air.shape.partial_rounds && 0 <= j < air.shape.sbox_registers ==> final(builder).constraints@[old(builder).constraints@.len() + k * air.shape.sbox_registers + j].lhs
                == Expr::Var(#[trigger] partial_rounds_view(rounds@)[k][j]),
        bounded(old(state)@, 1) ==> bounded(final(state)@, 1) && degrees_within(
            final(builder).constraints@,
            old(builder).constraints@.len() as int,
            3,
        ),
{
    let ghost p = air.field.p();
    let ghost inst = air@;
    let ghost cols = partial_rounds_view(rounds@);
    let ghost before = state@;
    let ghost start = builder.constraints@;
    let ghost n0 = start.len() as int;
    let ghost r = air.shape.sbox_registers as int;
    let ghost low = bounded(state@, 1);
    let np = air.shape.partial_rounds;
    let mut k: usize = 0;
    proof {
        assert(0 * r == 0);
    }
    while k < np
        invariant
            air.wf(),
            low ==> bounded(state@, 1),
            low ==> degrees_within(builder.constraints@, n0, 3),
            forall|m: int, j: int|
                0 <= m < k && 0 <= j < r ==> builder.constraints@[n0 + m * r + j].lhs
                    == Expr::Var(#[trigger] cols[m][j]),
            p == air.field.p(),
            inst == air@,
            cols == partial_rounds_view(rounds@),
            rounds.len() == np,
            forall|m: int| 0 <= m < rounds.len() ==> (#[trigger] rounds@[m])@.len() == r,
            np == air.shape.partial_rounds,
            r == air.shape.sbox_registers,
            n0 == start.len(),
            state.len() == air.shape.width,
            k <= np,
            grown(start, builder.constraints@, k * r),
            forall|env: Seq<int>| #[trigger]
                holds_from(builder.constraints@, n0, p, env) <==> partial_rounds_match(
                    inst,
                    env,
                    cols,
                    interp_all(before, p, env),
                    k as int,
                ),
            forall|env: Seq<int>|
                #[trigger] holds_from(builder.constraints@, n0, p, env) ==> interp_all(
                    state@,
                    p,
                    env,
                ) == inst.after_partial_rounds(interp_all(before, p, env), k as nat),
        decreases np - k,
    {
        let ghost mid = builder.constraints@;
        proof {
            assert(cols[k as int] == rounds@[k as int]@);
            assert(inst.partial[k as int] == air.partial_round_constants@[k as int] as int);
            assert((k + 1) * r == k * r + r) by (nonlinear_arith);
            assert(k * r >= 0) by (nonlinear_arith)
                requires
                    k >= 0,
                    r >= 0,
            ;
        }
        eval_partial_round(air, state, &rounds[k], air.partial_round_constants[k], builder);
        proof {
            let after = builder.constraints@;
            if low {
                lemma_degrees_split(mid, after, n0, 3);
            }
            assert forall|m: int, j: int| 0 <= m < k + 1 && 0 <= j < r implies after[n0 + m * r
                + j].lhs == Expr::Var(#[trigger] cols[m][j]) by {
                if m < k {
                    assert((m + 1) * r == m * r + r) by (nonlinear_arith);
                    vstd::arithmetic::mul::lemma_mul_inequality(m + 1, k as int, r);
                    assert(after[n0 + m * r + j] == mid[n0 + m * r + j]);
                } else {
                    assert(after[mid.len() + j].lhs == Expr::Var(rounds@[k as int]@[j]));
                }
            }
            assert forall|env: Seq<int>| #[trigger]
                holds_from(after, n0, p, env) <==> partial_rounds_match(
                    inst,
                    env,
                    cols,
                    interp_all(before, p, env),
                    k + 1,
                ) by {
                let s0 = interp_all(before, p, env);
                lemma_holds_split(mid, after, n0, p, env);
                let _ = holds_from(after, mid.len() as int, p, env);
                let _ = holds_from(mid, n0, p, env);
                if partial_rounds_match(inst, env, cols, s0, k + 1) {
                    assert(partial_rounds_match(inst, env, cols, s0, k as int));
                    assert(registers_read(p, env, cols[k as int])
                        == inst.partial_round_registers(
                        inst.after_partial_rounds(s0, k as nat),
                        inst.partial[k as int],
                    ));
                }
                if holds_from(after, n0, p, env) {
                    assert forall|m: int| 0 <= m < k + 1 implies registers_read(
                        p,
                        env,
                        #[trigger] cols[m],
                    ) == inst.partial_round_registers(
                        inst.after_partial_rounds(s0, m as nat),
                        inst.partial[m],
                    ) by {
                        if m < k {
                        }
                    }
                }
            }
            assert forall|env: Seq<int>| #[trigger]
                holds_from(after, n0, p, env) implies interp_all(state@, p, env)
                == inst.after_partial_rounds(interp_all(before, p, env), (k + 1) as nat) by {
                lemma_holds_split(mid, after, n0, p, env);
                let _ = holds_from(after, mid.len() as int, p, env);
                let _ = holds_from(mid, n0, p, env);
            }
        }
        k = k + 1;
    }
    proof {
        let after = builder.constraints@;
        assert forall|env: Seq<int>| #[trigger]
            holds_from(after, n0, p, env) <==> read_round(p, env, cols)
                == inst.partial_rounds_registers(interp_all(before, p, env)) by {
            let s0 = interp_all(before, p, env);
            let got = read_round(p, env, cols);
            let want = inst.partial_rounds_registers(s0);
            if partial_rounds_match(inst, env, cols, s0, np as int) {
                assert forall|m: int| 0 <= m < np implies got[m] == want[m] by {
                    let _ = cols[m];
                }
                assert(got =~= want);
            }
            if got == want {
                assert forall|m: int| 0 <= m < np implies registers_read(
                    p,
                    env,
                    #[trigger] cols[m],
                ) == inst.partial_round_registers(
                    inst.after_partial_rounds(s0, m as nat),
                    inst.partial[m],
                ) by {
                    assert(got[m] == want[m]);
                }
            }
        }
    }
}

/// The residues modulo `p` of the cells of the row `env`.
pub open spec fn residues(p: int, env: Seq<int>) -> Seq<int> {
    Seq::new(env.len(), |c: int| env[c] % p)
}

/// The constraints of `cs` from index `from` on hold on a row exactly when
/// the row records the permutation of its own input.
pub open spec fn constrains(cs: Seq<Constraint>, from: int, inst: Instance, shape: Shape) -> bool {
    forall|env: Seq<int>|
        env.len() == shape.cells() ==> (#[trigger] holds_from(cs, from, inst.p, env)
            <==> inst.accepts(row_of(shape, residues(inst.p, env))))
}

/// The constraints of `cs` from index `from` on bind the register columns
/// of a row in their order: the first binds the first column after the
/// input, and each next one the next column.
pub open spec fn follows_columns(cs: Seq<Constraint>, from: int, shape: Shape) -> bool {
    forall|q: int|
        0 <= q < 2 * full_cells(shape) + partial_cells(shape) ==> (#[trigger] cs[from + q]).lhs
            == Expr::Var((beginning_start(shape) + q) as usize)
}

/// On every row on which the constraints of `cs` from index `from` on hold,
/// `state` takes the values of the permutation of the input of the row.
pub open spec fn computes(
    state: Seq<Expr>,
    cs: Seq<Constraint>,
    from: int,
    inst: Instance,
    shape: Shape,
) -> bool {
    forall|env: Seq<int>|
        env.len() == shape.cells() && #[trigger] holds_from(cs, from, inst.p, env) ==> interp_all(
            state,
            inst.p,
            env,
        ) == inst.permutation(row_of(shape, residues(inst.p, env)).inputs)
}

/// The flat row of which every cell holds its own column.
pub open spec fn column_indices(shape: Shape) -> Seq<usize> {
    Seq::new(shape.cells() as nat, |c: int| c as usize)
}

/// Reading a row through the column map is reading the row by name.
pub proof fn lemma_reads_row(shape: Shape, p: int, env: Seq<int>)
    requires
        shape.wf(),
        env.len() == shape.cells(),
    ensures
        ({
            let cols = row_of(shape, column_indices(shape));
            let row = row_of(shape, residues(p, env));
            &&& registers_read(p, env, cols.inputs) == row.inputs
            &&& read_rounds(p, env, cols.beginning_full_rounds) == row.beginning_full_rounds
            &&& read_round(p, env, cols.partial_rounds) == row.partial_rounds
            &&& read_rounds(p, env, cols.ending_full_rounds) == row.ending_full_rounds
        }),
{
    lemma_sections(shape);
    let cols = row_of(shape, column_indices(shape));
    let row = row_of(shape, residues(p, env));
    assert(registers_read(p, env, cols.inputs) =~= row.inputs);
    let got_b = read_rounds(p, env, cols.beginning_full_rounds);
    assert forall|k: int, i: int, j: int|
        0 <= k < shape.half_full_rounds && 0 <= i < shape.width && 0 <= j
            < shape.sbox_registers implies #[trigger] got_b[k][i][j]
        == row.beginning_full_rounds[k][i][j] by {
        lemma_full_index(shape, k, i, j);
        assert(got_b[k] == read_round(p, env, cols.beginning_full_rounds[k]));
        assert(got_b[k][i] == registers_read(p, env, cols.beginning_full_rounds[k][i]));
    }
    assert forall|k: int, i: int|
        0 <= k < shape.half_full_rounds && 0 <= i < shape.width implies (#[trigger] got_b[k][i]).len()
        == shape.sbox_registers by {
        assert(got_b[k] == read_round(p, env, cols.beginning_full_rounds[k]));
    }
    assert(got_b =~~= row.beginning_full_rounds);
    let got_e = read_rounds(p, env, cols.ending_full_rounds);
    assert forall|k: int, i: int, j: int|
        0 <= k < shape.half_full_rounds && 0 <= i < shape.width && 0 <= j
            < shape.sbox_registers implies #[trigger] got_e[k][i][j]
        == row.ending_full_rounds[k][i][j] by {
        lemma_full_index(shape, k, i, j);
        assert(got_e[k] == read_round(p, env, cols.ending_full_rounds[k]));
        assert(got_e[k][i] == registers_read(p, env, cols.ending_full_rounds[k][i]));
    }
    assert forall|k: int, i: int|
        0 <= k < shape.half_full_rounds && 0 <= i < shape.width implies (#[trigger] got_e[k][i]).len()
        == shape.sbox_registers by {
        assert(got_e[k] == read_round(p, env, cols.ending_full_rounds[k]));
    }
    assert(got_e =~~= row.ending_full_rounds);
    let got_p = read_round(p, env, cols.partial_rounds);
    assert forall|k: int, j: int|
        0 <= k < shape.partial_rounds && 0 <= j < shape.sbox_registers implies #[trigger] got_p[k][j]
        == row.partial_rounds[k][j] by {
        lemma_partial_index(shape, k, j);
    }
    assert(got_p =~~= row.partial_rounds);
}

} // verus!
