//! The witness generator: runs the permutation on each input and records
//! the registers of every S-box in a row of the trace.

use crate::air::{air_refusal, instance_of, Poseidon2Air};
use crate::carrier::{bounded, interp_all, lemma_interp_ints, Carrier};
use crate::columns::{
    full_rounds_view, lift2, lift3, num_cols, partial_rounds_view, row_ints, FullRound,
    PartialRound, Poseidon2Cols, SBox, Shape,
};
use crate::error::ConfigError;
use crate::field::{
    all_rows_canonical, fadd, has_shape, ints, table_canonical, table_ints, table_shape, Field,
};
use crate::layout::{cells_of, lemma_cells_ints, lemma_shaped_ints, row_shaped};
use crate::linear::LinearLayer;
use crate::matrix::{matrix_values, matrix_width, new_matrix};
use crate::permutation::{add_constants, Instance};
use p3_matrix::dense::RowMajorMatrix;
use vstd::arithmetic::div_mod::lemma_mod_multiples_basic;
use vstd::arithmetic::power2::is_pow2;
use crate::sbox::{generate_sbox, sbox, sbox_p};
use vstd::arithmetic::div_mod::lemma_add_mod_noop_right;
use vstd::prelude::*;

verus! {

/// Adds the constants `round_constants` to `state`, cell by cell.
pub fn add_full_round_constants<T: Carrier>(
    field: &Field,
    state: &mut Vec<T>,
    round_constants: &Vec<u64>,
)
    requires
        field.wf(),
        old(state).len() == round_constants.len(),
    ensures
        final(state).len() == old(state).len(),
        forall|env: Seq<int>| #[trigger]
            interp_all(final(state)@, field.p(), env) == add_constants(
                field.p(),
                interp_all(old(state)@, field.p(), env),
                ints(round_constants@),
            ),
        forall|k: nat| #[trigger] bounded(old(state)@, k) ==> bounded(final(state)@, k),
{
    let ghost p = field.p();
    let ghost before = state@;
    let n = state.len();
    let mut i: usize = 0;
    while i < n
        invariant
            field.wf(),
            p == field.p(),
            n == before.len(),
            n == round_constants.len(),
            state.len() == n,
            i <= n,
            forall|k: int| i <= k < n ==> state@[k] == before[k],
            forall|env: Seq<int>, k: int|
                0 <= k < i ==> #[trigger] state@[k].interp(p, env) == fadd(
                    p,
                    before[k].interp(p, env),
                    round_constants@[k] as int,
                ),
            forall|k: nat| #[trigger] bounded(before, k) ==> bounded(state@, k),
        decreases n - i,
    {
        let c = T::constant(field, round_constants[i]);
        let v = state[i].add(&c, field);
        let ghost mid = state@;
        state[i] = v;
        proof {
            assert forall|env: Seq<int>, k: int| 0 <= k < i + 1 implies #[trigger] state@[k].interp(
                p,
                env,
            ) == fadd(p, before[k].interp(p, env), round_constants@[k] as int) by {
                if k < i {
                    assert(state@[k] == mid[k]);
                } else {
                    let _ = c.interp(p, env);
                    lemma_add_mod_noop_right(
                        before[k].interp(p, env),
                        round_constants@[k] as int,
                        p,
                    );
                }
            }
            assert forall|k: nat| #[trigger] bounded(before, k) implies bounded(state@, k) by {
                assert(bounded(mid, k));
                assert(mid[i as int].degree() <= k);
                assert forall|j: int| 0 <= j < n implies (#[trigger] state@[j]).degree() <= k by {
                    if j != i {
                        assert(state@[j] == mid[j]);
                    }
                }
            }
        }
        i = i + 1;
    }
    proof {
        assert forall|env: Seq<int>| #[trigger]
            interp_all(state@, p, env) == add_constants(
                p,
                interp_all(before, p, env),
                ints(round_constants@),
            ) by {
            assert(interp_all(state@, p, env) =~= add_constants(
                p,
                interp_all(before, p, env),
                ints(round_constants@),
            ));
        }
    }
}

/// Adds the constant `constant` to the first cell of `state`.
pub fn add_partial_round_constant<T: Carrier>(field: &Field, state: &mut Vec<T>, constant: u64)
    requires
        field.wf(),
        old(state).len() >= 1,
    ensures
        final(state).len() == old(state).len(),
        forall|k: int| 1 <= k < old(state).len() ==> final(state)@[k] == old(state)@[k],
        forall|env: Seq<int>| #[trigger]
            final(state)@[0].interp(field.p(), env) == fadd(
                field.p(),
                old(state)@[0].interp(field.p(), env),
                constant as int,
            ),
        final(state)@[0].degree() <= old(state)@[0].degree(),
{
    let c = T::constant(field, constant);
    let v = state[0].add(&c, field);
    let ghost before = state@;
    state[0] = v;
    proof {
        let p = field.p();
        assert forall|env: Seq<int>| #[trigger]
            state@[0].interp(p, env) == fadd(p, before[0].interp(p, env), constant as int) by {
            let _ = c.interp(p, env);
            lemma_add_mod_noop_right(before[0].interp(p, env), constant as int, p);
        }
    }
}

/// Runs one full round on `state` and returns its registers.
fn full_round_witness(air: &Poseidon2Air, state: &mut Vec<u64>, round_constants: &Vec<u64>) -> (round:
    FullRound<u64>)
    requires
        air.wf(),
        old(state).len() == air.shape.width,
        round_constants.len() == air.shape.width,
    ensures
        final(state).len() == air.shape.width,
        lift2(round@) == air@.full_round_registers(ints(old(state)@), ints(round_constants@)),
        ints(final(state)@) == air@.full_round(ints(old(state)@), ints(round_constants@)),
{
    let ghost p = air.field.p();
    let ghost before = state@;
    let ghost env = Seq::<int>::empty();
    let w = air.shape.width;
    add_full_round_constants(&air.field, state, round_constants);
    proof {
        lemma_interp_ints(before, p, env);
        lemma_interp_ints(state@, p, env);
        assert(interp_all(state@, p, env) == add_constants(
            p,
            interp_all(before, p, env),
            ints(round_constants@),
        ));
    }
    let ghost added = state@;
    let mut boxes: Vec<SBox<u64>> = Vec::new();
    let mut i: usize = 0;
    while i < w
        invariant
            air.wf(),
            p == air.field.p(),
            w == air.shape.width,
            state.len() == w,
            state@ == added,
            i <= w,
            boxes.len() == i,
            forall|k: int|
                0 <= k < i ==> ints((#[trigger] boxes@[k])@) == crate::sbox::sbox_registers(
                    p,
                    air.shape.sbox_degree as int,
                    air.shape.sbox_registers as int,
                    added[k] as int,
                ),
        decreases w - i,
    {
        let registers = generate_sbox(
            &air.field,
            air.shape.sbox_degree,
            air.shape.sbox_registers,
            state[i],
        );
        boxes.push(registers);
        i = i + 1;
    }
    sbox(&air.field, air.shape.sbox_degree, state);
    let ghost powered = state@;
    let mixed = air.layer.matmul_external(&air.field, state);
    proof {
        lemma_interp_ints(powered, p, env);
        lemma_interp_ints(state@, p, env);
        assert(mixed is Ok);
        assert(interp_all(state@, p, env) == crate::linear::external_layer(
            p,
            interp_all(powered, p, env),
        ));
    }
    let round = FullRound { sbox: boxes };
    proof {
        let expected = air@.full_round_registers(ints(before), ints(round_constants@));
        assert forall|k: int| 0 <= k < w implies #[trigger] lift2(round@)[k] == expected[k] by {
            assert(round@[k] == boxes@[k]@);
            assert(ints(added)[k] == added[k] as int);
        }
        assert(lift2(round@) =~= expected);
    }
    round
}

/// Runs one partial round on `state` and returns its registers.
fn partial_round_witness(air: &Poseidon2Air, state: &mut Vec<u64>, constant: u64) -> (round:
    PartialRound<u64>)
    requires
        air.wf(),
        old(state).len() == air.shape.width,
    ensures
        final(state).len() == air.shape.width,
        ints(round@) == air@.partial_round_registers(ints(old(state)@), constant as int),
        ints(final(state)@) == air@.partial_round(ints(old(state)@), constant as int),
{
    let ghost p = air.field.p();
    let ghost before = state@;
    let ghost env = Seq::<int>::empty();
    add_partial_round_constant(&air.field, state, constant);
    proof {
        let _ = state@[0].interp(p, env);
    }
    let registers = generate_sbox(
        &air.field,
        air.shape.sbox_degree,
        air.shape.sbox_registers,
        state[0],
    );
    let mut x = state[0];
    sbox_p(&air.field, air.shape.sbox_degree, &mut x);
    state[0] = x;
    let ghost powered = state@;
    let mixed = air.layer.matmul_internal(&air.field, state, &air.internal_matrix_diagonal);
    proof {
        lemma_interp_ints(powered, p, env);
        lemma_interp_ints(state@, p, env);
        lemma_interp_ints(air.internal_matrix_diagonal@, p, env);
        assert(mixed is Ok);
        assert(interp_all(state@, p, env) == crate::linear::internal_layer(
            p,
            interp_all(powered, p, env),
            interp_all(air.internal_matrix_diagonal@, p, env),
        ));
        assert(ints(powered) =~= ints(before).update(
            0,
            crate::field::fpow(
                p,
                fadd(p, ints(before)[0], constant as int),
                air.shape.sbox_degree as nat,
            ),
        ));
    }
    PartialRound { sbox: registers }
}

/// Runs the full rounds with the given constants on `state` and returns
/// their registers.
fn full_rounds_witness(air: &Poseidon2Air, state: &mut Vec<u64>, constants: &Vec<Vec<u64>>) -> (rounds:
    Vec<FullRound<u64>>)
    requires
        air.wf(),
        old(state).len() == air.shape.width,
        table_shape(constants@, air.shape.half_full_rounds as int, air.shape.width as int),
    ensures
        final(state).len() == air.shape.width,
        lift3(full_rounds_view(rounds@)) == air@.full_rounds_registers(
            ints(old(state)@),
            table_ints(constants@),
        ),
        ints(final(state)@) == air@.after_full_rounds(
            ints(old(state)@),
            table_ints(constants@),
            air.shape.half_full_rounds as nat,
        ),
{
    let ghost start = ints(state@);
    let ghost rcs = table_ints(constants@);
    let h = air.shape.half_full_rounds;
    let mut rounds: Vec<FullRound<u64>> = Vec::new();
    let mut r: usize = 0;
    while r < h
        invariant
            air.wf(),
            h == air.shape.half_full_rounds,
            table_shape(constants@, h as int, air.shape.width as int),
            rcs == table_ints(constants@),
            state.len() == air.shape.width,
            r <= h,
            rounds.len() == r,
            ints(state@) == air@.after_full_rounds(start, rcs, r as nat),
            forall|k: int|
                0 <= k < r ==> lift2((#[trigger] rounds@[k])@) == air@.full_round_registers(
                    air@.after_full_rounds(start, rcs, k as nat),
                    rcs[k],
                ),
        decreases h - r,
    {
        assert(rcs[r as int] == ints(constants@[r as int]@));
        let round = full_round_witness(air, state, &constants[r]);
        rounds.push(round);
        r = r + 1;
    }
    proof {
        let expected = air@.full_rounds_registers(start, rcs);
        let got = lift3(full_rounds_view(rounds@));
        assert forall|k: int| 0 <= k < h implies #[trigger] got[k] == expected[k] by {
            assert(full_rounds_view(rounds@)[k] == rounds@[k]@);
        }
        assert(got =~= expected);
    }
    rounds
}

/// Runs the partial rounds on `state` and returns their registers.
fn partial_rounds_witness(air: &Poseidon2Air, state: &mut Vec<u64>) -> (rounds: Vec<
    PartialRound<u64>,
>)
    requires
        air.wf(),
        old(state).len() == air.shape.width,
    ensures
        final(state).len() == air.shape.width,
        lift2(partial_rounds_view(rounds@)) == air@.partial_rounds_registers(ints(old(state)@)),
        ints(final(state)@) == air@.after_partial_rounds(
            ints(old(state)@),
            air.shape.partial_rounds as nat,
        ),
{
    let ghost start = ints(state@);
    let np = air.shape.partial_rounds;
    let mut rounds: Vec<PartialRound<u64>> = Vec::new();
    let mut r: usize = 0;
    while r < np
        invariant
            air.wf(),
            np == air.shape.partial_rounds,
            state.len() == air.shape.width,
            r <= np,
            rounds.len() == r,
            ints(state@) == air@.after_partial_rounds(start, r as nat),
            forall|k: int|
                0 <= k < r ==> ints((#[trigger] rounds@[k])@) == air@.partial_round_registers(
                    air@.after_partial_rounds(start, k as nat),
                    air@.partial[k],
                ),
        decreases np - r,
    {
        let round = partial_round_witness(air, state, air.partial_round_constants[r]);
        rounds.push(round);
        r = r + 1;
    }
    proof {
        let expected = air@.partial_rounds_registers(start);
        let got = lift2(partial_rounds_view(rounds@));
        assert forall|k: int| 0 <= k < np implies #[trigger] got[k] == expected[k] by {
            assert(partial_rounds_view(rounds@)[k] == rounds@[k]@);
        }
        assert(got =~= expected);
    }
    rounds
}

/// A copy of `v`.
fn copy_of(v: &Vec<u64>) -> (out: Vec<u64>)
    ensures
        out@ == v@,
{
    let mut out: Vec<u64> = Vec::new();
    let mut i: usize = 0;
    while i < v.len()
        invariant
            i <= v.len(),
            out@ == v@.subrange(0, i as int),
        decreases v.len() - i,
    {
        out.push(v[i]);
        assert(out@ =~= v@.subrange(0, i + 1));
        i = i + 1;
    }
    assert(out@ =~= v@);
    out
}

/// Runs the permutation on `input`. Returns the row that records the run,
/// and the state the permutation ends in.
///
/// The row holds the input as it was given: the first external layer is
/// applied to the working state only.
pub fn generate_trace_rows_for_perm(air: &Poseidon2Air, input: &Vec<u64>) -> (out: (
    Poseidon2Cols<u64>,
    Vec<u64>,
))
    requires
        air.wf(),
        input.len() == air.shape.width,
    ensures
        row_ints(out.0@) == air@.witness(ints(input@)),
        row_shaped(air.shape, out.0@),
        ints(out.1@) == air@.permutation(ints(input@)),
        out.1.len() == air.shape.width,
{
    let ghost p = air.field.p();
    let ghost env = Seq::<int>::empty();
    let inputs = copy_of(input);
    let mut state = copy_of(input);
    let mixed = air.layer.matmul_external(&air.field, &mut state);
    proof {
        lemma_interp_ints(input@, p, env);
        lemma_interp_ints(state@, p, env);
        assert(mixed is Ok);
        assert(interp_all(state@, p, env) == crate::linear::external_layer(
            p,
            interp_all(input@, p, env),
        ));
    }
    let beginning = full_rounds_witness(air, &mut state, &air.beginning_full_round_constants);
    let partial = partial_rounds_witness(air, &mut state);
    let ending = full_rounds_witness(air, &mut state, &air.ending_full_round_constants);
    let row = Poseidon2Cols {
        export: 0,
        inputs,
        beginning_full_rounds: beginning,
        partial_rounds: partial,
        ending_full_rounds: ending,
    };
    proof {
        assert(row_ints(row@) =~= air@.witness(ints(input@)));
        air@.lemma_witness_shaped(air.shape, ints(input@));
        lemma_shaped_ints(air.shape, row@);
    }
    (row, state)
}

/// Whether `n` is a power of two.
pub fn is_power_of_two(n: usize) -> (b: bool)
    ensures
        b == is_pow2(n as int),
{
    reveal(is_pow2);
    if n == 0 {
        return false;
    }
    let mut m = n;
    while m % 2 == 0
        invariant
            m > 0,
            is_pow2(n as int) == is_pow2(m as int),
        decreases m,
    {
        reveal(is_pow2);
        m = m / 2;
    }
    m == 1
}

/// The cells of the trace of the first `k` of the inputs: the rows that
/// record their permutations, one after the other.
pub open spec fn trace_cells(inst: Instance, shape: Shape, inputs: Seq<Seq<int>>, k: nat) -> Seq<
    int,
>
    decreases k,
{
    if k == 0 {
        Seq::empty()
    } else {
        trace_cells(inst, shape, inputs, (k - 1) as nat) + cells_of(
            shape,
            inst.witness(inputs[k - 1]),
        )
    }
}

/// The trace of `k` inputs has `k` rows of cells.
pub proof fn lemma_trace_len(inst: Instance, shape: Shape, inputs: Seq<Seq<int>>, k: nat)
    requires
        shape.cells() >= 0,
    ensures
        trace_cells(inst, shape, inputs, k).len() == k * shape.cells(),
    decreases k,
{
    if k > 0 {
        lemma_trace_len(inst, shape, inputs, (k - 1) as nat);
        assert(k * shape.cells() == (k - 1) * shape.cells() + shape.cells()) by (nonlinear_arith);
    } else {
        assert(0 * shape.cells() == 0);
    }
}

/// Row `k` of the trace is the row that records the permutation of input
/// `k`.
pub proof fn lemma_trace_row(
    inst: Instance,
    shape: Shape,
    inputs: Seq<Seq<int>>,
    n: nat,
    k: int,
)
    requires
        shape.cells() >= 0,
        0 <= k < n,
    ensures
        (k + 1) * shape.cells() <= trace_cells(inst, shape, inputs, n).len(),
        trace_cells(inst, shape, inputs, n).subrange(
            k * shape.cells(),
            (k + 1) * shape.cells(),
        ) == cells_of(shape, inst.witness(inputs[k])),
    decreases n,
{
    let c = shape.cells();
    let m = (n - 1) as nat;
    let head = trace_cells(inst, shape, inputs, m);
    let last = cells_of(shape, inst.witness(inputs[n - 1]));
    lemma_trace_len(inst, shape, inputs, m);
    lemma_trace_len(inst, shape, inputs, n);
    assert((k + 1) * c == k * c + c) by (nonlinear_arith);
    assert(k * c >= 0) by (nonlinear_arith)
        requires
            k >= 0,
            c >= 0,
    ;
    if k == n - 1 {
        assert((head + last).subrange(k * c, (k + 1) * c) =~= last);
    } else {
        lemma_trace_row(inst, shape, inputs, m, k);
        assert((head + last).subrange(k * c, (k + 1) * c) =~= head.subrange(
            k * c,
            (k + 1) * c,
        ));
    }
}

/// Why a batch of inputs is refused for a field, a shape and a set of
/// constants, or nothing when a trace is owed. The first reason that
/// applies is given.
pub open spec fn trace_refusal(
    field: Field,
    shape: Shape,
    inputs: Seq<Vec<u64>>,
    beginning: Seq<Vec<u64>>,
    partial: Seq<u64>,
    ending: Seq<Vec<u64>>,
    diagonal: Seq<u64>,
) -> Option<ConfigError> {
    let config = air_refusal(
        field,
        shape,
        LinearLayer { width: shape.width },
        beginning,
        partial,
        ending,
        diagonal,
    );
    if config is Some {
        config
    } else if !is_pow2(inputs.len() as int) {
        Some(ConfigError::BatchSize)
    } else if !table_shape(inputs, inputs.len() as int, shape.width as int) {
        Some(ConfigError::InputShape)
    } else if !table_canonical(field.p(), inputs) {
        Some(ConfigError::NotCanonical)
    } else if inputs.len() * shape.cells() > usize::MAX {
        Some(ConfigError::TooLarge)
    } else {
        None
    }
}

/// The trace of a batch of inputs: one row for each input, in the order of
/// the inputs.
///
/// The number of inputs must be a power of two; the caller pads. A batch or
/// a configuration that is refused gives the reason and no trace.
pub fn generate_trace_rows(
    field: &Field,
    shape: &Shape,
    inputs: Vec<Vec<u64>>,
    beginning_full_round_constants: Vec<Vec<u64>>,
    partial_round_constants: Vec<u64>,
    ending_full_round_constants: Vec<Vec<u64>>,
    internal_matrix_diagonal: Vec<u64>,
) -> (r: Result<RowMajorMatrix<u64>, ConfigError>)
    ensures
        match r {
            Ok(trace) => {
                &&& trace_refusal(
                    *field,
                    *shape,
                    inputs@,
                    beginning_full_round_constants@,
                    partial_round_constants@,
                    ending_full_round_constants@,
                    internal_matrix_diagonal@,
                ) is None
                &&& matrix_width(trace) == shape.cells()
                &&& matrix_values(trace).len() == inputs.len() * shape.cells()
                &&& ints(matrix_values(trace)) == trace_cells(
                    instance_of(
                        *field,
                        *shape,
                        beginning_full_round_constants@,
                        partial_round_constants@,
                        ending_full_round_constants@,
                        internal_matrix_diagonal@,
                    ),
                    *shape,
                    table_ints(inputs@),
                    inputs.len() as nat,
                )
            },
            Err(e) => trace_refusal(
                *field,
                *shape,
                inputs@,
                beginning_full_round_constants@,
                partial_round_constants@,
                ending_full_round_constants@,
                internal_matrix_diagonal@,
            ) == Some(e),
        },
{
    let air = match Poseidon2Air::new_from_rng(
        *field,
        *shape,
        LinearLayer::new(shape.width),
        beginning_full_round_constants,
        partial_round_constants,
        ending_full_round_constants,
        internal_matrix_diagonal,
    ) {
        Ok(air) => air,
        Err(e) => {
            return Err(e);
        },
    };
    let n = inputs.len();
    if !is_power_of_two(n) {
        return Err(ConfigError::BatchSize);
    }
    if !has_shape(&inputs, n, shape.width) {
        return Err(ConfigError::InputShape);
    }
    if !all_rows_canonical(field, &inputs) {
        return Err(ConfigError::NotCanonical);
    }
    let ncols = num_cols(shape);
    let total = match n.checked_mul(ncols) {
        Some(total) => total,
        None => {
            return Err(ConfigError::TooLarge);
        },
    };
    let ghost rows = table_ints(inputs@);
    let mut values: Vec<u64> = Vec::with_capacity(total);
    let mut k: usize = 0;
    while k < n
        invariant
            air.wf(),
            air.shape == *shape,
            n == inputs.len(),
            table_shape(inputs@, n as int, shape.width as int),
            rows == table_ints(inputs@),
            k <= n,
            ints(values@) == trace_cells(air@, *shape, rows, k as nat),
        decreases n - k,
    {
        let (row, _) = generate_trace_rows_for_perm(&air, &inputs[k]);
        let ghost before = values@;
        row.write_cells(shape, &mut values);
        proof {
            lemma_cells_ints(*shape, row@);
            assert(rows[k as int] == ints(inputs@[k as int]@));
            assert(ints(values@) =~= ints(before) + ints(cells_of(*shape, row@)));
        }
        k = k + 1;
    }
    proof {
        lemma_trace_len(air@, *shape, rows, n as nat);
        assert(values@.len() == ints(values@).len());
        lemma_mod_multiples_basic(n as int, ncols as int);
    }
    Ok(new_matrix(values, ncols))
}

} // verus!
