//! The generator and the constraints agree: the constraints accept every
//! row that the generator produces, and on such a row they arrive at the
//! state that the permutation ends in.

use crate::air::{computes, constrains, residues};
use crate::carrier::interp_all;
use crate::columns::Shape;
use crate::constraints::{holds_from, Constraint};
use crate::expr::Expr;
use crate::field::all_reduced;
use crate::layout::{
    beginning_start, cell_of, cells_of, ending_start, lemma_full_place, lemma_partial_place,
    lemma_row_of_cells_of, lemma_sections, partial_start, row_of,
};
use crate::permutation::Instance;
use vstd::arithmetic::div_mod::{lemma_mod_bound, lemma_small_mod};
use vstd::prelude::*;

verus! {

/// Every cell of the row that records the permutation of a reduced input
/// is a reduced residue.
pub proof fn lemma_witness_reduced(inst: Instance, shape: Shape, input: Seq<int>)
    requires
        shape.wf(),
        inst.describes(shape),
        inst.p > 0,
        input.len() == shape.width,
        all_reduced(inst.p, input),
    ensures
        all_reduced(inst.p, cells_of(shape, inst.witness(input))),
        residues(inst.p, cells_of(shape, inst.witness(input))) == cells_of(
            shape,
            inst.witness(input),
        ),
{
    let p = inst.p;
    let row = inst.witness(input);
    let flat = cells_of(shape, row);
    lemma_sections(shape);
    inst.lemma_witness_shaped(shape, input);
    assert forall|c: int| 0 <= c < flat.len() implies 0 <= #[trigger] flat[c] < p by {
        let r = shape.sbox_registers as int;
        if c == 0 {
        } else if c < beginning_start(shape) {
            assert(flat[c] == input[c - 1]);
        } else if c < partial_start(shape) {
            let q = c - beginning_start(shape);
            lemma_full_place(shape, q);
            let k = q / (shape.width * r);
            let i = (q / r) % (shape.width as int);
            let j = q % r;
            let x = row.beginning_full_rounds[k][i][j];
            assert(flat[c] == x);
            lemma_mod_bound(
                vstd::arithmetic::power::pow(
                    crate::field::fadd(
                        p,
                        inst.after_full_rounds(
                            inst.entering_beginning(input),
                            inst.beginning,
                            k as nat,
                        )[i],
                        inst.beginning[k][i],
                    ),
                    crate::sbox::register_exponent(inst.degree, inst.registers, j),
                ),
                p,
            );
        } else if c < ending_start(shape) {
            let q = c - partial_start(shape);
            lemma_partial_place(shape, q);
            let k = q / r;
            let j = q % r;
            assert(flat[c] == row.partial_rounds[k][j]);
            lemma_mod_bound(
                vstd::arithmetic::power::pow(
                    crate::field::fadd(
                        p,
                        inst.after_partial_rounds(inst.entering_partial(input), k as nat)[0],
                        inst.partial[k],
                    ),
                    crate::sbox::register_exponent(inst.degree, inst.registers, j),
                ),
                p,
            );
        } else {
            let q = c - ending_start(shape);
            lemma_full_place(shape, q);
            let k = q / (shape.width * r);
            let i = (q / r) % (shape.width as int);
            let j = q % r;
            assert(flat[c] == row.ending_full_rounds[k][i][j]);
            lemma_mod_bound(
                vstd::arithmetic::power::pow(
                    crate::field::fadd(
                        p,
                        inst.after_full_rounds(inst.entering_ending(input), inst.ending, k as nat)[i],
                        inst.ending[k][i],
                    ),
                    crate::sbox::register_exponent(inst.degree, inst.registers, j),
                ),
                p,
            );
        }
    }
    assert forall|c: int| 0 <= c < flat.len() implies residues(p, flat)[c] == flat[c] by {
        let _ = flat[c];
        lemma_small_mod(flat[c] as nat, p as nat);
    }
    assert(residues(p, flat) =~= flat);
}

/// The constraints accept every row that the generator produces: on the
/// row that records the permutation of a reduced input, every constraint
/// holds.
pub proof fn lemma_generated_row_satisfies(
    cs: Seq<Constraint>,
    from: int,
    inst: Instance,
    shape: Shape,
    input: Seq<int>,
)
    requires
        shape.wf(),
        inst.describes(shape),
        inst.p > 0,
        constrains(cs, from, inst, shape),
        input.len() == shape.width,
        all_reduced(inst.p, input),
    ensures
        holds_from(cs, from, inst.p, cells_of(shape, inst.witness(input))),
{
    let row = inst.witness(input);
    let flat = cells_of(shape, row);
    lemma_witness_reduced(inst, shape, input);
    inst.lemma_witness_shaped(shape, input);
    lemma_row_of_cells_of(shape, row);
    assert(inst.accepts(row));
    let _ = holds_from(cs, from, inst.p, flat);
}

/// A row that the constraints accept records the permutation of its own
/// input: every register is the one that the generator would have written.
pub proof fn lemma_satisfying_row_is_generated(
    cs: Seq<Constraint>,
    from: int,
    inst: Instance,
    shape: Shape,
    env: Seq<int>,
)
    requires
        constrains(cs, from, inst, shape),
        env.len() == shape.cells(),
        holds_from(cs, from, inst.p, env),
    ensures
        ({
            let row = row_of(shape, residues(inst.p, env));
            let witness = inst.witness(row.inputs);
            &&& row.beginning_full_rounds == witness.beginning_full_rounds
            &&& row.partial_rounds == witness.partial_rounds
            &&& row.ending_full_rounds == witness.ending_full_rounds
        }),
{
}

/// The state that the constraints arrive at, read on the row that records
/// the permutation of a reduced input, is the permutation of that input.
pub proof fn lemma_symbolic_state_is_permutation(
    state: Seq<Expr>,
    cs: Seq<Constraint>,
    from: int,
    inst: Instance,
    shape: Shape,
    input: Seq<int>,
)
    requires
        shape.wf(),
        inst.describes(shape),
        inst.p > 0,
        constrains(cs, from, inst, shape),
        computes(state, cs, from, inst, shape),
        input.len() == shape.width,
        all_reduced(inst.p, input),
    ensures
        interp_all(state, inst.p, cells_of(shape, inst.witness(input))) == inst.permutation(input),
{
    let row = inst.witness(input);
    let flat = cells_of(shape, row);
    lemma_generated_row_satisfies(cs, from, inst, shape, input);
    lemma_witness_reduced(inst, shape, input);
    inst.lemma_witness_shaped(shape, input);
    lemma_row_of_cells_of(shape, row);
}

} // verus!
