//! Where each named cell of a row lies in the flat row, and back.
//!
//! [`row_of`] reads a flat row as a [`Row`]; [`cells_of`] lays a [`Row`]
//! out flat. The two are inverse to each other on rows of the right shape.

use crate::columns::{lemma_cell_count, row_ints, Row, Shape};
use crate::field::ints;
use vstd::arithmetic::div_mod::{
    lemma_div_denominator, lemma_div_pos_is_pos, lemma_fundamental_div_mod,
    lemma_fundamental_div_mod_converse, lemma_mod_bound, lemma_multiply_divide_lt,
};
use vstd::arithmetic::mul::lemma_mul_inequality;
use vstd::prelude::*;

verus! {

/// The number of cells that the full rounds of one half take.
pub open spec fn full_cells(shape: Shape) -> int {
    shape.half_full_rounds * (shape.width * shape.sbox_registers)
}

/// The number of cells that the partial rounds take.
pub open spec fn partial_cells(shape: Shape) -> int {
    shape.partial_rounds * shape.sbox_registers
}

/// The column of cell `cell` of the input.
pub open spec fn input_column(cell: int) -> int {
    1 + cell
}

/// The first column of the beginning full rounds.
pub open spec fn beginning_start(shape: Shape) -> int {
    1 + shape.width
}

/// The first column of the partial rounds.
pub open spec fn partial_start(shape: Shape) -> int {
    1 + shape.width + full_cells(shape)
}

/// The first column of the ending full rounds.
pub open spec fn ending_start(shape: Shape) -> int {
    1 + shape.width + full_cells(shape) + partial_cells(shape)
}

/// The place of register `reg` of cell `cell` of round `round` among the
/// registers of the full rounds of one half.
pub open spec fn full_index(shape: Shape, round: int, cell: int, reg: int) -> int {
    (round * shape.width + cell) * shape.sbox_registers + reg
}

/// The column of register `reg` of cell `cell` of beginning full round
/// `round`.
pub open spec fn beginning_column(shape: Shape, round: int, cell: int, reg: int) -> int {
    beginning_start(shape) + full_index(shape, round, cell, reg)
}

/// The column of register `reg` of partial round `round`.
pub open spec fn partial_column(shape: Shape, round: int, reg: int) -> int {
    partial_start(shape) + round * shape.sbox_registers + reg
}

/// The column of register `reg` of cell `cell` of ending full round `round`.
pub open spec fn ending_column(shape: Shape, round: int, cell: int, reg: int) -> int {
    ending_start(shape) + full_index(shape, round, cell, reg)
}

/// The registers of the full rounds that start at column `start` of `flat`.
pub open spec fn full_rounds_of<T>(shape: Shape, flat: Seq<T>, start: int) -> Seq<Seq<Seq<T>>> {
    Seq::new(
        shape.half_full_rounds as nat,
        |k: int|
            Seq::new(
                shape.width as nat,
                |i: int|
                    Seq::new(
                        shape.sbox_registers as nat,
                        |j: int| flat[start + full_index(shape, k, i, j)],
                    ),
            ),
    )
}

/// The row that the flat row `flat` holds.
pub open spec fn row_of<T>(shape: Shape, flat: Seq<T>) -> Row<T> {
    Row {
        export: flat[0],
        inputs: Seq::new(shape.width as nat, |i: int| flat[input_column(i)]),
        beginning_full_rounds: full_rounds_of(shape, flat, beginning_start(shape)),
        partial_rounds: Seq::new(
            shape.partial_rounds as nat,
            |k: int|
                Seq::new(shape.sbox_registers as nat, |j: int| flat[partial_column(shape, k, j)]),
        ),
        ending_full_rounds: full_rounds_of(shape, flat, ending_start(shape)),
    }
}

/// The register at place `q` among the registers `rounds` of the full
/// rounds of one half.
pub open spec fn full_cell<T>(shape: Shape, rounds: Seq<Seq<Seq<T>>>, q: int) -> T {
    rounds[q / (shape.width * shape.sbox_registers)][(q / (shape.sbox_registers as int)) % (
    shape.width as int)][q % (shape.sbox_registers as int)]
}

/// The cell in column `c` of the flat row that holds `row`.
pub open spec fn cell_of<T>(shape: Shape, row: Row<T>, c: int) -> T {
    if c <= 0 {
        row.export
    } else if c < beginning_start(shape) {
        row.inputs[c - 1]
    } else if c < partial_start(shape) {
        full_cell(shape, row.beginning_full_rounds, c - beginning_start(shape))
    } else if c < ending_start(shape) {
        let q = c - partial_start(shape);
        row.partial_rounds[q / (shape.sbox_registers as int)][q % (shape.sbox_registers as int)]
    } else {
        full_cell(shape, row.ending_full_rounds, c - ending_start(shape))
    }
}

/// The flat row that holds `row`.
pub open spec fn cells_of<T>(shape: Shape, row: Row<T>) -> Seq<T> {
    Seq::new(shape.cells() as nat, |c: int| cell_of(shape, row, c))
}

/// `rounds` holds the registers of the full rounds of one half.
pub open spec fn full_rounds_shaped<T>(shape: Shape, rounds: Seq<Seq<Seq<T>>>) -> bool {
    &&& rounds.len() == shape.half_full_rounds
    &&& forall|k: int| 0 <= k < rounds.len() ==> (#[trigger] rounds[k]).len() == shape.width
    &&& forall|k: int, i: int|
        0 <= k < rounds.len() && 0 <= i < shape.width ==> (#[trigger] rounds[k][i]).len()
            == shape.sbox_registers
}

/// `row` has the lengths that `shape` gives.
pub open spec fn row_shaped<T>(shape: Shape, row: Row<T>) -> bool {
    &&& row.inputs.len() == shape.width
    &&& full_rounds_shaped(shape, row.beginning_full_rounds)
    &&& row.partial_rounds.len() == shape.partial_rounds
    &&& forall|k: int|
        0 <= k < row.partial_rounds.len() ==> (#[trigger] row.partial_rounds[k]).len()
            == shape.sbox_registers
    &&& full_rounds_shaped(shape, row.ending_full_rounds)
}

/// The sections of a row follow each other and fill it.
pub proof fn lemma_sections(shape: Shape)
    ensures
        shape.cells() == ending_start(shape) + full_cells(shape),
        0 <= full_cells(shape),
        0 <= partial_cells(shape),
        1 <= beginning_start(shape) <= partial_start(shape) <= ending_start(shape) <= shape.cells(),
{
    lemma_cell_count(
        shape.width as int,
        shape.sbox_registers as int,
        shape.half_full_rounds as int,
        shape.partial_rounds as int,
    );
}

/// A place among the registers of the full rounds tells its round, cell and
/// register.
pub proof fn lemma_full_index(shape: Shape, k: int, i: int, j: int)
    requires
        0 <= k < shape.half_full_rounds,
        0 <= i < shape.width,
        0 <= j < shape.sbox_registers,
    ensures
        ({
            let q = full_index(shape, k, i, j);
            let w = shape.width as int;
            let r = shape.sbox_registers as int;
            &&& 0 <= q < full_cells(shape)
            &&& q / (w * r) == k
            &&& (q / r) % w == i
            &&& q % r == j
        }),
{
    let w = shape.width as int;
    let r = shape.sbox_registers as int;
    let h = shape.half_full_rounds as int;
    let q = full_index(shape, k, i, j);
    lemma_fundamental_div_mod_converse(q, r, k * w + i, j);
    lemma_fundamental_div_mod_converse(k * w + i, w, k, i);
    assert(q == k * (w * r) + (i * r + j)) by (nonlinear_arith)
        requires
            q == (k * w + i) * r + j,
    ;
    assert(0 <= i * r + j < w * r) by (nonlinear_arith)
        requires
            0 <= i < w,
            0 <= j < r,
    ;
    lemma_fundamental_div_mod_converse(q, w * r, k, i * r + j);
    let m = w * r;
    assert(k * m + m == (k + 1) * m) by (nonlinear_arith);
    lemma_mul_inequality(k + 1, h, m);
    assert(q < h * (w * r));
    assert(0 <= q) by (nonlinear_arith)
        requires
            q == k * (w * r) + (i * r + j),
            0 <= i * r + j,
            0 <= k,
            0 <= w * r,
    ;
}

/// A round, a cell and a register are found again from their place among
/// the registers of the full rounds.
pub proof fn lemma_full_place(shape: Shape, q: int)
    requires
        0 <= q < full_cells(shape),
        shape.width > 0,
        shape.sbox_registers > 0,
    ensures
        ({
            let w = shape.width as int;
            let r = shape.sbox_registers as int;
            let k = q / (w * r);
            let i = (q / r) % w;
            let j = q % r;
            &&& 0 <= k < shape.half_full_rounds
            &&& 0 <= i < w
            &&& 0 <= j < r
            &&& full_index(shape, k, i, j) == q
        }),
{
    let w = shape.width as int;
    let r = shape.sbox_registers as int;
    let h = shape.half_full_rounds as int;
    assert(0 < w * r) by (nonlinear_arith)
        requires
            0 < w,
            0 < r,
    ;
    assert(r * w == w * r) by (nonlinear_arith);
    lemma_fundamental_div_mod(q, r);
    lemma_div_pos_is_pos(q, r);
    lemma_fundamental_div_mod(q / r, w);
    lemma_div_denominator(q, r, w);
    lemma_mod_bound(q, r);
    lemma_mod_bound(q / r, w);
    lemma_div_pos_is_pos(q, w * r);
    assert((w * r) * h == h * (w * r)) by (nonlinear_arith);
    lemma_multiply_divide_lt(q, w * r, h);
    let k = q / (w * r);
    let i = (q / r) % w;
    let j = q % r;
    assert((k * w + i) * r + j == q) by (nonlinear_arith)
        requires
            q == r * (q / r) + j,
            q / r == w * k + i,
    ;
}

/// A place among the registers of the partial rounds tells its round and
/// register.
pub proof fn lemma_partial_index(shape: Shape, k: int, j: int)
    requires
        0 <= k < shape.partial_rounds,
        0 <= j < shape.sbox_registers,
    ensures
        ({
            let r = shape.sbox_registers as int;
            let q = k * r + j;
            &&& 0 <= q < partial_cells(shape)
            &&& q / r == k
            &&& q % r == j
        }),
{
    let r = shape.sbox_registers as int;
    let np = shape.partial_rounds as int;
    lemma_fundamental_div_mod_converse(k * r + j, r, k, j);
    assert(0 <= k * r + j < np * r) by (nonlinear_arith)
        requires
            0 <= k < np,
            0 <= j < r,
    ;
}

/// A round and a register are found again from their place among the
/// registers of the partial rounds.
pub proof fn lemma_partial_place(shape: Shape, q: int)
    requires
        0 <= q < partial_cells(shape),
        shape.sbox_registers > 0,
    ensures
        ({
            let r = shape.sbox_registers as int;
            &&& 0 <= q / r < shape.partial_rounds
            &&& 0 <= q % r < r
            &&& (q / r) * r + q % r == q
        }),
{
    let r = shape.sbox_registers as int;
    let np = shape.partial_rounds as int;
    lemma_fundamental_div_mod(q, r);
    lemma_div_pos_is_pos(q, r);
    lemma_mod_bound(q, r);
    assert(r * np == np * r) by (nonlinear_arith);
    lemma_multiply_divide_lt(q, r, np);
    assert((q / r) * r == r * (q / r)) by (nonlinear_arith);
}

/// Reading the full rounds back from where they were laid out gives the
/// same registers.
proof fn lemma_full_rounds_of_cells<T>(shape: Shape, row: Row<T>, ending: bool)
    requires
        shape.wf(),
        row_shaped(shape, row),
    ensures
        !ending ==> full_rounds_of(shape, cells_of(shape, row), beginning_start(shape))
            == row.beginning_full_rounds,
        ending ==> full_rounds_of(shape, cells_of(shape, row), ending_start(shape))
            == row.ending_full_rounds,
{
    lemma_sections(shape);
    let flat = cells_of(shape, row);
    let start = if ending {
        ending_start(shape)
    } else {
        beginning_start(shape)
    };
    let rounds = if ending {
        row.ending_full_rounds
    } else {
        row.beginning_full_rounds
    };
    let got = full_rounds_of(shape, flat, start);
    assert forall|k: int, i: int, j: int|
        0 <= k < shape.half_full_rounds && 0 <= i < shape.width && 0 <= j
            < shape.sbox_registers implies #[trigger] got[k][i][j] == rounds[k][i][j] by {
        lemma_full_index(shape, k, i, j);
        let c = start + full_index(shape, k, i, j);
        assert(flat[c] == cell_of(shape, row, c));
    }
    assert(got =~~= rounds);
}

/// Laying a row out flat and reading it back gives the row.
pub proof fn lemma_row_of_cells_of<T>(shape: Shape, row: Row<T>)
    requires
        shape.wf(),
        row_shaped(shape, row),
    ensures
        cells_of(shape, row).len() == shape.cells(),
        row_of(shape, cells_of(shape, row)) == row,
{
    lemma_sections(shape);
    let flat = cells_of(shape, row);
    let back = row_of(shape, flat);
    lemma_full_rounds_of_cells(shape, row, false);
    lemma_full_rounds_of_cells(shape, row, true);
    assert(back.inputs =~= row.inputs);
    assert forall|k: int, j: int|
        0 <= k < shape.partial_rounds && 0 <= j < shape.sbox_registers implies #[trigger] back.partial_rounds[k][j]
        == row.partial_rounds[k][j] by {
        lemma_partial_index(shape, k, j);
        let c = partial_column(shape, k, j);
        assert(flat[c] == cell_of(shape, row, c));
    }
    assert(back.partial_rounds =~~= row.partial_rounds);
    assert(back =~~= row);
}

/// Reading a flat row and laying it out again gives the flat row.
pub proof fn lemma_cells_of_row_of<T>(shape: Shape, flat: Seq<T>)
    requires
        shape.wf(),
        flat.len() == shape.cells(),
    ensures
        row_shaped(shape, row_of(shape, flat)),
        cells_of(shape, row_of(shape, flat)) == flat,
{
    lemma_sections(shape);
    let row = row_of(shape, flat);
    let back = cells_of(shape, row);
    assert forall|c: int| 0 <= c < shape.cells() implies back[c] == flat[c] by {
        if c == 0 {
        } else if c < beginning_start(shape) {
        } else if c < partial_start(shape) {
            lemma_full_place(shape, c - beginning_start(shape));
        } else if c < ending_start(shape) {
            lemma_partial_place(shape, c - partial_start(shape));
        } else {
            lemma_full_place(shape, c - ending_start(shape));
        }
    }
    assert(back =~= flat);
}

/// Laying out the cells of a row as integers is laying out the row and
/// reading its cells as integers.
pub proof fn lemma_cells_ints(shape: Shape, row: Row<u64>)
    requires
        shape.wf(),
        row_shaped(shape, row),
    ensures
        row_shaped(shape, row_ints(row)),
        ints(cells_of(shape, row)) == cells_of(shape, row_ints(row)),
{
    lemma_sections(shape);
    let lifted = row_ints(row);
    assert(row_shaped(shape, lifted));
    let left = ints(cells_of(shape, row));
    let right = cells_of(shape, lifted);
    assert forall|c: int| 0 <= c < shape.cells() implies left[c] == right[c] by {
        if c == 0 {
        } else if c < beginning_start(shape) {
        } else if c < partial_start(shape) {
            lemma_full_place(shape, c - beginning_start(shape));
        } else if c < ending_start(shape) {
            lemma_partial_place(shape, c - partial_start(shape));
        } else {
            lemma_full_place(shape, c - ending_start(shape));
        }
    }
    assert(left =~= right);
}

/// A row has the shape that its cells read as integers have.
pub proof fn lemma_shaped_ints(shape: Shape, row: Row<u64>)
    requires
        row_shaped(shape, row_ints(row)),
    ensures
        row_shaped(shape, row),
{
    let lifted = row_ints(row);
    assert forall|k: int| 0 <= k < row.beginning_full_rounds.len() implies (
    #[trigger] row.beginning_full_rounds[k]).len() == shape.width by {
        assert(lifted.beginning_full_rounds[k].len() == shape.width);
    }
    assert forall|k: int, i: int|
        0 <= k < row.beginning_full_rounds.len() && 0 <= i < shape.width implies (
    #[trigger] row.beginning_full_rounds[k][i]).len() == shape.sbox_registers by {
        assert(lifted.beginning_full_rounds[k].len() == shape.width);
        assert(lifted.beginning_full_rounds[k][i].len() == shape.sbox_registers);
    }
    assert forall|k: int| 0 <= k < row.ending_full_rounds.len() implies (
    #[trigger] row.ending_full_rounds[k]).len() == shape.width by {
        assert(lifted.ending_full_rounds[k].len() == shape.width);
    }
    assert forall|k: int, i: int|
        0 <= k < row.ending_full_rounds.len() && 0 <= i < shape.width implies (
    #[trigger] row.ending_full_rounds[k][i]).len() == shape.sbox_registers by {
        assert(lifted.ending_full_rounds[k].len() == shape.width);
        assert(lifted.ending_full_rounds[k][i].len() == shape.sbox_registers);
    }
    assert forall|k: int| 0 <= k < row.partial_rounds.len() implies (
    #[trigger] row.partial_rounds[k]).len() == shape.sbox_registers by {
        assert(lifted.partial_rounds[k].len() == shape.sbox_registers);
    }
}

/// The registers `rounds` with register `j` of cell `i` of round `k`
/// replaced by `v`.
pub open spec fn with_register<T>(rounds: Seq<Seq<Seq<T>>>, k: int, i: int, j: int, v: T) -> Seq<
    Seq<Seq<T>>,
> {
    rounds.update(k, rounds[k].update(i, rounds[k][i].update(j, v)))
}

/// Replacing one register of the full rounds changes the one cell of the
/// flat section that holds it.
proof fn lemma_with_register<T>(
    shape: Shape,
    rounds: Seq<Seq<Seq<T>>>,
    k: int,
    i: int,
    j: int,
    v: T,
    q: int,
)
    requires
        shape.wf(),
        full_rounds_shaped(shape, rounds),
        0 <= k < shape.half_full_rounds,
        0 <= i < shape.width,
        0 <= j < shape.sbox_registers,
        0 <= q < full_cells(shape),
    ensures
        full_rounds_shaped(shape, with_register(rounds, k, i, j, v)),
        full_cell(shape, with_register(rounds, k, i, j, v), q) == if q == full_index(
            shape,
            k,
            i,
            j,
        ) {
            v
        } else {
            full_cell(shape, rounds, q)
        },
{
    lemma_full_index(shape, k, i, j);
    lemma_full_place(shape, q);
    let changed = with_register(rounds, k, i, j, v);
    assert forall|a: int| 0 <= a < changed.len() implies (#[trigger] changed[a]).len()
        == shape.width by {
        assert(rounds[a].len() == shape.width);
    }
    assert forall|a: int, b: int| 0 <= a < changed.len() && 0 <= b < shape.width implies (
    #[trigger] changed[a][b]).len() == shape.sbox_registers by {
        assert(rounds[a].len() == shape.width);
        assert(rounds[a][b].len() == shape.sbox_registers);
    }
}

/// Writing the reserved cell of a row writes column 0 of the flat row.
pub proof fn lemma_write_export<T>(shape: Shape, row: Row<T>, v: T)
    requires
        shape.wf(),
        row_shaped(shape, row),
    ensures
        cells_of(shape, Row { export: v, ..row }) == cells_of(shape, row).update(0, v),
{
    lemma_sections(shape);
    assert(cells_of(shape, Row { export: v, ..row }) =~= cells_of(shape, row).update(0, v));
}

/// Writing cell `i` of the input of a row writes column `1 + i` of the
/// flat row.
pub proof fn lemma_write_input<T>(shape: Shape, row: Row<T>, i: int, v: T)
    requires
        shape.wf(),
        row_shaped(shape, row),
        0 <= i < shape.width,
    ensures
        cells_of(shape, Row { inputs: row.inputs.update(i, v), ..row }) == cells_of(
            shape,
            row,
        ).update(input_column(i), v),
{
    lemma_sections(shape);
    assert(cells_of(shape, Row { inputs: row.inputs.update(i, v), ..row }) =~= cells_of(
        shape,
        row,
    ).update(input_column(i), v));
}

/// Writing a register of a beginning full round of a row writes its column
/// of the flat row.
pub proof fn lemma_write_beginning<T>(shape: Shape, row: Row<T>, k: int, i: int, j: int, v: T)
    requires
        shape.wf(),
        row_shaped(shape, row),
        0 <= k < shape.half_full_rounds,
        0 <= i < shape.width,
        0 <= j < shape.sbox_registers,
    ensures
        cells_of(
            shape,
            Row {
                beginning_full_rounds: with_register(row.beginning_full_rounds, k, i, j, v),
                ..row
            },
        ) == cells_of(shape, row).update(beginning_column(shape, k, i, j), v),
{
    lemma_sections(shape);
    lemma_full_index(shape, k, i, j);
    let changed = Row {
        beginning_full_rounds: with_register(row.beginning_full_rounds, k, i, j, v),
        ..row
    };
    let left = cells_of(shape, changed);
    let right = cells_of(shape, row).update(beginning_column(shape, k, i, j), v);
    assert forall|c: int| 0 <= c < shape.cells() implies left[c] == right[c] by {
        if beginning_start(shape) <= c < partial_start(shape) {
            lemma_with_register(
                shape,
                row.beginning_full_rounds,
                k,
                i,
                j,
                v,
                c - beginning_start(shape),
            );
        }
    }
    assert(left =~= right);
}

/// Writing a register of a partial round of a row writes its column of the
/// flat row.
pub proof fn lemma_write_partial<T>(shape: Shape, row: Row<T>, k: int, j: int, v: T)
    requires
        shape.wf(),
        row_shaped(shape, row),
        0 <= k < shape.partial_rounds,
        0 <= j < shape.sbox_registers,
    ensures
        cells_of(
            shape,
            Row {
                partial_rounds: row.partial_rounds.update(k, row.partial_rounds[k].update(j, v)),
                ..row
            },
        ) == cells_of(shape, row).update(partial_column(shape, k, j), v),
{
    lemma_sections(shape);
    lemma_partial_index(shape, k, j);
    let changed = Row {
        partial_rounds: row.partial_rounds.update(k, row.partial_rounds[k].update(j, v)),
        ..row
    };
    let left = cells_of(shape, changed);
    let right = cells_of(shape, row).update(partial_column(shape, k, j), v);
    assert forall|c: int| 0 <= c < shape.cells() implies left[c] == right[c] by {
        if partial_start(shape) <= c < ending_start(shape) {
            lemma_partial_place(shape, c - partial_start(shape));
        }
    }
    assert(left =~= right);
}

/// Writing a register of an ending full round of a row writes its column
/// of the flat row.
pub proof fn lemma_write_ending<T>(shape: Shape, row: Row<T>, k: int, i: int, j: int, v: T)
    requires
        shape.wf(),
        row_shaped(shape, row),
        0 <= k < shape.half_full_rounds,
        0 <= i < shape.width,
        0 <= j < shape.sbox_registers,
    ensures
        cells_of(
            shape,
            Row { ending_full_rounds: with_register(row.ending_full_rounds, k, i, j, v), ..row },
        ) == cells_of(shape, row).update(ending_column(shape, k, i, j), v),
{
    lemma_sections(shape);
    lemma_full_index(shape, k, i, j);
    let changed = Row {
        ending_full_rounds: with_register(row.ending_full_rounds, k, i, j, v),
        ..row
    };
    let left = cells_of(shape, changed);
    let right = cells_of(shape, row).update(ending_column(shape, k, i, j), v);
    assert forall|c: int| 0 <= c < shape.cells() implies left[c] == right[c] by {
        if ending_start(shape) <= c {
            lemma_with_register(
                shape,
                row.ending_full_rounds,
                k,
                i,
                j,
                v,
                c - ending_start(shape),
            );
        }
    }
    assert(left =~= right);
}

} // verus!
