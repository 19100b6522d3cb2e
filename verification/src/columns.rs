//! The columns of one row of the trace.
//!
//! A row holds, in this order: one reserved cell, the input of the
//! permutation, the S-box registers of the beginning full rounds, of the
//! partial rounds, and of the ending full rounds. The linear layers need no
//! columns: they are linear, so the constraints recompute them.

use crate::error::ConfigError;
use crate::field::ints;
use crate::layout::{
    beginning_start, cells_of, ending_start, full_cells, full_index, full_rounds_of,
    lemma_full_index, lemma_full_place, lemma_partial_index, lemma_partial_place, lemma_sections,
    partial_cells, partial_start, row_of, row_shaped, full_rounds_shaped, cell_of,
};
use vstd::arithmetic::mul::lemma_mul_inequality;
use crate::linear::external_supported;
use vstd::prelude::*;

verus! {

/// The registers of one S-box: the intermediate powers by which `x^d` is
/// reached in steps of degree at most three.
#[derive(Debug, PartialEq, Eq)]
pub struct SBox<T>(pub Vec<T>);

/// The columns of one full round: an S-box for every cell of the state.
#[derive(Debug, PartialEq, Eq)]
pub struct FullRound<T> {
    /// The S-box of each cell of the state.
    pub sbox: Vec<SBox<T>>,
}

/// The columns of one partial round: the S-box of the first cell.
#[derive(Debug, PartialEq, Eq)]
pub struct PartialRound<T> {
    /// The S-box of the first cell of the state.
    pub sbox: SBox<T>,
}

/// The columns of one row, by name.
#[derive(Debug, PartialEq, Eq)]
pub struct Poseidon2Cols<T> {
    /// A reserved cell that no constraint reads.
    pub export: T,
    /// The input of the permutation, before the first linear layer.
    pub inputs: Vec<T>,
    /// The beginning full rounds.
    pub beginning_full_rounds: Vec<FullRound<T>>,
    /// The partial rounds.
    pub partial_rounds: Vec<PartialRound<T>>,
    /// The ending full rounds.
    pub ending_full_rounds: Vec<FullRound<T>>,
}

/// What a [`Poseidon2Cols`] holds, as mathematical sequences: a register is
/// found at `beginning_full_rounds[round][cell][register]`,
/// `partial_rounds[round][register]` and
/// `ending_full_rounds[round][cell][register]`.
#[verifier::ext_equal]
pub struct Row<T> {
    /// The reserved cell.
    pub export: T,
    /// The input of the permutation.
    pub inputs: Seq<T>,
    /// The registers of the beginning full rounds.
    pub beginning_full_rounds: Seq<Seq<Seq<T>>>,
    /// The registers of the partial rounds.
    pub partial_rounds: Seq<Seq<T>>,
    /// The registers of the ending full rounds.
    pub ending_full_rounds: Seq<Seq<Seq<T>>>,
}

impl<T> View for SBox<T> {
    type V = Seq<T>;

    open spec fn view(&self) -> Seq<T> {
        self.0@
    }
}

impl<T> View for FullRound<T> {
    type V = Seq<Seq<T>>;

    open spec fn view(&self) -> Seq<Seq<T>> {
        Seq::new(self.sbox@.len(), |i: int| self.sbox@[i]@)
    }
}

impl<T> View for PartialRound<T> {
    type V = Seq<T>;

    open spec fn view(&self) -> Seq<T> {
        self.sbox@
    }
}

/// The registers of a sequence of full rounds.
pub open spec fn full_rounds_view<T>(rounds: Seq<FullRound<T>>) -> Seq<Seq<Seq<T>>> {
    Seq::new(rounds.len(), |r: int| rounds[r]@)
}

/// The registers of a sequence of partial rounds.
pub open spec fn partial_rounds_view<T>(rounds: Seq<PartialRound<T>>) -> Seq<Seq<T>> {
    Seq::new(rounds.len(), |r: int| rounds[r]@)
}

impl<T> View for Poseidon2Cols<T> {
    type V = Row<T>;

    open spec fn view(&self) -> Row<T> {
        Row {
            export: self.export,
            inputs: self.inputs@,
            beginning_full_rounds: full_rounds_view(self.beginning_full_rounds@),
            partial_rounds: partial_rounds_view(self.partial_rounds@),
            ending_full_rounds: full_rounds_view(self.ending_full_rounds@),
        }
    }
}

/// The entries of `t` as integers.
pub open spec fn lift2(t: Seq<Seq<u64>>) -> Seq<Seq<int>> {
    Seq::new(t.len(), |i: int| ints(t[i]))
}

/// The entries of `t` as integers.
pub open spec fn lift3(t: Seq<Seq<Seq<u64>>>) -> Seq<Seq<Seq<int>>> {
    Seq::new(t.len(), |i: int| lift2(t[i]))
}

/// The cells of `row` as integers.
pub open spec fn row_ints(row: Row<u64>) -> Row<int> {
    Row {
        export: row.export as int,
        inputs: ints(row.inputs),
        beginning_full_rounds: lift3(row.beginning_full_rounds),
        partial_rounds: lift2(row.partial_rounds),
        ending_full_rounds: lift3(row.ending_full_rounds),
    }
}

/// The S-box degrees the register scheme is defined for.
pub open spec fn degree_supported(d: int) -> bool {
    d == 3 || d == 5 || d == 7 || d == 11
}

/// The number of registers that degree `d` calls for.
pub open spec fn register_count(d: int) -> int {
    if d == 3 {
        1
    } else if d == 5 {
        2
    } else {
        3
    }
}

/// The number of cells of a row: the reserved cell, `w` inputs, `r`
/// registers for each of the `w` cells in each of the `2 h` full rounds, and
/// `r` registers in each of the `np` partial rounds.
pub open spec fn cell_count(w: int, r: int, h: int, np: int) -> int {
    1 + w + 2 * h * w * r + np * r
}

/// The five numbers that fix the layout of a row.
#[derive(Clone, Copy, Debug, PartialEq, Eq, Structural)]
pub struct Shape {
    /// The number of cells of the state.
    pub width: usize,
    /// The degree of the S-box.
    pub sbox_degree: usize,
    /// The number of registers of each S-box.
    pub sbox_registers: usize,
    /// The number of full rounds in each half.
    pub half_full_rounds: usize,
    /// The number of partial rounds.
    pub partial_rounds: usize,
}

impl Shape {
    /// The number of cells of a row of this shape.
    pub open spec fn cells(&self) -> int {
        cell_count(
            self.width as int,
            self.sbox_registers as int,
            self.half_full_rounds as int,
            self.partial_rounds as int,
        )
    }

    /// Why this shape is refused, or nothing when it is accepted.
    pub open spec fn refusal(&self) -> Option<ConfigError> {
        if !external_supported(self.width as int) {
            Some(ConfigError::UnsupportedWidth)
        } else if !degree_supported(self.sbox_degree as int) {
            Some(ConfigError::UnsupportedDegree)
        } else if self.sbox_registers != register_count(self.sbox_degree as int) {
            Some(ConfigError::RegisterCount)
        } else if self.cells() > usize::MAX {
            Some(ConfigError::TooLarge)
        } else {
            None
        }
    }

    /// The shape is one the permutation is defined for, and its rows can be
    /// held in memory.
    pub open spec fn wf(&self) -> bool {
        self.refusal() is None
    }

    /// Accepts the shape, or says why it is refused.
    pub fn check(&self) -> (r: Result<(), ConfigError>)
        ensures
            r is Ok <==> self.wf(),
            r is Err ==> self.refusal() == Some(r->Err_0),
    {
        let w = self.width;
        let d = self.sbox_degree;
        let r = self.sbox_registers;
        if !(w == 2 || w == 3 || w == 8 || w == 12 || w == 16 || w == 20 || w == 24) {
            return Err(ConfigError::UnsupportedWidth);
        }
        if !(d == 3 || d == 5 || d == 7 || d == 11) {
            return Err(ConfigError::UnsupportedDegree);
        }
        let expected: usize = if d == 3 {
            1
        } else if d == 5 {
            2
        } else {
            3
        };
        if r != expected {
            return Err(ConfigError::RegisterCount);
        }
        let h = self.half_full_rounds;
        let np = self.partial_rounds;
        let per_round: usize = w * r;
        proof {
            lemma_cell_count(w as int, r as int, h as int, np as int);
        }
        let full = match h.checked_mul(per_round) {
            Some(n) => n,
            None => {
                return Err(ConfigError::TooLarge);
            },
        };
        let full = match full.checked_mul(2) {
            Some(n) => n,
            None => {
                return Err(ConfigError::TooLarge);
            },
        };
        let partial = match np.checked_mul(r) {
            Some(n) => n,
            None => {
                return Err(ConfigError::TooLarge);
            },
        };
        let rounds = match full.checked_add(partial) {
            Some(n) => n,
            None => {
                return Err(ConfigError::TooLarge);
            },
        };
        match rounds.checked_add(1 + w) {
            Some(_) => Ok(()),
            None => Err(ConfigError::TooLarge),
        }
    }
}

/// The cell count as a sum of the two kinds of rounds.
pub proof fn lemma_cell_count(w: int, r: int, h: int, np: int)
    requires
        0 <= w,
        0 <= r,
        0 <= h,
        0 <= np,
    ensures
        cell_count(w, r, h, np) == 1 + w + (h * (w * r)) * 2 + np * r,
        0 <= h * (w * r) <= (h * (w * r)) * 2,
        0 <= np * r,
        h * w * r == h * (w * r),
{
    assert(2 * h * w * r == (h * (w * r)) * 2) by (nonlinear_arith);
    assert(0 <= h * (w * r)) by (nonlinear_arith)
        requires
            0 <= w,
            0 <= r,
            0 <= h,
    ;
    assert(0 <= np * r) by (nonlinear_arith)
        requires
            0 <= np,
            0 <= r,
    ;
    assert(h * w * r == h * (w * r)) by (nonlinear_arith);
}

/// A round of an accepted shape has at most 72 registers, and at least one.
pub proof fn lemma_per_round(shape: Shape)
    requires
        shape.wf(),
    ensures
        1 <= shape.width * shape.sbox_registers <= 72,
        1 <= shape.sbox_registers <= 3,
        2 <= shape.width <= 24,
{
    assert(1 <= shape.width * shape.sbox_registers <= 72) by (nonlinear_arith)
        requires
            1 <= shape.sbox_registers <= 3,
            2 <= shape.width <= 24,
    ;
}

/// The number of columns of a row of the given shape.
pub fn num_cols(shape: &Shape) -> (n: usize)
    requires
        shape.wf(),
    ensures
        n == shape.cells(),
        n == 1 + shape.width + 2 * shape.half_full_rounds * shape.width * shape.sbox_registers
            + shape.partial_rounds * shape.sbox_registers,
{
    proof {
        lemma_cell_count(
            shape.width as int,
            shape.sbox_registers as int,
            shape.half_full_rounds as int,
            shape.partial_rounds as int,
        );
    }
    let per_round: usize = shape.width * shape.sbox_registers;
    1 + shape.width + shape.half_full_rounds * per_round * 2 + shape.partial_rounds
        * shape.sbox_registers
}

/// Reads `registers` cells of `flat` from column `start` on as one S-box.
fn read_sbox<T: Copy>(flat: &[T], start: usize, registers: usize) -> (sbox: SBox<T>)
    requires
        start + registers <= flat.len(),
    ensures
        sbox@.len() == registers,
        forall|j: int| 0 <= j < registers ==> sbox@[j] == flat@[start + j],
{
    let mut cells: Vec<T> = Vec::new();
    let mut j: usize = 0;
    while j < registers
        invariant
            start + registers <= flat.len(),
            j <= registers,
            cells.len() == j,
            forall|m: int| 0 <= m < j ==> cells@[m] == flat@[start + m],
        decreases registers - j,
    {
        cells.push(flat[start + j]);
        j = j + 1;
    }
    SBox(cells)
}

/// Reads `width` S-boxes of `registers` cells each from column `start` of
/// `flat` on as one full round.
fn read_full_round<T: Copy>(flat: &[T], start: usize, width: usize, registers: usize) -> (round:
    FullRound<T>)
    requires
        start + width * registers <= flat.len(),
    ensures
        round@.len() == width,
        forall|i: int| 0 <= i < width ==> (#[trigger] round@[i]).len() == registers,
        forall|i: int, j: int|
            0 <= i < width && 0 <= j < registers ==> #[trigger] round@[i][j] == flat@[start + i
                * registers + j],
{
    let mut boxes: Vec<SBox<T>> = Vec::new();
    let mut i: usize = 0;
    let mut at: usize = start;
    while i < width
        invariant
            start + width * registers <= flat.len(),
            i <= width,
            at == start + i * registers,
            boxes.len() == i,
            forall|m: int| 0 <= m < i ==> (#[trigger] boxes@[m])@.len() == registers,
            forall|m: int, j: int|
                0 <= m < i && 0 <= j < registers ==> #[trigger] boxes@[m]@[j] == flat@[start + m
                    * registers + j],
        decreases width - i,
    {
        proof {
            assert((i + 1) * registers == i * registers + registers) by (nonlinear_arith);
            lemma_mul_inequality(i + 1, width as int, registers as int);
        }
        let sbox = read_sbox(flat, at, registers);
        boxes.push(sbox);
        at = at + registers;
        i = i + 1;
    }
    let round = FullRound { sbox: boxes };
    proof {
        assert forall|i: int, j: int| 0 <= i < width && 0 <= j < registers implies #[trigger] round@[i][j]
            == flat@[start + i * registers + j] by {
            assert(round@[i] == boxes@[i]@);
        }
    }
    round
}

/// Reads the full rounds of one half from column `start` of `flat` on.
fn read_full_rounds<T: Copy>(shape: &Shape, flat: &[T], start: usize) -> (rounds: Vec<
    FullRound<T>,
>)
    requires
        shape.wf(),
        start + full_cells(*shape) <= flat.len(),
    ensures
        full_rounds_view(rounds@) == full_rounds_of(*shape, flat@, start as int),
{
    let w = shape.width;
    let r = shape.sbox_registers;
    let h = shape.half_full_rounds;
    proof {
        lemma_per_round(*shape);
    }
    let per_round: usize = w * r;
    let mut rounds: Vec<FullRound<T>> = Vec::new();
    let mut k: usize = 0;
    let mut at: usize = start;
    while k < h
        invariant
            shape.wf(),
            w == shape.width,
            r == shape.sbox_registers,
            h == shape.half_full_rounds,
            per_round == w * r,
            start + full_cells(*shape) <= flat.len(),
            k <= h,
            at == start + k * per_round,
            rounds.len() == k,
            forall|m: int| 0 <= m < k ==> (#[trigger] rounds@[m])@.len() == w,
            forall|m: int, i: int|
                0 <= m < k && 0 <= i < w ==> (#[trigger] rounds@[m]@[i]).len() == r,
            forall|m: int, i: int, j: int|
                0 <= m < k && 0 <= i < w && 0 <= j < r ==> #[trigger] rounds@[m]@[i][j]
                    == flat@[start + full_index(*shape, m, i, j)],
        decreases h - k,
    {
        proof {
            assert((k + 1) * per_round == k * per_round + per_round) by (nonlinear_arith);
            lemma_mul_inequality(k + 1, h as int, per_round as int);
            assert(h * per_round == full_cells(*shape));
        }
        let round = read_full_round(flat, at, w, r);
        proof {
            assert forall|i: int, j: int| 0 <= i < w && 0 <= j < r implies #[trigger] round@[i][j]
                == flat@[start + full_index(*shape, k as int, i, j)] by {
                assert((k * w + i) * r + j == k * (w * r) + i * r + j) by (nonlinear_arith);
            }
        }
        rounds.push(round);
        at = at + per_round;
        k = k + 1;
    }
    proof {
        let got = full_rounds_view(rounds@);
        let expected = full_rounds_of(*shape, flat@, start as int);
        assert forall|m: int, i: int, j: int|
            0 <= m < h && 0 <= i < w && 0 <= j < r implies #[trigger] got[m][i][j]
            == expected[m][i][j] by {
            let _ = rounds@[m]@[i][j];
        }
        assert forall|m: int, i: int| 0 <= m < h && 0 <= i < w implies (#[trigger] got[m][i]).len()
            == r by {
            let _ = rounds@[m]@[i];
        }
        assert(got =~~= expected);
    }
    rounds
}

/// Reads the partial rounds from column `start` of `flat` on.
fn read_partial_rounds<T: Copy>(shape: &Shape, flat: &[T], start: usize) -> (rounds: Vec<
    PartialRound<T>,
>)
    requires
        shape.wf(),
        start + partial_cells(*shape) <= flat.len(),
    ensures
        rounds.len() == shape.partial_rounds,
        forall|m: int|
            0 <= m < shape.partial_rounds ==> (#[trigger] rounds@[m])@.len()
                == shape.sbox_registers,
        forall|m: int, j: int|
            0 <= m < shape.partial_rounds && 0 <= j < shape.sbox_registers
                ==> #[trigger] rounds@[m]@[j] == flat@[start + m * shape.sbox_registers + j],
{
    let r = shape.sbox_registers;
    let np = shape.partial_rounds;
    let mut rounds: Vec<PartialRound<T>> = Vec::new();
    let mut k: usize = 0;
    let mut at: usize = start;
    while k < np
        invariant
            shape.wf(),
            r == shape.sbox_registers,
            np == shape.partial_rounds,
            start + partial_cells(*shape) <= flat.len(),
            k <= np,
            at == start + k * r,
            rounds.len() == k,
            forall|m: int| 0 <= m < k ==> (#[trigger] rounds@[m])@.len() == r,
            forall|m: int, j: int|
                0 <= m < k && 0 <= j < r ==> #[trigger] rounds@[m]@[j] == flat@[start + m * r
                    + j],
        decreases np - k,
    {
        proof {
            assert((k + 1) * r == k * r + r) by (nonlinear_arith);
            lemma_mul_inequality(k + 1, np as int, r as int);
        }
        let sbox = read_sbox(flat, at, r);
        rounds.push(PartialRound { sbox });
        at = at + r;
        k = k + 1;
    }
    rounds
}

/// Appends the registers of `sbox` to `out`.
fn write_sbox<T: Copy>(sbox: &SBox<T>, out: &mut Vec<T>)
    ensures
        final(out)@ == old(out)@ + sbox@,
{
    let ghost before = out@;
    let n = sbox.0.len();
    let mut j: usize = 0;
    while j < n
        invariant
            n == sbox@.len(),
            j <= n,
            out@ == before + sbox@.subrange(0, j as int),
        decreases n - j,
    {
        out.push(sbox.0[j]);
        assert(out@ =~= before + sbox@.subrange(0, j + 1));
        j = j + 1;
    }
    assert(out@ =~= before + sbox@);
}

/// Appends the registers of `round` to `out`, S-box after S-box.
fn write_full_round<T: Copy>(round: &FullRound<T>, registers: usize, out: &mut Vec<T>)
    requires
        forall|i: int| 0 <= i < round@.len() ==> (#[trigger] round@[i]).len() == registers,
    ensures
        final(out).len() == old(out).len() + round@.len() * registers,
        forall|c: int| 0 <= c < old(out).len() ==> final(out)@[c] == old(out)@[c],
        forall|i: int, j: int|
            0 <= i < round@.len() && 0 <= j < registers ==> final(out)@[old(out).len() + i
                * registers + j] == #[trigger] round@[i][j],
{
    let ghost before = out@;
    let n = round.sbox.len();
    let mut i: usize = 0;
    while i < n
        invariant
            n == round@.len(),
            n == round.sbox@.len(),
            forall|m: int| 0 <= m < n ==> (#[trigger] round@[m]).len() == registers,
            i <= n,
            out.len() == before.len() + i * registers,
            forall|c: int| 0 <= c < before.len() ==> out@[c] == before[c],
            forall|m: int, j: int|
                0 <= m < i && 0 <= j < registers ==> out@[before.len() + m * registers + j]
                    == #[trigger] round@[m][j],
        decreases n - i,
    {
        let ghost mid = out@;
        assert(round@[i as int] == round.sbox@[i as int]@);
        write_sbox(&round.sbox[i], out);
        proof {
            assert((i + 1) * registers == i * registers + registers) by (nonlinear_arith);
            assert forall|m: int, j: int| 0 <= m < i + 1 && 0 <= j < registers implies out@[before.len()
                + m * registers + j] == #[trigger] round@[m][j] by {
                if m < i {
                    assert((m + 1) * registers == m * registers + registers) by (nonlinear_arith);
                    lemma_mul_inequality(m + 1, i as int, registers as int);
                    assert(out@[before.len() + m * registers + j] == mid[before.len() + m
                        * registers + j]);
                } else {
                    assert(out@[mid.len() + j] == round@[i as int][j]);
                }
            }
        }
        i = i + 1;
    }
}

/// Appends the registers of the full rounds `rounds` to `out`, round after
/// round.
fn write_full_rounds<T: Copy>(shape: &Shape, rounds: &Vec<FullRound<T>>, out: &mut Vec<T>)
    requires
        shape.wf(),
        full_rounds_shaped(*shape, full_rounds_view(rounds@)),
    ensures
        final(out).len() == old(out).len() + full_cells(*shape),
        forall|c: int| 0 <= c < old(out).len() ==> final(out)@[c] == old(out)@[c],
        forall|k: int, i: int, j: int|
            0 <= k < shape.half_full_rounds && 0 <= i < shape.width && 0 <= j
                < shape.sbox_registers ==> final(out)@[old(out).len() + full_index(
                *shape,
                k,
                i,
                j,
            )] == #[trigger] full_rounds_view(rounds@)[k][i][j],
{
    let ghost before = out@;
    let ghost view = full_rounds_view(rounds@);
    let ghost w = shape.width as int;
    let ghost r = shape.sbox_registers as int;
    let h = rounds.len();
    let mut k: usize = 0;
    while k < h
        invariant
            shape.wf(),
            w == shape.width,
            r == shape.sbox_registers,
            h == shape.half_full_rounds,
            h == rounds.len(),
            view == full_rounds_view(rounds@),
            full_rounds_shaped(*shape, view),
            k <= h,
            out.len() == before.len() + k * (w * r),
            forall|c: int| 0 <= c < before.len() ==> out@[c] == before[c],
            forall|m: int, i: int, j: int|
                0 <= m < k && 0 <= i < w && 0 <= j < r ==> out@[before.len() + full_index(
                    *shape,
                    m,
                    i,
                    j,
                )] == #[trigger] view[m][i][j],
        decreases h - k,
    {
        let ghost mid = out@;
        proof {
            assert(view[k as int] == rounds@[k as int]@);
            assert forall|i: int| 0 <= i < rounds@[k as int]@.len() implies (
            #[trigger] rounds@[k as int]@[i]).len() == r by {
                assert(view[k as int][i].len() == r);
            }
        }
        write_full_round(&rounds[k], shape.sbox_registers, out);
        proof {
            assert((k + 1) * (w * r) == k * (w * r) + w * r) by (nonlinear_arith);
            assert forall|m: int, i: int, j: int|
                0 <= m < k + 1 && 0 <= i < w && 0 <= j < r implies out@[before.len() + full_index(
                *shape,
                m,
                i,
                j,
            )] == #[trigger] view[m][i][j] by {
                assert((m * w + i) * r + j == m * (w * r) + i * r + j) by (nonlinear_arith);
                assert(0 <= i * r + j < w * r) by (nonlinear_arith)
                    requires
                        0 <= i < w,
                        0 <= j < r,
                ;
                if m < k {
                    assert((m + 1) * (w * r) == m * (w * r) + w * r) by (nonlinear_arith);
                    lemma_mul_inequality(m + 1, k as int, w * r);
                    assert(out@[before.len() + full_index(*shape, m, i, j)] == mid[before.len()
                        + full_index(*shape, m, i, j)]);
                } else {
                    assert(out@[mid.len() + i * r + j] == rounds@[k as int]@[i][j]);
                }
            }
        }
        k = k + 1;
    }
}

/// Appends the registers of the partial rounds `rounds` to `out`, round
/// after round.
fn write_partial_rounds<T: Copy>(shape: &Shape, rounds: &Vec<PartialRound<T>>, out: &mut Vec<T>)
    requires
        shape.wf(),
        rounds.len() == shape.partial_rounds,
        forall|k: int|
            0 <= k < rounds.len() ==> (#[trigger] rounds@[k])@.len() == shape.sbox_registers,
    ensures
        final(out).len() == old(out).len() + partial_cells(*shape),
        forall|c: int| 0 <= c < old(out).len() ==> final(out)@[c] == old(out)@[c],
        forall|k: int, j: int|
            0 <= k < shape.partial_rounds && 0 <= j < shape.sbox_registers ==> final(out)@[old(
                out,
            ).len() + k * shape.sbox_registers + j] == #[trigger] rounds@[k]@[j],
{
    let ghost before = out@;
    let ghost r = shape.sbox_registers as int;
    let np = rounds.len();
    let mut k: usize = 0;
    while k < np
        invariant
            shape.wf(),
            r == shape.sbox_registers,
            np == shape.partial_rounds,
            np == rounds.len(),
            forall|m: int| 0 <= m < np ==> (#[trigger] rounds@[m])@.len() == r,
            k <= np,
            out.len() == before.len() + k * r,
            forall|c: int| 0 <= c < before.len() ==> out@[c] == before[c],
            forall|m: int, j: int|
                0 <= m < k && 0 <= j < r ==> out@[before.len() + m * r + j]
                    == #[trigger] rounds@[m]@[j],
        decreases np - k,
    {
        let ghost mid = out@;
        write_sbox(&rounds[k].sbox, out);
        proof {
            assert((k + 1) * r == k * r + r) by (nonlinear_arith);
            assert forall|m: int, j: int| 0 <= m < k + 1 && 0 <= j < r implies out@[before.len()
                + m * r + j] == #[trigger] rounds@[m]@[j] by {
                if m < k {
                    assert((m + 1) * r == m * r + r) by (nonlinear_arith);
                    lemma_mul_inequality(m + 1, k as int, r);
                    assert(out@[before.len() + m * r + j] == mid[before.len() + m * r + j]);
                } else {
                    assert(out@[mid.len() + j] == rounds@[k as int]@[j]);
                }
            }
        }
        k = k + 1;
    }
}

impl<T: Copy> Poseidon2Cols<T> {
    /// Reads the flat row `flat` by the names of its columns.
    pub fn from_cells(shape: &Shape, flat: &[T]) -> (row: Poseidon2Cols<T>)
        requires
            shape.wf(),
            flat.len() == shape.cells(),
        ensures
            row@ == row_of(*shape, flat@),
    {
        proof {
            lemma_sections(*shape);
        }
        let w = shape.width;
        let export = flat[0];
        let mut inputs: Vec<T> = Vec::new();
        let mut i: usize = 0;
        while i < w
            invariant
                w == shape.width,
                1 + w <= flat.len(),
                i <= w,
                inputs.len() == i,
                forall|m: int| 0 <= m < i ==> inputs@[m] == flat@[1 + m],
            decreases w - i,
        {
            inputs.push(flat[1 + i]);
            i = i + 1;
        }
        proof {
            lemma_per_round(*shape);
        }
        let full: usize = shape.half_full_rounds * (w * shape.sbox_registers);
        let beginning_full_rounds = read_full_rounds(shape, flat, 1 + w);
        let partial_rounds = read_partial_rounds(shape, flat, 1 + w + full);
        let partial: usize = shape.partial_rounds * shape.sbox_registers;
        let ending_full_rounds = read_full_rounds(shape, flat, 1 + w + full + partial);
        let row = Poseidon2Cols {
            export,
            inputs,
            beginning_full_rounds,
            partial_rounds,
            ending_full_rounds,
        };
        proof {
            let expected = row_of(*shape, flat@);
            assert(row@.inputs =~= expected.inputs);
            assert forall|m: int, j: int|
                0 <= m < shape.partial_rounds && 0 <= j < shape.sbox_registers implies #[trigger] row@.partial_rounds[m][j]
                == expected.partial_rounds[m][j] by {
                let _ = partial_rounds@[m]@[j];
            }
            assert(row@.partial_rounds =~~= expected.partial_rounds);
            assert(row@ =~~= expected);
        }
        row
    }

    /// Appends the cells of the row to `out`, in the order of the columns.
    pub fn write_cells(&self, shape: &Shape, out: &mut Vec<T>)
        requires
            shape.wf(),
            row_shaped(*shape, self@),
        ensures
            final(out)@ == old(out)@ + cells_of(*shape, self@),
    {
        let ghost before = out@;
        let ghost row = self@;
        let ghost n = before.len() as int;
        proof {
            lemma_sections(*shape);
        }
        out.push(self.export);
        let w = self.inputs.len();
        let mut i: usize = 0;
        while i < w
            invariant
                w == self.inputs.len(),
                i <= w,
                n == before.len(),
                out.len() == n + 1 + i,
                forall|c: int| 0 <= c < n ==> out@[c] == before[c],
                out@[n] == self.export,
                forall|m: int| 0 <= m < i ==> out@[n + 1 + m] == self.inputs@[m],
            decreases w - i,
        {
            out.push(self.inputs[i]);
            i = i + 1;
        }
        let ghost with_inputs = out@;
        write_full_rounds(shape, &self.beginning_full_rounds, out);
        let ghost with_beginning = out@;
        proof {
            assert forall|k: int| 0 <= k < self.partial_rounds.len() implies (
            #[trigger] self.partial_rounds@[k])@.len() == shape.sbox_registers by {
                assert(row.partial_rounds[k] == self.partial_rounds@[k]@);
            }
        }
        write_partial_rounds(shape, &self.partial_rounds, out);
        let ghost with_partial = out@;
        write_full_rounds(shape, &self.ending_full_rounds, out);
        proof {
            let expected = before + cells_of(*shape, row);
            assert(out.len() == n + shape.cells());
            assert forall|c: int| 0 <= c < shape.cells() implies out@[n + c] == cell_of(
                *shape,
                row,
                c,
            ) by {
                let r = shape.sbox_registers as int;
                if c == 0 {
                    assert(out@[n] == with_inputs[n]);
                } else if c < beginning_start(*shape) {
                    assert(out@[n + c] == with_inputs[n + 1 + (c - 1)]);
                } else if c < partial_start(*shape) {
                    let q = c - beginning_start(*shape);
                    lemma_full_place(*shape, q);
                    let k = q / (shape.width * r);
                    let i = (q / r) % (shape.width as int);
                    let j = q % r;
                    let _ = row.beginning_full_rounds[k][i][j];
                    assert(with_beginning[with_inputs.len() + full_index(*shape, k, i, j)]
                        == row.beginning_full_rounds[k][i][j]);
                    assert(out@[n + c] == with_beginning[n + c]);
                } else if c < ending_start(*shape) {
                    let q = c - partial_start(*shape);
                    lemma_partial_place(*shape, q);
                    let k = q / r;
                    let j = q % r;
                    assert(with_partial[with_beginning.len() + k * r + j]
                        == self.partial_rounds@[k]@[j]);
                    assert(row.partial_rounds[k] == self.partial_rounds@[k]@);
                    assert(out@[n + c] == with_partial[n + c]);
                } else {
                    let q = c - ending_start(*shape);
                    lemma_full_place(*shape, q);
                    let k = q / (shape.width * r);
                    let i = (q / r) % (shape.width as int);
                    let j = q % r;
                    let _ = row.ending_full_rounds[k][i][j];
                    assert(out@[with_partial.len() + full_index(*shape, k, i, j)]
                        == row.ending_full_rounds[k][i][j]);
                }
            }
            assert(out@ =~= expected);
        }
    }
}

/// The columns of a row, each holding its own index in the flat row.
pub fn make_col_map(shape: &Shape) -> (cols: Poseidon2Cols<usize>)
    requires
        shape.wf(),
    ensures
        cols@ == row_of(*shape, Seq::new(shape.cells() as nat, |c: int| c as usize)),
        cols.inputs.len() == shape.width,
{
    let n = num_cols(shape);
    let mut indices: Vec<usize> = Vec::new();
    let mut c: usize = 0;
    while c < n
        invariant
            c <= n,
            indices.len() == c,
            forall|m: int| 0 <= m < c ==> indices@[m] == m,
        decreases n - c,
    {
        indices.push(c);
        c = c + 1;
    }
    assert(indices@ =~= Seq::new(shape.cells() as nat, |c: int| c as usize));
    Poseidon2Cols::from_cells(shape, indices.as_slice())
}

} // verus!
