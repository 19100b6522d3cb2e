//! What the permutation computes, and what a row records of it.
//!
//! Everything here is specification: states are sequences of residues, and
//! the witness of an input is the row that the generator must produce and
//! that the constraints must accept.

use crate::columns::{Row, Shape};
use crate::layout::{full_rounds_shaped, row_shaped};
use crate::field::{fadd, fpow};
use crate::linear::{external_layer, internal_layer};
use crate::sbox::{sbox_layer, sbox_registers};
use vstd::prelude::*;

verus! {

/// One instance of the permutation: the field, the shape and the constants.
pub struct Instance {
    /// The order of the field.
    pub p: int,
    /// The number of cells of the state.
    pub width: int,
    /// The degree of the S-box.
    pub degree: int,
    /// The number of registers of each S-box.
    pub registers: int,
    /// The number of full rounds in each half.
    pub half_full_rounds: int,
    /// The number of partial rounds.
    pub partial_rounds: int,
    /// The constants of the beginning full rounds, one vector for each round.
    pub beginning: Seq<Seq<int>>,
    /// The constants of the partial rounds, one for each round.
    pub partial: Seq<int>,
    /// The constants of the ending full rounds, one vector for each round.
    pub ending: Seq<Seq<int>>,
    /// The diagonal of the internal layer.
    pub diagonal: Seq<int>,
}

/// The state `s` with the constants `rc` added cell by cell.
pub open spec fn add_constants(p: int, s: Seq<int>, rc: Seq<int>) -> Seq<int> {
    Seq::new(s.len(), |i: int| fadd(p, s[i], rc[i]))
}

impl Instance {
    /// The state after one full round with constants `rc` from `s`.
    pub open spec fn full_round(self, s: Seq<int>, rc: Seq<int>) -> Seq<int> {
        external_layer(self.p, sbox_layer(self.p, self.degree, add_constants(self.p, s, rc)))
    }

    /// The state after one partial round with constant `c` from `s`.
    pub open spec fn partial_round(self, s: Seq<int>, c: int) -> Seq<int> {
        internal_layer(
            self.p,
            s.update(0, fpow(self.p, fadd(self.p, s[0], c), self.degree as nat)),
            self.diagonal,
        )
    }

    /// The state after the first `k` of the full rounds with constants `rcs`
    /// from `s`.
    pub open spec fn after_full_rounds(self, s: Seq<int>, rcs: Seq<Seq<int>>, k: nat) -> Seq<int>
        decreases k,
    {
        if k == 0 {
            s
        } else {
            self.full_round(self.after_full_rounds(s, rcs, (k - 1) as nat), rcs[k - 1])
        }
    }

    /// The state after the first `k` partial rounds from `s`.
    pub open spec fn after_partial_rounds(self, s: Seq<int>, k: nat) -> Seq<int>
        decreases k,
    {
        if k == 0 {
            s
        } else {
            self.partial_round(self.after_partial_rounds(s, (k - 1) as nat), self.partial[k - 1])
        }
    }

    /// The state that enters the beginning full rounds.
    pub open spec fn entering_beginning(self, input: Seq<int>) -> Seq<int> {
        external_layer(self.p, input)
    }

    /// The state that enters the partial rounds.
    pub open spec fn entering_partial(self, input: Seq<int>) -> Seq<int> {
        self.after_full_rounds(
            self.entering_beginning(input),
            self.beginning,
            self.half_full_rounds as nat,
        )
    }

    /// The state that enters the ending full rounds.
    pub open spec fn entering_ending(self, input: Seq<int>) -> Seq<int> {
        self.after_partial_rounds(self.entering_partial(input), self.partial_rounds as nat)
    }

    /// The permutation of `input`: the first external layer, the beginning
    /// full rounds, the partial rounds and the ending full rounds.
    pub open spec fn permutation(self, input: Seq<int>) -> Seq<int> {
        self.after_full_rounds(self.entering_ending(input), self.ending, self.half_full_rounds as nat)
    }

    /// The registers of one full round with constants `rc` from `s`.
    pub open spec fn full_round_registers(self, s: Seq<int>, rc: Seq<int>) -> Seq<Seq<int>> {
        Seq::new(
            s.len(),
            |i: int| sbox_registers(self.p, self.degree, self.registers, fadd(self.p, s[i], rc[i])),
        )
    }

    /// The registers of one partial round with constant `c` from `s`.
    pub open spec fn partial_round_registers(self, s: Seq<int>, c: int) -> Seq<int> {
        sbox_registers(self.p, self.degree, self.registers, fadd(self.p, s[0], c))
    }

    /// The registers of the full rounds with constants `rcs` from `s`.
    pub open spec fn full_rounds_registers(self, s: Seq<int>, rcs: Seq<Seq<int>>) -> Seq<
        Seq<Seq<int>>,
    > {
        Seq::new(
            self.half_full_rounds as nat,
            |k: int| self.full_round_registers(self.after_full_rounds(s, rcs, k as nat), rcs[k]),
        )
    }

    /// The registers of the partial rounds from `s`.
    pub open spec fn partial_rounds_registers(self, s: Seq<int>) -> Seq<Seq<int>> {
        Seq::new(
            self.partial_rounds as nat,
            |k: int|
                self.partial_round_registers(self.after_partial_rounds(s, k as nat), self.partial[k]),
        )
    }

    /// The row that records the permutation of `input`.
    pub open spec fn witness(self, input: Seq<int>) -> Row<int> {
        Row {
            export: 0,
            inputs: input,
            beginning_full_rounds: self.full_rounds_registers(
                self.entering_beginning(input),
                self.beginning,
            ),
            partial_rounds: self.partial_rounds_registers(self.entering_partial(input)),
            ending_full_rounds: self.full_rounds_registers(
                self.entering_ending(input),
                self.ending,
            ),
        }
    }

    /// Whether `row` records the permutation of its own input. The reserved
    /// cell is free.
    pub open spec fn accepts(self, row: Row<int>) -> bool {
        let w = self.witness(row.inputs);
        &&& row.beginning_full_rounds == w.beginning_full_rounds
        &&& row.partial_rounds == w.partial_rounds
        &&& row.ending_full_rounds == w.ending_full_rounds
    }
}

impl Instance {
    /// The shape of the rows of this instance.
    pub open spec fn describes(self, shape: Shape) -> bool {
        &&& self.width == shape.width
        &&& self.degree == shape.sbox_degree
        &&& self.registers == shape.sbox_registers
        &&& self.half_full_rounds == shape.half_full_rounds
        &&& self.partial_rounds == shape.partial_rounds
    }

    /// Full rounds keep the number of cells of the state.
    pub proof fn lemma_full_rounds_len(self, s: Seq<int>, rcs: Seq<Seq<int>>, k: nat)
        ensures
            self.after_full_rounds(s, rcs, k).len() == s.len(),
        decreases k,
    {
        if k > 0 {
            self.lemma_full_rounds_len(s, rcs, (k - 1) as nat);
        }
    }

    /// Partial rounds keep the number of cells of the state.
    pub proof fn lemma_partial_rounds_len(self, s: Seq<int>, k: nat)
        requires
            s.len() > 0,
        ensures
            self.after_partial_rounds(s, k).len() == s.len(),
        decreases k,
    {
        if k > 0 {
            self.lemma_partial_rounds_len(s, (k - 1) as nat);
        }
    }

    /// The registers of the full rounds have the shape of the rows.
    pub proof fn lemma_full_rounds_shaped(self, shape: Shape, s: Seq<int>, rcs: Seq<Seq<int>>)
        requires
            self.describes(shape),
            s.len() == shape.width,
        ensures
            full_rounds_shaped(shape, self.full_rounds_registers(s, rcs)),
    {
        let regs = self.full_rounds_registers(s, rcs);
        assert forall|k: int| 0 <= k < regs.len() implies (#[trigger] regs[k]).len()
            == shape.width by {
            self.lemma_full_rounds_len(s, rcs, k as nat);
        }
        assert forall|k: int, i: int| 0 <= k < regs.len() && 0 <= i < shape.width implies (
        #[trigger] regs[k][i]).len() == shape.sbox_registers by {
            self.lemma_full_rounds_len(s, rcs, k as nat);
        }
    }

    /// The witness of an input of the right width has the shape of the rows.
    pub proof fn lemma_witness_shaped(self, shape: Shape, input: Seq<int>)
        requires
            self.describes(shape),
            input.len() == shape.width,
            shape.width > 0,
        ensures
            row_shaped(shape, self.witness(input)),
            self.permutation(input).len() == shape.width,
    {
        let h = self.half_full_rounds as nat;
        let s0 = self.entering_beginning(input);
        let s1 = self.entering_partial(input);
        let s2 = self.entering_ending(input);
        self.lemma_full_rounds_len(s0, self.beginning, h);
        self.lemma_partial_rounds_len(s1, self.partial_rounds as nat);
        self.lemma_full_rounds_len(s2, self.ending, h);
        self.lemma_full_rounds_shaped(shape, s0, self.beginning);
        self.lemma_full_rounds_shaped(shape, s2, self.ending);
    }
}

} // verus!
