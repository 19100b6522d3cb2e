use p3_goldilocks::{
    HL_GOLDILOCKS_8_EXTERNAL_ROUND_CONSTANTS, HL_GOLDILOCKS_8_INTERNAL_ROUND_CONSTANTS,
    MATRIX_DIAG_8_GOLDILOCKS_U64,
};
use poseidon2_air::air::Poseidon2Air;
use poseidon2_air::columns::{num_cols, Poseidon2Cols, Shape};
use poseidon2_air::error::ConfigError;
use poseidon2_air::field::Field;
use poseidon2_air::generation::{
    add_full_round_constants, add_partial_round_constant, generate_trace_rows,
    generate_trace_rows_for_perm, is_power_of_two,
};
use poseidon2_air::linear::LinearLayer;

const GOLDILOCKS: u64 = 0xFFFF_FFFF_0000_0001;

struct Setup {
    field: Field,
    shape: Shape,
    beginning: Vec<Vec<u64>>,
    partial: Vec<u64>,
    ending: Vec<Vec<u64>>,
    diagonal: Vec<u64>,
}

fn hl_setup() -> Setup {
    Setup {
        field: Field { order: GOLDILOCKS },
        shape: Shape {
            width: 8,
            sbox_degree: 7,
            sbox_registers: 3,
            half_full_rounds: 4,
            partial_rounds: 22,
        },
        beginning: HL_GOLDILOCKS_8_EXTERNAL_ROUND_CONSTANTS[..4].iter().map(|r| r.to_vec()).collect(),
        partial: HL_GOLDILOCKS_8_INTERNAL_ROUND_CONSTANTS.to_vec(),
        ending: HL_GOLDILOCKS_8_EXTERNAL_ROUND_CONSTANTS[4..].iter().map(|r| r.to_vec()).collect(),
        diagonal: MATRIX_DIAG_8_GOLDILOCKS_U64.to_vec(),
    }
}

fn sample(n: usize, seed: u64, order: u64) -> Vec<u64> {
    let mut s = seed;
    (0..n)
        .map(|_| {
            s = s.wrapping_mul(6364136223846793005).wrapping_add(1442695040888963407);
            (s >> 1) % order
        })
        .collect()
}

fn random_setup(order: u64, w: usize, d: usize, r: usize, h: usize, p: usize, seed: u64) -> Setup {
    Setup {
        field: Field { order },
        shape: Shape {
            width: w,
            sbox_degree: d,
            sbox_registers: r,
            half_full_rounds: h,
            partial_rounds: p,
        },
        beginning: (0..h).map(|k| sample(w, seed + k as u64, order)).collect(),
        partial: sample(p, seed + 1000, order),
        ending: (0..h).map(|k| sample(w, seed + 2000 + k as u64, order)).collect(),
        diagonal: sample(w, seed + 3000, order),
    }
}

fn run(s: &Setup, inputs: Vec<Vec<u64>>) -> Result<p3_matrix::dense::RowMajorMatrix<u64>, ConfigError> {
    generate_trace_rows(
        &s.field,
        &s.shape,
        inputs,
        s.beginning.clone(),
        s.partial.clone(),
        s.ending.clone(),
        s.diagonal.clone(),
    )
}

fn air_of(s: &Setup) -> Poseidon2Air {
    Poseidon2Air::new_from_rng(
        s.field,
        s.shape,
        LinearLayer::new(s.shape.width),
        s.beginning.clone(),
        s.partial.clone(),
        s.ending.clone(),
        s.diagonal.clone(),
    )
    .unwrap()
}

fn pow_mod(order: u64, x: u64, e: u32) -> u64 {
    let mut acc: u128 = 1 % order as u128;
    for _ in 0..e {
        acc = acc * (x as u128) % order as u128;
    }
    acc as u64
}

#[test]
fn power_of_two_test() {
    assert!(!is_power_of_two(0));
    assert!(is_power_of_two(1));
    assert!(is_power_of_two(2));
    assert!(!is_power_of_two(3));
    assert!(is_power_of_two(4));
    assert!(!is_power_of_two(6));
    assert!(is_power_of_two(1 << 20));
    assert!(!is_power_of_two((1 << 20) + 1));
    assert!(is_power_of_two(1 << (usize::BITS - 1)));
    assert!(!is_power_of_two(usize::MAX));
}

#[test]
fn add_constants_to_every_cell() {
    let f = Field { order: 97 };
    let mut s = vec![1u64, 96, 50];
    add_full_round_constants(&f, &mut s, &vec![1, 2, 47]);
    assert_eq!(s, vec![2, 1, 0]);
}

#[test]
fn add_constant_to_first_cell_only() {
    let f = Field { order: 97 };
    let mut s = vec![95u64, 96, 50];
    add_partial_round_constant(&f, &mut s, 5);
    assert_eq!(s, vec![3, 96, 50]);
}

#[test]
fn one_input_gives_one_row() {
    let s = hl_setup();
    let trace = run(&s, vec![vec![1, 2, 3, 4, 5, 6, 7, 8]]).unwrap();
    assert_eq!(trace.width, 267);
    assert_eq!(trace.values.len(), 267);
}

#[test]
fn trace_has_a_row_for_each_input() {
    let s = hl_setup();
    for log in 0..4 {
        let n = 1usize << log;
        let inputs: Vec<Vec<u64>> = (0..n).map(|k| sample(8, k as u64, GOLDILOCKS)).collect();
        let trace = run(&s, inputs.clone()).unwrap();
        assert_eq!(trace.width, num_cols(&s.shape));
        assert_eq!(trace.values.len(), n * num_cols(&s.shape));
        let air = air_of(&s);
        for k in 0..n {
            let (row, _) = generate_trace_rows_for_perm(&air, &inputs[k]);
            let mut flat = Vec::new();
            row.write_cells(&s.shape, &mut flat);
            assert_eq!(&trace.values[k * 267..(k + 1) * 267], &flat[..]);
            assert_eq!(&trace.values[k * 267 + 1..k * 267 + 9], &inputs[k][..]);
            assert_eq!(trace.values[k * 267], 0);
        }
    }
}

#[test]
fn batch_sizes_that_are_not_powers_of_two_are_refused() {
    let s = hl_setup();
    for n in [0usize, 3, 5, 6, 7, 9, 12] {
        let inputs: Vec<Vec<u64>> = (0..n).map(|_| vec![0u64; 8]).collect();
        assert_eq!(run(&s, inputs).err(), Some(ConfigError::BatchSize));
    }
}

#[test]
fn inputs_of_another_width_are_refused() {
    let s = hl_setup();
    assert_eq!(run(&s, vec![vec![0u64; 7]]).err(), Some(ConfigError::InputShape));
    assert_eq!(run(&s, vec![vec![0u64; 8], vec![0u64; 9]]).err(), Some(ConfigError::InputShape));
}

#[test]
fn inputs_that_are_not_canonical_are_refused() {
    let s = hl_setup();
    let mut input = vec![0u64; 8];
    input[5] = GOLDILOCKS;
    assert_eq!(run(&s, vec![input]).err(), Some(ConfigError::NotCanonical));
}

#[test]
fn configuration_errors_come_before_batch_errors() {
    let mut s = hl_setup();
    s.shape.width = 4;
    assert_eq!(run(&s, vec![vec![0u64; 4]; 3]).err(), Some(ConfigError::UnsupportedWidth));
    let mut s = hl_setup();
    s.shape.sbox_degree = 6;
    assert_eq!(run(&s, vec![vec![0u64; 8]]).err(), Some(ConfigError::UnsupportedDegree));
    let mut s = hl_setup();
    s.shape.sbox_registers = 2;
    assert_eq!(run(&s, vec![vec![0u64; 8]]).err(), Some(ConfigError::RegisterCount));
    let mut s = hl_setup();
    s.field.order = 1;
    assert_eq!(run(&s, vec![vec![0u64; 8]]).err(), Some(ConfigError::FieldOrder));
    let mut s = hl_setup();
    s.partial.pop();
    assert_eq!(run(&s, vec![vec![0u64; 8]]).err(), Some(ConfigError::ConstantsShape));
    let mut s = hl_setup();
    s.diagonal[0] = u64::MAX;
    assert_eq!(run(&s, vec![vec![0u64; 8]]).err(), Some(ConfigError::NotCanonical));
    let mut s = hl_setup();
    s.shape.half_full_rounds = usize::MAX;
    assert_eq!(run(&s, vec![vec![0u64; 8]]).err(), Some(ConfigError::TooLarge));
}

#[test]
fn zero_input_with_zero_constants_fills_zeros() {
    let mut s = hl_setup();
    s.beginning = vec![vec![0u64; 8]; 4];
    s.partial = vec![0u64; 22];
    s.ending = vec![vec![0u64; 8]; 4];
    let trace = run(&s, vec![vec![0u64; 8]]).unwrap();
    assert_eq!(trace.values, vec![0u64; 267]);
}

#[test]
fn zero_input_registers_are_cubes_of_the_first_constants() {
    let s = hl_setup();
    let first = run(&s, vec![vec![0u64; 8]]).unwrap();
    let second = run(&s, vec![vec![0u64; 8]]).unwrap();
    assert_eq!(first.values, second.values);
    let row = Poseidon2Cols::from_cells(&s.shape, &first.values);
    assert_eq!(row.inputs, vec![0u64; 8]);
    for i in 0..8 {
        let c = s.beginning[0][i];
        let regs = &row.beginning_full_rounds[0].sbox[i].0;
        assert_ne!(regs[0], 0);
        assert_eq!(regs[0], pow_mod(GOLDILOCKS, c, 3));
        assert_eq!(regs[1], pow_mod(GOLDILOCKS, c, 6));
        assert_eq!(regs[2], pow_mod(GOLDILOCKS, c, 7));
    }
}

#[test]
fn row_records_the_raw_input() {
    let s = hl_setup();
    let input = sample(8, 42, GOLDILOCKS);
    let (row, _) = generate_trace_rows_for_perm(&air_of(&s), &input);
    assert_eq!(row.inputs, input);
    assert_eq!(row.export, 0);
    // The first registers are those of the input after the external layer
    // and the first constants.
    let mut state = input.clone();
    LinearLayer::new(8).matmul_external(&s.field, &mut state).unwrap();
    for i in 0..8 {
        let x = s.field.add(state[i], s.beginning[0][i]);
        assert_eq!(row.beginning_full_rounds[0].sbox[i].0[0], pow_mod(GOLDILOCKS, x, 3));
        assert_eq!(row.beginning_full_rounds[0].sbox[i].0[2], pow_mod(GOLDILOCKS, x, 7));
    }
}

#[test]
fn permutation_by_hand_on_a_tiny_instance() {
    // Width 2, degree 3, no full rounds, one partial round, modulo 97.
    // Input (1, 2): external layer gives (4, 5); the partial round adds 10 to
    // the first cell, cubes it (14^3 = 2744 = 28 modulo 97) and applies
    // [[2, 1], [1, 3]]: (2 * 28 + 5, 28 + 3 * 5) = (61, 43).
    let s = Setup {
        field: Field { order: 97 },
        shape: Shape {
            width: 2,
            sbox_degree: 3,
            sbox_registers: 1,
            half_full_rounds: 0,
            partial_rounds: 1,
        },
        beginning: vec![],
        partial: vec![10],
        ending: vec![],
        diagonal: vec![0, 0],
    };
    let (row, state) = generate_trace_rows_for_perm(&air_of(&s), &vec![1, 2]);
    assert_eq!(state, vec![61, 43]);
    let mut flat = Vec::new();
    row.write_cells(&s.shape, &mut flat);
    assert_eq!(flat, vec![0, 1, 2, 28]);
    assert_eq!(run(&s, vec![vec![1, 2]]).unwrap().values, vec![0, 1, 2, 28]);
}

#[test]
fn full_round_by_hand_on_a_tiny_instance() {
    // Width 2, degree 3, one full round in each half, no partial round,
    // modulo 97. Input (1, 2) enters as (4, 5). Beginning constants (1, 2):
    // (5, 7), cubed (28, 52), mixed (2*28+52, 28+2*52) = (108, 132) = (11, 35).
    // Ending constants (0, 3): (11, 38), cubed (1331, 54872) = (70, 67),
    // mixed (207, 204) = (13, 10).
    let s = Setup {
        field: Field { order: 97 },
        shape: Shape {
            width: 2,
            sbox_degree: 3,
            sbox_registers: 1,
            half_full_rounds: 1,
            partial_rounds: 0,
        },
        beginning: vec![vec![1, 2]],
        partial: vec![],
        ending: vec![vec![0, 3]],
        diagonal: vec![0, 0],
    };
    let (_, state) = generate_trace_rows_for_perm(&air_of(&s), &vec![1, 2]);
    assert_eq!(state, vec![13, 10]);
    assert_eq!(run(&s, vec![vec![1, 2]]).unwrap().values, vec![0, 1, 2, 28, 52, 70, 67]);
    assert_eq!(run(&s, vec![vec![1, 2]]).unwrap().width, 7);
}

#[test]
fn other_shapes_fill_their_rows() {
    for (w, d, r) in [(12usize, 5usize, 2usize), (8, 3, 1), (16, 11, 3), (2, 7, 3), (3, 5, 2), (20, 7, 3), (24, 3, 1)] {
        let s = random_setup(GOLDILOCKS, w, d, r, 4, 22, (w * d) as u64);
        let inputs: Vec<Vec<u64>> = (0..2).map(|k| sample(w, 77 + k, GOLDILOCKS)).collect();
        let trace = run(&s, inputs).unwrap();
        assert_eq!(trace.width, 1 + w + 2 * 4 * w * r + 22 * r);
        assert_eq!(trace.values.len(), 2 * trace.width);
        assert!(trace.values.iter().all(|v| *v < GOLDILOCKS));
    }
}
