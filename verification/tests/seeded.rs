use p3_goldilocks::{
    HL_GOLDILOCKS_8_EXTERNAL_ROUND_CONSTANTS, HL_GOLDILOCKS_8_INTERNAL_ROUND_CONSTANTS,
    MATRIX_DIAG_8_GOLDILOCKS_U64,
};
use poseidon2_air::air::Poseidon2Air;
use poseidon2_air::columns::Shape;
use poseidon2_air::field::Field;
use poseidon2_air::generation::{generate_trace_rows, generate_trace_rows_for_perm};
use poseidon2_air::linear::LinearLayer;

const GOLDILOCKS: u64 = 0xFFFF_FFFF_0000_0001;

fn goldilocks_shape() -> Shape {
    Shape {
        width: 8,
        sbox_degree: 7,
        sbox_registers: 3,
        half_full_rounds: 4,
        partial_rounds: 22,
    }
}

fn goldilocks_air() -> Poseidon2Air {
    let beginning: Vec<Vec<u64>> = HL_GOLDILOCKS_8_EXTERNAL_ROUND_CONSTANTS[..4]
        .iter()
        .map(|row| row.to_vec())
        .collect();
    let ending: Vec<Vec<u64>> = HL_GOLDILOCKS_8_EXTERNAL_ROUND_CONSTANTS[4..]
        .iter()
        .map(|row| row.to_vec())
        .collect();
    Poseidon2Air::new_from_rng(
        Field { order: GOLDILOCKS },
        goldilocks_shape(),
        LinearLayer::new(8),
        beginning,
        HL_GOLDILOCKS_8_INTERNAL_ROUND_CONSTANTS.to_vec(),
        ending,
        MATRIX_DIAG_8_GOLDILOCKS_U64.to_vec(),
    )
    .unwrap()
}

const SEEDED_INPUT: [u64; 8] = [
    5116996373749832116,
    8931548647907683339,
    17132360229780760684,
    11280040044015983889,
    11957737519043010992,
    15695650327991256125,
    17604752143022812942,
    543194415197607509,
];

const SEEDED_OUTPUT: [u64; 8] = [
    1831346684315917658,
    13497752062035433374,
    12149460647271516589,
    15656333994315312197,
    4671534937670455565,
    3140092508031220630,
    4251208148861706881,
    6973971209430822232,
];

const ZERO_OUTPUT: [u64; 8] = [
    4214787979728720400,
    12324939279576102560,
    10353596058419792404,
    15456793487362310586,
    10065219879212154722,
    16227496357546636742,
    2959271128466640042,
    14285409611125725709,
];

#[test]
fn seeded_goldilocks_permutation() {
    let air = goldilocks_air();
    let (row, state) = generate_trace_rows_for_perm(&air, &SEEDED_INPUT.to_vec());
    assert_eq!(state, SEEDED_OUTPUT.to_vec());
    assert_eq!(row.inputs, SEEDED_INPUT.to_vec());
    assert_eq!(row.export, 0);
}

#[test]
fn zero_input_goldilocks_permutation() {
    let air = goldilocks_air();
    let (row, state) = generate_trace_rows_for_perm(&air, &vec![0u64; 8]);
    assert_eq!(state, ZERO_OUTPUT.to_vec());
    assert_eq!(row.inputs, vec![0u64; 8]);
}

#[test]
fn range_input_goldilocks_permutation() {
    let air = goldilocks_air();
    let input: Vec<u64> = (0..8).collect();
    let (_, state) = generate_trace_rows_for_perm(&air, &input);
    assert_eq!(
        state,
        vec![
            14266028122062624699,
            5353147180106052723,
            15203350112844181434,
            17630919042639565165,
            16601551015858213987,
            10184091939013874068,
            16774100645754596496,
            12047415603622314780,
        ]
    );
}

#[test]
fn seeded_goldilocks_trace_has_one_row() {
    let air = goldilocks_air();
    let trace = generate_trace_rows(
        &air.field,
        &air.shape,
        vec![SEEDED_INPUT.to_vec()],
        air.beginning_full_round_constants.clone(),
        air.partial_round_constants.clone(),
        air.ending_full_round_constants.clone(),
        air.internal_matrix_diagonal.clone(),
    )
    .unwrap();
    assert_eq!(trace.width, 1 + 8 + 2 * 4 * 8 * 3 + 22 * 3);
    assert_eq!(trace.values.len(), trace.width);
    assert_eq!(&trace.values[1..9], &SEEDED_INPUT[..]);
}
