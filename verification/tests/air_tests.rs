use p3_goldilocks::{
    HL_GOLDILOCKS_8_EXTERNAL_ROUND_CONSTANTS, HL_GOLDILOCKS_8_INTERNAL_ROUND_CONSTANTS,
    MATRIX_DIAG_8_GOLDILOCKS_U64,
};
use poseidon2_air::air::{
    constants_as, eval_full_round, eval_partial_round, eval_sbox, load, load_last_product,
    load_product, Poseidon2Air,
};
use poseidon2_air::columns::{make_col_map, num_cols, FullRound, PartialRound, SBox, Shape};
use poseidon2_air::constraints::{Constraint, ConstraintBuilder};
use poseidon2_air::error::ConfigError;
use poseidon2_air::expr::Expr;
use poseidon2_air::field::Field;
use poseidon2_air::generation::generate_trace_rows_for_perm;
use poseidon2_air::linear::LinearLayer;
use poseidon2_air::sbox::generate_sbox;

const GOLDILOCKS: u64 = 0xFFFF_FFFF_0000_0001;

fn sample(n: usize, seed: u64, order: u64) -> Vec<u64> {
    let mut s = seed;
    (0..n)
        .map(|_| {
            s = s.wrapping_mul(6364136223846793005).wrapping_add(1442695040888963407);
            (s >> 1) % order
        })
        .collect()
}

fn hl_air() -> Poseidon2Air {
    Poseidon2Air::new_from_rng(
        Field { order: GOLDILOCKS },
        Shape {
            width: 8,
            sbox_degree: 7,
            sbox_registers: 3,
            half_full_rounds: 4,
            partial_rounds: 22,
        },
        LinearLayer::new(8),
        HL_GOLDILOCKS_8_EXTERNAL_ROUND_CONSTANTS[..4].iter().map(|r| r.to_vec()).collect(),
        HL_GOLDILOCKS_8_INTERNAL_ROUND_CONSTANTS.to_vec(),
        HL_GOLDILOCKS_8_EXTERNAL_ROUND_CONSTANTS[4..].iter().map(|r| r.to_vec()).collect(),
        MATRIX_DIAG_8_GOLDILOCKS_U64.to_vec(),
    )
    .unwrap()
}

fn random_air(order: u64, w: usize, d: usize, r: usize, h: usize, p: usize, seed: u64) -> Poseidon2Air {
    Poseidon2Air::new_from_rng(
        Field { order },
        Shape {
            width: w,
            sbox_degree: d,
            sbox_registers: r,
            half_full_rounds: h,
            partial_rounds: p,
        },
        LinearLayer::new(w),
        (0..h).map(|k| sample(w, seed + k as u64, order)).collect(),
        sample(p, seed + 1000, order),
        (0..h).map(|k| sample(w, seed + 2000 + k as u64, order)).collect(),
        sample(w, seed + 3000, order),
    )
    .unwrap()
}

fn flat_row(air: &Poseidon2Air, input: &Vec<u64>) -> (Vec<u64>, Vec<u64>) {
    let (row, state) = generate_trace_rows_for_perm(air, input);
    let mut flat = Vec::new();
    row.write_cells(&air.shape, &mut flat);
    (flat, state)
}

fn var(c: usize) -> Box<Expr> {
    Box::new(Expr::Var(c))
}

#[test]
fn new_from_rng_keeps_the_constants() {
    let air = hl_air();
    assert_eq!(air.field, Field { order: GOLDILOCKS });
    assert_eq!(air.layer, LinearLayer { width: 8 });
    assert_eq!(air.beginning_full_round_constants.len(), 4);
    assert_eq!(air.beginning_full_round_constants[0], HL_GOLDILOCKS_8_EXTERNAL_ROUND_CONSTANTS[0].to_vec());
    assert_eq!(air.ending_full_round_constants[3], HL_GOLDILOCKS_8_EXTERNAL_ROUND_CONSTANTS[7].to_vec());
    assert_eq!(air.partial_round_constants, HL_GOLDILOCKS_8_INTERNAL_ROUND_CONSTANTS.to_vec());
    assert_eq!(air.internal_matrix_diagonal, MATRIX_DIAG_8_GOLDILOCKS_U64.to_vec());
}

fn build(
    order: u64,
    shape: Shape,
    layer: usize,
    b: Vec<Vec<u64>>,
    p: Vec<u64>,
    e: Vec<Vec<u64>>,
    d: Vec<u64>,
) -> Option<ConfigError> {
    Poseidon2Air::new_from_rng(Field { order }, shape, LinearLayer::new(layer), b, p, e, d).err()
}

#[test]
fn new_from_rng_refusals() {
    let shape = Shape {
        width: 2,
        sbox_degree: 5,
        sbox_registers: 2,
        half_full_rounds: 1,
        partial_rounds: 2,
    };
    let b = vec![vec![1u64, 2]];
    let p = vec![3u64, 4];
    let e = vec![vec![5u64, 6]];
    let d = vec![7u64, 8];
    assert_eq!(build(97, shape, 2, b.clone(), p.clone(), e.clone(), d.clone()), None);
    assert_eq!(
        build(1, shape, 2, b.clone(), p.clone(), e.clone(), d.clone()),
        Some(ConfigError::FieldOrder)
    );
    assert_eq!(
        build(0, shape, 2, b.clone(), p.clone(), e.clone(), d.clone()),
        Some(ConfigError::FieldOrder)
    );
    assert_eq!(
        build(97, Shape { width: 4, ..shape }, 4, b.clone(), p.clone(), e.clone(), d.clone()),
        Some(ConfigError::UnsupportedWidth)
    );
    assert_eq!(
        build(97, Shape { sbox_degree: 9, ..shape }, 2, b.clone(), p.clone(), e.clone(), d.clone()),
        Some(ConfigError::UnsupportedDegree)
    );
    assert_eq!(
        build(97, Shape { sbox_degree: 12, ..shape }, 2, b.clone(), p.clone(), e.clone(), d.clone()),
        Some(ConfigError::UnsupportedDegree)
    );
    assert_eq!(
        build(97, Shape { sbox_registers: 0, ..shape }, 2, b.clone(), p.clone(), e.clone(), d.clone()),
        Some(ConfigError::RegisterCount)
    );
    assert_eq!(
        build(97, Shape { sbox_registers: 3, ..shape }, 2, b.clone(), p.clone(), e.clone(), d.clone()),
        Some(ConfigError::RegisterCount)
    );
    assert_eq!(
        build(97, Shape { partial_rounds: usize::MAX, ..shape }, 2, b.clone(), p.clone(), e.clone(), d.clone()),
        Some(ConfigError::TooLarge)
    );
    assert_eq!(
        build(97, shape, 3, b.clone(), p.clone(), e.clone(), d.clone()),
        Some(ConfigError::WidthMismatch)
    );
    assert_eq!(
        build(97, shape, 2, vec![], p.clone(), e.clone(), d.clone()),
        Some(ConfigError::ConstantsShape)
    );
    assert_eq!(
        build(97, shape, 2, vec![vec![1, 2, 3]], p.clone(), e.clone(), d.clone()),
        Some(ConfigError::ConstantsShape)
    );
    assert_eq!(
        build(97, shape, 2, b.clone(), vec![3], e.clone(), d.clone()),
        Some(ConfigError::ConstantsShape)
    );
    assert_eq!(
        build(97, shape, 2, b.clone(), p.clone(), vec![vec![5, 6], vec![5, 6]], d.clone()),
        Some(ConfigError::ConstantsShape)
    );
    assert_eq!(
        build(97, shape, 2, b.clone(), p.clone(), e.clone(), vec![7]),
        Some(ConfigError::ConstantsShape)
    );
    assert_eq!(
        build(97, shape, 2, vec![vec![1, 97]], p.clone(), e.clone(), d.clone()),
        Some(ConfigError::NotCanonical)
    );
    assert_eq!(
        build(97, shape, 2, b.clone(), vec![3, 200], e.clone(), d.clone()),
        Some(ConfigError::NotCanonical)
    );
    assert_eq!(
        build(97, shape, 2, b.clone(), p.clone(), vec![vec![100, 6]], d.clone()),
        Some(ConfigError::NotCanonical)
    );
    assert_eq!(
        build(97, shape, 2, b.clone(), p.clone(), e.clone(), vec![97, 8]),
        Some(ConfigError::NotCanonical)
    );
}

#[test]
fn width_is_the_number_of_columns() {
    assert_eq!(hl_air().width(), 267);
    assert_eq!(random_air(GOLDILOCKS, 12, 5, 2, 4, 22, 1).width(), 249);
    let narrow = random_air(GOLDILOCKS, 8, 3, 1, 4, 22, 1);
    assert_eq!(narrow.width(), num_cols(&narrow.shape));
    assert_eq!(hl_air().width() - narrow.width(), 2 * 4 * 8 * 2 + 22 * 2);
}

#[test]
fn builder_collects_in_order() {
    let mut b = ConstraintBuilder::new();
    assert_eq!(b.constraints.len(), 0);
    b.assert_eq(Expr::Var(0), Expr::Const(1));
    b.assert_eq(Expr::Var(1), Expr::Var(0));
    assert_eq!(
        b.constraints,
        vec![
            Constraint { lhs: Expr::Var(0), rhs: Expr::Const(1) },
            Constraint { lhs: Expr::Var(1), rhs: Expr::Var(0) },
        ]
    );
    let f = Field { order: 97 };
    assert!(b.check(&f, &vec![1, 1]));
    assert!(b.check(&f, &vec![98, 1]));
    assert!(!b.check(&f, &vec![1, 2]));
    assert!(!b.check(&f, &vec![2, 2]));
    assert!(ConstraintBuilder::new().check(&f, &vec![]));
}

#[test]
fn load_asserts_one_register() {
    let sbox = SBox(vec![4usize, 5, 6]);
    let mut b = ConstraintBuilder::new();
    load(&sbox, 1, Expr::Const(9), &mut b);
    assert_eq!(b.constraints, vec![Constraint { lhs: Expr::Var(5), rhs: Expr::Const(9) }]);
}

#[test]
fn load_product_multiplies_registers() {
    let f = Field { order: 97 };
    let sbox = SBox(vec![4usize, 5, 6]);
    let mut b = ConstraintBuilder::new();
    load_product(&f, &sbox, 2, &vec![0, 0, 1], &mut b);
    assert_eq!(
        b.constraints,
        vec![Constraint {
            lhs: Expr::Var(6),
            rhs: Expr::Mul(Box::new(Expr::Mul(var(4), var(4))), var(5)),
        }]
    );
    let mut b = ConstraintBuilder::new();
    load_product(&f, &sbox, 1, &vec![0], &mut b);
    assert_eq!(b.constraints, vec![Constraint { lhs: Expr::Var(5), rhs: Expr::Var(4) }]);
}

#[test]
fn load_product_of_no_registers_is_one() {
    let f = Field { order: 97 };
    let sbox = SBox(vec![4usize, 5, 6]);
    let mut b = ConstraintBuilder::new();
    load_product(&f, &sbox, 2, &vec![], &mut b);
    assert_eq!(b.constraints, vec![Constraint { lhs: Expr::Var(6), rhs: Expr::Const(1) }]);
    assert!(b.check(&f, &vec![0, 0, 0, 0, 0, 0, 1]));
    assert!(!b.check(&f, &vec![0, 0, 0, 0, 0, 0, 2]));
}

#[test]
fn eval_sbox_constraints_by_value() {
    // On the row (x, a0, a1, a2) = (2, 10, 20, 30) modulo 97 the right
    // sides are x^3, then a0 * a0 (a0 * a0 * a0 for degree 11), then
    // x * a1 (x^2 * a1 for degree 11).
    let f = Field { order: 97 };
    let row = vec![2u64, 10, 20, 30];
    let mut x = Expr::Var(0);
    let mut b = ConstraintBuilder::new();
    eval_sbox(&f, 7, &SBox(vec![1usize, 2, 3]), &mut x, &mut b);
    let values: Vec<u64> = b.constraints.iter().map(|c| c.rhs.evaluate(&f, &row)).collect();
    assert_eq!(values, vec![8, 100 % 97, 40]);
    let mut x = Expr::Var(0);
    let mut b = ConstraintBuilder::new();
    eval_sbox(&f, 11, &SBox(vec![1usize, 2, 3]), &mut x, &mut b);
    let values: Vec<u64> = b.constraints.iter().map(|c| c.rhs.evaluate(&f, &row)).collect();
    assert_eq!(values, vec![8, 1000 % 97, 80]);
    let mut x = Expr::Var(0);
    let mut b = ConstraintBuilder::new();
    eval_sbox(&f, 5, &SBox(vec![1usize, 2]), &mut x, &mut b);
    let values: Vec<u64> = b.constraints.iter().map(|c| c.rhs.evaluate(&f, &row)).collect();
    assert_eq!(values, vec![8, 40]);
}

#[test]
fn load_last_product_picks_the_factor_by_the_degree() {
    let f = Field { order: 97 };
    let sbox = SBox(vec![4usize, 5, 6]);
    for (d, factor) in [(3usize, 30u64), (6, 30), (7, 10), (4, 10), (5, 20), (11, 20)] {
        let mut b = ConstraintBuilder::new();
        load_last_product(&f, d, &sbox, Expr::Const(10), Expr::Const(20), Expr::Const(30), &mut b);
        assert_eq!(
            b.constraints,
            vec![Constraint {
                lhs: Expr::Var(6),
                rhs: Expr::Mul(Box::new(Expr::Const(factor)), var(5)),
            }]
        );
    }
}

#[test]
fn eval_sbox_degree_three_asserts_the_cube_only() {
    let f = Field { order: 97 };
    let mut x = Expr::Var(0);
    let mut b = ConstraintBuilder::new();
    eval_sbox(&f, 3, &SBox(vec![1usize]), &mut x, &mut b);
    assert_eq!(x, Expr::Var(1));
    assert_eq!(
        b.constraints,
        vec![Constraint {
            lhs: Expr::Var(1),
            rhs: Expr::Mul(Box::new(Expr::Mul(var(0), var(0))), var(0)),
        }]
    );
}

#[test]
fn eval_sbox_degree_seven_constraints() {
    let f = Field { order: 97 };
    let mut x = Expr::Var(0);
    let mut b = ConstraintBuilder::new();
    eval_sbox(&f, 7, &SBox(vec![1usize, 2, 3]), &mut x, &mut b);
    assert_eq!(x, Expr::Var(3));
    let x3 = Expr::Mul(Box::new(Expr::Mul(var(0), var(0))), var(0));
    assert_eq!(
        b.constraints,
        vec![
            Constraint { lhs: Expr::Var(1), rhs: x3 },
            Constraint { lhs: Expr::Var(2), rhs: Expr::Mul(var(1), var(1)) },
            Constraint { lhs: Expr::Var(3), rhs: Expr::Mul(var(0), var(2)) },
        ]
    );
}

#[test]
fn eval_sbox_degree_eleven_constraints() {
    let f = Field { order: 97 };
    let mut x = Expr::Var(0);
    let mut b = ConstraintBuilder::new();
    eval_sbox(&f, 11, &SBox(vec![1usize, 2, 3]), &mut x, &mut b);
    assert_eq!(x, Expr::Var(3));
    assert_eq!(b.constraints.len(), 3);
    assert_eq!(
        b.constraints[1],
        Constraint {
            lhs: Expr::Var(2),
            rhs: Expr::Mul(Box::new(Expr::Mul(var(1), var(1))), var(1)),
        }
    );
    assert_eq!(
        b.constraints[2],
        Constraint {
            lhs: Expr::Var(3),
            rhs: Expr::Mul(Box::new(Expr::Mul(var(0), var(0))), var(2)),
        }
    );
}

#[test]
fn eval_sbox_degree_five_constraints() {
    let f = Field { order: 97 };
    let mut x = Expr::Var(0);
    let mut b = ConstraintBuilder::new();
    eval_sbox(&f, 5, &SBox(vec![1usize, 2]), &mut x, &mut b);
    assert_eq!(x, Expr::Var(2));
    assert_eq!(b.constraints.len(), 2);
    assert_eq!(
        b.constraints[1],
        Constraint {
            lhs: Expr::Var(2),
            rhs: Expr::Mul(Box::new(Expr::Mul(var(0), var(0))), var(1)),
        }
    );
}

#[test]
fn eval_sbox_accepts_exactly_the_registers() {
    let f = Field { order: GOLDILOCKS };
    for (d, r) in [(3usize, 1usize), (5, 2), (7, 3), (11, 3)] {
        let cols: Vec<usize> = (1..=r).collect();
        let mut x = Expr::Var(0);
        let mut b = ConstraintBuilder::new();
        eval_sbox(&f, d, &SBox(cols), &mut x, &mut b);
        assert_eq!(b.constraints.len(), r);
        for v in [0u64, 1, 2, 0xabcdef, GOLDILOCKS - 1] {
            let mut row = vec![v];
            row.extend(generate_sbox(&f, d, r, v).0);
            assert!(b.check(&f, &row));
            for c in 1..=r {
                let mut wrong = row.clone();
                wrong[c] = f.add(wrong[c], 1);
                assert!(!b.check(&f, &wrong));
            }
        }
    }
}

#[test]
fn constants_as_expressions() {
    let f = Field { order: 97 };
    let es: Vec<Expr> = constants_as(&f, &vec![1, 2, 96]);
    assert_eq!(es, vec![Expr::Const(1), Expr::Const(2), Expr::Const(96)]);
    let vs: Vec<u64> = constants_as(&f, &vec![1, 2, 96]);
    assert_eq!(vs, vec![1, 2, 96]);
}

#[test]
fn eval_full_round_replaces_the_state_by_registers() {
    let air = random_air(97, 2, 5, 2, 1, 0, 5);
    let cols = make_col_map(&air.shape);
    let mut state = vec![Expr::Var(1), Expr::Var(2)];
    let mut b = ConstraintBuilder::new();
    eval_full_round(
        &air,
        &mut state,
        &cols.beginning_full_rounds[0],
        &air.beginning_full_round_constants[0],
        &mut b,
    );
    assert_eq!(b.constraints.len(), 4);
    assert_eq!(b.constraints[0].lhs, Expr::Var(3));
    assert_eq!(b.constraints[1].lhs, Expr::Var(4));
    assert_eq!(b.constraints[2].lhs, Expr::Var(5));
    assert_eq!(b.constraints[3].lhs, Expr::Var(6));
    // The state is the external layer applied to the last registers.
    let row: Vec<u64> = vec![0, 0, 0, 0, 10, 0, 20];
    assert_eq!(state[0].evaluate(&air.field, &row), 2 * 10 + 20);
    assert_eq!(state[1].evaluate(&air.field, &row), 10 + 2 * 20);
}

#[test]
fn eval_partial_round_constrains_the_first_cell() {
    let air = random_air(97, 2, 5, 2, 0, 1, 5);
    let mut state = vec![Expr::Var(1), Expr::Var(2)];
    let mut b = ConstraintBuilder::new();
    eval_partial_round(
        &air,
        &mut state,
        &PartialRound { sbox: SBox(vec![3usize, 4]) },
        air.partial_round_constants[0],
        &mut b,
    );
    assert_eq!(b.constraints.len(), 2);
    assert_eq!(b.constraints[0].lhs, Expr::Var(3));
    assert_eq!(b.constraints[1].lhs, Expr::Var(4));
    let row: Vec<u64> = vec![0, 0, 7, 0, 10];
    // [[2, 1], [1, 3]] applied to (register, second cell).
    assert_eq!(state[0].evaluate(&air.field, &row), 2 * 10 + 7);
    assert_eq!(state[1].evaluate(&air.field, &row), 10 + 3 * 7);
}

#[test]
fn eval_emits_a_constraint_for_every_register() {
    let air = hl_air();
    let mut b = ConstraintBuilder::new();
    let state = air.eval(&mut b);
    assert_eq!(state.len(), 8);
    assert_eq!(b.constraints.len(), (2 * 4 * 8 + 22) * 3);
    assert_eq!(b.constraints.len(), air.width() - 1 - 8);
    // The constraints follow the columns: the k-th constrains column 9 + k.
    for (k, c) in b.constraints.iter().enumerate() {
        assert_eq!(c.lhs, Expr::Var(9 + k));
    }
}

#[test]
fn eval_appends_to_what_the_builder_holds() {
    let air = random_air(97, 2, 3, 1, 1, 1, 3);
    let mut b = ConstraintBuilder::new();
    b.assert_eq(Expr::Const(1), Expr::Const(1));
    air.eval(&mut b);
    assert_eq!(b.constraints.len(), 1 + 2 + 1 + 2);
    assert_eq!(b.constraints[0], Constraint { lhs: Expr::Const(1), rhs: Expr::Const(1) });
}

#[test]
fn generated_rows_satisfy_the_constraints() {
    let air = hl_air();
    let mut b = ConstraintBuilder::new();
    let state = air.eval(&mut b);
    for seed in 0..4 {
        let input = if seed == 0 { vec![0u64; 8] } else { sample(8, seed, GOLDILOCKS) };
        let (flat, end) = flat_row(&air, &input);
        assert!(b.check(&air.field, &flat));
        let read: Vec<u64> = state.iter().map(|e| e.evaluate(&air.field, &flat)).collect();
        assert_eq!(read, end);
    }
}

#[test]
fn seeded_row_satisfies_the_constraints() {
    let air = hl_air();
    let input = vec![
        5116996373749832116,
        8931548647907683339,
        17132360229780760684,
        11280040044015983889,
        11957737519043010992,
        15695650327991256125,
        17604752143022812942,
        543194415197607509,
    ];
    let mut b = ConstraintBuilder::new();
    let state = air.eval(&mut b);
    let (flat, _) = flat_row(&air, &input);
    assert!(b.check(&air.field, &flat));
    let read: Vec<u64> = state.iter().map(|e| e.evaluate(&air.field, &flat)).collect();
    assert_eq!(
        read,
        vec![
            1831346684315917658,
            13497752062035433374,
            12149460647271516589,
            15656333994315312197,
            4671534937670455565,
            3140092508031220630,
            4251208148861706881,
            6973971209430822232,
        ]
    );
}

#[test]
fn tampered_rows_fail_the_constraints() {
    let air = hl_air();
    let mut b = ConstraintBuilder::new();
    air.eval(&mut b);
    let input = sample(8, 99, GOLDILOCKS);
    let (flat, _) = flat_row(&air, &input);
    // The reserved cell is free.
    let mut free = flat.clone();
    free[0] = 12345;
    assert!(b.check(&air.field, &free));
    // Every other cell is bound.
    for c in 1..flat.len() {
        let mut wrong = flat.clone();
        wrong[c] = air.field.add(wrong[c], 1);
        assert!(!b.check(&air.field, &wrong));
    }
}

#[test]
fn width_twelve_degree_five_rows_satisfy_the_constraints() {
    let air = random_air(GOLDILOCKS, 12, 5, 2, 4, 22, 12);
    assert_eq!(air.width(), 249);
    let mut b = ConstraintBuilder::new();
    let state = air.eval(&mut b);
    assert_eq!(b.constraints.len(), (2 * 4 * 12 + 22) * 2);
    let input = sample(12, 5, GOLDILOCKS);
    let (flat, end) = flat_row(&air, &input);
    assert_eq!(flat.len(), 249);
    assert!(b.check(&air.field, &flat));
    let read: Vec<u64> = state.iter().map(|e| e.evaluate(&air.field, &flat)).collect();
    assert_eq!(read, end);
}

#[test]
fn width_eight_degree_three_asserts_one_cube_for_each_lane() {
    let air = random_air(GOLDILOCKS, 8, 3, 1, 4, 22, 8);
    let mut b = ConstraintBuilder::new();
    air.eval(&mut b);
    assert_eq!(b.constraints.len(), 2 * 4 * 8 + 22);
    for c in b.constraints.iter() {
        match &c.rhs {
            Expr::Mul(square, _) => assert!(matches!(**square, Expr::Mul(_, _))),
            _ => panic!("the right side is a cube"),
        }
    }
    let (flat, _) = flat_row(&air, &sample(8, 3, GOLDILOCKS));
    assert_eq!(flat.len(), 95);
    assert!(b.check(&air.field, &flat));
}

#[test]
fn width_sixteen_degree_eleven_rows_satisfy_the_constraints() {
    let air = random_air(GOLDILOCKS, 16, 11, 3, 4, 22, 16);
    let mut b = ConstraintBuilder::new();
    let state = air.eval(&mut b);
    let input = sample(16, 11, GOLDILOCKS);
    let (flat, end) = flat_row(&air, &input);
    assert_eq!(flat.len(), 1 + 16 + 2 * 4 * 16 * 3 + 22 * 3);
    assert!(b.check(&air.field, &flat));
    let read: Vec<u64> = state.iter().map(|e| e.evaluate(&air.field, &flat)).collect();
    assert_eq!(read, end);
    // The registers of the first lane are the third, ninth and eleventh power.
    let mut entering = input.clone();
    LinearLayer::new(16).matmul_external(&air.field, &mut entering).unwrap();
    let x = air.field.add(entering[0], air.beginning_full_round_constants[0][0]);
    let mut power = 1u64;
    let mut powers = vec![];
    for _ in 0..11 {
        power = air.field.mul(power, x);
        powers.push(power);
    }
    assert_eq!(&flat[17..20], &[powers[2], powers[8], powers[10]]);
}

#[test]
fn every_supported_shape_agrees() {
    for w in [2usize, 3, 8, 12, 16, 20, 24] {
        for (d, r) in [(3usize, 1usize), (5, 2), (7, 3), (11, 3)] {
            let air = random_air(GOLDILOCKS, w, d, r, 2, 3, (w * 100 + d) as u64);
            let mut b = ConstraintBuilder::new();
            let state = air.eval(&mut b);
            let (flat, end) = flat_row(&air, &sample(w, 1, GOLDILOCKS));
            assert!(b.check(&air.field, &flat));
            let read: Vec<u64> = state.iter().map(|e| e.evaluate(&air.field, &flat)).collect();
            assert_eq!(read, end);
        }
    }
}

fn degree(e: &Expr) -> usize {
    match e {
        Expr::Var(_) => 1,
        Expr::Const(_) => 0,
        Expr::Lin { coeffs, .. } => {
            if coeffs.iter().all(|c| *c == 0) {
                0
            } else {
                1
            }
        }
        Expr::Add(a, b) => degree(a).max(degree(b)),
        Expr::Mul(a, b) => degree(a) + degree(b),
    }
}

#[test]
fn constraints_have_degree_at_most_three() {
    for w in [2usize, 8, 12] {
        for (d, r) in [(3usize, 1usize), (5, 2), (7, 3), (11, 3)] {
            let air = random_air(GOLDILOCKS, w, d, r, 2, 3, (w * 10 + d) as u64);
            let mut b = ConstraintBuilder::new();
            let state = air.eval(&mut b);
            for c in b.constraints.iter() {
                assert_eq!(degree(&c.lhs), 1);
                assert!(degree(&c.rhs) <= 3);
                assert!(degree(&c.rhs) >= 2);
            }
            for e in state.iter() {
                assert_eq!(degree(e), 1);
            }
        }
    }
}

#[test]
fn constraints_bind_the_columns_in_order() {
    for (w, d, r) in [(12usize, 5usize, 2usize), (3, 3, 1), (16, 11, 3)] {
        let air = random_air(GOLDILOCKS, w, d, r, 3, 5, 1);
        let mut b = ConstraintBuilder::new();
        b.assert_eq(Expr::Const(0), Expr::Const(0));
        air.eval(&mut b);
        assert_eq!(b.constraints.len(), 1 + air.width() - 1 - w);
        for q in 0..air.width() - 1 - w {
            assert_eq!(b.constraints[1 + q].lhs, Expr::Var(1 + w + q));
        }
    }
}

#[test]
fn full_round_type_is_plain_data() {
    let round = FullRound { sbox: vec![SBox(vec![1u64, 2]), SBox(vec![3, 4])] };
    assert_eq!(round.sbox[1].0[0], 3);
}
