use poseidon2_air::columns::{
    make_col_map, num_cols, FullRound, PartialRound, Poseidon2Cols, SBox, Shape,
};
use poseidon2_air::error::ConfigError;

fn shape(w: usize, d: usize, r: usize, h: usize, p: usize) -> Shape {
    Shape { width: w, sbox_degree: d, sbox_registers: r, half_full_rounds: h, partial_rounds: p }
}

fn tiny_row() -> Poseidon2Cols<u64> {
    // Width 2, degree 5, two registers, one full round in each half, two partial rounds.
    Poseidon2Cols {
        export: 100,
        inputs: vec![101, 102],
        beginning_full_rounds: vec![FullRound {
            sbox: vec![SBox(vec![103, 104]), SBox(vec![105, 106])],
        }],
        partial_rounds: vec![
            PartialRound { sbox: SBox(vec![107, 108]) },
            PartialRound { sbox: SBox(vec![109, 110]) },
        ],
        ending_full_rounds: vec![FullRound {
            sbox: vec![SBox(vec![111, 112]), SBox(vec![113, 114])],
        }],
    }
}

#[test]
fn num_cols_follows_the_formula() {
    assert_eq!(num_cols(&shape(8, 7, 3, 4, 22)), 1 + 8 + 2 * 4 * 8 * 3 + 22 * 3);
    assert_eq!(num_cols(&shape(8, 7, 3, 4, 22)), 267);
    assert_eq!(num_cols(&shape(2, 3, 1, 0, 0)), 3);
    assert_eq!(num_cols(&shape(3, 5, 2, 1, 0)), 1 + 3 + 12);
    assert_eq!(num_cols(&shape(24, 11, 3, 0, 5)), 1 + 24 + 15);
    for w in [2usize, 3, 8, 12, 16, 20, 24] {
        for (d, r) in [(3usize, 1usize), (5, 2), (7, 3), (11, 3)] {
            for h in [0usize, 1, 4] {
                for p in [0usize, 1, 22] {
                    assert_eq!(num_cols(&shape(w, d, r, h, p)), 1 + w + 2 * h * w * r + p * r);
                }
            }
        }
    }
}

#[test]
fn num_cols_width_twelve_degree_five() {
    assert_eq!(num_cols(&shape(12, 5, 2, 4, 22)), 249);
}

#[test]
fn num_cols_shrinks_with_the_register_count() {
    let wide = num_cols(&shape(8, 7, 3, 4, 22));
    let narrow = num_cols(&shape(8, 3, 1, 4, 22));
    assert_eq!(narrow, 95);
    assert_eq!(wide - narrow, 2 * 4 * 8 * (3 - 1) + 22 * (3 - 1));
}

#[test]
fn shape_check_accepts_the_table() {
    for w in [2usize, 3, 8, 12, 16, 20, 24] {
        for (d, r) in [(3usize, 1usize), (5, 2), (7, 3), (11, 3)] {
            assert_eq!(shape(w, d, r, 4, 22).check(), Ok(()));
        }
    }
    assert_eq!(shape(8, 7, 3, 0, 0).check(), Ok(()));
}

#[test]
fn shape_check_refuses_other_widths() {
    for w in [0usize, 1, 4, 5, 6, 7, 9, 10, 14, 25, 32] {
        assert_eq!(shape(w, 7, 3, 4, 22).check(), Err(ConfigError::UnsupportedWidth));
    }
}

#[test]
fn shape_check_refuses_other_degrees() {
    for d in [0usize, 1, 2, 4, 6, 8, 9, 10, 12, 13] {
        assert_eq!(shape(8, d, 3, 4, 22).check(), Err(ConfigError::UnsupportedDegree));
    }
}

#[test]
fn shape_check_refuses_other_register_counts() {
    assert_eq!(shape(8, 7, 0, 4, 22).check(), Err(ConfigError::RegisterCount));
    assert_eq!(shape(8, 7, 2, 4, 22).check(), Err(ConfigError::RegisterCount));
    assert_eq!(shape(8, 7, 4, 4, 22).check(), Err(ConfigError::RegisterCount));
    assert_eq!(shape(8, 3, 2, 4, 22).check(), Err(ConfigError::RegisterCount));
    assert_eq!(shape(8, 5, 1, 4, 22).check(), Err(ConfigError::RegisterCount));
    assert_eq!(shape(8, 11, 2, 4, 22).check(), Err(ConfigError::RegisterCount));
}

#[test]
fn shape_check_refuses_rows_too_large_to_count() {
    assert_eq!(shape(8, 7, 3, usize::MAX, 22).check(), Err(ConfigError::TooLarge));
    assert_eq!(shape(8, 7, 3, 4, usize::MAX).check(), Err(ConfigError::TooLarge));
    assert_eq!(shape(2, 3, 1, usize::MAX / 4, 5).check(), Err(ConfigError::TooLarge));
    assert_eq!(shape(2, 3, 1, 0, usize::MAX - 3).check(), Ok(()));
    assert_eq!(shape(2, 3, 1, 0, usize::MAX - 2).check(), Err(ConfigError::TooLarge));
}

#[test]
fn shape_check_names_the_first_reason() {
    assert_eq!(shape(5, 4, 0, 4, 22).check(), Err(ConfigError::UnsupportedWidth));
    assert_eq!(shape(8, 4, 0, 4, 22).check(), Err(ConfigError::UnsupportedDegree));
}

#[test]
fn col_map_holds_each_column() {
    let s = shape(2, 5, 2, 1, 2);
    let cols = make_col_map(&s);
    assert_eq!(
        cols,
        Poseidon2Cols {
            export: 0,
            inputs: vec![1, 2],
            beginning_full_rounds: vec![FullRound {
                sbox: vec![SBox(vec![3, 4]), SBox(vec![5, 6])]
            }],
            partial_rounds: vec![
                PartialRound { sbox: SBox(vec![7, 8]) },
                PartialRound { sbox: SBox(vec![9, 10]) },
            ],
            ending_full_rounds: vec![FullRound {
                sbox: vec![SBox(vec![11, 12]), SBox(vec![13, 14])]
            }],
        }
    );
}

#[test]
fn col_map_of_the_usual_shape() {
    let s = shape(8, 7, 3, 4, 22);
    let cols = make_col_map(&s);
    assert_eq!(cols.export, 0);
    assert_eq!(cols.inputs, (1..9).collect::<Vec<usize>>());
    assert_eq!(cols.beginning_full_rounds.len(), 4);
    assert_eq!(cols.partial_rounds.len(), 22);
    assert_eq!(cols.ending_full_rounds.len(), 4);
    assert_eq!(cols.beginning_full_rounds[0].sbox[0], SBox(vec![9, 10, 11]));
    assert_eq!(cols.beginning_full_rounds[2].sbox[5].0[1], 9 + (2 * 8 + 5) * 3 + 1);
    assert_eq!(cols.partial_rounds[0].sbox, SBox(vec![105, 106, 107]));
    assert_eq!(cols.partial_rounds[21].sbox.0[2], 9 + 96 + 21 * 3 + 2);
    assert_eq!(cols.ending_full_rounds[0].sbox[0].0[0], 9 + 96 + 66);
    assert_eq!(cols.ending_full_rounds[3].sbox[7].0[2], 266);
}

#[test]
fn from_cells_reads_by_name() {
    let s = shape(2, 5, 2, 1, 2);
    let flat: Vec<u64> = (100..115).collect();
    assert_eq!(Poseidon2Cols::from_cells(&s, &flat), tiny_row());
}

#[test]
fn write_cells_lays_out_in_column_order() {
    let s = shape(2, 5, 2, 1, 2);
    let mut out: Vec<u64> = vec![7, 7];
    tiny_row().write_cells(&s, &mut out);
    let mut expected = vec![7u64, 7];
    expected.extend(100..115);
    assert_eq!(out, expected);
}

#[test]
fn cells_round_trip() {
    for s in [shape(8, 7, 3, 4, 22), shape(12, 5, 2, 4, 22), shape(3, 3, 1, 2, 5), shape(16, 11, 3, 1, 1)] {
        let n = num_cols(&s);
        let flat: Vec<u64> = (0..n as u64).map(|c| c * c + 1).collect();
        let row = Poseidon2Cols::from_cells(&s, &flat);
        let mut back = Vec::new();
        row.write_cells(&s, &mut back);
        assert_eq!(back, flat);
        assert_eq!(Poseidon2Cols::from_cells(&s, &back), row);
    }
}

#[test]
fn writing_through_the_names_writes_the_mapped_column() {
    let s = shape(8, 7, 3, 4, 22);
    let n = num_cols(&s);
    let cols = make_col_map(&s);
    let flat: Vec<u64> = (0..n as u64).map(|c| 1000 + c).collect();

    let mut row = Poseidon2Cols::from_cells(&s, &flat);
    row.export = 1;
    row.inputs[3] = 2;
    row.beginning_full_rounds[2].sbox[5].0[1] = 3;
    row.partial_rounds[10].sbox.0[2] = 4;
    row.ending_full_rounds[3].sbox[7].0[0] = 5;
    let mut through_names = Vec::new();
    row.write_cells(&s, &mut through_names);

    let mut through_columns = flat.clone();
    through_columns[cols.export] = 1;
    through_columns[cols.inputs[3]] = 2;
    through_columns[cols.beginning_full_rounds[2].sbox[5].0[1]] = 3;
    through_columns[cols.partial_rounds[10].sbox.0[2]] = 4;
    through_columns[cols.ending_full_rounds[3].sbox[7].0[0]] = 5;

    assert_eq!(through_names, through_columns);
    let changed = through_names.iter().zip(flat.iter()).filter(|(a, b)| a != b).count();
    assert_eq!(changed, 5);
}

#[test]
fn col_map_is_the_identity_when_laid_out() {
    for s in [shape(8, 7, 3, 4, 22), shape(24, 11, 3, 2, 3), shape(2, 3, 1, 0, 0)] {
        let mut flat = Vec::new();
        make_col_map(&s).write_cells(&s, &mut flat);
        assert_eq!(flat, (0..num_cols(&s)).collect::<Vec<usize>>());
    }
}
