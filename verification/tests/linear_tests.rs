use poseidon2_air::error::ConfigError;
use poseidon2_air::expr::Expr;
use poseidon2_air::field::Field;
use poseidon2_air::linear::{matmul_m4, LinearLayer};

const GOLDILOCKS: u64 = 0xFFFF_FFFF_0000_0001;

const M4: [[u64; 4]; 4] = [[5, 7, 1, 3], [4, 6, 1, 1], [1, 3, 5, 7], [1, 1, 4, 6]];

fn external_matrix(w: usize) -> Vec<Vec<u64>> {
    let mut m = vec![vec![0u64; w]; w];
    for i in 0..w {
        for j in 0..w {
            m[i][j] = if w < 4 {
                if i == j {
                    2
                } else {
                    1
                }
            } else if i / 4 == j / 4 {
                2 * M4[i % 4][j % 4]
            } else {
                M4[i % 4][j % 4]
            };
        }
    }
    m
}

fn internal_matrix(w: usize, diag: &[u64]) -> Vec<Vec<u128>> {
    let mut m = vec![vec![1u128; w]; w];
    for i in 0..w {
        m[i][i] = if w >= 4 {
            diag[i] as u128 + 1
        } else if i == w - 1 {
            3
        } else {
            2
        };
    }
    m
}

fn mat_vec(order: u64, m: &[Vec<u128>], x: &[u64]) -> Vec<u64> {
    m.iter()
        .map(|row| {
            let mut acc: u128 = 0;
            for (c, v) in row.iter().zip(x.iter()) {
                acc = (acc + (c % order as u128) * (*v as u128 % order as u128)) % order as u128;
            }
            acc as u64
        })
        .collect()
}

fn sample_state(w: usize, seed: u64) -> Vec<u64> {
    let mut s = seed;
    (0..w)
        .map(|_| {
            s = s.wrapping_mul(6364136223846793005).wrapping_add(1442695040888963407);
            s % GOLDILOCKS
        })
        .collect()
}

#[test]
fn external_layer_width_two_and_three() {
    let f = Field { order: 97 };
    let mut s = vec![1u64, 2];
    assert_eq!(LinearLayer::new(2).matmul_external(&f, &mut s), Ok(()));
    assert_eq!(s, vec![4, 5]);
    let mut s = vec![1u64, 2, 3];
    assert_eq!(LinearLayer::new(3).matmul_external(&f, &mut s), Ok(()));
    assert_eq!(s, vec![7, 8, 9]);
}

#[test]
fn external_layer_width_eight_on_a_unit_vector() {
    let f = Field { order: 97 };
    let mut s = vec![1u64, 0, 0, 0, 0, 0, 0, 0];
    assert_eq!(LinearLayer::new(8).matmul_external(&f, &mut s), Ok(()));
    assert_eq!(s, vec![10, 8, 2, 2, 5, 4, 1, 1]);
}

#[test]
fn m4_recipe_on_one_group() {
    let f = Field { order: 1_000_003 };
    let mut s = vec![1u64, 10, 100, 1000];
    matmul_m4(&f, &mut s);
    // (5a + 7b + c + 3d, 4a + 6b + c + d, a + 3b + 5c + 7d, a + b + 4c + 6d)
    assert_eq!(s, vec![3175, 1164, 7531, 6411]);
}

#[test]
fn external_layer_is_the_matrix_product() {
    let f = Field { order: GOLDILOCKS };
    for w in [2usize, 3, 8, 12, 16, 20, 24] {
        let x = sample_state(w, w as u64);
        let m: Vec<Vec<u128>> = external_matrix(w)
            .iter()
            .map(|r| r.iter().map(|c| *c as u128).collect())
            .collect();
        let mut s = x.clone();
        assert_eq!(LinearLayer::new(w).matmul_external(&f, &mut s), Ok(()));
        assert_eq!(s, mat_vec(GOLDILOCKS, &m, &x));
    }
}

#[test]
fn internal_layer_small_widths() {
    let f = Field { order: 97 };
    let mut s = vec![1u64, 2];
    assert_eq!(LinearLayer::new(2).matmul_internal(&f, &mut s, &vec![50, 60]), Ok(()));
    assert_eq!(s, vec![4, 7]);
    let mut s = vec![1u64, 2, 3];
    assert_eq!(LinearLayer::new(3).matmul_internal(&f, &mut s, &vec![0, 0, 0]), Ok(()));
    assert_eq!(s, vec![7, 8, 12]);
}

#[test]
fn internal_layer_width_four() {
    let f = Field { order: 97 };
    let mut s = vec![1u64, 2, 3, 4];
    assert_eq!(LinearLayer::new(4).matmul_internal(&f, &mut s, &vec![10, 20, 30, 40]), Ok(()));
    assert_eq!(s, vec![20, 50, 3, 73]);
}

#[test]
fn internal_layer_is_the_matrix_product() {
    let f = Field { order: GOLDILOCKS };
    for w in [2usize, 3, 4, 8, 12, 16, 20, 24] {
        let x = sample_state(w, 100 + w as u64);
        let d = sample_state(w, 200 + w as u64);
        let mut s = x.clone();
        assert_eq!(LinearLayer::new(w).matmul_internal(&f, &mut s, &d), Ok(()));
        assert_eq!(s, mat_vec(GOLDILOCKS, &internal_matrix(w, &d), &x));
    }
}

#[test]
fn external_layer_refuses_other_widths() {
    let f = Field { order: 97 };
    for w in [0usize, 1, 4, 5, 6, 7, 9, 10, 11, 13, 28, 32] {
        let mut s = vec![1u64; w];
        let before = s.clone();
        assert_eq!(
            LinearLayer::new(w).matmul_external(&f, &mut s),
            Err(ConfigError::UnsupportedWidth)
        );
        assert_eq!(s, before);
    }
}

#[test]
fn internal_layer_refuses_other_widths() {
    let f = Field { order: 97 };
    for w in [0usize, 1, 5, 6, 7, 9, 10, 11, 13, 28, 32] {
        let mut s = vec![1u64; w];
        let d = vec![1u64; w];
        assert_eq!(
            LinearLayer::new(w).matmul_internal(&f, &mut s, &d),
            Err(ConfigError::UnsupportedWidth)
        );
        assert_eq!(s, vec![1u64; w]);
    }
}

#[test]
fn layers_refuse_a_state_of_another_width() {
    let f = Field { order: 97 };
    let mut s = vec![1u64; 12];
    assert_eq!(LinearLayer::new(8).matmul_external(&f, &mut s), Err(ConfigError::WidthMismatch));
    assert_eq!(s, vec![1u64; 12]);
    assert_eq!(
        LinearLayer::new(8).matmul_internal(&f, &mut s, &vec![1u64; 8]),
        Err(ConfigError::WidthMismatch)
    );
    let mut s = vec![1u64; 8];
    assert_eq!(
        LinearLayer::new(8).matmul_internal(&f, &mut s, &vec![1u64; 7]),
        Err(ConfigError::ConstantsShape)
    );
    assert_eq!(s, vec![1u64; 8]);
}

#[test]
fn layers_on_expressions_agree_with_layers_on_values() {
    let f = Field { order: GOLDILOCKS };
    for w in [2usize, 3, 8, 12] {
        let row = sample_state(w, 7 * w as u64);
        let mut symbolic: Vec<Expr> = (0..w).map(Expr::Var).collect();
        let mut concrete = row.clone();
        assert_eq!(LinearLayer::new(w).matmul_external(&f, &mut symbolic), Ok(()));
        assert_eq!(LinearLayer::new(w).matmul_external(&f, &mut concrete), Ok(()));
        let read: Vec<u64> = symbolic.iter().map(|e| e.evaluate(&f, &row)).collect();
        assert_eq!(read, concrete);

        let d = sample_state(w, 9 * w as u64);
        let d_exprs: Vec<Expr> = d.iter().map(|c| Expr::Const(*c)).collect();
        let mut symbolic: Vec<Expr> = (0..w).map(Expr::Var).collect();
        let mut concrete = row.clone();
        assert_eq!(LinearLayer::new(w).matmul_internal(&f, &mut symbolic, &d_exprs), Ok(()));
        assert_eq!(LinearLayer::new(w).matmul_internal(&f, &mut concrete, &d), Ok(()));
        let read: Vec<u64> = symbolic.iter().map(|e| e.evaluate(&f, &row)).collect();
        assert_eq!(read, concrete);
    }
}

fn all_states(order: u64, w: usize) -> Vec<Vec<u64>> {
    let mut states = vec![vec![]];
    for _ in 0..w {
        let mut next = vec![];
        for s in states.iter() {
            for v in 0..order {
                let mut t: Vec<u64> = s.clone();
                t.push(v);
                next.push(t);
            }
        }
        states = next;
    }
    states
}

fn images(order: u64, w: usize) -> Vec<Vec<u64>> {
    let f = Field { order };
    let mut out: Vec<Vec<u64>> = all_states(order, w)
        .into_iter()
        .map(|mut s| {
            LinearLayer::new(w).matmul_external(&f, &mut s).unwrap();
            s
        })
        .collect();
    out.sort();
    out.dedup();
    out
}

#[test]
fn external_layer_is_one_to_one_where_the_order_allows() {
    // Width 2: the determinant is 3. Width 3: it is 4.
    assert_eq!(images(5, 2).len(), 25);
    assert_eq!(images(7, 2).len(), 49);
    assert_eq!(images(3, 3).len(), 27);
    assert_eq!(images(5, 3).len(), 125);
    // Width 8 over the field of five elements: 2 * (2 + 1) is not a multiple of 5.
    assert_eq!(images(5, 8).len(), 5usize.pow(8));
}

#[test]
fn external_layer_collapses_where_the_order_divides_the_determinant() {
    assert!(images(3, 2).len() < 9);
    assert!(images(2, 3).len() < 8);
    assert!(images(2, 8).len() < 256);
    assert!(images(3, 8).len() < 3usize.pow(8));
}

#[test]
fn m4_is_one_to_one_over_odd_orders() {
    for order in [3u64, 5, 7] {
        let f = Field { order };
        let mut out: Vec<Vec<u64>> = all_states(order, 4)
            .into_iter()
            .map(|mut s| {
                matmul_m4(&f, &mut s);
                s
            })
            .collect();
        out.sort();
        out.dedup();
        assert_eq!(out.len(), (order as usize).pow(4));
    }
}
