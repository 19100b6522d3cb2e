use poseidon2_air::columns::SBox;
use poseidon2_air::field::Field;
use poseidon2_air::sbox::{generate_sbox, sbox, sbox_p};

const GOLDILOCKS: u64 = 0xFFFF_FFFF_0000_0001;

fn pow_mod(order: u64, x: u64, e: u32) -> u64 {
    let mut acc: u128 = 1 % order as u128;
    for _ in 0..e {
        acc = acc * (x as u128 % order as u128) % order as u128;
    }
    acc as u64
}

#[test]
fn registers_degree_three() {
    let f = Field { order: 97 };
    assert_eq!(generate_sbox(&f, 3, 1, 5), SBox(vec![28]));
}

#[test]
fn registers_degree_five() {
    let f = Field { order: 97 };
    assert_eq!(generate_sbox(&f, 5, 2, 3), SBox(vec![27, 49]));
}

#[test]
fn registers_degree_seven() {
    let f = Field { order: 97 };
    assert_eq!(generate_sbox(&f, 7, 3, 2), SBox(vec![8, 64, 31]));
}

#[test]
fn registers_degree_eleven() {
    let f = Field { order: 97 };
    assert_eq!(generate_sbox(&f, 11, 3, 2), SBox(vec![8, 27, 11]));
}

#[test]
fn registers_of_zero_are_zero() {
    let f = Field { order: GOLDILOCKS };
    assert_eq!(generate_sbox(&f, 7, 3, 0), SBox(vec![0, 0, 0]));
}

#[test]
fn last_register_is_the_power() {
    let f = Field { order: GOLDILOCKS };
    let xs = [0u64, 1, 2, 3, 0xdead_beef, GOLDILOCKS - 1, 5116996373749832116];
    for (d, r) in [(3usize, 1usize), (5, 2), (7, 3), (11, 3)] {
        for x in xs {
            let regs = generate_sbox(&f, d, r, x);
            assert_eq!(regs.0.len(), r);
            assert_eq!(regs.0[0], pow_mod(GOLDILOCKS, x, 3));
            assert_eq!(regs.0[r - 1], pow_mod(GOLDILOCKS, x, d as u32));
        }
    }
}

#[test]
fn degree_eleven_registers_are_the_third_ninth_and_eleventh_power() {
    let f = Field { order: GOLDILOCKS };
    for x in [2u64, 12345678901234567, GOLDILOCKS - 2] {
        let regs = generate_sbox(&f, 11, 3, x);
        assert_eq!(
            regs,
            SBox(vec![
                pow_mod(GOLDILOCKS, x, 3),
                pow_mod(GOLDILOCKS, x, 9),
                pow_mod(GOLDILOCKS, x, 11)
            ])
        );
    }
}

#[test]
fn degree_seven_registers_are_the_third_sixth_and_seventh_power() {
    let f = Field { order: GOLDILOCKS };
    for x in [2u64, 12345678901234567, GOLDILOCKS - 2] {
        let regs = generate_sbox(&f, 7, 3, x);
        assert_eq!(
            regs,
            SBox(vec![
                pow_mod(GOLDILOCKS, x, 3),
                pow_mod(GOLDILOCKS, x, 6),
                pow_mod(GOLDILOCKS, x, 7)
            ])
        );
    }
}

#[test]
fn sbox_p_raises_to_the_degree() {
    let f = Field { order: 97 };
    let mut x = 2u64;
    sbox_p(&f, 3, &mut x);
    assert_eq!(x, 8);
    let mut x = 3u64;
    sbox_p(&f, 5, &mut x);
    assert_eq!(x, 49);
    let mut x = 2u64;
    sbox_p(&f, 7, &mut x);
    assert_eq!(x, 31);
    let mut x = 2u64;
    sbox_p(&f, 11, &mut x);
    assert_eq!(x, 11);
}

#[test]
fn sbox_p_agrees_with_the_last_register() {
    let f = Field { order: GOLDILOCKS };
    for (d, r) in [(3usize, 1usize), (5, 2), (7, 3), (11, 3)] {
        for x in [0u64, 1, 77, GOLDILOCKS - 1, 17604752143022812942] {
            let mut y = x;
            sbox_p(&f, d, &mut y);
            assert_eq!(y, generate_sbox(&f, d, r, x).0[r - 1]);
            assert_eq!(y, pow_mod(GOLDILOCKS, x, d as u32));
        }
    }
}

#[test]
fn sbox_raises_every_cell() {
    let f = Field { order: 97 };
    let mut s = vec![0u64, 1, 2, 3];
    sbox(&f, 7, &mut s);
    assert_eq!(s, vec![0, 1, 31, pow_mod(97, 3, 7)]);
    let mut empty: Vec<u64> = vec![];
    sbox(&f, 3, &mut empty);
    assert_eq!(empty, Vec::<u64>::new());
}
