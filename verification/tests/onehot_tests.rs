use emp_mpc::gf256::{bools_to_byte, byte_to_bools, invert_byte, mul_byte};
use emp_mpc::integer::{from_u32, pow32, to_u32, MOD_P};
use emp_mpc::matrix::BoolMatrix;
use emp_mpc::share::{IdentityTable, OneHotState, Role, Share, Table};
use emp_mpc::share_matrix::{decode_matrix, ShareMatrix};
use emp_mpc::unary::{
    populate_seeds_evaluator, populate_seeds_generator, unary_outer_product_evaluator,
    unary_outer_product_generator,
};

fn toy_hash(x: u128, t: u64) -> u128 {
    let y = (x ^ ((t as u128) << 64 | t as u128)).wrapping_mul(0x9E37_79B9_7F4A_7C15_F39C_C060_5CED_C835);
    y ^ (y >> 59) ^ 0xC0FF_EE00
}

#[test]
fn byte_multiplication_matches_aes_field() {
    assert_eq!(mul_byte(0x57, 0x83), 0xC1);
    assert_eq!(mul_byte(0x57, 0x13), 0xFE);
    assert_eq!(mul_byte(0x02, 0x80), 0x1B);
    assert_eq!(mul_byte(0, 0x35), 0);
}

#[test]
fn byte_inversion() {
    assert_eq!(invert_byte(0), 0);
    assert_eq!(invert_byte(1), 1);
    assert_eq!(invert_byte(0x53), 0xCA);
    for x in 1..=255u8 {
        assert_eq!(mul_byte(x, invert_byte(x)), 1);
    }
}

#[test]
fn byte_bits_round_trip() {
    let bits = byte_to_bools(0b1010_0011);
    assert_eq!(bits, vec![true, true, false, false, false, true, false, true]);
    assert_eq!(bools_to_byte(&bits), 0b1010_0011);
    for x in 0..=255u8 {
        assert_eq!(bools_to_byte(&byte_to_bools(x)), x);
    }
}

#[test]
fn u32_bits_round_trip() {
    let m = from_u32(0x8000_0005);
    assert_eq!(m.rows(), 32);
    assert!(m.get(0, 0));
    assert!(!m.get(1, 0));
    assert!(m.get(2, 0));
    assert!(m.get(31, 0));
    assert_eq!(to_u32(&m), 0x8000_0005);
    assert_eq!(to_u32(&from_u32(MOD_P)), 65521);
}

#[test]
fn pow32_wraps() {
    assert_eq!(pow32(3, 0), 1);
    assert_eq!(pow32(3, 5), 243);
    assert_eq!(pow32(2, 31), 0x8000_0000);
    assert_eq!(pow32(2, 32), 0);
    assert_eq!(pow32(7, 13), 7u32.wrapping_pow(13));
}

#[test]
fn bool_matrix_outer_and_transpose() {
    let m = BoolMatrix::outer_product(&[true, false, true], &[true, true]);
    assert_eq!(m.rows(), 3);
    assert_eq!(m.cols(), 2);
    assert!(m.get(0, 1));
    assert!(!m.get(1, 0));
    let t = m.transpose();
    assert_eq!(t.rows(), 2);
    assert!(t.get(1, 2));
    assert!(!t.get(0, 1));
}

#[test]
fn one_hot_state_basics() {
    let g = OneHotState::new_generator(0x10);
    assert_eq!(g.delta(), 0x11);
    assert_eq!(g.role(), Role::Generator);
    let e = OneHotState::new_evaluator();
    assert_eq!(e.delta(), 0);
    assert_eq!(g.not(Share(0x4)).0, 0x15);
    assert_eq!(e.not(Share(0x4)).0, 0x4);
    assert_eq!(g.bit(true).0, 0x11);
    assert_eq!(g.bit(false).0, 0);
    let mut s = Share(0x7);
    assert!(g.reveal_generator(&mut s));
    assert_eq!(s.0, 0x6);
}

#[test]
fn one_hot_and_gate() {
    for (x, y) in [(false, false), (false, true), (true, false), (true, true)] {
        let mut g = OneHotState::new_generator(0xABCD_1234);
        let mut e = OneHotState::new_evaluator();
        let d = g.delta();
        let ag = Share(0x1111_2222_3333_4444);
        let bg = Share(0x5555_6666_7777_8889);
        let ae = Share(ag.0 ^ if x { d } else { 0 });
        let be = Share(bg.0 ^ if y { d } else { 0 });
        let k = g.and_keys(ag, bg);
        let n0 = g.nonce();
        let h = [toy_hash(k[0], n0), toy_hash(k[1], n0), toy_hash(k[2], n0 + 1), toy_hash(k[3], n0 + 1)];
        let (og, e_row, g_row) = g.and_gate_garble(ag, bg, h);
        let n1 = e.nonce();
        let oe = e.and_gate_eval(ae, be, e_row, g_row, toy_hash(ae.0, n1), toy_hash(be.0, n1 + 1));
        assert_eq!(og.0 ^ oe.0, if x && y { d } else { 0 });
        assert_eq!(g.nonce(), 2);
        assert_eq!(e.nonce(), 2);
    }
}

fn shares(values: &[bool], seed: u128, delta: u128) -> (Vec<Share>, Vec<Share>) {
    let g: Vec<Share> = (0..values.len()).map(|i| Share(toy_hash(seed + i as u128, 7))).collect();
    let e: Vec<Share> = g.iter().zip(values).map(|(s, v)| Share(s.0 ^ if *v { delta } else { 0 })).collect();
    (g, e)
}

#[test]
fn seed_tree_punctured() {
    let h = |x: u128, t: u64| toy_hash(x, t);
    let mut g = OneHotState::new_generator(0x5A5A_0000_1234);
    let mut e = OneHotState::new_evaluator();
    let (xg, xe) = shares(&[true, false, true], 100, g.delta());
    let (sg, msgs, g_missing) = populate_seeds_generator(&mut g, &xg, &h);
    let (se, missing) = populate_seeds_evaluator(&mut e, &xe, &msgs, &h);
    assert_eq!(sg.len(), 8);
    assert_eq!(msgs.len(), 4);
    let masked: usize = xe.iter().enumerate().map(|(i, s)| ((s.0 & 1) as usize) << i).sum();
    assert_eq!(missing, masked);
    let g_masked: usize = xg.iter().enumerate().map(|(i, s)| ((s.0 & 1) as usize) << i).sum();
    assert_eq!(g_missing, g_masked);
    for i in 0..8 {
        if i != missing {
            assert_eq!(se[i], sg[i]);
        }
    }
    assert_eq!(g.nonce(), 3);
    assert_eq!(e.nonce(), 3);
}

#[test]
fn unary_outer_product_identity_table() {
    let h = |x: u128, t: u64| toy_hash(x, t);
    let mut g = OneHotState::new_generator(0x0BAD_F00D_0000_0042);
    let mut e = OneHotState::new_evaluator();
    let d = g.delta();
    let (xg, xe) = shares(&[true, true, false], 300, d);
    let yv = [true, false];
    let (yg, ye) = shares(&yv, 500, d);
    let mut out_g = ShareMatrix::new(3, 2);
    let mut out_e = ShareMatrix::new(3, 2);
    let (tree, cols) = unary_outer_product_generator(&mut g, &IdentityTable, &xg, &yg, &mut out_g, &h);
    unary_outer_product_evaluator(&mut e, &IdentityTable, &xe, &ye, &mut out_e, &tree, &cols, &h);
    let decoded = decode_matrix(d, &out_g, &out_e);
    let masked: usize = xe.iter().enumerate().map(|(i, s)| ((s.0 & 1) as usize) << i).sum();
    let row = IdentityTable.row(masked);
    for k in 0..3 {
        for c in 0..2 {
            assert_eq!(decoded.get(k, c), ((row >> k) & 1 == 1) && yv[c]);
        }
    }
    assert_eq!(g.nonce(), e.nonce());
}

#[test]
fn matrix_get_set_past_last_row_reach_the_next_column() {
    let mut m = BoolMatrix::new(2, 3);
    // Row 2 of column 0 is position 2 of the column-major buffer: (0, 1).
    m.set(2, 0, true);
    assert!(m.get(0, 1));
    assert!(m.get(2, 0));
    assert!(!m.get(1, 1));
}

#[test]
fn invert_byte_is_the_field_inverse_on_every_byte() {
    assert_eq!(invert_byte(0), 0);
    assert_eq!(invert_byte(1), 1);
    assert_eq!(invert_byte(0x53), 0xCA);
    for x in 1..=255u8 {
        assert_eq!(mul_byte(x, invert_byte(x)), 1);
    }
}
