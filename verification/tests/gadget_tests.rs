use emp_mpc::context::OneHotContext;
use emp_mpc::exp_mod::{integer_multiply, mod_p};
use emp_mpc::integer_gadgets::{integer_add, integer_add_full, integer_sub, sub_if_greater, swap};
use emp_mpc::one_hot_ops::outer_product;
use emp_mpc::share::Share;
use emp_mpc::share_matrix::{decode_matrix, ShareMatrix};

fn toy_hash(x: u128, t: u64) -> u128 {
    let y = (x ^ ((t as u128) << 64 | t as u128)).wrapping_mul(0x9E37_79B9_7F4A_7C15_F39C_C060_5CED_C835);
    y ^ (y >> 59) ^ 0xC0FF_EE00
}

const DELTA_SAMPLE: u128 = 0x1234_5678_9ABC_DEF0_0FED_CBA9_8765_4320;

/// Shares of the low `n` bits of `value`: the generator holds a label per
/// bit, the evaluator that label with delta XORed in for a set bit.
fn share_word(value: u64, n: usize, seed: u128, delta: u128) -> (ShareMatrix, ShareMatrix) {
    let mut g = ShareMatrix::vector(n);
    let mut e = ShareMatrix::vector(n);
    for i in 0..n {
        let label = toy_hash(seed.wrapping_add(i as u128), 99) & !1u128;
        let bit = (value >> i) & 1 == 1;
        g.set_at(i, Share(label));
        e.set_at(i, Share(label ^ if bit { delta } else { 0 }));
    }
    (g, e)
}

fn decode_word(delta: u128, g: &ShareMatrix, e: &ShareMatrix) -> u64 {
    assert_eq!(g.rows(), e.rows());
    let m = decode_matrix(delta, g, e);
    let mut v = 0u64;
    for i in 0..g.rows() {
        let d = g.at(i).0 ^ e.at(i).0;
        assert!(d == 0 || d == delta);
        if m.get(i, 0) {
            v |= 1 << i;
        }
    }
    v
}

/// Run a gadget on the generator's side, hand its transcript to the
/// evaluator, run it there, and decode the result.
fn run_gadget<G>(x: u64, y: u64, n: usize, gadget: G) -> u64
where
    G: Fn(&mut OneHotContext, &ShareMatrix, &ShareMatrix) -> Option<ShareMatrix>,
{
    let mut gen = OneHotContext::new_generator(DELTA_SAMPLE);
    let delta = gen.delta();
    let (xg, xe) = share_word(x, n, 1000, delta);
    let (yg, ye) = share_word(y, n, 2000, delta);
    let out_g = gadget(&mut gen, &xg, &yg).expect("the generator never waits");
    let blocks = gen.link.sent_blocks().to_vec();
    let bits = gen.link.sent_bit_list().to_vec();
    let mut eva = OneHotContext::new_evaluator(blocks, bits);
    let out_e = gadget(&mut eva, &xe, &ye).expect("the evaluator has every message");
    assert_eq!(gen.state.nonce(), eva.state.nonce());
    decode_word(delta, &out_g, &out_e)
}

#[test]
fn integer_add_sums_words() {
    let add = |c: &mut OneHotContext, a: &ShareMatrix, b: &ShareMatrix| integer_add_full(c, &toy_hash, a, b);
    assert_eq!(run_gadget(5, 7, 8, add), 12);
    assert_eq!(run_gadget(200, 100, 8, add), 44);
    assert_eq!(run_gadget(0xFFFF_FFFF, 1, 32, add), 0);
    assert_eq!(run_gadget(123_456, 654_321, 32, add), 777_777);
}

#[test]
fn integer_add_low_bits_only() {
    let add = |c: &mut OneHotContext, a: &ShareMatrix, b: &ShareMatrix| integer_add(c, &toy_hash, 3, a, b);
    assert_eq!(run_gadget(0b1101, 0b0110, 4, add), 0b011);
}

#[test]
fn integer_add_advances_nonce_per_carry() {
    let mut gen = OneHotContext::new_generator(DELTA_SAMPLE);
    let delta = gen.delta();
    let (xg, _) = share_word(9, 8, 1, delta);
    let (yg, _) = share_word(3, 8, 2, delta);
    let out = integer_add_full(&mut gen, &toy_hash, &xg, &yg).unwrap();
    assert_eq!(out.rows(), 8);
    assert_eq!(gen.state.nonce(), 14);
    assert_eq!(gen.link.sent_blocks().len(), 14);
}

#[test]
fn integer_sub_wraps() {
    let sub = |c: &mut OneHotContext, a: &ShareMatrix, b: &ShareMatrix| integer_sub(c, &toy_hash, a, b);
    assert_eq!(run_gadget(12, 5, 8, sub), 7);
    assert_eq!(run_gadget(5, 12, 8, sub), 249);
    assert_eq!(run_gadget(1_000_000, 1, 32, sub), 999_999);
}

#[test]
fn swap_selects_by_share() {
    for s in [false, true] {
        let mut gen = OneHotContext::new_generator(DELTA_SAMPLE);
        let delta = gen.delta();
        let (xg, xe) = share_word(0xA5, 8, 10, delta);
        let (yg, ye) = share_word(0x3C, 8, 20, delta);
        let sg = Share(0x7777_0000_1111_2222);
        let se = Share(sg.0 ^ if s { delta } else { 0 });
        let out_g = swap(&mut gen, &toy_hash, sg, &xg, &yg).unwrap();
        let mut eva = OneHotContext::new_evaluator(gen.link.sent_blocks().to_vec(), gen.link.sent_bit_list().to_vec());
        let out_e = swap(&mut eva, &toy_hash, se, &xe, &ye).unwrap();
        assert_eq!(decode_word(delta, &out_g, &out_e), if s { 0xA5 } else { 0x3C });
    }
}

#[test]
fn sub_if_greater_reduces_once() {
    let f = |c: &mut OneHotContext, a: &ShareMatrix, b: &ShareMatrix| sub_if_greater(c, &toy_hash, a, b);
    assert_eq!(run_gadget(100, 30, 32, f), 70);
    assert_eq!(run_gadget(30, 100, 32, f), 30);
    assert_eq!(run_gadget(77, 77, 32, f), 0);
    assert_eq!(run_gadget(131_000, 65_521, 32, f), 65_479);
}

#[test]
fn evaluator_without_messages_fails() {
    let mut gen = OneHotContext::new_generator(DELTA_SAMPLE);
    let delta = gen.delta();
    let (_, xe) = share_word(5, 8, 1, delta);
    let (_, ye) = share_word(6, 8, 2, delta);
    let mut eva = OneHotContext::new_evaluator(Vec::new(), Vec::new());
    assert!(integer_add_full(&mut eva, &toy_hash, &xe, &ye).is_none());
    let _ = gen.delta();
}

#[test]
fn integer_multiply_small_words() {
    let mul = |c: &mut OneHotContext, a: &ShareMatrix, b: &ShareMatrix| integer_multiply(c, &toy_hash, a, b);
    assert_eq!(run_gadget(3, 5, 4, mul), 15);
    assert_eq!(run_gadget(7, 6, 4, mul), 42 % 16);
    assert_eq!(run_gadget(13, 11, 6, mul), 143 % 64);
    assert_eq!(run_gadget(8, 1, 4, mul), 8);
    assert_eq!(run_gadget(9, 3, 4, mul), 27 % 16);
    assert_eq!(run_gadget(15, 15, 4, mul), 225 % 16);
    assert_eq!(run_gadget(13, 11, 4, mul), 143 % 16);
}

#[test]
fn mod_p_reduces_words() {
    let mask: Vec<bool> = (0..32).map(|i| (0x5A3C_96E1u32 >> i) & 1 == 1).collect();
    let f = |c: &mut OneHotContext, a: &ShareMatrix, _b: &ShareMatrix| mod_p(c, &toy_hash, a, &mask);
    for x in [70_000u64, 123, 65_521, 65_520, 1 << 20, 0xFFFF_FFFF] {
        assert_eq!(run_gadget(x, 0, 32, f), x % 65_521, "x = {}", x);
    }
}

#[test]
fn outer_product_matches_plain_bits() {
    let x_bits = [true, false, true, true];
    let y_bits = [false, true, true];
    let mut gen = OneHotContext::new_generator(DELTA_SAMPLE);
    let delta = gen.delta();
    let xg: Vec<Share> = x_bits.iter().map(|&b| gen.bit(b)).collect();
    let yg: Vec<Share> = y_bits.iter().map(|&b| gen.bit(b)).collect();
    let out_g = outer_product(&mut gen, &toy_hash, &xg, &yg).unwrap();
    let mut eva = OneHotContext::new_evaluator(gen.link.sent_blocks().to_vec(), gen.link.sent_bit_list().to_vec());
    let xe: Vec<Share> = x_bits.iter().map(|&b| eva.bit(b)).collect();
    let ye: Vec<Share> = y_bits.iter().map(|&b| eva.bit(b)).collect();
    let out_e = outer_product(&mut eva, &toy_hash, &xe, &ye).unwrap();
    let decoded = decode_matrix(delta, &out_g, &out_e);
    for i in 0..x_bits.len() {
        for j in 0..y_bits.len() {
            assert_eq!(decoded.get(i, j), x_bits[i] & y_bits[j]);
        }
    }
}

#[test]
fn garbled_input_then_reveal() {
    for value in [false, true] {
        let mut gen = OneHotContext::new_generator(DELTA_SAMPLE);
        let mut sg = gen.ginput(Share(0x0F0F_0F0F_0000_1110), value).unwrap();
        let mut eva = OneHotContext::new_evaluator(gen.link.sent_blocks().to_vec(), Vec::new());
        let mut se = eva.ginput(Share(0), false).unwrap();
        assert_eq!(sg.0 ^ se.0, if value { gen.delta() } else { 0 });
        gen.reveal_bit(&mut sg).unwrap();
        let mut eva2 = OneHotContext::new_evaluator(gen.link.sent_blocks().to_vec(), gen.link.sent_bit_list().to_vec());
        let _ = eva2.ginput(Share(0), false).unwrap();
        assert_eq!(eva2.reveal_bit(&mut se), Some(value));
        assert_eq!(eva.reveal_bit(&mut se.clone()), None);
    }
}

#[test]
fn reveal_matrix_opens_every_entry() {
    let mut gen = OneHotContext::new_generator(DELTA_SAMPLE);
    let delta = gen.delta();
    let (mut xg, mut xe) = share_word(0b1011_0010, 8, 77, delta);
    assert!(xg.reveal_all(&mut gen));
    let mut eva = OneHotContext::new_evaluator(Vec::new(), gen.link.sent_bit_list().to_vec());
    assert!(xe.reveal_all(&mut eva));
    let colors = xe.colors();
    let mut v = 0u32;
    for i in 0..8 {
        if colors.get(i, 0) {
            v |= 1 << i;
        }
    }
    assert_eq!(v, 0b1011_0010);
}
