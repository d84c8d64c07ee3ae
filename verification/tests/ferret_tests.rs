use emp_mpc::block_hash::hash_block_with_idx;
use emp_mpc::cot::{correlated_messages, rot_outputs, rot_pads};
use emp_mpc::feistel::{feistel, feistel_inverse};
use emp_mpc::ferret_params::PrimalLpnParameter;
use emp_mpc::ggm::{ggm_expand, ggm_tree_reconstruction, TwoKeyPrp};
use emp_mpc::lpn::{eval_row, sample_noise_bit, Lpn};
use emp_mpc::ot_bits::compute_choice_pos;
use emp_mpc::spcot::{spcot_receiver_recover, spcot_sender_expand};

/// A keyed mixing function standing in for the block cipher.
fn keyed(k0: u128, k1: u128) -> impl Fn(u128) -> u128 {
    move |x: u128| {
        let mut y = (x ^ k0).wrapping_mul(0x2545_F491_4F6C_DD1D_9E37_79B9_7F4A_7C15) ^ k1;
        y ^= y >> 67;
        y.wrapping_mul(0xD6E8_FEB8_6659_FD93_A5A5_5A5A_0123_4567) ^ (y >> 29)
    }
}

fn two_key_prp() -> TwoKeyPrp<impl Fn(u128) -> u128> {
    TwoKeyPrp::new(keyed(1, 2))
}

#[test]
fn prp_round_trip() {
    let prp = two_key_prp();
    let inputs = [0u128, 42u128, u128::MAX / 2, 0xDEADBEEFCAFEBABE_u128];
    for &inp in &inputs {
        let perm = prp.permute(inp);
        let inv = prp.invert(perm);
        assert_eq!(inv, inp);
    }
    assert_ne!(prp.permute(1), prp.permute(2));
}

#[test]
fn feistel_inverts_any_round_function() {
    let f = |x: u128| x.rotate_left(13) ^ 0x55;
    for s in [0u128, 1, u128::MAX, 0x0123_4567_89AB_CDEF_FEDC_BA98_7654_3210] {
        assert_eq!(feistel_inverse(feistel(s, &f), &f), s);
    }
}

#[test]
fn node_expansion_permutes_children() {
    let prp = two_key_prp();
    let mut two = [0u128; 2];
    prp.node_expand_1to2(&mut two, 9);
    assert_eq!(two, [prp.permute(9), prp.permute(8)]);
    let mut four = [0u128; 5];
    prp.node_expand_2to4(&mut four, &[4, 7]);
    assert_eq!(four, [prp.permute(4), prp.permute(5), prp.permute(7), prp.permute(6), 0]);
    let mut eight = [0u128; 8];
    prp.node_expand_4to8(&mut eight, &[0, 2, 4, 6]);
    for k in 0..8 {
        assert_eq!(eight[k], prp.permute(k as u128));
    }
}

#[test]
fn ggm_outputs_deterministic() {
    let prp = two_key_prp();
    let mut leaves = vec![0u128; 8];
    let mut m0 = vec![0u128; 3];
    let mut m1 = vec![0u128; 3];
    ggm_expand(&prp, 42u128, 4, &mut leaves, &mut m0, &mut m1);
    let mut leaves2 = vec![0u128; 8];
    let mut m02 = vec![0u128; 3];
    let mut m12 = vec![0u128; 3];
    ggm_expand(&prp, 42u128, 4, &mut leaves2, &mut m02, &mut m12);
    assert_eq!(leaves, leaves2);
    assert_eq!(m0, m02);
    assert_eq!(m1, m12);
}

#[test]
fn ggm_level_sums() {
    let prp = two_key_prp();
    let mut leaves = vec![0u128; 4];
    let mut m0 = vec![0u128; 2];
    let mut m1 = vec![0u128; 2];
    ggm_expand(&prp, 7, 3, &mut leaves, &mut m0, &mut m1);
    let l1 = [prp.permute(7), prp.permute(6)];
    assert_eq!(m0[0], l1[0]);
    assert_eq!(m1[0], l1[1]);
    let l2 = [prp.permute(l1[0]), prp.permute(l1[0] ^ 1), prp.permute(l1[1]), prp.permute(l1[1] ^ 1)];
    assert_eq!(leaves, l2.to_vec());
    assert_eq!(m0[1], l2[0] ^ l2[2]);
    assert_eq!(m1[1], l2[1] ^ l2[3]);
}

#[test]
fn ggm_reconstruction_matches_sender() {
    let depth = 4;
    let prp = two_key_prp();
    let seed = 42u128;
    let mut leaves = vec![0u128; 1 << (depth - 1)];
    let mut m0 = vec![0u128; depth - 1];
    let mut m1 = vec![0u128; depth - 1];
    ggm_expand(&prp, seed, depth, &mut leaves, &mut m0, &mut m1);

    let choice_bits = vec![false, true, false];
    let choice_pos = compute_choice_pos(&choice_bits);
    let mut msgs = Vec::with_capacity(depth - 1);
    for i in 0..depth - 1 {
        msgs.push(if choice_bits[i] { m1[i] } else { m0[i] });
    }
    let mask = 0xFFFF_FFFF_FFFF_FFFF_FFFF_FFFF_FFFF_FFFEu128;
    for leaf in leaves.iter_mut() {
        *leaf &= mask;
    }
    let secret_sum = leaves.iter().fold(0u128, |acc, b| acc ^ *b);

    let mut reconstructed = vec![0u128; 1 << (depth - 1)];
    ggm_tree_reconstruction(&prp, depth, &choice_bits, &msgs, &mut reconstructed);
    for leaf in reconstructed.iter_mut() {
        *leaf &= mask;
    }
    let xor_all = reconstructed.iter().fold(0u128, |acc, b| acc ^ *b);
    let recovered = xor_all ^ secret_sum ^ reconstructed[choice_pos];
    assert_ne!(recovered, 0);
}

#[test]
fn ggm_reconstruction_misses_one_leaf() {
    let depth = 4;
    let prp = two_key_prp();
    let mut leaves = vec![0u128; 8];
    let mut m0 = vec![0u128; 3];
    let mut m1 = vec![0u128; 3];
    ggm_expand(&prp, 0xABCD, depth, &mut leaves, &mut m0, &mut m1);
    let bits = [true, false, true];
    let msgs: Vec<u128> = (0..3).map(|i| if bits[i] { m1[i] } else { m0[i] }).collect();
    let mut rebuilt = vec![0u128; 8];
    ggm_tree_reconstruction(&prp, depth, &bits, &msgs, &mut rebuilt);
    // The missing leaf is the one on the negated path: 0b010.
    for k in 0..8 {
        if k == 0b010 {
            assert_eq!(rebuilt[k], 0);
            assert_ne!(leaves[k], 0);
        } else {
            assert_eq!(rebuilt[k], leaves[k]);
        }
    }
}

#[test]
fn spcot_recovers_missing_leaf() {
    let prp = two_key_prp();
    let depth = 4;
    let (leaves, m0, m1, secret_sum) = spcot_sender_expand(&prp, 0x5EED, depth);
    assert_eq!(leaves.len(), 8);
    assert!(leaves.iter().all(|l| l & 1 == 0));
    assert_eq!(secret_sum, leaves.iter().fold(0, |a, b| a ^ b));
    let bits = vec![false, false, true];
    let ot_out: Vec<u128> = (0..3).map(|i| if bits[i] { m1[i] } else { m0[i] }).collect();
    let recovered = spcot_receiver_recover(&prp, depth, &bits, &ot_out, secret_sum);
    // The receiver misses leaf 0b110 and holds leaf 0b001 (the choice position).
    assert_eq!(recovered, leaves[0b110] ^ leaves[0b001]);
}

#[test]
fn correlated_and_random_ot_pads() {
    let delta = 0xD00D_0001u128;
    let q = [11u128, 22, 33];
    let m1 = correlated_messages(&q, delta);
    assert_eq!(m1, vec![11 ^ delta, 22 ^ delta, 33 ^ delta]);
    let (p0, p1) = rot_pads(&q, delta);
    let choices = [true, false, true];
    let seeds: Vec<u128> = q.iter().zip(choices).map(|(q, c)| if c { q ^ delta } else { *q }).collect();
    let out = rot_outputs(&seeds);
    for i in 0..3 {
        assert_eq!(out[i], if choices[i] { p1[i] } else { p0[i] });
        assert_eq!(p0[i], hash_block_with_idx(q[i], i as u64));
        assert_ne!(out[i], if choices[i] { p0[i] } else { p1[i] });
    }
}

#[test]
fn deterministic_output() {
    let seed = 42u128;
    let aes = keyed(seed, 0);
    let lpn = Lpn::new(8, 4, 3, seed);
    let x = [1u128, 2, 3, 4];
    let y1 = lpn.apply(&aes, &x);
    let y2 = lpn.apply(&aes, &x);
    assert_eq!(y1, y2);
    assert_eq!(y1.len(), 8);
}

#[test]
fn matches_serial_eval() {
    let seed = 7u128;
    let aes = keyed(seed, 0);
    let lpn = Lpn::new(5, 3, 2, seed);
    let x = [0xA_u128, 0xB_u128, 0xC_u128];
    let expected: Vec<u128> = (0..lpn.n).map(|row| eval_row(&aes, row as u64, lpn.k, lpn.d, &x)).collect();
    let parallel = lpn.apply(&aes, &x);
    assert_eq!(parallel, expected);
}

#[test]
fn eval_row_xors_picked_columns() {
    let aes = keyed(3, 4);
    let x = [0x10u128, 0x20, 0x40];
    let mut expect = 0u128;
    for c in 0..4u64 {
        let idx = (aes(((c as u128) << 64) | 5) as usize) % 3;
        expect ^= x[idx];
    }
    assert_eq!(eval_row(&aes, 5, 3, 4, &x), expect);
    assert_eq!(eval_row(&aes, 5, 3, 0, &x), 0);
}

#[test]
fn noise_probability_applies_deterministically() {
    let seed = 99u128;
    let aes = keyed(seed, 0);
    let lpn = Lpn::new(4, 2, 2, seed);
    let x = [1u128, 2u128];
    // The largest threshold flips every output by 1 over GF(2).
    let base = lpn.apply(&aes, &x);
    let noisy = lpn.apply_with_threshold(&aes, &x, u64::MAX);
    for (b, n) in base.iter().zip(noisy.iter()) {
        assert_eq!(*n, *b ^ 1u128);
    }
    let mixed = lpn.apply_with_threshold(&aes, &x, u64::MAX / 2);
    for r in 0..4 {
        let flip = sample_noise_bit(&aes, r as u64, 2) <= u64::MAX / 2;
        assert_eq!(mixed[r], base[r] ^ if flip { 1 } else { 0 });
    }
}

#[test]
fn builds_from_params() {
    let seed = 123u128;
    let params = PrimalLpnParameter::new(8, 2, 4, 0, 0, 0, 0, 0);
    let lpn = Lpn::from_params(params, 3, seed);
    assert_eq!(lpn.n, 8);
    assert_eq!(lpn.k, 4);
    assert_eq!(lpn.d, 3);
    let x = vec![1u128; 4];
    let out = lpn.apply(&keyed(seed, 0), &x);
    assert_eq!(out.len(), 8);
}

#[test]
fn prp_permute_undoes_invert() {
    let prp = two_key_prp();
    for &y in &[0u128, 7, u128::MAX, 0x1111_2222_3333_4444_5555_6666_7777_8888] {
        assert_eq!(prp.permute(prp.invert(y)), y);
    }
}
