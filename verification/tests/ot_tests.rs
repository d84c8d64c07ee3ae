use emp_mpc::block_hash::{
    block_from_bytes, block_to_bytes, decode_block_pair, encode_block_pair, hash_block_with_idx,
    kdf_block, kdf_point, kdf_point_indexed, Ccrh,
};
use emp_mpc::driver::{merge_outputs, public_lookup, secret_outputs};
use emp_mpc::ferret_params::{ferret_b11, ferret_b12, ferret_b13, ferret_config_b13, PrimalLpnParameter};
use emp_mpc::iknp::{receiver_outputs, receiver_row, sender_messages, sender_q_row, K};
use emp_mpc::input_map::Party;
use emp_mpc::pre_ot::PreOt;
use emp_mpc::runtime::{CircuitExecution, PlainCircExec, PlainProtExec, ProtocolExecution};
use sha2::{Digest, Sha256};

fn first_block(d: &[u8]) -> u128 {
    let mut b = [0u8; 16];
    b.copy_from_slice(&d[..16]);
    u128::from_le_bytes(b)
}

#[test]
fn block_bytes_little_endian() {
    let b = 0x0102_0304_0506_0708_090A_0B0C_0D0E_0F10u128;
    let bytes = block_to_bytes(b);
    assert_eq!(bytes, b.to_le_bytes().to_vec());
    assert_eq!(block_from_bytes(&bytes), b);
}

#[test]
fn block_pair_codec() {
    let buf = encode_block_pair(5, u128::MAX - 1);
    assert_eq!(buf.len(), 32);
    assert_eq!(decode_block_pair(&buf), (5, u128::MAX - 1));
}

#[test]
fn hash_with_index_is_sha256_of_block_and_index() {
    let b = 42u128;
    let mut h = Sha256::new();
    h.update(b.to_le_bytes());
    h.update(7u64.to_le_bytes());
    let expect = first_block(&h.finalize());
    assert_eq!(hash_block_with_idx(b, 7), expect);
    assert_ne!(hash_block_with_idx(b, 7), b);
    assert_ne!(hash_block_with_idx(b, 7), hash_block_with_idx(b, 8));
}

#[test]
fn kdf_of_block_and_point() {
    let b = 0xFEED_u128;
    let expect = first_block(&Sha256::digest(b.to_le_bytes()));
    assert_eq!(kdf_block(b), expect);
    let p = [3u8; 32];
    assert_eq!(kdf_point(&p), first_block(&Sha256::digest(p)));
    let mut h = Sha256::new();
    h.update(p);
    h.update(9u64.to_le_bytes());
    assert_eq!(kdf_point_indexed(&p, 9), first_block(&h.finalize()));
}

#[test]
fn ccrh_hashes_with_position() {
    let out = Ccrh.hash_blocks(&[1, 1, 2]);
    assert_eq!(out.len(), 3);
    assert_eq!(out[0], hash_block_with_idx(1, 0));
    assert_eq!(out[1], hash_block_with_idx(1, 1));
    assert_ne!(out[0], out[1]);
}

#[test]
fn pre_ot_buffers_choices_and_masks() {
    let mut pre = PreOt::new(4, 2);
    let data: Vec<u128> = (0..8).map(|i| i as u128).collect();
    pre.recv_pre(&data);

    let mut choices = [false; 4];
    pre.choices_receiver(&mut choices);
    assert_eq!(choices, [false, true, false, true]);
    pre.reset();
    let mut choices2 = [false; 4];
    pre.choices_receiver(&mut choices2);
    assert_eq!(choices2, [false, true, false, true]);
}

#[test]
fn pre_ot_windows_round_trip() {
    let delta = 0xDE1A_u128 | 1;
    let data_r: Vec<u128> = (0..4).map(|i| 0x100 + i as u128).collect();
    let data_s: Vec<u128> = data_r.iter().map(|d| if d & 1 == 1 { d ^ delta } else { *d }).collect();
    let mut recv = PreOt::new(2, 2);
    let mut send = PreOt::new(2, 2);
    recv.recv_pre(&data_r);
    send.send_pre(&data_s, delta);
    let m0 = [11u128, 12];
    let m1 = [21u128, 22];
    let mut out0 = [0u128; 2];
    let mut out1 = [0u128; 2];
    send.send_window(&m0, &m1, &mut out0, &mut out1, 0);
    send.choices_sender();
    let mut choices = [false; 2];
    recv.choices_receiver(&mut choices);
    let got = recv.recv_window(&out0, &out1, &choices);
    assert_eq!(got.len(), 2);
    assert_eq!(choices, [false, true]);
    assert_eq!(got[0], 11);
    assert_eq!(got[1], out1[1] ^ hash_block_with_idx(data_r[1], 1));
}

#[test]
fn driver_output_merge() {
    let outputs = [4usize, 7, 9, 7];
    let public = [(7usize, true), (9, false), (9, true)];
    assert_eq!(public_lookup(&public, 9), Some(true));
    assert_eq!(public_lookup(&public, 4), None);
    assert_eq!(secret_outputs(&outputs, &public), vec![4]);
    assert_eq!(merge_outputs(&outputs, &public, &[false]), vec![false, true, true, true]);
    assert_eq!(secret_outputs(&[1, 2, 3], &[]), vec![1, 2, 3]);
    assert_eq!(merge_outputs(&[1, 2, 3], &[], &[true, false, true]), vec![true, false, true]);
}

#[test]
fn plain_executors() {
    let mut p = PlainProtExec;
    let labels = p.feed(Party::Garbler, &[true, false]);
    assert_eq!(labels, vec![u128::MAX, 0]);
    assert_eq!(p.reveal_bits(Party::Evaluator, &labels), vec![true, false]);
    let mut c = PlainCircExec;
    assert_eq!(c.and_gate(u128::MAX, 1), u128::MAX);
    assert_eq!(c.and_gate(u128::MAX, 0), 0);
    assert_eq!(c.xor_gate(u128::MAX, 0), u128::MAX);
    assert_eq!(c.not_gate(0), u128::MAX);
    assert_eq!(c.public_label(false), 0);
}

#[test]
fn ferret_presets() {
    let p = ferret_b13();
    assert_eq!(p.n, 10_485_760);
    assert_eq!(p.log_bin_sz, 13);
    assert_eq!(ferret_b12().t, 2_507);
    assert_eq!(ferret_b11().k_pre, 17_384);
    assert_eq!(ferret_config_b13().density, 10);
    let q = PrimalLpnParameter::new(1, 2, 3, 4, 5, 6, 7, 8);
    assert_eq!(q.log_bin_sz_pre, 8);
}

fn toy_bits(seed: u64, n: usize) -> Vec<bool> {
    let mut x = seed.wrapping_mul(6364136223846793005).wrapping_add(1442695040888963407);
    (0..n)
        .map(|_| {
            x = x.wrapping_mul(6364136223846793005).wrapping_add(1442695040888963407);
            (x >> 33) & 1 == 1
        })
        .collect()
}

#[test]
fn iknp_round_trip() {
    let m0: Vec<u128> = vec![1, 2, 3, 4];
    let m1: Vec<u128> = vec![10, 20, 30, 40];
    let choices = vec![false, true, false, true];
    let n = choices.len();
    let delta_bits = toy_bits(99, K);
    let mut delta = [false; 128];
    for i in 0..K {
        delta[i] = delta_bits[i];
    }
    let mut columns = vec![[false; 128]; n];
    let mut q_rows: Vec<Vec<bool>> = Vec::new();
    for i in 0..K {
        let t0 = toy_bits(2 * i as u64, n);
        let t1 = toy_bits(2 * i as u64 + 1, n);
        let u = receiver_row(&t0, &t1, &choices);
        for j in 0..n {
            columns[j][i] = t0[j];
        }
        let t = if delta[i] { t1.clone() } else { t0.clone() };
        q_rows.push(sender_q_row(&t, &u, delta[i]).unwrap());
    }
    let pairs = sender_messages(&q_rows, &delta, &m0, &m1);
    let out = receiver_outputs(&columns, &choices, &pairs);
    assert_eq!(out.len(), choices.len());
    for i in 0..choices.len() {
        let expected = if choices[i] { m1[i] } else { m0[i] };
        assert_eq!(out[i], expected);
    }
}

#[test]
fn iknp_rejects_non_bit_bytes() {
    let err = sender_q_row(&[false, true, false], &[0, 1, 7], true).unwrap_err();
    assert_eq!(err.position, 2);
    assert_eq!(err.value, 7);
}
