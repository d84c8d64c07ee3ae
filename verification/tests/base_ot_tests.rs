use curve25519_dalek::scalar::Scalar;
use emp_mpc::base_ot::{
    co_receiver_output, co_receiver_points, co_sender_pads, np_receiver_output, np_receiver_points,
    np_sender_pads, public_point, public_points,
};

fn scalar(x: u64) -> [u8; 32] {
    Scalar::from(x.wrapping_mul(0x9E37_79B9_7F4A_7C15) ^ 0x5555).to_bytes()
}

#[test]
fn naor_pinkas_round_trip() {
    let data0: Vec<u128> = vec![1, 2, 3];
    let data1: Vec<u128> = vec![10, 20, 30];
    let choices = vec![false, true, false];
    let d = scalar(7);
    let c = public_point(&d);
    let ks: Vec<[u8; 32]> = (0..3).map(|i| scalar(100 + i)).collect();
    let pk0 = np_receiver_points(&c, &ks, &choices).unwrap();
    let rs: Vec<[u8; 32]> = (0..3).map(|i| scalar(200 + i)).collect();
    let gr = public_points(&rs);
    let pairs = np_sender_pads(&c, &rs, &pk0, &data0, &data1).unwrap();
    let received = np_receiver_output(&gr, &ks, &pairs, &choices).unwrap();
    assert_eq!(received.len(), choices.len());
    for i in 0..choices.len() {
        let expected = if choices[i] { data1[i] } else { data0[i] };
        assert_eq!(received[i], expected);
    }
}

#[test]
fn chou_orlandi_round_trip() {
    let m0: Vec<u128> = vec![1, 2, 3];
    let m1: Vec<u128> = vec![10, 20, 30];
    let choices = vec![false, true, false];
    let a = scalar(11);
    let pa = public_point(&a);
    let rs: Vec<[u8; 32]> = (0..3).map(|i| scalar(300 + i)).collect();
    let bs = co_receiver_points(&pa, &rs, &choices).unwrap();
    let pairs = co_sender_pads(&a, &pa, &bs, &m0, &m1).unwrap();
    let out = co_receiver_output(&pa, &rs, &pairs, &choices).unwrap();
    assert_eq!(out.len(), choices.len());
    for i in 0..choices.len() {
        let expected = if choices[i] { m1[i] } else { m0[i] };
        assert_eq!(out[i], expected);
    }
}

#[test]
fn base_ot_refuses_points_that_do_not_decode() {
    // All bytes 0xff is not a canonical Ristretto encoding.
    let bad = [0xffu8; 32];
    let ks = vec![scalar(1)];
    assert!(np_receiver_points(&bad, &ks, &[true]).is_none());
    assert!(np_receiver_points(&bad, &ks, &[false]).is_some());
    assert!(np_sender_pads(&public_point(&scalar(2)), &ks, &[bad], &[1], &[2]).is_none());
    assert!(co_receiver_points(&bad, &ks, &[true]).is_none());
    assert!(co_receiver_output(&bad, &ks, &vec![vec![0u8; 32]], &[false]).is_none());
}
