use emp_mpc::circuit::Circuit;
use emp_mpc::evaluator::HalfGateEvaluator;
use emp_mpc::garbler::{garbler_setup, HalfGateGarbler};
use emp_mpc::halfgate::{halfgates_eval, halfgates_garble};
use emp_mpc::input_map::Party;
use emp_mpc::label::{OutputDecoder, WireLabel};
use emp_mpc::pf_parties::{PrivacyFreeEvaluator, PrivacyFreeGarbler};
use emp_mpc::privacy_free::{pf_gate_tweak, privacy_free_eval, privacy_free_garble};

fn toy_hash(x: u128) -> u128 {
    let y = x.wrapping_mul(0x9E37_79B9_7F4A_7C15_F39C_C060_5CED_C835);
    y ^ (y >> 61) ^ 0x1234_5678
}

#[test]
fn setup_forces_colour_bits() {
    let (delta, constant) = garbler_setup(0xABCD_EF00, 0x1357);
    assert_eq!(delta, 0xABCD_EF01);
    assert_eq!(constant[0] & 1, 0);
    assert_eq!(constant[1], constant[0] ^ delta);
}

#[test]
fn halfgate_truth_table() {
    let delta: u128 = 0xDEAD_BEEF_0000_1111 | 1;
    let la0: u128 = 0x1234_5678_9ABC_DEF0;
    let lb0: u128 = 0x0FED_CBA9_8765_4321;
    let a1 = la0 ^ delta;
    let b1 = lb0 ^ delta;
    let mut table = [0u128; 2];
    let h = [toy_hash(la0), toy_hash(a1), toy_hash(lb0), toy_hash(b1)];
    let w0 = halfgates_garble(la0, a1, lb0, b1, delta, &mut table, h);
    for x in [false, true] {
        for y in [false, true] {
            let a = if x { a1 } else { la0 };
            let b = if y { b1 } else { lb0 };
            let w = halfgates_eval(a, b, &table, toy_hash(a), toy_hash(b));
            let expect = if x && y { w0 ^ delta } else { w0 };
            assert_eq!(w, expect);
        }
    }
}

#[test]
fn privacy_free_truth_table() {
    let delta: u128 = 0x5555_0000_AAAA_0001;
    let la0: u128 = 0x2468_ACE0_1357_9BD0;
    let lb0: u128 = 0x1111_2222_3333_4444;
    let gid = 3u64;
    let tweak = pf_gate_tweak(gid);
    assert_eq!(tweak, 6);
    let a1 = la0 ^ delta;
    let mut table = [0u128; 1];
    let h = [toy_hash(la0 ^ tweak), toy_hash(a1 ^ tweak)];
    let w0 = privacy_free_garble(la0, a1, lb0, lb0 ^ delta, delta, &mut table, gid, h);
    for x in [false, true] {
        for y in [false, true] {
            let a = if x { a1 } else { la0 };
            let b = if y { lb0 ^ delta } else { lb0 };
            let w = privacy_free_eval(a, b, table[0], gid, toy_hash(a ^ tweak));
            let expect = if x && y { w0 ^ delta } else { w0 };
            assert_eq!(w, expect);
        }
    }
}

#[test]
fn wire_label_pair() {
    let w = WireLabel::new(0x10, 0x3);
    assert_eq!(w.zero(), 0x10);
    assert_eq!(w.one(), 0x13);
    assert_eq!(w.label(true), 0x13);
    assert_eq!(w.label(false), 0x10);
    assert_eq!(w.delta(), 0x3);
}

#[test]
fn decoder_reads_bits() {
    let mut d = OutputDecoder::new(0x3);
    d.push_zero_label(0x10);
    d.push_zero_label(0x20);
    assert!(!d.decode(0, 0x10));
    assert!(d.decode(0, 0x13));
    assert_eq!(d.decode_all(&[0x13, 0x20]), vec![true, false]);
}

fn and_xor_circuit() -> (Circuit, usize, usize) {
    let mut c = Circuit::new();
    let a = c.fresh_wire();
    let b = c.fresh_wire();
    let t = c.and(a, b);
    let u = c.xor(t, a);
    (c, t.id(), u.id())
}

/// NOT of a private wire, an AND over it, XOR with a public false, and
/// NOT of a public true.
fn not_circuit() -> (Circuit, Vec<usize>) {
    let mut c = Circuit::new();
    let a = c.fresh_wire();
    let b = c.fresh_wire();
    let na = c.not(a);
    let t = c.and(na, b);
    let f = c.public_wire(false);
    let u = c.xor(t, f);
    let v = c.xor(f, na);
    let one = c.public_wire(true);
    let z = c.not(one);
    let w = c.xor(z, b);
    (c, vec![na.id(), t.id(), u.id(), v.id(), w.id()])
}

fn not_circuit_plain(xa: bool, xb: bool) -> Vec<bool> {
    vec![!xa, !xa && xb, !xa && xb, !xa, xb]
}

#[test]
fn half_gate_not_gates_decode() {
    for (xa, xb) in [(false, false), (false, true), (true, false), (true, true)] {
        let (c, outs) = not_circuit();
        let n = c.wire_count();
        let zeros: Vec<u128> = (0..n).map(|i| toy_hash(500 + i as u128)).collect();
        let mut g = HalfGateGarbler::new(0xABCDEF, 0x1357, zeros);
        let mut e = HalfGateEvaluator::new(g.constant);
        g.feed(Party::Garbler, &[0], &[xa]);
        let ga = g.send_garbler_inputs(&[0], &[xa]);
        e.receive_garbler_inputs(&[0], &ga);
        let eb = g.feed(Party::Evaluator, &[1], &[xb]);
        e.feed(Party::Evaluator, &[1], &eb);
        e.prepare(&c);
        for gate in c.gates() {
            if let Some((la0, lb0)) = g.garble_gate(gate) {
                let d = g.delta;
                let h = [toy_hash(la0), toy_hash(la0 ^ d), toy_hash(lb0), toy_hash(lb0 ^ d)];
                let table = g.garble_and(gate, la0, lb0, h);
                let (la, lb) = e.evaluate_gate(gate).unwrap();
                e.evaluate_and(gate, table, toy_hash(la), toy_hash(lb));
            } else {
                assert!(e.evaluate_gate(gate).is_none());
            }
        }
        g.set_outputs(&outs);
        let lbls = e.send_outputs(&outs);
        assert_eq!(g.decode_outputs(&lbls), not_circuit_plain(xa, xb));
    }
}

#[test]
fn privacy_free_not_gates_decode() {
    for (xa, xb) in [(false, false), (false, true), (true, false), (true, true)] {
        let (c, outs) = not_circuit();
        let n = c.wire_count();
        let samples: Vec<u128> = (0..n).map(|i| toy_hash(900 + i as u128)).collect();
        let mut g = PrivacyFreeGarbler::new(0x2468, 0x1111, samples);
        let mut e = PrivacyFreeEvaluator::new(g.constant);
        g.feed(Party::Garbler, &[0], &[xa]);
        let ga = g.send_garbler_inputs(&[0], &[xa]);
        e.receive_garbler_inputs(&[0], &ga);
        let eb = g.feed(Party::Evaluator, &[1], &[xb]);
        e.feed(Party::Evaluator, &[1], &eb);
        e.prepare(&c);
        for gate in c.gates() {
            if let Some((la0, lb0)) = g.garble_gate(gate) {
                let d = g.delta;
                let tweak = pf_gate_tweak(g.gid);
                let h = [toy_hash(la0 ^ tweak), toy_hash((la0 ^ d) ^ tweak)];
                let table = g.garble_and(gate, la0, lb0, h);
                let la = e.evaluate_gate(gate).unwrap();
                let tweak_e = pf_gate_tweak(e.gid);
                e.evaluate_and(gate, table, toy_hash(la ^ tweak_e));
            } else {
                assert!(e.evaluate_gate(gate).is_none());
            }
        }
        g.set_outputs(&outs);
        let lbls = e.send_outputs(&outs);
        assert_eq!(g.decode_outputs(&lbls), not_circuit_plain(xa, xb));
    }
}

#[test]
fn half_gate_end_to_end() {
    for (xa, xb) in [(false, false), (false, true), (true, false), (true, true)] {
        let (c, t, u) = and_xor_circuit();
        let n = c.wire_count();
        let zeros: Vec<u128> = (0..n).map(|i| toy_hash(1000 + i as u128)).collect();
        let mut g = HalfGateGarbler::new(0xABCDEF, 0x1357, zeros);
        let mut e = HalfGateEvaluator::new(g.constant);
        g.feed(Party::Garbler, &[0], &[xa]);
        let ga = g.send_garbler_inputs(&[0], &[xa]);
        e.receive_garbler_inputs(&[0], &ga);
        let eb = g.feed(Party::Evaluator, &[1], &[xb]);
        e.feed(Party::Evaluator, &[1], &eb);
        e.prepare(&c);
        for gate in c.gates() {
            if let Some((la0, lb0)) = g.garble_gate(gate) {
                let d = g.delta;
                let h = [toy_hash(la0), toy_hash(la0 ^ d), toy_hash(lb0), toy_hash(lb0 ^ d)];
                let table = g.garble_and(gate, la0, lb0, h);
                let (la, lb) = e.evaluate_gate(gate).unwrap();
                e.evaluate_and(gate, table, toy_hash(la), toy_hash(lb));
            } else {
                assert!(e.evaluate_gate(gate).is_none());
            }
        }
        g.set_outputs(&[t, u]);
        let lbls = e.send_outputs(&[t, u]);
        let bits = g.decode_outputs(&lbls);
        assert_eq!(bits, vec![xa && xb, (xa && xb) ^ xa]);
        let (lbls2, bits2) = e.reveal_labels(&[t, u], g.decoder());
        assert_eq!(lbls2, lbls);
        assert_eq!(bits2, bits);
    }
}

#[test]
fn privacy_free_end_to_end() {
    for (xa, xb) in [(false, false), (false, true), (true, false), (true, true)] {
        let (c, t, u) = and_xor_circuit();
        let n = c.wire_count();
        let samples: Vec<u128> = (0..n).map(|i| toy_hash(77 + i as u128)).collect();
        let mut g = PrivacyFreeGarbler::new(0x2468, 0x1111, samples);
        let mut e = PrivacyFreeEvaluator::new(g.constant);
        g.feed(Party::Garbler, &[0], &[xa]);
        let ga = g.send_garbler_inputs(&[0], &[xa]);
        e.receive_garbler_inputs(&[0], &ga);
        let eb = g.feed(Party::Evaluator, &[1], &[xb]);
        e.feed(Party::Evaluator, &[1], &eb);
        e.prepare(&c);
        for gate in c.gates() {
            if let Some((la0, _lb0)) = g.garble_gate(gate) {
                let d = g.delta;
                let tweak = pf_gate_tweak(g.gid);
                let h = [toy_hash(la0 ^ tweak), toy_hash((la0 ^ d) ^ tweak)];
                let table = g.garble_and(gate, la0, _lb0, h);
                let la = e.evaluate_gate(gate).unwrap();
                let tweak_e = pf_gate_tweak(e.gid);
                e.evaluate_and(gate, table, toy_hash(la ^ tweak_e));
            } else {
                assert!(e.evaluate_gate(gate).is_none());
            }
        }
        g.set_outputs(&[t, u]);
        let lbls = e.send_outputs(&[t, u]);
        let bits = g.decode_outputs(&lbls);
        assert_eq!(bits, vec![xa && xb, (xa && xb) ^ xa]);
        assert_eq!(g.num_and(), 1);
        assert_eq!(e.num_and(), 1);
    }
}

#[test]
fn half_gate_and_count_carries_across_circuits() {
    let h = |x: u128, t: u64| toy_hash(x ^ ((t as u128) << 64));
    let (c, t, u) = and_xor_circuit();
    let n = c.wire_count();
    let zeros: Vec<u128> = (0..n).map(|i| toy_hash(3000 + i as u128)).collect();
    let mut g = HalfGateGarbler::new(0x5151, 0x7373, zeros);
    let mut e = HalfGateEvaluator::new(g.constant);
    let (xa, xb) = (true, true);
    g.feed(Party::Garbler, &[0], &[xa]);
    let ga = g.send_garbler_inputs(&[0], &[xa]);
    e.receive_garbler_inputs(&[0], &ga);
    let eb = g.feed(Party::Evaluator, &[1], &[xb]);
    e.feed(Party::Evaluator, &[1], &eb);
    let first = g.garble(&c, &h);
    assert!(e.evaluate(&c, &first, &h));
    assert_eq!((g.num_and(), e.num_and()), (1, 1));
    let second = g.garble(&c, &h);
    assert_ne!(first, second);
    assert!(e.evaluate(&c, &second, &h));
    assert_eq!((g.num_and(), e.num_and()), (2, 2));
    g.set_outputs(&[t, u]);
    let lbls = e.send_outputs(&[t, u]);
    assert_eq!(g.decode_outputs(&lbls), vec![xa && xb, (xa && xb) ^ xa]);
}
