use emp_mpc::bristol::parse_str;
use emp_mpc::circuit::{gate_counts, Circuit};
use emp_mpc::execution::PlainEvaluator;
use emp_mpc::gadgets::{add, eq, mux, swap_if};
use emp_mpc::gate::GateKind;
use emp_mpc::input_map::{InputMap, Party};
use emp_mpc::wire::Wire;

#[test]
fn parse_header() {
    let txt = "3 5\n2 1 0 1 2 XOR\n2 1 2 3 4 AND\n1 1 4 0 INV";
    let (c, meta) = parse_str(txt).unwrap();
    assert_eq!(meta.gates, 3);
    assert_eq!(meta.wires, 5);
    let mut ev = PlainEvaluator::new();
    let vals = ev.evaluate(&c, &[true, false, true, false, false]);
    let last = c.gates().last().unwrap().output().id();
    assert_eq!(vals.get(&last), Some(&true));
}

#[test]
fn build_basic_circuit() {
    let mut c = Circuit::new();
    let a = c.fresh_wire();
    let b = c.fresh_wire();
    let _ = c.and(a, b);
    let _ = c.xor(a, b);
    let _ = c.not(a);
    let (ands, xors, nots) = gate_counts(&c);
    assert_eq!((ands, xors, nots), (1, 1, 1));
    assert_eq!(c.wire_count(), 5);
}

#[test]
fn eval_simple_circuit() {
    let mut c = Circuit::new();
    let a = c.fresh_wire();
    let b = c.fresh_wire();
    let t = c.xor(a, b);
    let one = c.public_wire(true);
    let _ = c.and(t, one);

    let mut ev = PlainEvaluator::new();
    let vals = ev.evaluate(&c, &[true, false]);
    let last = c.gates().last().unwrap().output().id();
    assert_eq!(vals.get(&last), Some(&true));
    assert_eq!(ev.num_and(), 1);
}

#[test]
fn mux_selects() {
    let mut c = Circuit::new();
    let sel = c.public_wire(false);
    let a = c.public_wire(true);
    let b = c.public_wire(false);
    let out = mux(&mut c, sel, a, b);
    let mut ev = PlainEvaluator::new();
    let vals = ev.evaluate(&c, &[]);
    assert_eq!(vals.get(&out.id()), Some(&true));
}

#[test]
fn parse_rejects_malformed_input() {
    assert!(parse_str("").is_none());
    assert!(parse_str("x 5\n").is_none());
    assert!(parse_str("1 3\n2 1 0 1 2 NAND").is_none());
    assert!(parse_str("1 3\n2 1 0 1 AND").is_none());
}

#[test]
fn parse_reads_party_counts() {
    let txt = "1 3\n2 1 1 1\n\n2 1 0 1 2 AND";
    let (c, meta) = parse_str(txt).unwrap();
    assert_eq!(meta.inputs, vec![1, 1]);
    assert_eq!(meta.outputs, vec![1]);
    assert_eq!(c.gates().len(), 1);
    assert_eq!(c.gates()[0].kind(), GateKind::And);
}

#[test]
fn mux_selects_first_when_set() {
    let mut c = Circuit::new();
    let sel = c.public_wire(true);
    let a = c.public_wire(true);
    let b = c.public_wire(false);
    let out = mux(&mut c, sel, a, b);
    let mut ev = PlainEvaluator::new();
    let vals = ev.evaluate(&c, &[]);
    assert_eq!(vals.get(&out.id()), Some(&false));
}

#[test]
fn swap_if_exchanges_on_true() {
    let mut c = Circuit::new();
    let s = c.fresh_wire();
    let a = c.fresh_wire();
    let b = c.fresh_wire();
    let (x, y) = swap_if(&mut c, s, a, b);
    let mut ev = PlainEvaluator::new();
    let vals = ev.evaluate(&c, &[true, true, false]);
    assert_eq!(vals.get(&x.id()), Some(&false));
    assert_eq!(vals.get(&y.id()), Some(&true));
    let mut ev2 = PlainEvaluator::new();
    let vals2 = ev2.evaluate(&c, &[false, true, false]);
    assert_eq!(vals2.get(&x.id()), Some(&true));
    assert_eq!(vals2.get(&y.id()), Some(&false));
}

#[test]
fn eq_compares_words() {
    let mut c = Circuit::new();
    let a: Vec<Wire> = (0..3).map(|_| c.fresh_wire()).collect();
    let b: Vec<Wire> = (0..3).map(|_| c.fresh_wire()).collect();
    let out = eq(&mut c, &a, &b);
    let mut ev = PlainEvaluator::new();
    let vals = ev.evaluate(&c, &[true, false, true, true, false, true]);
    assert_eq!(vals.get(&out.id()), Some(&true));
    let mut ev2 = PlainEvaluator::new();
    let vals2 = ev2.evaluate(&c, &[true, false, true, true, true, true]);
    assert_eq!(vals2.get(&out.id()), Some(&false));
}

#[test]
fn add_computes_sum_and_carry() {
    let mut c = Circuit::new();
    let a: Vec<Wire> = (0..3).map(|_| c.fresh_wire()).collect();
    let b: Vec<Wire> = (0..3).map(|_| c.fresh_wire()).collect();
    let (sum, carry) = add(&mut c, &a, &b);
    // 5 + 6 = 11 = 0b1011: low bits 011 (lsb first: 1,1,0), carry 1.
    let mut ev = PlainEvaluator::new();
    let vals = ev.evaluate(&c, &[true, false, true, false, true, true]);
    assert_eq!(vals.get(&sum[0].id()), Some(&true));
    assert_eq!(vals.get(&sum[1].id()), Some(&true));
    assert_eq!(vals.get(&sum[2].id()), Some(&false));
    assert_eq!(vals.get(&carry.id()), Some(&true));
}

#[test]
fn input_map_splits_parties() {
    let m = InputMap::new(2, 3);
    assert_eq!(m.indices(Party::Garbler), vec![0, 1]);
    assert_eq!(m.indices(Party::Evaluator), vec![2, 3, 4]);
}

#[test]
fn wire_accessors() {
    let w = Wire::new(7);
    assert_eq!(w.id(), 7);
    assert_eq!(w.public_value(), None);
    let p = Wire::public(3, true);
    assert_eq!(p.public_value(), Some(true));
}

#[test]
fn parse_bristol_fashion_header() {
    let txt = "1 3\n2 1 1\n1 1\n\n2 1 0 1 2 AND";
    let (c, meta) = parse_str(txt).unwrap();
    assert_eq!(meta.gates, 1);
    assert_eq!(meta.wires, 3);
    assert_eq!(meta.inputs, vec![1, 1]);
    assert_eq!(meta.outputs, vec![1]);
    assert_eq!(c.gates().to_vec(), vec![emp_mpc::gate::Gate::and(Wire::new(0), Wire::new(1), Wire::new(2))]);
    assert_eq!(c.wire_count(), 3);
}

#[test]
fn parse_bristol_fashion_inputs_without_outputs_line() {
    let txt = "1 3\n2 1 1\n2 1 0 1 2 XOR\n";
    let (c, meta) = parse_str(txt).unwrap();
    assert_eq!(meta.inputs, vec![1, 1]);
    assert!(meta.outputs.is_empty());
    assert_eq!(c.gates().len(), 1);
}

#[test]
fn parse_unicode_whitespace() {
    let (c, meta) = parse_str("0\u{3000}0").unwrap();
    assert_eq!((meta.gates, meta.wires), (0, 0));
    assert!(c.gates().is_empty());
    let txt = "1\u{a0}3\n2\u{2003}1 0 1\u{85}2 AND\u{2029}";
    let (c, meta) = parse_str(txt).unwrap();
    assert_eq!((meta.gates, meta.wires), (1, 3));
    assert_eq!(c.gates().len(), 1);
    assert!(parse_str("0\u{200b}0").is_none());
}

fn bits_of(x: u32, n: usize) -> Vec<bool> {
    (0..n).map(|i| (x >> i) & 1 == 1).collect()
}

#[test]
fn add_matches_integer_sum_exhaustively() {
    let n = 3;
    let mut c = Circuit::new();
    let a: Vec<Wire> = (0..n).map(|_| c.fresh_wire()).collect();
    let b: Vec<Wire> = (0..n).map(|_| c.fresh_wire()).collect();
    let (sum, carry) = add(&mut c, &a, &b);
    for x in 0..8u32 {
        for y in 0..8u32 {
            let mut ev = PlainEvaluator::new();
            let vals = ev.evaluate(&c, &[bits_of(x, n), bits_of(y, n)].concat());
            let mut total = 0u32;
            for (i, s) in sum.iter().enumerate() {
                if vals[&s.id()] {
                    total += 1 << i;
                }
            }
            if vals[&carry.id()] {
                total += 1 << n;
            }
            assert_eq!(total, x + y);
        }
    }
}

#[test]
fn eq_matches_word_equality_exhaustively() {
    let n = 3;
    let mut c = Circuit::new();
    let a: Vec<Wire> = (0..n).map(|_| c.fresh_wire()).collect();
    let b: Vec<Wire> = (0..n).map(|_| c.fresh_wire()).collect();
    let out = eq(&mut c, &a, &b);
    for x in 0..8u32 {
        for y in 0..8u32 {
            let mut ev = PlainEvaluator::new();
            let vals = ev.evaluate(&c, &[bits_of(x, n), bits_of(y, n)].concat());
            assert_eq!(vals[&out.id()], x == y);
        }
    }
}
