//! Half-gate evaluator state: the label held on each wire.
//!
//! Receiving labels and tables and hashing happen outside; the evaluator
//! decides, gate by gate, which labels to hash and what each output wire's
//! label is.

use vstd::prelude::*;
use crate::circuit::Circuit;
use crate::execution::{eval_gates, gate_value, wire_value};
use crate::garbler::{
    and_hashes, and_inputs_spec, hash_from, gate_fits, garble_free_spec, garble_run, is_real_and, is_val, lemma_opt_bool,
    out_zero, zero_for_wire_spec,
};
use crate::gate::{Gate, GateKind};
use crate::halfgate::{halfgate_eval_spec, halfgate_garble_spec, halfgates_eval, lemma_halfgate_correct};
use crate::input_map::Party;
use crate::label::{decode_bit, lsb, sel, OutputDecoder, lemma_xor_zero, lemma_xor_laws};
use crate::wire::Wire;
use crate::unary::{hash_call, hash_of, is_hash};

verus! {

/// `v` grown with zero labels to at least `n` entries.
pub open spec fn grown(v: Seq<u128>, n: nat) -> Seq<u128> {
    if v.len() >= n {
        v
    } else {
        v + Seq::new((n - v.len()) as nat, |i: int| 0u128)
    }
}

/// Grow `v` with zero labels to at least `n` entries.
pub fn grow_labels(v: &mut Vec<u128>, n: usize)
    ensures
        final(v)@ == grown(old(v)@, n as nat),
{
    let ghost start = v@;
    while v.len() < n
        invariant
            start.len() <= v@.len() <= if start.len() >= n { start.len() } else { n as nat },
            v@ == start + Seq::new((v@.len() - start.len()) as nat, |i: int| 0u128),
        decreases n - v.len(),
    {
        v.push(0);
        assert(v@ =~= start + Seq::new((v@.len() - start.len()) as nat, |i: int| 0u128));
    }
    assert(v@ =~= grown(start, n as nat));
}

/// The label the evaluator uses for a wire: the public label of a public
/// wire, otherwise the label it holds.
pub open spec fn label_for_wire_spec(wl: Seq<u128>, c: [u128; 2], w: Wire) -> u128 {
    match w.public {
        Some(v) => c[if v { 1int } else { 0int }],
        None => wl[w.id as int],
    }
}

/// The label table after evaluating a gate that is not a real AND.
pub open spec fn eval_free_spec(wl: Seq<u128>, c: [u128; 2], g: Gate) -> Seq<u128> {
    let a = g.inputs@[0];
    let out = g.output.id as int;
    match g.kind {
        GateKind::And => {
            let b = g.inputs@[1];
            if a.public == Some(false) || b.public == Some(false) {
                wl.update(out, c[0])
            } else if a.public == Some(true) && b.public == Some(true) {
                wl.update(out, c[1])
            } else if a.public == Some(true) {
                wl.update(out, label_for_wire_spec(wl, c, b))
            } else {
                wl.update(out, label_for_wire_spec(wl, c, a))
            }
        },
        GateKind::Xor => wl.update(out, label_for_wire_spec(wl, c, a) ^ label_for_wire_spec(wl, c, g.inputs@[1])),
        GateKind::Not => wl.update(out, label_for_wire_spec(wl, c, a)),
    }
}

/// The labels after evaluating `gates` in order from `wl` with the
/// received `tables`, and the number of real ANDs met; `None` when a real
/// AND has no table left.  The `j`-th real AND hashes its input labels
/// under tweaks `2j` and `2j + 1`.
pub open spec fn eval_run(
    wl: Seq<u128>,
    c: [u128; 2],
    gates: Seq<Gate>,
    tables: Seq<[u128; 2]>,
    hf: spec_fn(u128, u64) -> u128,
) -> Option<(Seq<u128>, nat)>
    decreases gates.len(),
{
    if gates.len() == 0 {
        Some((wl, 0))
    } else {
        match eval_run(wl, c, gates.drop_last(), tables, hf) {
            None => None,
            Some((w, j)) => {
                let g = gates.last();
                if is_real_and(g) {
                    if j < tables.len() {
                        let a = w[g.inputs@[0].id as int];
                        let b = w[g.inputs@[1].id as int];
                        let out = halfgate_eval_spec(a, b, tables[j as int], hf(a, (2 * j) as u64), hf(b, (2 * j + 1) as u64));
                        Some((w.update(g.output.id as int, out), j + 1))
                    } else {
                        None
                    }
                } else {
                    Some((eval_free_spec(w, c, g), j))
                }
            },
        }
    }
}

/// Evaluation keeps the number of labels and counts at most one AND per
/// gate.
pub proof fn lemma_eval_run_shape(
    wl: Seq<u128>,
    c: [u128; 2],
    gates: Seq<Gate>,
    tables: Seq<[u128; 2]>,
    hf: spec_fn(u128, u64) -> u128,
)
    requires
        forall|k: int| 0 <= k < gates.len() ==> gate_fits(#[trigger] gates[k], wl.len()),
    ensures
        eval_run(wl, c, gates, tables, hf) matches Some((w, j)) ==> w.len() == wl.len() && j <= gates.len(),
    decreases gates.len(),
{
    if gates.len() > 0 {
        lemma_eval_run_shape(wl, c, gates.drop_last(), tables, hf);
    }
}

/// A failure on a prefix of the gates is a failure on all of them.
proof fn lemma_eval_run_none_extends(
    wl: Seq<u128>,
    c: [u128; 2],
    gates: Seq<Gate>,
    tables: Seq<[u128; 2]>,
    hf: spec_fn(u128, u64) -> u128,
    i: nat,
)
    requires
        i <= gates.len(),
        eval_run(wl, c, gates.take(i as int), tables, hf) is None,
    ensures
        eval_run(wl, c, gates, tables, hf) is None,
    decreases gates.len(),
{
    if i < gates.len() {
        assert(gates.drop_last().take(i as int) =~= gates.take(i as int));
        lemma_eval_run_none_extends(wl, c, gates.drop_last(), tables, hf, i);
    } else {
        assert(gates.take(i as int) =~= gates);
    }
}

/// Evaluator side for half-gate garbling.
pub struct HalfGateEvaluator {
    /// Label held on each wire.
    pub wire_labels: Vec<u128>,
    /// Public labels for false and true, as received from the garbler.
    pub constant: [u128; 2],
    /// Next input wire for sequential feeding.
    pub next_input: usize,
    /// Number of AND gates evaluated so far; the `j`-th AND overall hashes
    /// under tweaks `2j` and `2j + 1`.
    pub ands: u64,
}

impl HalfGateEvaluator {
    /// Initialise with the public labels received from the garbler.
    pub fn new(constant: [u128; 2]) -> (e: HalfGateEvaluator)
        ensures
            e.wire_labels@ == Seq::<u128>::empty(),
            e.constant == constant,
            e.next_input == 0,
            e.ands == 0,
    {
        HalfGateEvaluator { wire_labels: Vec::new(), constant, next_input: 0, ands: 0 }
    }

    /// The public label of `b`.
    pub fn public_label(&self, b: bool) -> (l: u128)
        ensures
            l == self.constant[if b { 1int } else { 0int }],
    {
        if b { self.constant[1] } else { self.constant[0] }
    }

    /// Store the labels received for the evaluator's own input wires (the
    /// garbler's inputs arrive through `receive_garbler_inputs`).
    pub fn feed(&mut self, party: Party, wire_indices: &[usize], received: &[u128])
        requires
            party == Party::Evaluator ==> wire_indices@.len() == received@.len(),
            forall|k: int| 0 <= k < wire_indices@.len() ==> #[trigger] wire_indices@[k] < usize::MAX,
        ensures
            final(self).ands == old(self).ands,
            final(self).constant == old(self).constant,
            final(self).next_input == old(self).next_input,
            final(self).wire_labels@ == if party == Party::Evaluator {
                store_spec(grown(old(self).wire_labels@, max_plus_one(wire_indices@)), wire_indices@, received@)
            } else {
                old(self).wire_labels@
            },
    {
        if party == Party::Evaluator {
            store_labels(&mut self.wire_labels, wire_indices, received);
        }
    }

    /// Store the labels received for the garbler's input wires.
    pub fn receive_garbler_inputs(&mut self, wire_indices: &[usize], received: &[u128])
        requires
            wire_indices@.len() == received@.len(),
            forall|k: int| 0 <= k < wire_indices@.len() ==> #[trigger] wire_indices@[k] < usize::MAX,
        ensures
            final(self).ands == old(self).ands,
            final(self).constant == old(self).constant,
            final(self).next_input == old(self).next_input,
            final(self).wire_labels@ == store_spec(
                grown(old(self).wire_labels@, max_plus_one(wire_indices@)),
                wire_indices@,
                received@,
            ),
    {
        store_labels(&mut self.wire_labels, wire_indices, received);
    }

    /// Set a wire label directly, growing the table if needed.
    pub fn set_wire_label(&mut self, idx: usize, lbl: u128)
        requires
            idx < usize::MAX,
        ensures
            final(self).ands == old(self).ands,
            final(self).constant == old(self).constant,
            final(self).next_input == old(self).next_input,
            final(self).wire_labels@ == grown(old(self).wire_labels@, (idx + 1) as nat).update(idx as int, lbl),
    {
        grow_labels(&mut self.wire_labels, idx + 1);
        self.wire_labels.set(idx, lbl);
    }

    /// Make room for every wire of the circuit (the start of evaluation).
    pub fn prepare(&mut self, circuit: &Circuit)
        ensures
            final(self).ands == old(self).ands,
            final(self).constant == old(self).constant,
            final(self).next_input == old(self).next_input,
            final(self).wire_labels@ == grown(old(self).wire_labels@, circuit.wires()),
    {
        let n = circuit.wire_count();
        grow_labels(&mut self.wire_labels, n);
    }

    fn label_for_wire(&self, w: Wire) -> (l: u128)
        requires
            w.public is None ==> w.id < self.wire_labels@.len(),
        ensures
            l == label_for_wire_spec(self.wire_labels@, self.constant, w),
    {
        match w.public {
            Some(v) => self.public_label(v),
            None => self.wire_labels[w.id],
        }
    }

    /// Evaluate one gate.  For a real AND (two private inputs) the input
    /// labels are returned, to be hashed and passed to `evaluate_and` with
    /// the received table; every other gate is evaluated here.
    pub fn evaluate_gate(&mut self, g: &Gate) -> (need: Option<(u128, u128)>)
        requires
            gate_fits(*g, old(self).wire_labels@.len()),
        ensures
            final(self).ands == old(self).ands,
            final(self).constant == old(self).constant,
            final(self).next_input == old(self).next_input,
            is_real_and(*g) ==> need == Some((
                old(self).wire_labels@[g.inputs@[0].id as int],
                old(self).wire_labels@[g.inputs@[1].id as int],
            )) && final(self).wire_labels@ == old(self).wire_labels@,
            !is_real_and(*g) ==> need is None && final(self).wire_labels@ == eval_free_spec(
                old(self).wire_labels@,
                old(self).constant,
                *g,
            ),
    {
        let out = g.output.id;
        let a = g.inputs[0];
        proof { lemma_opt_bool(a.public); }
        match g.kind {
            GateKind::And => {
                let b = g.inputs[1];
                proof { lemma_opt_bool(b.public); }
                if is_val(a.public, false) || is_val(b.public, false) {
                    let l = self.public_label(false);
                    self.wire_labels.set(out, l);
                    None
                } else if is_val(a.public, true) && is_val(b.public, true) {
                    let l = self.public_label(true);
                    self.wire_labels.set(out, l);
                    None
                } else if is_val(a.public, true) {
                    let l = self.label_for_wire(b);
                    self.wire_labels.set(out, l);
                    None
                } else if is_val(b.public, true) {
                    let l = self.label_for_wire(a);
                    self.wire_labels.set(out, l);
                    None
                } else {
                    Some((self.wire_labels[a.id], self.wire_labels[b.id]))
                }
            },
            GateKind::Xor => {
                let la = self.label_for_wire(a);
                let lb = self.label_for_wire(g.inputs[1]);
                self.wire_labels.set(out, la ^ lb);
                None
            },
            GateKind::Not => {
                let la = self.label_for_wire(a);
                self.wire_labels.set(out, la);
                None
            },
        }
    }

    /// Finish evaluating a real AND with the received table and the hashes
    /// `ha = H(a)`, `hb = H(b)` of its input labels.
    pub fn evaluate_and(&mut self, g: &Gate, table: [u128; 2], ha: u128, hb: u128)
        requires
            is_real_and(*g),
            gate_fits(*g, old(self).wire_labels@.len()),
            old(self).ands < u64::MAX,
        ensures
            final(self).ands == old(self).ands + 1,
            final(self).constant == old(self).constant,
            final(self).next_input == old(self).next_input,
            final(self).wire_labels@ == old(self).wire_labels@.update(
                g.output.id as int,
                halfgate_eval_spec(
                    old(self).wire_labels@[g.inputs@[0].id as int],
                    old(self).wire_labels@[g.inputs@[1].id as int],
                    table,
                    ha,
                    hb,
                ),
            ),
    {
        let a = self.wire_labels[g.inputs[0].id];
        let b = self.wire_labels[g.inputs[1].id];
        let w = halfgates_eval(a, b, &table, ha, hb);
        self.wire_labels.set(g.output.id, w);
        self.ands = self.ands + 1;
    }

    /// Number of AND gates evaluated so far.
    pub fn num_and(&self) -> (n: u64)
        ensures
            n == self.ands,
    {
        self.ands
    }

    /// Evaluate every gate of `circuit` in order with the garbler's
    /// tables (see `eval_run`), after making room for its wires; returns
    /// false, with the labels in an unspecified state, when a real AND
    /// finds no table left.
    pub fn evaluate<H: Fn(u128, u64) -> u128>(&mut self, circuit: &Circuit, tables: &[[u128; 2]], h: &H) -> (ok: bool)
        requires
            is_hash(*h),
            old(self).ands + circuit.gate_seq().len() < 0x4000_0000_0000_0000,
            forall|k: int| 0 <= k < circuit.gate_seq().len() ==> gate_fits(#[trigger] circuit.gate_seq()[k], circuit.wires()),
        ensures
            final(self).constant == old(self).constant,
            final(self).next_input == old(self).next_input,
            match eval_run(
                grown(old(self).wire_labels@, circuit.wires()),
                old(self).constant,
                circuit.gate_seq(),
                tables@,
                hash_from(hash_of(*h), old(self).ands as nat),
            ) {
                Some((w, j)) => ok && final(self).wire_labels@ == w && final(self).ands == old(self).ands + j,
                None => !ok,
            },
    {
        let ghost hf = hash_from(hash_of(*h), old(self).ands as nat);
        self.prepare(circuit);
        let ghost wl0 = self.wire_labels@;
        let gates = circuit.gates();
        let mut j: usize = 0;
        let mut i: usize = 0;
        proof {
            assert(gates@.take(0) =~= Seq::<Gate>::empty());
            assert(wl0.len() >= circuit.wires());
        }
        while i < gates.len()
            invariant
                is_hash(*h),
                hf == hash_from(hash_of(*h), old(self).ands as nat),
                gates@ == circuit.gate_seq(),
                old(self).ands + gates@.len() < 0x4000_0000_0000_0000,
                self.ands == old(self).ands + j,
                wl0 == grown(old(self).wire_labels@, circuit.wires()),
                wl0.len() >= circuit.wires(),
                forall|k: int| 0 <= k < gates@.len() ==> gate_fits(#[trigger] gates@[k], circuit.wires()),
                i <= gates@.len(),
                j <= i,
                self.constant == old(self).constant,
                self.next_input == old(self).next_input,
                self.wire_labels@.len() == wl0.len(),
                eval_run(wl0, old(self).constant, gates@.take(i as int), tables@, hf) == Some((self.wire_labels@, j as nat)),
            decreases gates@.len() - i,
        {
            let g = &gates[i];
            proof {
                assert(gates@.take(i + 1).drop_last() =~= gates@.take(i as int));
                assert(gates@.take(i + 1).last() == gates@[i as int]);
                assert(gate_fits(*g, circuit.wires()));
                assert forall|k: int| 0 <= k < g.inputs@.len() implies (#[trigger] g.inputs@[k]).id < self.wire_labels@.len() by {}
            }
            match self.evaluate_gate(g) {
                None => {},
                Some((la, lb)) => {
                    if j >= tables.len() {
                        proof {
                            assert(eval_run(wl0, old(self).constant, gates@.take(i + 1), tables@, hf) is None);
                            lemma_eval_run_none_extends(wl0, old(self).constant, gates@, tables@, hf, (i + 1) as nat);
                        }
                        return false;
                    }
                    let t0 = 2 * self.ands;
                    let t1 = t0 + 1;
                    proof {
                        assert(t0 == ((2 * j) as u64 + 2 * old(self).ands) as u64);
                        assert(t1 == ((2 * j + 1) as u64 + 2 * old(self).ands) as u64);
                    }
                    let ha = hash_call(h, la, t0);
                    let hb = hash_call(h, lb, t1);
                    self.evaluate_and(g, tables[j], ha, hb);
                    j = j + 1;
                },
            }
            i = i + 1;
        }
        proof {
            assert(gates@.take(gates@.len() as int) =~= gates@);
        }
        true
    }

    /// The labels of the selected outputs, to be sent back to the garbler.
    pub fn send_outputs(&self, outputs: &[usize]) -> (lbls: Vec<u128>)
        requires
            forall|k: int| 0 <= k < outputs@.len() ==> #[trigger] outputs@[k] < self.wire_labels@.len(),
        ensures
            lbls@ == outputs@.map_values(|idx: usize| self.wire_labels@[idx as int]),
    {
        let mut lbls: Vec<u128> = Vec::new();
        let mut i: usize = 0;
        while i < outputs.len()
            invariant
                i <= outputs@.len(),
                forall|k: int| 0 <= k < outputs@.len() ==> #[trigger] outputs@[k] < self.wire_labels@.len(),
                lbls@ == outputs@.take(i as int).map_values(|idx: usize| self.wire_labels@[idx as int]),
            decreases outputs.len() - i,
        {
            lbls.push(self.wire_labels[outputs[i]]);
            assert(outputs@.take(i + 1).map_values(|idx: usize| self.wire_labels@[idx as int])
                =~= outputs@.take(i as int).map_values(|idx: usize| self.wire_labels@[idx as int]).push(
                self.wire_labels@[outputs@[i as int] as int]));
            i = i + 1;
        }
        assert(outputs@.take(i as int) =~= outputs@);
        lbls
    }

    /// The labels of the selected outputs, decoded with a decoder; the
    /// labels are returned too, to be sent to the garbler.
    pub fn reveal_labels(&self, output_indices: &[usize], decoder: &OutputDecoder) -> (r: (Vec<u128>, Vec<bool>))
        requires
            forall|k: int| 0 <= k < output_indices@.len() ==> #[trigger] output_indices@[k] < self.wire_labels@.len(),
            output_indices@.len() <= decoder.zero_labels@.len(),
        ensures
            r.0@ == output_indices@.map_values(|idx: usize| self.wire_labels@[idx as int]),
            r.1@.len() == output_indices@.len(),
            forall|i: int| 0 <= i < output_indices@.len() ==> #[trigger] r.1@[i] == decode_bit(
                decoder.zero_labels@[i],
                decoder.delta,
                self.wire_labels@[output_indices@[i] as int],
            ),
    {
        let lbls = self.send_outputs(output_indices);
        let bits = decoder.decode_all(lbls.as_slice());
        (lbls, bits)
    }
}

/// Store received labels on the given wires, growing the table to
/// cover the largest index; a wire listed twice keeps its last label.
pub fn store_labels(labels: &mut Vec<u128>, wire_indices: &[usize], received: &[u128])
    requires
        wire_indices@.len() == received@.len(),
        forall|k: int| 0 <= k < wire_indices@.len() ==> #[trigger] wire_indices@[k] < usize::MAX,
    ensures
        final(labels)@ == store_spec(
            grown(old(labels)@, max_plus_one(wire_indices@)),
            wire_indices@,
            received@,
        ),
{
    let need = max_index_plus_one(wire_indices);
    grow_labels(labels, need);
    let ghost base = labels@;
    let mut i: usize = 0;
    assert(wire_indices@.take(0) =~= Seq::<usize>::empty());
    assert(received@.take(0) =~= Seq::<u128>::empty());
    while i < wire_indices.len()
        invariant
            i <= wire_indices@.len() == received@.len(),
            base.len() >= need,
            forall|k: int| 0 <= k < wire_indices@.len() ==> #[trigger] wire_indices@[k] < need,
            labels@ == store_spec(base, wire_indices@.take(i as int), received@.take(i as int)),
            labels@.len() == base.len(),
        decreases wire_indices.len() - i,
    {
        let idx = wire_indices[i];
        labels.set(idx, received[i]);
        assert(wire_indices@.take(i + 1).drop_last() =~= wire_indices@.take(i as int));
        assert(received@.take(i + 1).drop_last() =~= received@.take(i as int));
        i = i + 1;
    }
    assert(wire_indices@.take(i as int) =~= wire_indices@);
    assert(received@.take(i as int) =~= received@);
}


/// One plus the largest index of `s`, or zero when empty.
pub open spec fn max_plus_one(s: Seq<usize>) -> nat
    decreases s.len(),
{
    if s.len() == 0 {
        0
    } else {
        let m = max_plus_one(s.drop_last());
        if m > s.last() + 1 { m } else { (s.last() + 1) as nat }
    }
}

/// `wl` with `vals[k]` stored at `idx[k]`, in order.
pub open spec fn store_spec(wl: Seq<u128>, idx: Seq<usize>, vals: Seq<u128>) -> Seq<u128>
    decreases idx.len(),
{
    if idx.len() == 0 || vals.len() == 0 {
        wl
    } else {
        store_spec(wl, idx.drop_last(), vals.drop_last()).update(idx.last() as int, vals.last())
    }
}

/// One plus the largest index, or zero when there is none.
fn max_index_plus_one(s: &[usize]) -> (m: usize)
    requires
        forall|k: int| 0 <= k < s@.len() ==> #[trigger] s@[k] < usize::MAX,
    ensures
        m == max_plus_one(s@),
        forall|k: int| 0 <= k < s@.len() ==> #[trigger] s@[k] < m,
{
    let mut m: usize = 0;
    let mut i: usize = 0;
    assert(s@.take(0) =~= Seq::<usize>::empty());
    while i < s.len()
        invariant
            i <= s@.len(),
            forall|k: int| 0 <= k < s@.len() ==> #[trigger] s@[k] < usize::MAX,
            m == max_plus_one(s@.take(i as int)),
            forall|k: int| 0 <= k < i ==> #[trigger] s@[k] < m,
        decreases s.len() - i,
    {
        assert(s@.take(i + 1).drop_last() =~= s@.take(i as int));
        if s[i] + 1 > m {
            m = s[i] + 1;
        }
        i = i + 1;
    }
    assert(s@.take(i as int) =~= s@);
    m
}


/// The label `l` carries the bit `v` on a wire whose zero label is `z`.
pub open spec fn encodes(l: u128, z: u128, delta: u128, v: bool) -> bool {
    l == z ^ sel(v, delta)
}

proof fn lemma_xor_encodes(a0: u128, b0: u128, d: u128, va: bool, vb: bool)
    by (bit_vector)
    ensures
        (a0 ^ sel(va, d)) ^ (b0 ^ sel(vb, d)) == (a0 ^ b0) ^ sel(va != vb, d),
{
}

proof fn lemma_zero_xor(x: u128)
    ensures
        x ^ 0 == x,
{
    lemma_xor_zero(x);
}

/// One gate of half-gate garbling keeps the evaluator's labels faithful:
/// if each private input label carries its plain value under the zero
/// label the garbler uses for it, and both parties hash the first input
/// with `ha` and the second with `hb`, then the output label carries this
/// gate's plain value under the garbler's output zero label.  A NOT gate
/// is free: the garbler flips its zero label by `delta` and the evaluator
/// keeps its input label.
pub proof fn lemma_halfgate_gate_step(
    wz: Seq<u128>,
    zl: Seq<u128>,
    c: [u128; 2],
    delta: u128,
    wl: Seq<u128>,
    env: Map<usize, bool>,
    g: Gate,
    ha: spec_fn(u128) -> u128,
    hb: spec_fn(u128) -> u128,
    table: [u128; 2],
)
    requires
        lsb(delta),
        c[1] == c[0] ^ delta,
        wz.len() == zl.len(),
        gate_fits(g, wz.len()),
        gate_fits(g, wl.len()),
        crate::execution::gate_ready(env, g),
        g.inputs@[0].public is None ==> encodes(
            wl[g.inputs@[0].id as int],
            and_inputs_spec(wz, zl, c[0], g).0,
            delta,
            env[g.inputs@[0].id],
        ),
        g.kind != GateKind::Not && g.inputs@[1].public is None ==> encodes(
            wl[g.inputs@[1].id as int],
            if g.inputs@[0].public is None || g.kind == GateKind::Xor {
                and_inputs_spec(wz, zl, c[0], g).1
            } else {
                zero_for_wire_spec(wz, zl, c[0], g.inputs@[1]).0
            },
            delta,
            env[g.inputs@[1].id],
        ),
        is_real_and(g) ==> ({
            let (la0, lb0, _wz2) = and_inputs_spec(wz, zl, c[0], g);
            table == halfgate_garble_spec(la0, lb0, delta, [ha(la0), ha(la0 ^ delta), hb(lb0), hb(lb0 ^ delta)]).1
        }),
    ensures
        ({
            let out = g.output.id as int;
            let (la0, lb0, _wz2) = and_inputs_spec(wz, zl, c[0], g);
            let h = [ha(la0), ha(la0 ^ delta), hb(lb0), hb(lb0 ^ delta)];
            let new_zero = if is_real_and(g) {
                halfgate_garble_spec(la0, lb0, delta, h).0
            } else {
                garble_free_spec(wz, zl, c[0], delta, g)[out]
            };
            let la = wl[g.inputs@[0].id as int];
            let lb = wl[g.inputs@[1].id as int];
            let new_label = if is_real_and(g) {
                halfgate_eval_spec(la, lb, table, ha(la), hb(lb))
            } else {
                eval_free_spec(wl, c, g)[out]
            };
            encodes(new_label, new_zero, delta, gate_value(env, g))
        }),
{
    let a = g.inputs@[0];
    let b = g.inputs@[1];
    assert(crate::execution::wire_known(env, a));
    if g.kind != GateKind::Not {
        assert(crate::execution::wire_known(env, b));
    }
    lemma_opt_bool(a.public);
    lemma_opt_bool(b.public);
    lemma_zero_xor(c[0]);
    let (la0, lb0, wz2) = and_inputs_spec(wz, zl, c[0], g);
    let (za, wz1) = zero_for_wire_spec(wz, zl, c[0], a);
    let va = wire_value(env, a);
    let vb = wire_value(env, b);
    if is_real_and(g) {
        let h = [ha(la0), ha(la0 ^ delta), hb(lb0), hb(lb0 ^ delta)];
        lemma_halfgate_correct(la0, lb0, delta, h, va, vb);
        let la = wl[a.id as int];
        let lb = wl[b.id as int];
        lemma_zero_xor(la0);
        lemma_zero_xor(lb0);
        assert(h[0] == ha(la0) && h[1] == ha(la0 ^ delta) && h[2] == hb(lb0) && h[3] == hb(lb0 ^ delta));
        assert(ha(la) == if va { h[1] } else { h[0] });
        assert(hb(lb) == if vb { h[3] } else { h[2] });
    } else {
        // Every input carries its value under the zero label the garbler uses.
        assert(encodes(label_for_wire_spec(wl, c, a), za, delta, va));
        if g.kind == GateKind::Not {
            lemma_xor_zero(za ^ delta);
            lemma_xor_laws(za, delta, delta);
            lemma_xor_laws(delta, delta, delta);
            lemma_zero_xor(za);
            let out = g.output.id as int;
            assert(garble_free_spec(wz, zl, c[0], delta, g)[out] == za ^ delta);
            assert(eval_free_spec(wl, c, g)[out] == label_for_wire_spec(wl, c, a));
            assert(gate_value(env, g) == !va);
            if va {
                assert(sel(va, delta) == delta && sel(!va, delta) == 0);
                assert((za ^ delta) ^ sel(!va, delta) == za ^ sel(va, delta));
            } else {
                assert(sel(va, delta) == 0 && sel(!va, delta) == delta);
                assert((za ^ delta) ^ delta == za ^ (delta ^ delta));
                assert((za ^ delta) ^ sel(!va, delta) == za ^ sel(va, delta));
            }
            assert(encodes(label_for_wire_spec(wl, c, a), za ^ delta, delta, !va));
        } else if g.kind == GateKind::Xor {
            let (zb, _w) = zero_for_wire_spec(wz1, zl, c[0], b);
            assert(encodes(label_for_wire_spec(wl, c, b), zb, delta, vb));
            lemma_xor_encodes(za, zb, delta, va, vb);
        } else {
            let (zb, _w) = zero_for_wire_spec(wz, zl, c[0], b);
            assert(encodes(label_for_wire_spec(wl, c, b), zb, delta, vb));
        }
    }
}

/// The evaluator's labels carry the plain values of `env` on every known
/// wire, under the zero labels the garbler reads for them (`wz`, with
/// `zl` standing in for the entries still unset).
pub open spec fn labels_carry(wl: Seq<u128>, wz: Seq<u128>, zl: Seq<u128>, delta: u128, env: Map<usize, bool>) -> bool {
    forall|id: usize| #[trigger] env.contains_key(id) ==> {
        &&& (id as int) < wl.len()
        &&& (id as int) < wz.len()
        &&& encodes(wl[id as int], out_zero(wz, zl, id), delta, env[id])
    }
}

/// Each public input of each gate has an identifier that carries no
/// value when evaluation reaches that gate.
pub open spec fn public_ids_fresh(env: Map<usize, bool>, gates: Seq<Gate>) -> bool {
    forall|k: int, i: int|
        0 <= k < gates.len() && 0 <= i < gates[k].inputs@.len() && (#[trigger] gates[k].inputs@[i]).public is Some
            ==> !eval_gates(env, gates.take(k)).contains_key(gates[k].inputs@[i].id)
}

/// Every output zero label the garbler writes is nonzero (it reads a zero
/// entry as unset).
pub open spec fn garbled_nonzero(
    wz: Seq<u128>,
    zl: Seq<u128>,
    c0: u128,
    delta: u128,
    gates: Seq<Gate>,
    hf: spec_fn(u128, u64) -> u128,
) -> bool {
    forall|k: int| 0 <= k < gates.len() ==> #[trigger] garble_run(wz, zl, c0, delta, gates.take(k + 1), hf).0[gates[k].output.id as int] != 0
}

/// Fetching a wire's zero label keeps the length of the table and the
/// zero label read for every other identifier, and for a private wire
/// returns the label read for it and keeps that too.
pub(crate) proof fn lemma_zero_for_wire_keeps(wz: Seq<u128>, zl: Seq<u128>, c0: u128, w: Wire)
    requires
        (w.id as int) < wz.len(),
        wz.len() == zl.len(),
    ensures
        zero_for_wire_spec(wz, zl, c0, w).1.len() == wz.len(),
        w.public is None ==> zero_for_wire_spec(wz, zl, c0, w).0 == out_zero(wz, zl, w.id),
        forall|id: usize| (id as int) < wz.len() && (w.public is None || id != w.id) ==> #[trigger] out_zero(
            zero_for_wire_spec(wz, zl, c0, w).1,
            zl,
            id,
        ) == out_zero(wz, zl, id),
{
}

/// Garbling keeps the length of the zero-label table.
proof fn lemma_garble_run_len(
    wz: Seq<u128>,
    zl: Seq<u128>,
    c0: u128,
    delta: u128,
    gates: Seq<Gate>,
    hf: spec_fn(u128, u64) -> u128,
)
    requires
        wz.len() == zl.len(),
        forall|k: int| 0 <= k < gates.len() ==> gate_fits(#[trigger] gates[k], wz.len()),
    ensures
        garble_run(wz, zl, c0, delta, gates, hf).0.len() == wz.len(),
    decreases gates.len(),
{
    if gates.len() > 0 {
        let gs = gates.drop_last();
        let g = gates.last();
        assert forall|k: int| 0 <= k < gs.len() implies gate_fits(#[trigger] gs[k], wz.len()) by {
            assert(gs[k] == gates[k]);
        }
        lemma_garble_run_len(wz, zl, c0, delta, gs, hf);
        let w = garble_run(wz, zl, c0, delta, gs, hf).0;
        assert(gate_fits(g, wz.len()));
        assert(g.inputs@[0].id < wz.len());
        lemma_zero_for_wire_keeps(w, zl, c0, g.inputs@[0]);
        if g.kind != GateKind::Not {
            assert(g.inputs@[1].id < wz.len());
            lemma_zero_for_wire_keeps(w, zl, c0, g.inputs@[1]);
            lemma_zero_for_wire_keeps(zero_for_wire_spec(w, zl, c0, g.inputs@[0]).1, zl, c0, g.inputs@[1]);
        }
    }
}

/// One gate of the circuit law: the labels keep carrying the values.
#[verifier::rlimit(40)]
proof fn lemma_halfgate_circuit_step(
    w1: Seq<u128>,
    zl: Seq<u128>,
    c: [u128; 2],
    delta: u128,
    l1: Seq<u128>,
    e1: Map<usize, bool>,
    g: Gate,
    hf: spec_fn(u128, u64) -> u128,
    j: nat,
    table: [u128; 2],
)
    requires
        lsb(delta),
        c[1] == c[0] ^ delta,
        w1.len() == zl.len(),
        l1.len() == w1.len(),
        gate_fits(g, w1.len()),
        crate::execution::gate_ready(e1, g),
        forall|i: int| 0 <= i < g.inputs@.len() && (#[trigger] g.inputs@[i]).public is Some ==> !e1.contains_key(g.inputs@[i].id),
        labels_carry(l1, w1, zl, delta, e1),
        is_real_and(g) ==> ({
            let (la0, lb0, _w) = and_inputs_spec(w1, zl, c[0], g);
            table == halfgate_garble_spec(la0, lb0, delta, and_hashes(hf, la0, lb0, delta, j)).1
        }),
        ({
            let w2 = if is_real_and(g) {
                let (la0, lb0, w) = and_inputs_spec(w1, zl, c[0], g);
                w.update(g.output.id as int, halfgate_garble_spec(la0, lb0, delta, and_hashes(hf, la0, lb0, delta, j)).0)
            } else {
                garble_free_spec(w1, zl, c[0], delta, g)
            };
            w2[g.output.id as int] != 0
        }),
    ensures
        ({
            let w2 = if is_real_and(g) {
                let (la0, lb0, w) = and_inputs_spec(w1, zl, c[0], g);
                w.update(g.output.id as int, halfgate_garble_spec(la0, lb0, delta, and_hashes(hf, la0, lb0, delta, j)).0)
            } else {
                garble_free_spec(w1, zl, c[0], delta, g)
            };
            let l2 = if is_real_and(g) {
                let a = l1[g.inputs@[0].id as int];
                let b = l1[g.inputs@[1].id as int];
                l1.update(
                    g.output.id as int,
                    halfgate_eval_spec(a, b, table, hf(a, (2 * j) as u64), hf(b, (2 * j + 1) as u64)),
                )
            } else {
                eval_free_spec(l1, c, g)
            };
            labels_carry(l2, w2, zl, delta, e1.insert(g.output.id, gate_value(e1, g)))
        }),
{
    let a = g.inputs@[0];
    let b = g.inputs@[1];
    let out = g.output.id;
    let binary = g.kind != GateKind::Not;
    assert(crate::execution::wire_known(e1, a));
    assert(a.id < w1.len());
    if binary {
        assert(crate::execution::wire_known(e1, b));
        assert(b.id < w1.len());
    }
    lemma_opt_bool(a.public);
    lemma_opt_bool(b.public);
    let ha = |x: u128| hf(x, (2 * j) as u64);
    let hb = |x: u128| hf(x, (2 * j + 1) as u64);
    let (la0, lb0, wz2) = and_inputs_spec(w1, zl, c[0], g);
    let wa = zero_for_wire_spec(w1, zl, c[0], a).1;
    lemma_zero_for_wire_keeps(w1, zl, c[0], a);
    if binary {
        lemma_zero_for_wire_keeps(wa, zl, c[0], b);
        lemma_zero_for_wire_keeps(w1, zl, c[0], b);
    }
    assert(and_hashes(hf, la0, lb0, delta, j) =~= [ha(la0), ha(la0 ^ delta), hb(lb0), hb(lb0 ^ delta)]);
    if a.public is None {
        assert(e1.contains_key(a.id));
    }
    if binary && b.public is None {
        assert(e1.contains_key(b.id));
    }
    if a.public is Some {
        assert(g.inputs@[0].public is Some);
    }
    if binary && b.public is Some {
        assert(g.inputs@[1].public is Some);
    }
    lemma_halfgate_gate_step(w1, zl, c, delta, l1, e1, g, ha, hb, table);
    let w2 = if is_real_and(g) {
        wz2.update(out as int, halfgate_garble_spec(la0, lb0, delta, and_hashes(hf, la0, lb0, delta, j)).0)
    } else {
        garble_free_spec(w1, zl, c[0], delta, g)
    };
    let l2 = if is_real_and(g) {
        let la = l1[a.id as int];
        let lb = l1[b.id as int];
        l1.update(out as int, halfgate_eval_spec(la, lb, table, hf(la, (2 * j) as u64), hf(lb, (2 * j + 1) as u64)))
    } else {
        eval_free_spec(l1, c, g)
    };
    let e2 = e1.insert(out, gate_value(e1, g));
    assert forall|id: usize| #[trigger] e2.contains_key(id) implies {
        &&& (id as int) < l2.len()
        &&& (id as int) < w2.len()
        &&& encodes(l2[id as int], out_zero(w2, zl, id), delta, e2[id])
    } by {
        if id != out {
            assert(e1.contains_key(id));
            assert(a.public is Some ==> id != a.id);
            assert(binary && b.public is Some ==> id != b.id);
            assert(out_zero(w2, zl, id) == out_zero(w1, zl, id));
        }
    }
}

/// Half-gate garbling of a whole circuit is correct: if the evaluator's
/// labels carry the plain input values `env` under the garbler's zero
/// labels, and it evaluates the gates with the tables the garbler sent
/// (tables it may have received more of), it meets a table for every real
/// AND, and afterwards its label on every wire the plain evaluation knows
/// carries that wire's plain value under the garbler's final zero label.
/// Runs with a gate whose garbled zero label is zero, or a public wire
/// reusing a known identifier, are left out (see `garbled_nonzero`,
/// `public_ids_fresh`).
proof fn lemma_halfgate_circuit_run(
    wz: Seq<u128>,
    zl: Seq<u128>,
    c: [u128; 2],
    delta: u128,
    wl: Seq<u128>,
    env: Map<usize, bool>,
    gates: Seq<Gate>,
    hf: spec_fn(u128, u64) -> u128,
    tables: Seq<[u128; 2]>,
)
    requires
        lsb(delta),
        c[1] == c[0] ^ delta,
        wz.len() == zl.len(),
        wl.len() == wz.len(),
        forall|k: int| 0 <= k < gates.len() ==> gate_fits(#[trigger] gates[k], wz.len()),
        crate::execution::gates_ready(env, gates),
        public_ids_fresh(env, gates),
        garbled_nonzero(wz, zl, c[0], delta, gates, hf),
        labels_carry(wl, wz, zl, delta, env),
        garble_run(wz, zl, c[0], delta, gates, hf).1.len() <= tables.len(),
        forall|i: int| 0 <= i < garble_run(wz, zl, c[0], delta, gates, hf).1.len() ==> #[trigger] tables[i]
            == garble_run(wz, zl, c[0], delta, gates, hf).1[i],
    ensures
        garble_run(wz, zl, c[0], delta, gates, hf).0.len() == wz.len(),
        eval_run(wl, c, gates, tables, hf) matches Some((wl2, j)) && {
            &&& j == garble_run(wz, zl, c[0], delta, gates, hf).1.len()
            &&& wl2.len() == wl.len()
            &&& labels_carry(wl2, garble_run(wz, zl, c[0], delta, gates, hf).0, zl, delta, eval_gates(env, gates))
        },
    decreases gates.len(),
{
    lemma_garble_run_len(wz, zl, c[0], delta, gates, hf);
    if gates.len() > 0 {
        let gs = gates.drop_last();
        let g = gates.last();
        let n = gates.len() - 1;
        assert forall|k: int| 0 <= k < gs.len() implies gate_fits(#[trigger] gs[k], wz.len()) by {
            assert(gs[k] == gates[k]);
        }
        assert forall|i: int| 0 <= i < gs.len() implies crate::execution::gate_ready(
            #[trigger] eval_gates(env, gs.take(i)),
            gs[i],
        ) by {
            assert(gs.take(i) =~= gates.take(i));
            assert(gs[i] == gates[i]);
            assert(crate::execution::gate_ready(eval_gates(env, gates.take(i)), gates[i]));
        }
        assert forall|k: int, i: int|
            0 <= k < gs.len() && 0 <= i < gs[k].inputs@.len() && (#[trigger] gs[k].inputs@[i]).public is Some implies !eval_gates(
            env,
            gs.take(k),
        ).contains_key(gs[k].inputs@[i].id) by {
            assert(gs.take(k) =~= gates.take(k));
            assert(gs[k] == gates[k]);
            assert(gates[k].inputs@[i].public is Some);
        }
        assert forall|k: int| 0 <= k < gs.len() implies #[trigger] garble_run(wz, zl, c[0], delta, gs.take(k + 1), hf).0[gs[k].output.id as int]
            != 0 by {
            assert(gs.take(k + 1) =~= gates.take(k + 1));
            assert(gs[k] == gates[k]);
            assert(garble_run(wz, zl, c[0], delta, gates.take(k + 1), hf).0[gates[k].output.id as int] != 0);
        }
        let (w1, t1) = garble_run(wz, zl, c[0], delta, gs, hf);
        let t = garble_run(wz, zl, c[0], delta, gates, hf).1;
        assert(t.len() == t1.len() || t == t1.push(t[t.len() - 1]));
        assert forall|i: int| 0 <= i < t1.len() implies #[trigger] tables[i] == t1[i] by {
            assert(tables[i] == t[i]);
        }
        lemma_halfgate_circuit_run(wz, zl, c, delta, wl, env, gs, hf, tables);
        let (l1, j1) = eval_run(wl, c, gs, tables, hf).unwrap();
        let e1 = eval_gates(env, gs);
        assert(gates.take(n as int) =~= gs);
        assert(crate::execution::gate_ready(e1, g));
        assert(gates.take(n + 1) =~= gates);
        assert(garble_run(wz, zl, c[0], delta, gates.take(n + 1), hf).0[gates[n as int].output.id as int] != 0);
        assert forall|i: int| 0 <= i < g.inputs@.len() && (#[trigger] g.inputs@[i]).public is Some implies !e1.contains_key(
            g.inputs@[i].id,
        ) by {
            assert(gates[n as int].inputs@[i] == g.inputs@[i]);
        }
        let table = if is_real_and(g) { tables[j1 as int] } else { [0u128, 0u128] };
        if is_real_and(g) {
            assert(t == t1.push(t[t.len() - 1]));
            assert(tables[j1 as int] == t[j1 as int]);
        }
        lemma_halfgate_circuit_step(w1, zl, c, delta, l1, e1, g, hf, j1, table);
    }
}

/// Half-gate garbling of a whole circuit decodes to its plain evaluation:
/// when the evaluator's input labels carry the plain inputs `env` under
/// the garbler's zero labels and both parties use the keyed hash `hf`,
/// evaluating the gates with the garbler's tables succeeds, and on every
/// wire the plain evaluation knows, the evaluator's label decodes, against
/// the zero label the garbler reads for that wire, to the plain value.
/// Left out are runs in which the garbler writes a zero label (it reads
/// zero as unset), and public wires that reuse an identifier carrying a
/// value.
pub proof fn lemma_halfgate_circuit_correct(
    wz: Seq<u128>,
    zl: Seq<u128>,
    c: [u128; 2],
    delta: u128,
    wl: Seq<u128>,
    env: Map<usize, bool>,
    gates: Seq<Gate>,
    hf: spec_fn(u128, u64) -> u128,
)
    requires
        lsb(delta),
        c[1] == c[0] ^ delta,
        wz.len() == zl.len(),
        wl.len() == wz.len(),
        forall|k: int| 0 <= k < gates.len() ==> gate_fits(#[trigger] gates[k], wz.len()),
        crate::execution::gates_ready(env, gates),
        public_ids_fresh(env, gates),
        garbled_nonzero(wz, zl, c[0], delta, gates, hf),
        forall|id: usize| #[trigger] env.contains_key(id) ==> (id as int) < wz.len() && wl[id as int] == out_zero(wz, zl, id)
            ^ sel(env[id], delta),
    ensures
        ({
            let (wz2, tables) = garble_run(wz, zl, c[0], delta, gates, hf);
            let plain = eval_gates(env, gates);
            eval_run(wl, c, gates, tables, hf) matches Some((wl2, j)) && {
                &&& j == tables.len()
                &&& forall|id: usize| #[trigger] plain.contains_key(id) ==> (id as int) < wl2.len() && decode_bit(
                    out_zero(wz2, zl, id),
                    delta,
                    wl2[id as int],
                ) == plain[id]
            }
        }),
{
    lemma_halfgate_circuit_run(wz, zl, c, delta, wl, env, gates, hf, garble_run(wz, zl, c[0], delta, gates, hf).1);
    let (wz2, tables) = garble_run(wz, zl, c[0], delta, gates, hf);
    let plain = eval_gates(env, gates);
    let (wl2, j) = eval_run(wl, c, gates, tables, hf).unwrap();
    crate::label::lemma_delta_nonzero(0, delta);
    assert forall|id: usize| #[trigger] plain.contains_key(id) implies (id as int) < wl2.len() && decode_bit(
        out_zero(wz2, zl, id),
        delta,
        wl2[id as int],
    ) == plain[id] by {
        crate::label::lemma_decode_label(out_zero(wz2, zl, id), delta, plain[id]);
    }
}

} // verus!
