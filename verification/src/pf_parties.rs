//! Privacy-free garbler and evaluator state.
//!
//! As for half-gates, randomness, hashing and transport happen outside;
//! these types decide gate by gate which label to hash and what each
//! output wire's label is.

use vstd::prelude::*;
use crate::circuit::Circuit;
use crate::evaluator::{
    encodes, grow_labels, grown, label_for_wire_spec, labels_carry, lemma_zero_for_wire_keeps, max_plus_one, public_ids_fresh,
    store_labels, store_spec,
};
use crate::execution::{eval_gates, gate_ready, gate_value, wire_known, wire_value};
use crate::garbler::{
    and_inputs_spec, garbler_setup, gate_fits, is_real_and, is_val, lemma_opt_bool, out_zero,
    setup_spec, zero_for_wire_spec,
};
use crate::gate::{Gate, GateKind};
use crate::input_map::Party;
use crate::label::{decode_bit, lsb, sel, OutputDecoder, WireLabel, lemma_xor_zero};
use crate::privacy_free::{
    clear_lsb, lemma_pf_correct, pf_eval_spec, pf_garble_spec, privacy_free_eval, privacy_free_garble,
};
use crate::wire::Wire;
use crate::unary::{hash_call, hash_of, is_hash};

verus! {

/// The zero-label table after privacy-free garbling of a gate that is not
/// a real AND.
pub open spec fn pf_garble_free_spec(wz: Seq<u128>, zl: Seq<u128>, c0: u128, delta: u128, g: Gate) -> Seq<u128> {
    let a = g.inputs@[0];
    let out = g.output.id as int;
    match g.kind {
        GateKind::And => {
            let b = g.inputs@[1];
            if a.public == Some(false) || b.public == Some(false) {
                wz.update(out, c0)
            } else if a.public == Some(true) && b.public == Some(true) {
                wz.update(out, c0)
            } else if a.public == Some(true) {
                let (z, wz1) = zero_for_wire_spec(wz, zl, c0, b);
                wz1.update(out, z)
            } else {
                let (z, wz1) = zero_for_wire_spec(wz, zl, c0, a);
                wz1.update(out, z)
            }
        },
        GateKind::Xor => {
            let b = g.inputs@[1];
            if a.public is Some && b.public is Some {
                wz.update(out, c0)
            } else if a.public is Some {
                let (z, wz1) = zero_for_wire_spec(wz, zl, c0, b);
                wz1.update(out, z ^ c0)
            } else if b.public is Some {
                let (z, wz1) = zero_for_wire_spec(wz, zl, c0, a);
                wz1.update(out, z ^ c0)
            } else {
                let (a0, wz1) = zero_for_wire_spec(wz, zl, c0, a);
                let (b0, wz2) = zero_for_wire_spec(wz1, zl, c0, b);
                wz2.update(out, a0 ^ b0)
            }
        },
        GateKind::Not => {
            if a.public is Some {
                wz.update(out, c0)
            } else {
                let (a0, wz1) = zero_for_wire_spec(wz, zl, c0, a);
                wz1.update(out, a0 ^ c0)
            }
        },
    }
}

/// The zero-label table and the table entries sent after privacy-free
/// garbling of `gates` in order; the `j`-th real AND hashes its first
/// input's zero label and its complement with gate id `gid0 + j`.
pub open spec fn pf_garble_run(
    wz: Seq<u128>,
    zl: Seq<u128>,
    c0: u128,
    delta: u128,
    gates: Seq<Gate>,
    hf: spec_fn(u128, u64) -> u128,
    gid0: nat,
) -> (Seq<u128>, Seq<u128>)
    decreases gates.len(),
{
    if gates.len() == 0 {
        (wz, Seq::empty())
    } else {
        let (w, t) = pf_garble_run(wz, zl, c0, delta, gates.drop_last(), hf, gid0);
        let g = gates.last();
        if is_real_and(g) {
            let (la0, lb0, w2) = and_inputs_spec(w, zl, c0, g);
            let gid = (gid0 + t.len()) as u64;
            let (w0, entry) = pf_garble_spec(lb0, hf(la0, gid), hf(la0 ^ delta, gid));
            (w2.update(g.output.id as int, w0), t.push(entry))
        } else {
            (pf_garble_free_spec(w, zl, c0, delta, g), t)
        }
    }
}

/// At most one table entry per gate.
pub proof fn lemma_pf_garble_run_len(
    wz: Seq<u128>,
    zl: Seq<u128>,
    c0: u128,
    delta: u128,
    gates: Seq<Gate>,
    hf: spec_fn(u128, u64) -> u128,
    gid0: nat,
)
    ensures
        pf_garble_run(wz, zl, c0, delta, gates, hf, gid0).1.len() <= gates.len(),
    decreases gates.len(),
{
    if gates.len() > 0 {
        lemma_pf_garble_run_len(wz, zl, c0, delta, gates.drop_last(), hf, gid0);
    }
}

/// The labels after privacy-free evaluation of `gates` in order with the
/// received table entries, and the number of real ANDs met; `None` when a
/// real AND has no entry left.  The `j`-th real AND hashes its first
/// input's label with gate id `gid0 + j`.
pub open spec fn pf_eval_run(
    wl: Seq<u128>,
    c: [u128; 2],
    gates: Seq<Gate>,
    tables: Seq<u128>,
    hf: spec_fn(u128, u64) -> u128,
    gid0: nat,
) -> Option<(Seq<u128>, nat)>
    decreases gates.len(),
{
    if gates.len() == 0 {
        Some((wl, 0))
    } else {
        match pf_eval_run(wl, c, gates.drop_last(), tables, hf, gid0) {
            None => None,
            Some((w, j)) => {
                let g = gates.last();
                if is_real_and(g) {
                    if j < tables.len() {
                        let a = w[g.inputs@[0].id as int];
                        let b = w[g.inputs@[1].id as int];
                        let out = pf_eval_spec(a, b, tables[j as int], hf(a, (gid0 + j) as u64));
                        Some((w.update(g.output.id as int, out), j + 1))
                    } else {
                        None
                    }
                } else {
                    Some((pf_eval_free_spec(w, c, g), j))
                }
            },
        }
    }
}

/// A failure on a prefix of the gates is a failure on all of them.
proof fn lemma_pf_eval_run_none_extends(
    wl: Seq<u128>,
    c: [u128; 2],
    gates: Seq<Gate>,
    tables: Seq<u128>,
    hf: spec_fn(u128, u64) -> u128,
    gid0: nat,
    i: nat,
)
    requires
        i <= gates.len(),
        pf_eval_run(wl, c, gates.take(i as int), tables, hf, gid0) is None,
    ensures
        pf_eval_run(wl, c, gates, tables, hf, gid0) is None,
    decreases gates.len(),
{
    if i < gates.len() {
        assert(gates.drop_last().take(i as int) =~= gates.take(i as int));
        lemma_pf_eval_run_none_extends(wl, c, gates.drop_last(), tables, hf, gid0, i);
    } else {
        assert(gates.take(i as int) =~= gates);
    }
}

/// Privacy-free garbler that tracks per-wire zero labels.
pub struct PrivacyFreeGarbler {
    /// Sampled zero label of each wire (colour bit 0).
    pub zero_labels: Vec<u128>,
    /// Global offset between the two labels of a wire (colour bit 1).
    pub delta: u128,
    /// Public labels for false and true.
    pub constant: [u128; 2],
    /// Zero label of each wire as garbling progresses (zero when unset).
    pub wire_zero: Vec<u128>,
    /// Zero labels of the outputs.
    pub decoder: OutputDecoder,
    /// Next input wire for sequential feeding.
    pub next_input: usize,
    /// Number of AND gates garbled so far (the id of the next one).
    pub gid: u64,
}

impl PrivacyFreeGarbler {
    /// The garbler's tables are consistent.
    pub open spec fn wf(&self) -> bool {
        &&& self.wire_zero@.len() == self.zero_labels@.len()
        &&& self.decoder.delta == self.delta
    }

    /// Initialise from random material; every sampled zero label gets
    /// colour bit 0, so the one label gets colour bit 1.
    pub fn new(delta_seed: u128, constant_seed: u128, samples: Vec<u128>) -> (g: PrivacyFreeGarbler)
        ensures
            g.wf(),
            (g.delta, g.constant) == setup_spec(delta_seed, constant_seed),
            g.zero_labels@ == samples@.map_values(|z: u128| clear_lsb(z)),
            g.wire_zero@ == Seq::new(samples@.len(), |i: int| 0u128),
            g.decoder.zero_labels@ == Seq::<u128>::empty(),
            g.next_input == 0,
            g.gid == 0,
    {
        let (delta, constant) = garbler_setup(delta_seed, constant_seed);
        let n = samples.len();
        let mut zero_labels: Vec<u128> = Vec::new();
        let mut wire_zero: Vec<u128> = Vec::new();
        let mut i: usize = 0;
        while i < n
            invariant
                i <= n == samples@.len(),
                wire_zero@ == Seq::new(i as nat, |k: int| 0u128),
                zero_labels@ == samples@.take(i as int).map_values(|z: u128| clear_lsb(z)),
            decreases n - i,
        {
            zero_labels.push(samples[i] & !1u128);
            wire_zero.push(0);
            i = i + 1;
            assert(wire_zero@ =~= Seq::new(i as nat, |k: int| 0u128));
            assert(zero_labels@ =~= samples@.take(i as int).map_values(|z: u128| clear_lsb(z)));
        }
        assert(samples@.take(i as int) =~= samples@);
        PrivacyFreeGarbler {
            zero_labels,
            delta,
            constant,
            wire_zero,
            decoder: OutputDecoder::new(delta),
            next_input: 0,
            gid: 0,
        }
    }

    /// The public label of `b`.
    pub fn public_label(&self, b: bool) -> (l: u128)
        ensures
            l == self.constant[if b { 1int } else { 0int }],
    {
        if b { self.constant[1] } else { self.constant[0] }
    }

    /// Number of AND gates garbled so far.
    pub fn num_and(&self) -> (n: u64)
        ensures
            n == self.gid,
    {
        self.gid
    }

    /// Fetch the current AND id and increment it.
    pub fn next_and_id(&mut self) -> (id: u64)
        requires
            old(self).gid < u64::MAX,
        ensures
            id == old(self).gid,
            final(self).gid == old(self).gid + 1,
            final(self).zero_labels == old(self).zero_labels,
            final(self).delta == old(self).delta,
            final(self).constant == old(self).constant,
            final(self).wire_zero == old(self).wire_zero,
            final(self).decoder == old(self).decoder,
            final(self).next_input == old(self).next_input,
    {
        let id = self.gid;
        self.gid = self.gid + 1;
        id
    }

    fn wire_label(&self, idx: usize) -> (w: WireLabel)
        requires
            idx < self.zero_labels@.len(),
        ensures
            w.zero == self.zero_labels@[idx as int],
            w.one == self.zero_labels@[idx as int] ^ self.delta,
            w.delta == self.delta,
    {
        WireLabel::new(self.zero_labels[idx], self.delta)
    }

    /// Assign input labels for a party.  Each input wire's zero label
    /// becomes its sampled one; the labels of the bits are returned for the
    /// evaluator's inputs (none for the garbler's own).
    pub fn feed(&mut self, party: Party, wire_indices: &[usize], bits: &[bool]) -> (sent: Vec<u128>)
        requires
            old(self).wf(),
            wire_indices@.len() == bits@.len(),
            forall|i: int| 0 <= i < wire_indices@.len() ==> #[trigger] wire_indices@[i] < old(self).zero_labels@.len(),
        ensures
            final(self).wf(),
            final(self).zero_labels == old(self).zero_labels,
            final(self).delta == old(self).delta,
            final(self).constant == old(self).constant,
            final(self).decoder == old(self).decoder,
            final(self).next_input == old(self).next_input,
            final(self).gid == old(self).gid,
            final(self).wire_zero@.len() == old(self).wire_zero@.len(),
            forall|j: int| 0 <= j < old(self).wire_zero@.len() ==> #[trigger] final(self).wire_zero@[j] == if exists|k: int| 0 <= k < wire_indices@.len() && #[trigger] wire_indices@[k] == j {
                old(self).zero_labels@[j]
            } else {
                old(self).wire_zero@[j]
            },
            party == Party::Garbler ==> sent@.len() == 0,
            party == Party::Evaluator ==> sent@.len() == bits@.len(),
            party == Party::Evaluator ==> forall|i: int| 0 <= i < bits@.len() ==> #[trigger] sent@[i]
                == old(self).zero_labels@[wire_indices@[i] as int] ^ sel(bits@[i], old(self).delta),
    {
        let mut sent: Vec<u128> = Vec::new();
        let mut i: usize = 0;
        while i < wire_indices.len()
            invariant
                i <= wire_indices@.len() == bits@.len(),
                self.wf(),
                self.zero_labels == old(self).zero_labels,
                self.delta == old(self).delta,
                self.constant == old(self).constant,
                self.decoder == old(self).decoder,
                self.next_input == old(self).next_input,
                self.gid == old(self).gid,
                self.wire_zero@.len() == old(self).wire_zero@.len(),
                forall|k: int| 0 <= k < wire_indices@.len() ==> #[trigger] wire_indices@[k] < old(self).zero_labels@.len(),
                forall|j: int| 0 <= j < old(self).wire_zero@.len() ==> #[trigger] self.wire_zero@[j] == if exists|k: int| 0 <= k < i && #[trigger] wire_indices@[k] == j {
                    old(self).zero_labels@[j]
                } else {
                    old(self).wire_zero@[j]
                },
                party == Party::Garbler ==> sent@.len() == 0,
                party == Party::Evaluator ==> sent@.len() == i,
                party == Party::Evaluator ==> forall|k: int| 0 <= k < i ==> #[trigger] sent@[k]
                    == old(self).zero_labels@[wire_indices@[k] as int] ^ sel(bits@[k], old(self).delta),
            decreases wire_indices.len() - i,
        {
            let idx = wire_indices[i];
            let bit = bits[i];
            let wl = self.wire_label(idx);
            let lbl = wl.label(bit);
            self.wire_zero.set(idx, wl.zero());
            if party == Party::Evaluator {
                sent.push(lbl);
            }
            proof {
                assert forall|j: int| 0 <= j < old(self).wire_zero@.len() implies #[trigger] self.wire_zero@[j] == if exists|k: int| 0 <= k < i + 1 && #[trigger] wire_indices@[k] == j {
                    old(self).zero_labels@[j]
                } else {
                    old(self).wire_zero@[j]
                } by {
                    if j == idx {
                        assert(wire_indices@[i as int] == j);
                    } else {
                        if exists|k: int| 0 <= k < i + 1 && #[trigger] wire_indices@[k] == j {
                            let k = choose|k: int| 0 <= k < i + 1 && #[trigger] wire_indices@[k] == j;
                            assert(k < i);
                        }
                    }
                }
                let z = old(self).zero_labels@[idx as int];
                lemma_xor_zero(z);
            }
            i = i + 1;
        }
        sent
    }

    /// The labels of the garbler's own inputs, to be sent to the evaluator.
    pub fn send_garbler_inputs(&self, wire_indices: &[usize], bits: &[bool]) -> (sent: Vec<u128>)
        requires
            wire_indices@.len() == bits@.len(),
            forall|i: int| 0 <= i < wire_indices@.len() ==> #[trigger] wire_indices@[i] < self.zero_labels@.len(),
        ensures
            sent@.len() == bits@.len(),
            forall|i: int| 0 <= i < bits@.len() ==> #[trigger] sent@[i]
                == self.zero_labels@[wire_indices@[i] as int] ^ sel(bits@[i], self.delta),
    {
        let mut sent: Vec<u128> = Vec::new();
        let mut i: usize = 0;
        while i < wire_indices.len()
            invariant
                i <= wire_indices@.len() == bits@.len(),
                forall|k: int| 0 <= k < wire_indices@.len() ==> #[trigger] wire_indices@[k] < self.zero_labels@.len(),
                sent@.len() == i,
                forall|k: int| 0 <= k < i ==> #[trigger] sent@[k]
                    == self.zero_labels@[wire_indices@[k] as int] ^ sel(bits@[k], self.delta),
            decreases wire_indices.len() - i,
        {
            let idx = wire_indices[i];
            let lbl = self.wire_label(idx).label(bits[i]);
            proof {
                let z = self.zero_labels@[idx as int];
                lemma_xor_zero(z);
            }
            sent.push(lbl);
            i = i + 1;
        }
        sent
    }

    fn zero_for_wire(&mut self, w: Wire) -> (z: u128)
        requires
            old(self).wf(),
            w.id < old(self).wire_zero@.len(),
        ensures
            final(self).wf(),
            (z, final(self).wire_zero@) == zero_for_wire_spec(
                old(self).wire_zero@,
                old(self).zero_labels@,
                old(self).constant[0],
                w,
            ),
            final(self).zero_labels == old(self).zero_labels,
            final(self).delta == old(self).delta,
            final(self).constant == old(self).constant,
            final(self).decoder == old(self).decoder,
            final(self).next_input == old(self).next_input,
            final(self).gid == old(self).gid,
    {
        if w.public.is_some() {
            let z = self.constant[0];
            self.wire_zero.set(w.id, z);
            return z;
        }
        if self.wire_zero[w.id] == 0 {
            let z = self.zero_labels[w.id];
            self.wire_zero.set(w.id, z);
        }
        self.wire_zero[w.id]
    }

    /// Garble one gate.  For a real AND the input zero labels are fetched
    /// and returned, to be hashed and passed to `garble_and`; every other
    /// gate is garbled here and `None` returned.
    pub fn garble_gate(&mut self, g: &Gate) -> (need: Option<(u128, u128)>)
        requires
            old(self).wf(),
            gate_fits(*g, old(self).wire_zero@.len()),
        ensures
            final(self).wf(),
            final(self).zero_labels == old(self).zero_labels,
            final(self).delta == old(self).delta,
            final(self).constant == old(self).constant,
            final(self).decoder == old(self).decoder,
            final(self).next_input == old(self).next_input,
            final(self).gid == old(self).gid,
            is_real_and(*g) ==> ({
                let (la0, lb0, wz2) = and_inputs_spec(old(self).wire_zero@, old(self).zero_labels@, old(self).constant[0], *g);
                need == Some((la0, lb0)) && final(self).wire_zero@ == wz2
            }),
            !is_real_and(*g) ==> need is None && final(self).wire_zero@ == pf_garble_free_spec(
                old(self).wire_zero@,
                old(self).zero_labels@,
                old(self).constant[0],
                old(self).delta,
                *g,
            ),
    {
        let out = g.output.id;
        let a = g.inputs[0];
        proof { lemma_opt_bool(a.public); }
        match g.kind {
            GateKind::And => {
                let b = g.inputs[1];
                proof { lemma_opt_bool(b.public); }
                if is_val(a.public, false) || is_val(b.public, false) {
                    let c0 = self.constant[0];
                    self.wire_zero.set(out, c0);
                    None
                } else if is_val(a.public, true) && is_val(b.public, true) {
                    let c0 = self.constant[0];
                    self.wire_zero.set(out, c0);
                    None
                } else if is_val(a.public, true) {
                    let z = self.zero_for_wire(b);
                    self.wire_zero.set(out, z);
                    None
                } else if is_val(b.public, true) {
                    let z = self.zero_for_wire(a);
                    self.wire_zero.set(out, z);
                    None
                } else {
                    let la0 = self.zero_for_wire(a);
                    let lb0 = self.zero_for_wire(b);
                    Some((la0, lb0))
                }
            },
            GateKind::Xor => {
                let b = g.inputs[1];
                if a.public.is_some() && b.public.is_some() {
                    let c0 = self.constant[0];
                    self.wire_zero.set(out, c0);
                } else if a.public.is_some() {
                    let z = self.zero_for_wire(b);
                    let c0 = self.constant[0];
                    self.wire_zero.set(out, z ^ c0);
                } else if b.public.is_some() {
                    let z = self.zero_for_wire(a);
                    let c0 = self.constant[0];
                    self.wire_zero.set(out, z ^ c0);
                } else {
                    let a0 = self.zero_for_wire(a);
                    let b0 = self.zero_for_wire(b);
                    self.wire_zero.set(out, a0 ^ b0);
                }
                None
            },
            GateKind::Not => {
                let c0 = self.constant[0];
                if a.public.is_some() {
                    self.wire_zero.set(out, c0);
                } else {
                    let a0 = self.zero_for_wire(a);
                    self.wire_zero.set(out, a0 ^ c0);
                }
                None
            },
        }
    }

    /// Finish garbling a real AND whose input zero labels are `la0`, `lb0`,
    /// with `h = [H(la0, gid), H(la0 ^ delta, gid)]` for the current gate
    /// id: records the output zero label, advances its AND counter and returns
    /// the table entry to send.
    pub fn garble_and(&mut self, g: &Gate, la0: u128, lb0: u128, h: [u128; 2]) -> (table: u128)
        requires
            old(self).wf(),
            g.output.id < old(self).wire_zero@.len(),
            old(self).gid < u64::MAX,
        ensures
            final(self).wf(),
            final(self).zero_labels == old(self).zero_labels,
            final(self).delta == old(self).delta,
            final(self).constant == old(self).constant,
            final(self).decoder == old(self).decoder,
            final(self).next_input == old(self).next_input,
            final(self).gid == old(self).gid + 1,
            ({
                let (w0, t) = pf_garble_spec(lb0, h[0], h[1]);
                table == t && final(self).wire_zero@ == old(self).wire_zero@.update(g.output.id as int, w0)
            }),
    {
        let mut table = [0u128; 1];
        let d = self.delta;
        let gid = self.next_and_id();
        let w0 = privacy_free_garble(la0, la0 ^ d, lb0, lb0 ^ d, d, &mut table, gid, h);
        self.wire_zero.set(g.output.id, w0);
        table[0]
    }

    /// The current zero label of a wire: its garbled value if set,
    /// otherwise its sampled zero label.
    pub fn zero_label(&self, idx: usize) -> (z: u128)
        requires
            idx < self.zero_labels@.len(),
        ensures
            z == if idx < self.wire_zero@.len() && self.wire_zero@[idx as int] != 0 {
                self.wire_zero@[idx as int]
            } else {
                self.zero_labels@[idx as int]
            },
    {
        if idx < self.wire_zero.len() && self.wire_zero[idx] != 0 {
            self.wire_zero[idx]
        } else {
            self.zero_labels[idx]
        }
    }

    /// Mark outputs to be decoded later (stores their zero labels).
    pub fn set_outputs(&mut self, outputs: &[usize])
        requires
            old(self).wf(),
            forall|i: int| 0 <= i < outputs@.len() ==> #[trigger] outputs@[i] < old(self).zero_labels@.len(),
        ensures
            final(self).wf(),
            final(self).zero_labels == old(self).zero_labels,
            final(self).delta == old(self).delta,
            final(self).constant == old(self).constant,
            final(self).wire_zero == old(self).wire_zero,
            final(self).next_input == old(self).next_input,
            final(self).gid == old(self).gid,
            final(self).decoder.zero_labels@.len() == old(self).decoder.zero_labels@.len() + outputs@.len(),
            forall|k: int| 0 <= k < old(self).decoder.zero_labels@.len() ==> #[trigger] final(self).decoder.zero_labels@[k]
                == old(self).decoder.zero_labels@[k],
            forall|k: int| 0 <= k < outputs@.len() ==> #[trigger] final(self).decoder.zero_labels@[old(self).decoder.zero_labels@.len() + k]
                == out_zero(old(self).wire_zero@, old(self).zero_labels@, outputs@[k]),
    {
        let mut i: usize = 0;
        while i < outputs.len()
            invariant
                i <= outputs@.len(),
                self.wf(),
                self.zero_labels == old(self).zero_labels,
                self.delta == old(self).delta,
                self.constant == old(self).constant,
                self.wire_zero == old(self).wire_zero,
                self.next_input == old(self).next_input,
                self.gid == old(self).gid,
                forall|k: int| 0 <= k < outputs@.len() ==> #[trigger] outputs@[k] < old(self).zero_labels@.len(),
                self.decoder.zero_labels@.len() == old(self).decoder.zero_labels@.len() + i,
                forall|k: int| 0 <= k < old(self).decoder.zero_labels@.len() ==> #[trigger] self.decoder.zero_labels@[k]
                    == old(self).decoder.zero_labels@[k],
                forall|k: int| 0 <= k < i ==> #[trigger] self.decoder.zero_labels@[old(self).decoder.zero_labels@.len() + k]
                    == out_zero(old(self).wire_zero@, old(self).zero_labels@, outputs@[k]),
            decreases outputs.len() - i,
        {
            let z = self.zero_label(outputs[i]);
            self.decoder.push_zero_label(z);
            i = i + 1;
        }
    }

    /// Decode the output labels returned by the evaluator.
    pub fn decode_outputs(&self, lbls: &[u128]) -> (bits: Vec<bool>)
        requires
            lbls@.len() <= self.decoder.zero_labels@.len(),
        ensures
            bits@.len() == lbls@.len(),
            forall|i: int| 0 <= i < lbls@.len() ==> #[trigger] bits@[i] == crate::label::decode_bit(
                self.decoder.zero_labels@[i],
                self.decoder.delta,
                lbls@[i],
            ),
    {
        self.decoder.decode_all(lbls)
    }

    /// The decoder of the outputs.
    pub fn decoder(&self) -> (d: &OutputDecoder)
        ensures
            *d == self.decoder,
    {
        &self.decoder
    }

    /// Garble every gate of `circuit` in order (see `pf_garble_run`):
    /// returns the table entry of each real AND, to be sent in order; `h`
    /// is the keyed hash, `h(label, gate id)`.
    pub fn garble<H: Fn(u128, u64) -> u128>(&mut self, circuit: &Circuit, h: &H) -> (tables: Vec<u128>)
        requires
            old(self).wf(),
            is_hash(*h),
            old(self).gid + circuit.gate_seq().len() < u64::MAX,
            forall|k: int| 0 <= k < circuit.gate_seq().len() ==> gate_fits(#[trigger] circuit.gate_seq()[k], old(self).wire_zero@.len()),
        ensures
            final(self).wf(),
            final(self).zero_labels == old(self).zero_labels,
            final(self).delta == old(self).delta,
            final(self).constant == old(self).constant,
            final(self).decoder == old(self).decoder,
            final(self).next_input == old(self).next_input,
            final(self).gid == old(self).gid + tables@.len(),
            (final(self).wire_zero@, tables@) == pf_garble_run(
                old(self).wire_zero@,
                old(self).zero_labels@,
                old(self).constant[0],
                old(self).delta,
                circuit.gate_seq(),
                hash_of(*h),
                old(self).gid as nat,
            ),
    {
        let ghost hf = hash_of(*h);
        let gates = circuit.gates();
        let mut tables: Vec<u128> = Vec::new();
        let mut i: usize = 0;
        proof {
            assert(gates@.take(0) =~= Seq::<Gate>::empty());
        }
        while i < gates.len()
            invariant
                self.wf(),
                is_hash(*h),
                hf == hash_of(*h),
                gates@ == circuit.gate_seq(),
                old(self).gid + gates@.len() < u64::MAX,
                forall|k: int| 0 <= k < gates@.len() ==> gate_fits(#[trigger] gates@[k], old(self).wire_zero@.len()),
                i <= gates@.len(),
                self.wire_zero@.len() == old(self).wire_zero@.len(),
                self.zero_labels == old(self).zero_labels,
                self.delta == old(self).delta,
                self.constant == old(self).constant,
                self.decoder == old(self).decoder,
                self.next_input == old(self).next_input,
                self.gid == old(self).gid + tables@.len(),
                (self.wire_zero@, tables@) == pf_garble_run(
                    old(self).wire_zero@,
                    old(self).zero_labels@,
                    old(self).constant[0],
                    old(self).delta,
                    gates@.take(i as int),
                    hf,
                    old(self).gid as nat,
                ),
            decreases gates@.len() - i,
        {
            let g = &gates[i];
            proof {
                assert(gates@.take(i + 1).drop_last() =~= gates@.take(i as int));
                assert(gates@.take(i + 1).last() == gates@[i as int]);
                lemma_pf_garble_run_len(old(self).wire_zero@, old(self).zero_labels@, old(self).constant[0], old(self).delta, gates@.take(i as int), hf, old(self).gid as nat);
            }
            match self.garble_gate(g) {
                None => {},
                Some((la0, _lb0)) => {
                    let gid = self.gid;
                    let d = self.delta;
                    let hs = [hash_call(h, la0, gid), hash_call(h, la0 ^ d, gid)];
                    let entry = self.garble_and(g, la0, _lb0, hs);
                    tables.push(entry);
                },
            }
            i = i + 1;
        }
        proof {
            assert(gates@.take(gates@.len() as int) =~= gates@);
        }
        tables
    }
}


/// The label table after privacy-free evaluation of a gate that is not a
/// real AND.
pub open spec fn pf_eval_free_spec(wl: Seq<u128>, c: [u128; 2], g: Gate) -> Seq<u128> {
    let a = g.inputs@[0];
    let out = g.output.id as int;
    match g.kind {
        GateKind::And => {
            let b = g.inputs@[1];
            if a.public == Some(false) || b.public == Some(false) {
                wl.update(out, c[0])
            } else if a.public == Some(true) && b.public == Some(true) {
                wl.update(out, c[1])
            } else if a.public == Some(true) {
                wl.update(out, label_for_wire_spec(wl, c, b))
            } else {
                wl.update(out, label_for_wire_spec(wl, c, a))
            }
        },
        GateKind::Xor => {
            let b = g.inputs@[1];
            match (a.public, b.public) {
                (Some(va), Some(vb)) => wl.update(out, c[if va != vb { 1int } else { 0int }]),
                (Some(va), None) => wl.update(out, label_for_wire_spec(wl, c, b) ^ c[if va { 1int } else { 0int }]),
                (None, Some(vb)) => wl.update(out, label_for_wire_spec(wl, c, a) ^ c[if vb { 1int } else { 0int }]),
                (None, None) => wl.update(out, label_for_wire_spec(wl, c, a) ^ label_for_wire_spec(wl, c, b)),
            }
        },
        GateKind::Not => match a.public {
            Some(v) => wl.update(out, c[if v { 0int } else { 1int }]),
            None => wl.update(out, c[1] ^ label_for_wire_spec(wl, c, a)),
        },
    }
}

/// Privacy-free evaluator that consumes garbled tables.
pub struct PrivacyFreeEvaluator {
    /// Label held on each wire.
    pub wire_labels: Vec<u128>,
    /// Public labels for false and true, as received from the garbler.
    pub constant: [u128; 2],
    /// Next input wire for sequential feeding.
    pub next_input: usize,
    /// Number of AND gates evaluated so far (the id of the next one).
    pub gid: u64,
}

impl PrivacyFreeEvaluator {
    /// Initialise with the public labels received from the garbler.
    pub fn new(constant: [u128; 2]) -> (e: PrivacyFreeEvaluator)
        ensures
            e.wire_labels@ == Seq::<u128>::empty(),
            e.constant == constant,
            e.next_input == 0,
            e.gid == 0,
    {
        PrivacyFreeEvaluator { wire_labels: Vec::new(), constant, next_input: 0, gid: 0 }
    }

    /// The public label of `b`.
    pub fn public_label(&self, b: bool) -> (l: u128)
        ensures
            l == self.constant[if b { 1int } else { 0int }],
    {
        if b { self.constant[1] } else { self.constant[0] }
    }

    /// Number of AND gates evaluated so far.
    pub fn num_and(&self) -> (n: u64)
        ensures
            n == self.gid,
    {
        self.gid
    }

    /// Store the labels received for the evaluator's own input wires.
    pub fn feed(&mut self, party: Party, wire_indices: &[usize], received: &[u128])
        requires
            party == Party::Evaluator ==> wire_indices@.len() == received@.len(),
            forall|k: int| 0 <= k < wire_indices@.len() ==> #[trigger] wire_indices@[k] < usize::MAX,
        ensures
            final(self).constant == old(self).constant,
            final(self).next_input == old(self).next_input,
            final(self).gid == old(self).gid,
            final(self).wire_labels@ == if party == Party::Evaluator {
                store_spec(grown(old(self).wire_labels@, max_plus_one(wire_indices@)), wire_indices@, received@)
            } else {
                old(self).wire_labels@
            },
    {
        if party == Party::Evaluator {
            store_labels(&mut self.wire_labels, wire_indices, received);
        }
    }

    /// Store the labels received for the garbler's input wires.
    pub fn receive_garbler_inputs(&mut self, wire_indices: &[usize], received: &[u128])
        requires
            wire_indices@.len() == received@.len(),
            forall|k: int| 0 <= k < wire_indices@.len() ==> #[trigger] wire_indices@[k] < usize::MAX,
        ensures
            final(self).constant == old(self).constant,
            final(self).next_input == old(self).next_input,
            final(self).gid == old(self).gid,
            final(self).wire_labels@ == store_spec(
                grown(old(self).wire_labels@, max_plus_one(wire_indices@)),
                wire_indices@,
                received@,
            ),
    {
        store_labels(&mut self.wire_labels, wire_indices, received);
    }

    /// Make room for every wire of the circuit (the start of evaluation).
    pub fn prepare(&mut self, circuit: &Circuit)
        ensures
            final(self).constant == old(self).constant,
            final(self).next_input == old(self).next_input,
            final(self).gid == old(self).gid,
            final(self).wire_labels@ == grown(old(self).wire_labels@, circuit.wires()),
    {
        let n = circuit.wire_count();
        grow_labels(&mut self.wire_labels, n);
    }

    fn label_for_wire(&self, w: Wire) -> (l: u128)
        requires
            w.public is None ==> w.id < self.wire_labels@.len(),
        ensures
            l == label_for_wire_spec(self.wire_labels@, self.constant, w),
    {
        match w.public {
            Some(v) => self.public_label(v),
            None => self.wire_labels[w.id],
        }
    }

    /// Evaluate one gate.  For a real AND the first input label is
    /// returned, to be hashed and passed to `evaluate_and` with the
    /// received table entry; every other gate is evaluated here.
    pub fn evaluate_gate(&mut self, g: &Gate) -> (need: Option<u128>)
        requires
            gate_fits(*g, old(self).wire_labels@.len()),
        ensures
            final(self).constant == old(self).constant,
            final(self).next_input == old(self).next_input,
            final(self).gid == old(self).gid,
            is_real_and(*g) ==> need == Some(old(self).wire_labels@[g.inputs@[0].id as int])
                && final(self).wire_labels@ == old(self).wire_labels@,
            !is_real_and(*g) ==> need is None && final(self).wire_labels@ == pf_eval_free_spec(
                old(self).wire_labels@,
                old(self).constant,
                *g,
            ),
    {
        let out = g.output.id;
        let a = g.inputs[0];
        proof { lemma_opt_bool(a.public); }
        match g.kind {
            GateKind::And => {
                let b = g.inputs[1];
                proof { lemma_opt_bool(b.public); }
                if is_val(a.public, false) || is_val(b.public, false) {
                    let l = self.public_label(false);
                    self.wire_labels.set(out, l);
                    None
                } else if is_val(a.public, true) && is_val(b.public, true) {
                    let l = self.public_label(true);
                    self.wire_labels.set(out, l);
                    None
                } else if is_val(a.public, true) {
                    let l = self.label_for_wire(b);
                    self.wire_labels.set(out, l);
                    None
                } else if is_val(b.public, true) {
                    let l = self.label_for_wire(a);
                    self.wire_labels.set(out, l);
                    None
                } else {
                    Some(self.wire_labels[a.id])
                }
            },
            GateKind::Xor => {
                let b = g.inputs[1];
                let l = match (a.public, b.public) {
                    (Some(va), Some(vb)) => self.public_label(va != vb),
                    (Some(va), None) => self.label_for_wire(b) ^ self.public_label(va),
                    (None, Some(vb)) => self.label_for_wire(a) ^ self.public_label(vb),
                    (None, None) => {
                        let la = self.label_for_wire(a);
                        let lb = self.label_for_wire(b);
                        la ^ lb
                    },
                };
                self.wire_labels.set(out, l);
                None
            },
            GateKind::Not => {
                let l = match a.public {
                    Some(v) => self.public_label(!v),
                    None => self.public_label(true) ^ self.label_for_wire(a),
                };
                self.wire_labels.set(out, l);
                None
            },
        }
    }

    /// Finish evaluating a real AND with the received table entry and
    /// `ha = H(a, gid)` for the current AND index; advances its AND counter.
    pub fn evaluate_and(&mut self, g: &Gate, table: u128, ha: u128)
        requires
            is_real_and(*g),
            gate_fits(*g, old(self).wire_labels@.len()),
            old(self).gid < u64::MAX,
        ensures
            final(self).constant == old(self).constant,
            final(self).next_input == old(self).next_input,
            final(self).gid == old(self).gid + 1,
            final(self).wire_labels@ == old(self).wire_labels@.update(
                g.output.id as int,
                pf_eval_spec(
                    old(self).wire_labels@[g.inputs@[0].id as int],
                    old(self).wire_labels@[g.inputs@[1].id as int],
                    table,
                    ha,
                ),
            ),
    {
        let a = self.wire_labels[g.inputs[0].id];
        let b = self.wire_labels[g.inputs[1].id];
        let w = privacy_free_eval(a, b, table, self.gid, ha);
        self.gid = self.gid + 1;
        self.wire_labels.set(g.output.id, w);
    }

    /// Evaluate every gate of `circuit` in order with the garbler's table
    /// entries (see `pf_eval_run`), after making room for its wires;
    /// returns false, with the labels in an unspecified state, when a
    /// real AND finds no entry left.
    pub fn evaluate<H: Fn(u128, u64) -> u128>(&mut self, circuit: &Circuit, tables: &[u128], h: &H) -> (ok: bool)
        requires
            is_hash(*h),
            old(self).gid + circuit.gate_seq().len() < u64::MAX,
            forall|k: int| 0 <= k < circuit.gate_seq().len() ==> gate_fits(#[trigger] circuit.gate_seq()[k], circuit.wires()),
        ensures
            final(self).constant == old(self).constant,
            final(self).next_input == old(self).next_input,
            match pf_eval_run(grown(old(self).wire_labels@, circuit.wires()), old(self).constant, circuit.gate_seq(), tables@, hash_of(*h), old(self).gid as nat) {
                Some((w, j)) => ok && final(self).wire_labels@ == w && final(self).gid == old(self).gid + j,
                None => !ok,
            },
    {
        let ghost hf = hash_of(*h);
        self.prepare(circuit);
        let ghost wl0 = self.wire_labels@;
        let gates = circuit.gates();
        let mut j: usize = 0;
        let mut i: usize = 0;
        proof {
            assert(gates@.take(0) =~= Seq::<Gate>::empty());
        }
        while i < gates.len()
            invariant
                is_hash(*h),
                hf == hash_of(*h),
                gates@ == circuit.gate_seq(),
                old(self).gid + gates@.len() < u64::MAX,
                wl0 == grown(old(self).wire_labels@, circuit.wires()),
                wl0.len() >= circuit.wires(),
                forall|k: int| 0 <= k < gates@.len() ==> gate_fits(#[trigger] gates@[k], circuit.wires()),
                i <= gates@.len(),
                j <= i,
                self.gid == old(self).gid + j,
                self.constant == old(self).constant,
                self.next_input == old(self).next_input,
                self.wire_labels@.len() == wl0.len(),
                pf_eval_run(wl0, old(self).constant, gates@.take(i as int), tables@, hf, old(self).gid as nat) == Some((self.wire_labels@, j as nat)),
            decreases gates@.len() - i,
        {
            let g = &gates[i];
            proof {
                assert(gates@.take(i + 1).drop_last() =~= gates@.take(i as int));
                assert(gates@.take(i + 1).last() == gates@[i as int]);
                assert(gate_fits(*g, circuit.wires()));
            }
            match self.evaluate_gate(g) {
                None => {},
                Some(la) => {
                    if j >= tables.len() {
                        proof {
                            assert(pf_eval_run(wl0, old(self).constant, gates@.take(i + 1), tables@, hf, old(self).gid as nat) is None);
                            lemma_pf_eval_run_none_extends(wl0, old(self).constant, gates@, tables@, hf, old(self).gid as nat, (i + 1) as nat);
                        }
                        return false;
                    }
                    let ha = hash_call(h, la, self.gid);
                    self.evaluate_and(g, tables[j], ha);
                    j = j + 1;
                },
            }
            i = i + 1;
        }
        proof {
            assert(gates@.take(gates@.len() as int) =~= gates@);
        }
        true
    }

    /// The labels of the selected outputs, to be sent back to the garbler.
    pub fn send_outputs(&self, outputs: &[usize]) -> (lbls: Vec<u128>)
        requires
            forall|k: int| 0 <= k < outputs@.len() ==> #[trigger] outputs@[k] < self.wire_labels@.len(),
        ensures
            lbls@ == outputs@.map_values(|idx: usize| self.wire_labels@[idx as int]),
    {
        let mut lbls: Vec<u128> = Vec::new();
        let mut i: usize = 0;
        while i < outputs.len()
            invariant
                i <= outputs@.len(),
                forall|k: int| 0 <= k < outputs@.len() ==> #[trigger] outputs@[k] < self.wire_labels@.len(),
                lbls@ == outputs@.take(i as int).map_values(|idx: usize| self.wire_labels@[idx as int]),
            decreases outputs.len() - i,
        {
            lbls.push(self.wire_labels[outputs[i]]);
            assert(outputs@.take(i + 1).map_values(|idx: usize| self.wire_labels@[idx as int])
                =~= outputs@.take(i as int).map_values(|idx: usize| self.wire_labels@[idx as int]).push(
                self.wire_labels@[outputs@[i as int] as int]));
            i = i + 1;
        }
        assert(outputs@.take(i as int) =~= outputs@);
        lbls
    }
}


proof fn lemma_xor_enc2(a0: u128, b0: u128, c0: u128, d: u128, va: bool, vb: bool)
    by (bit_vector)
    ensures
        (a0 ^ sel(va, d)) ^ (b0 ^ sel(vb, d)) == (a0 ^ b0) ^ sel(va != vb, d),
        (b0 ^ sel(vb, d)) ^ (c0 ^ d) == (b0 ^ c0) ^ sel(!vb, d),
        (c0 ^ sel(va, d)) == c0 ^ sel(va, d),
{
}

/// One gate of privacy-free garbling keeps the evaluator's labels
/// faithful, as `lemma_halfgate_gate_step` states for half-gates; `hash`
/// is `H(., gid)` for this AND's index, and the first input's zero label of a
/// real AND has colour 0.  A NOT gate is free: the garbler's output zero
/// label is `a0 ^ c[0]` and the evaluator XORs in the true public label.
pub proof fn lemma_pf_gate_step(
    wz: Seq<u128>,
    zl: Seq<u128>,
    c: [u128; 2],
    delta: u128,
    wl: Seq<u128>,
    env: Map<usize, bool>,
    g: Gate,
    hash: spec_fn(u128) -> u128,
    table: u128,
)
    requires
        lsb(delta),
        c[1] == c[0] ^ delta,
        wz.len() == zl.len(),
        gate_fits(g, wz.len()),
        gate_fits(g, wl.len()),
        gate_ready(env, g),
        g.inputs@[0].public is None ==> encodes(
            wl[g.inputs@[0].id as int],
            and_inputs_spec(wz, zl, c[0], g).0,
            delta,
            env[g.inputs@[0].id],
        ),
        g.kind != GateKind::Not && g.inputs@[1].public is None ==> encodes(
            wl[g.inputs@[1].id as int],
            if g.inputs@[0].public is None {
                and_inputs_spec(wz, zl, c[0], g).1
            } else {
                zero_for_wire_spec(wz, zl, c[0], g.inputs@[1]).0
            },
            delta,
            env[g.inputs@[1].id],
        ),
        is_real_and(g) ==> ({
            let (la0, lb0, _wz2) = and_inputs_spec(wz, zl, c[0], g);
            &&& !lsb(la0)
            &&& table == pf_garble_spec(lb0, hash(la0), hash(la0 ^ delta)).1
        }),
    ensures
        ({
            let out = g.output.id as int;
            let (la0, lb0, _wz2) = and_inputs_spec(wz, zl, c[0], g);
            let new_zero = if is_real_and(g) {
                pf_garble_spec(lb0, hash(la0), hash(la0 ^ delta)).0
            } else {
                pf_garble_free_spec(wz, zl, c[0], delta, g)[out]
            };
            let la = wl[g.inputs@[0].id as int];
            let lb = wl[g.inputs@[1].id as int];
            let new_label = if is_real_and(g) {
                pf_eval_spec(la, lb, table, hash(la))
            } else {
                pf_eval_free_spec(wl, c, g)[out]
            };
            encodes(new_label, new_zero, delta, gate_value(env, g))
        }),
{
    let a = g.inputs@[0];
    let b = g.inputs@[1];
    assert(wire_known(env, a));
    if g.kind != GateKind::Not {
        assert(wire_known(env, b));
    }
    lemma_opt_bool(a.public);
    lemma_opt_bool(b.public);
    let c0 = c[0];
    lemma_xor_zero(c0);
    let (la0, lb0, wz2) = and_inputs_spec(wz, zl, c0, g);
    let (za, wz1) = zero_for_wire_spec(wz, zl, c0, a);
    let va = wire_value(env, a);
    let vb = wire_value(env, b);
    if is_real_and(g) {
        let h0 = hash(la0);
        let h1 = hash(la0 ^ delta);
        lemma_pf_correct(la0, lb0, delta, h0, h1, va, vb);
        lemma_xor_zero(la0);
        let la = wl[a.id as int];
        assert(hash(la) == if va { h1 } else { h0 });
    } else if g.kind == GateKind::Not {
        lemma_not_encodes(za, c0, delta, va);
    } else {
        let (zb, _w) = zero_for_wire_spec(if a.public is None { wz1 } else { wz }, zl, c0, b);
        lemma_xor_enc2(za, zb, c0, delta, va, vb);
        lemma_xor_enc2(zb, za, c0, delta, vb, va);
        lemma_xor_zero(za);
        lemma_xor_zero(zb);
        assert((c0 ^ delta) ^ delta == c0 ^ 0) by (bit_vector);
    }
}

/// The label of `v` under `z`, xored with the true public label
/// `c0 ^ delta`, is the label of `!v` under `z ^ c0`.
proof fn lemma_not_encodes(z: u128, c0: u128, delta: u128, v: bool)
    ensures
        (c0 ^ delta) ^ (z ^ sel(v, delta)) == (z ^ c0) ^ sel(!v, delta),
{
    lemma_xor_enc2(z, z, c0, delta, v, v);
    crate::label::lemma_xor_laws(c0 ^ delta, z ^ sel(v, delta), 0);
}

/// No entry of `v` has colour 1.
pub open spec fn colourless(v: Seq<u128>) -> bool {
    forall|i: int| 0 <= i < v.len() ==> !lsb(#[trigger] v[i])
}

/// Every output zero label the privacy-free garbler writes is nonzero (it
/// reads a zero entry as unset).
pub open spec fn pf_garbled_nonzero(
    wz: Seq<u128>,
    zl: Seq<u128>,
    c0: u128,
    delta: u128,
    gates: Seq<Gate>,
    hf: spec_fn(u128, u64) -> u128,
    gid0: nat,
) -> bool {
    forall|k: int| 0 <= k < gates.len() ==> #[trigger] pf_garble_run(wz, zl, c0, delta, gates.take(k + 1), hf, gid0).0[gates[k].output.id as int]
        != 0
}

/// The colour of a XOR is the XOR of the colours; clearing the colour
/// bit leaves colour 0.
proof fn lemma_colour_xor(x: u128, y: u128)
    by (bit_vector)
    ensures
        ((x ^ y) & 1 == 1) == ((x & 1 == 1) != (y & 1 == 1)),
        !((x & !1u128) & 1 == 1),
{
}

/// The zero label read for an identifier of a colourless table has
/// colour 0.
proof fn lemma_out_zero_colourless(wz: Seq<u128>, zl: Seq<u128>, id: usize)
    requires
        colourless(wz),
        colourless(zl),
        (id as int) < wz.len(),
        wz.len() == zl.len(),
    ensures
        !lsb(out_zero(wz, zl, id)),
{
    assert(!lsb(wz[id as int]));
    assert(!lsb(zl[id as int]));
}

/// One gate of the privacy-free circuit law: the labels keep carrying the
/// values and the garbler's table stays colourless.
#[verifier::rlimit(60)]
proof fn lemma_pf_circuit_step(
    w1: Seq<u128>,
    zl: Seq<u128>,
    c: [u128; 2],
    delta: u128,
    l1: Seq<u128>,
    e1: Map<usize, bool>,
    g: Gate,
    hf: spec_fn(u128, u64) -> u128,
    gid: u64,
    table: u128,
)
    requires
        lsb(delta),
        !lsb(c[0]),
        c[1] == c[0] ^ delta,
        w1.len() == zl.len(),
        l1.len() == w1.len(),
        colourless(w1),
        colourless(zl),
        gate_fits(g, w1.len()),
        gate_ready(e1, g),
        forall|i: int| 0 <= i < g.inputs@.len() && (#[trigger] g.inputs@[i]).public is Some ==> !e1.contains_key(g.inputs@[i].id),
        labels_carry(l1, w1, zl, delta, e1),
        is_real_and(g) ==> ({
            let (la0, lb0, _w) = and_inputs_spec(w1, zl, c[0], g);
            table == pf_garble_spec(lb0, hf(la0, gid), hf(la0 ^ delta, gid)).1
        }),
        ({
            let w2 = if is_real_and(g) {
                let (la0, lb0, w) = and_inputs_spec(w1, zl, c[0], g);
                w.update(g.output.id as int, pf_garble_spec(lb0, hf(la0, gid), hf(la0 ^ delta, gid)).0)
            } else {
                pf_garble_free_spec(w1, zl, c[0], delta, g)
            };
            w2[g.output.id as int] != 0
        }),
    ensures
        ({
            let w2 = if is_real_and(g) {
                let (la0, lb0, w) = and_inputs_spec(w1, zl, c[0], g);
                w.update(g.output.id as int, pf_garble_spec(lb0, hf(la0, gid), hf(la0 ^ delta, gid)).0)
            } else {
                pf_garble_free_spec(w1, zl, c[0], delta, g)
            };
            let l2 = if is_real_and(g) {
                let a = l1[g.inputs@[0].id as int];
                let b = l1[g.inputs@[1].id as int];
                l1.update(g.output.id as int, pf_eval_spec(a, b, table, hf(a, gid)))
            } else {
                pf_eval_free_spec(l1, c, g)
            };
            &&& colourless(w2)
            &&& w2.len() == w1.len()
            &&& labels_carry(l2, w2, zl, delta, e1.insert(g.output.id, gate_value(e1, g)))
        }),
{
    let a = g.inputs@[0];
    let b = g.inputs@[1];
    let out = g.output.id;
    let c0 = c[0];
    let binary = g.kind != GateKind::Not;
    assert(wire_known(e1, a));
    assert(a.id < w1.len());
    if binary {
        assert(wire_known(e1, b));
        assert(b.id < w1.len());
    }
    lemma_opt_bool(a.public);
    lemma_opt_bool(b.public);
    let hash = |x: u128| hf(x, gid);
    let (la0, lb0, wz2) = and_inputs_spec(w1, zl, c0, g);
    let wa = zero_for_wire_spec(w1, zl, c0, a).1;
    lemma_zero_for_wire_keeps(w1, zl, c0, a);
    lemma_out_zero_colourless(w1, zl, a.id);
    if binary {
        lemma_zero_for_wire_keeps(wa, zl, c0, b);
        lemma_zero_for_wire_keeps(w1, zl, c0, b);
        lemma_out_zero_colourless(w1, zl, b.id);
    }
    if a.public is None {
        assert(e1.contains_key(a.id));
    }
    if binary && b.public is None {
        assert(e1.contains_key(b.id));
    }
    if a.public is Some {
        assert(g.inputs@[0].public is Some);
    }
    if binary && b.public is Some {
        assert(g.inputs@[1].public is Some);
    }
    // Every zero label fetched from the table keeps it colourless.
    assert(colourless(wa)) by {
        assert forall|i: int| 0 <= i < wa.len() implies !lsb(#[trigger] wa[i]) by {
            assert(!lsb(w1[i]));
            assert(!lsb(zl[i]));
        }
    }
    let wb = zero_for_wire_spec(w1, zl, c0, b).1;
    if binary {
        assert(colourless(wb)) by {
            assert forall|i: int| 0 <= i < wb.len() implies !lsb(#[trigger] wb[i]) by {
                assert(!lsb(w1[i]));
                assert(!lsb(zl[i]));
            }
        }
        assert(colourless(wz2)) by {
            assert forall|i: int| 0 <= i < wz2.len() implies !lsb(#[trigger] wz2[i]) by {
                assert(!lsb(wa[i]));
                assert(!lsb(zl[i]));
            }
        }
    }
    if is_real_and(g) {
        assert(!lsb(la0));
    }
    lemma_pf_gate_step(w1, zl, c, delta, l1, e1, g, hash, table);
    let w2 = if is_real_and(g) {
        wz2.update(out as int, pf_garble_spec(lb0, hf(la0, gid), hf(la0 ^ delta, gid)).0)
    } else {
        pf_garble_free_spec(w1, zl, c0, delta, g)
    };
    let l2 = if is_real_and(g) {
        let la = l1[a.id as int];
        let lb = l1[b.id as int];
        l1.update(out as int, pf_eval_spec(la, lb, table, hf(la, gid)))
    } else {
        pf_eval_free_spec(l1, c, g)
    };
    // The output's zero label has colour 0.
    let za = out_zero(w1, zl, a.id);
    let zb = out_zero(w1, zl, b.id);
    lemma_colour_xor(za, zb);
    lemma_colour_xor(za, c0);
    lemma_colour_xor(zb, c0);
    lemma_colour_xor(hf(la0, gid), 0);
    assert(!lsb(w2[out as int]));
    assert(colourless(w2)) by {
        assert forall|i: int| 0 <= i < w2.len() implies !lsb(#[trigger] w2[i]) by {
            if i != out {
                assert(!lsb(wa[i]));
                if binary {
                    assert(!lsb(wb[i]));
                    assert(!lsb(wz2[i]));
                }
                assert(!lsb(w1[i]));
            }
        }
    }
    let e2 = e1.insert(out, gate_value(e1, g));
    assert forall|id: usize| #[trigger] e2.contains_key(id) implies {
        &&& (id as int) < l2.len()
        &&& (id as int) < w2.len()
        &&& encodes(l2[id as int], out_zero(w2, zl, id), delta, e2[id])
    } by {
        if id != out {
            assert(e1.contains_key(id));
            assert(a.public is Some ==> id != a.id);
            assert(binary && b.public is Some ==> id != b.id);
            assert(out_zero(w2, zl, id) == out_zero(w1, zl, id));
        }
    }
}

/// Privacy-free garbling of a whole circuit is correct (see
/// `lemma_pf_circuit_correct`), over tables of which the evaluator may
/// have received more than it needs.
proof fn lemma_pf_circuit_run(
    wz: Seq<u128>,
    zl: Seq<u128>,
    c: [u128; 2],
    delta: u128,
    wl: Seq<u128>,
    env: Map<usize, bool>,
    gates: Seq<Gate>,
    hf: spec_fn(u128, u64) -> u128,
    gid0: nat,
    tables: Seq<u128>,
)
    requires
        lsb(delta),
        !lsb(c[0]),
        c[1] == c[0] ^ delta,
        wz.len() == zl.len(),
        wl.len() == wz.len(),
        colourless(wz),
        colourless(zl),
        forall|k: int| 0 <= k < gates.len() ==> gate_fits(#[trigger] gates[k], wz.len()),
        crate::execution::gates_ready(env, gates),
        public_ids_fresh(env, gates),
        pf_garbled_nonzero(wz, zl, c[0], delta, gates, hf, gid0),
        labels_carry(wl, wz, zl, delta, env),
        pf_garble_run(wz, zl, c[0], delta, gates, hf, gid0).1.len() <= tables.len(),
        forall|i: int| 0 <= i < pf_garble_run(wz, zl, c[0], delta, gates, hf, gid0).1.len() ==> #[trigger] tables[i]
            == pf_garble_run(wz, zl, c[0], delta, gates, hf, gid0).1[i],
    ensures
        pf_garble_run(wz, zl, c[0], delta, gates, hf, gid0).0.len() == wz.len(),
        colourless(pf_garble_run(wz, zl, c[0], delta, gates, hf, gid0).0),
        pf_eval_run(wl, c, gates, tables, hf, gid0) matches Some((wl2, j)) && {
            &&& j == pf_garble_run(wz, zl, c[0], delta, gates, hf, gid0).1.len()
            &&& wl2.len() == wl.len()
            &&& labels_carry(wl2, pf_garble_run(wz, zl, c[0], delta, gates, hf, gid0).0, zl, delta, eval_gates(env, gates))
        },
    decreases gates.len(),
{
    if gates.len() > 0 {
        let gs = gates.drop_last();
        let g = gates.last();
        let n = gates.len() - 1;
        assert forall|k: int| 0 <= k < gs.len() implies gate_fits(#[trigger] gs[k], wz.len()) by {
            assert(gs[k] == gates[k]);
        }
        assert forall|i: int| 0 <= i < gs.len() implies gate_ready(#[trigger] eval_gates(env, gs.take(i)), gs[i]) by {
            assert(gs.take(i) =~= gates.take(i));
            assert(gs[i] == gates[i]);
            assert(gate_ready(eval_gates(env, gates.take(i)), gates[i]));
        }
        assert forall|k: int, i: int|
            0 <= k < gs.len() && 0 <= i < gs[k].inputs@.len() && (#[trigger] gs[k].inputs@[i]).public is Some implies !eval_gates(
            env,
            gs.take(k),
        ).contains_key(gs[k].inputs@[i].id) by {
            assert(gs.take(k) =~= gates.take(k));
            assert(gs[k] == gates[k]);
            assert(gates[k].inputs@[i].public is Some);
        }
        assert forall|k: int| 0 <= k < gs.len() implies #[trigger] pf_garble_run(wz, zl, c[0], delta, gs.take(k + 1), hf, gid0).0[gs[k].output.id as int]
            != 0 by {
            assert(gs.take(k + 1) =~= gates.take(k + 1));
            assert(gs[k] == gates[k]);
            assert(pf_garble_run(wz, zl, c[0], delta, gates.take(k + 1), hf, gid0).0[gates[k].output.id as int] != 0);
        }
        let (w1, t1) = pf_garble_run(wz, zl, c[0], delta, gs, hf, gid0);
        let t = pf_garble_run(wz, zl, c[0], delta, gates, hf, gid0).1;
        assert forall|i: int| 0 <= i < t1.len() implies #[trigger] tables[i] == t1[i] by {
            assert(tables[i] == t[i]);
        }
        lemma_pf_circuit_run(wz, zl, c, delta, wl, env, gs, hf, gid0, tables);
        let (l1, j1) = pf_eval_run(wl, c, gs, tables, hf, gid0).unwrap();
        let e1 = eval_gates(env, gs);
        assert(gates.take(n as int) =~= gs);
        assert(gate_ready(e1, g));
        assert(gates.take(n + 1) =~= gates);
        assert(pf_garble_run(wz, zl, c[0], delta, gates.take(n + 1), hf, gid0).0[gates[n as int].output.id as int] != 0);
        assert forall|i: int| 0 <= i < g.inputs@.len() && (#[trigger] g.inputs@[i]).public is Some implies !e1.contains_key(
            g.inputs@[i].id,
        ) by {
            assert(gates[n as int].inputs@[i] == g.inputs@[i]);
        }
        let table = if is_real_and(g) { tables[j1 as int] } else { 0u128 };
        if is_real_and(g) {
            assert(tables[j1 as int] == t[j1 as int]);
        }
        lemma_pf_circuit_step(w1, zl, c, delta, l1, e1, g, hf, (gid0 + j1) as u64, table);
    }
}

/// Privacy-free garbling of a whole circuit decodes to its plain
/// evaluation: when the evaluator's input labels carry the plain inputs
/// `env` under the garbler's zero labels, all zero labels and the false
/// public label have colour 0, and both parties hash the `j`-th AND with
/// gate id `gid0 + j`, evaluating the gates with the garbler's table
/// entries succeeds, and on every wire the plain evaluation knows, the
/// evaluator's label decodes, against the zero label the garbler reads for
/// that wire, to the plain value.  Left out are runs in which the garbler
/// writes a zero label (it reads zero as unset), and public wires that
/// reuse an identifier carrying a value.
pub proof fn lemma_pf_circuit_correct(
    wz: Seq<u128>,
    zl: Seq<u128>,
    c: [u128; 2],
    delta: u128,
    wl: Seq<u128>,
    env: Map<usize, bool>,
    gates: Seq<Gate>,
    hf: spec_fn(u128, u64) -> u128,
    gid0: nat,
)
    requires
        lsb(delta),
        !lsb(c[0]),
        c[1] == c[0] ^ delta,
        wz.len() == zl.len(),
        wl.len() == wz.len(),
        colourless(wz),
        colourless(zl),
        forall|k: int| 0 <= k < gates.len() ==> gate_fits(#[trigger] gates[k], wz.len()),
        crate::execution::gates_ready(env, gates),
        public_ids_fresh(env, gates),
        pf_garbled_nonzero(wz, zl, c[0], delta, gates, hf, gid0),
        forall|id: usize| #[trigger] env.contains_key(id) ==> (id as int) < wz.len() && wl[id as int] == out_zero(wz, zl, id)
            ^ sel(env[id], delta),
    ensures
        ({
            let (wz2, tables) = pf_garble_run(wz, zl, c[0], delta, gates, hf, gid0);
            let plain = eval_gates(env, gates);
            pf_eval_run(wl, c, gates, tables, hf, gid0) matches Some((wl2, j)) && {
                &&& j == tables.len()
                &&& forall|id: usize| #[trigger] plain.contains_key(id) ==> (id as int) < wl2.len() && decode_bit(
                    out_zero(wz2, zl, id),
                    delta,
                    wl2[id as int],
                ) == plain[id]
            }
        }),
{
    lemma_pf_circuit_run(wz, zl, c, delta, wl, env, gates, hf, gid0, pf_garble_run(wz, zl, c[0], delta, gates, hf, gid0).1);
    let (wz2, tables) = pf_garble_run(wz, zl, c[0], delta, gates, hf, gid0);
    let plain = eval_gates(env, gates);
    let (wl2, j) = pf_eval_run(wl, c, gates, tables, hf, gid0).unwrap();
    crate::label::lemma_delta_nonzero(0, delta);
    assert forall|id: usize| #[trigger] plain.contains_key(id) implies (id as int) < wl2.len() && decode_bit(
        out_zero(wz2, zl, id),
        delta,
        wl2[id as int],
    ) == plain[id] by {
        crate::label::lemma_decode_label(out_zero(wz2, zl, id), delta, plain[id]);
    }
}

} // verus!
