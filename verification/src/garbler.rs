//! Half-gate garbler state: wire labels, delta, public labels and the
//! output decoder.
//!
//! Sampling randomness, hashing and moving labels over the channel happen
//! outside; the garbler decides, gate by gate, which labels to hash and
//! what each output wire's zero label is.

use vstd::prelude::*;
use crate::circuit::Circuit;
use crate::gate::{gate_well_shaped, Gate, GateKind};
use crate::halfgate::{halfgate_garble_spec, halfgates_garble};
use crate::input_map::Party;
use crate::label::{lsb, sel, OutputDecoder, WireLabel, lemma_xor_zero};
use crate::wire::Wire;
use crate::unary::{hash_call, hash_of, is_hash};

verus! {

/// Delta (colour bit forced to 1) and the public labels (colour 0 for
/// false, the false label plus delta for true) derived from random blocks.
pub open spec fn setup_spec(delta_seed: u128, constant_seed: u128) -> (u128, [u128; 2]) {
    let delta = delta_seed | 1u128;
    let c0 = constant_seed & !1u128;
    (delta, [c0, c0 ^ delta])
}

/// Derive delta and the public labels from two random blocks.
pub fn garbler_setup(delta_seed: u128, constant_seed: u128) -> (r: (u128, [u128; 2]))
    ensures
        r == setup_spec(delta_seed, constant_seed),
        lsb(r.0),
        !lsb(r.1[0]),
{
    let delta = delta_seed | 1u128;
    let c0 = constant_seed & !1u128;
    assert((delta_seed | 1u128) & 1 == 1) by (bit_vector);
    assert(!((constant_seed & !1u128) & 1 == 1)) by (bit_vector);
    let r = (delta, [c0, c0 ^ delta]);
    assert(r.1 =~= setup_spec(delta_seed, constant_seed).1);
    r
}

/// The zero label the garbler uses for a wire, and the updated table:
/// public wires take the false public label; an unset (zero) entry takes
/// the wire's sampled zero label.
pub open spec fn zero_for_wire_spec(wz: Seq<u128>, zl: Seq<u128>, c0: u128, w: Wire) -> (u128, Seq<u128>) {
    if w.public is Some {
        (c0, wz.update(w.id as int, c0))
    } else if wz[w.id as int] == 0 {
        (zl[w.id as int], wz.update(w.id as int, zl[w.id as int]))
    } else {
        (wz[w.id as int], wz)
    }
}

/// Whether `o` holds the value `v`.
pub fn is_val(o: Option<bool>, v: bool) -> (r: bool)
    ensures
        r == (o == Some(v)),
{
    match o {
        Some(x) => x == v,
        None => false,
    }
}

/// An optional Boolean is absent, true or false.
pub proof fn lemma_opt_bool(o: Option<bool>)
    ensures
        o is None || o == Some(true) || o == Some(false),
{
    match o {
        Some(x) => {
            if x {
                assert(o == Some(true));
            } else {
                assert(o == Some(false));
            }
        },
        None => {},
    }
}

/// A gate is an AND of two private wires: the one case that needs hashing.
pub open spec fn is_real_and(g: Gate) -> bool {
    g.kind == GateKind::And && g.inputs@[0].public is None && g.inputs@[1].public is None
}

/// The zero-label table after garbling a gate that is not a real AND.
pub open spec fn garble_free_spec(wz: Seq<u128>, zl: Seq<u128>, c0: u128, delta: u128, g: Gate) -> Seq<u128> {
    let a = g.inputs@[0];
    let out = g.output.id as int;
    match g.kind {
        GateKind::And => {
            let b = g.inputs@[1];
            if a.public == Some(false) || b.public == Some(false) {
                wz.update(out, c0)
            } else if a.public == Some(true) && b.public == Some(true) {
                wz.update(out, c0)
            } else if a.public == Some(true) {
                let (z, wz1) = zero_for_wire_spec(wz, zl, c0, b);
                wz1.update(out, z)
            } else {
                let (z, wz1) = zero_for_wire_spec(wz, zl, c0, a);
                wz1.update(out, z)
            }
        },
        GateKind::Xor => {
            let b = g.inputs@[1];
            let (a0, wz1) = zero_for_wire_spec(wz, zl, c0, a);
            let (b0, wz2) = zero_for_wire_spec(wz1, zl, c0, b);
            wz2.update(out, a0 ^ b0)
        },
        GateKind::Not => {
            let (a0, wz1) = zero_for_wire_spec(wz, zl, c0, a);
            wz1.update(out, a0 ^ delta)
        },
    }
}

/// The inputs' zero labels of a real AND and the table after fetching them.
pub open spec fn and_inputs_spec(wz: Seq<u128>, zl: Seq<u128>, c0: u128, g: Gate) -> (u128, u128, Seq<u128>) {
    let (la0, wz1) = zero_for_wire_spec(wz, zl, c0, g.inputs@[0]);
    let (lb0, wz2) = zero_for_wire_spec(wz1, zl, c0, g.inputs@[1]);
    (la0, lb0, wz2)
}

/// All wires a gate touches index into a table of `n` entries.
pub open spec fn gate_fits(g: Gate, n: nat) -> bool {
    &&& gate_well_shaped(g)
    &&& g.output.id < n
    &&& forall|k: int| 0 <= k < g.inputs@.len() ==> (#[trigger] g.inputs@[k]).id < n
}

/// The zero label an output is decoded against: its garbled value if set,
/// otherwise its sampled zero label.
pub open spec fn out_zero(wz: Seq<u128>, zl: Seq<u128>, idx: usize) -> u128 {
    if wz[idx as int] != 0 { wz[idx as int] } else { zl[idx as int] }
}

/// The hashes of the `j`-th real AND of a circuit: its input zero labels
/// and their complements, the first input's under tweak `2j` and the
/// second's under `2j + 1`.
pub open spec fn and_hashes(hf: spec_fn(u128, u64) -> u128, la0: u128, lb0: u128, delta: u128, j: nat) -> [u128; 4] {
    [hf(la0, (2 * j) as u64), hf(la0 ^ delta, (2 * j) as u64), hf(lb0, (2 * j + 1) as u64), hf(lb0 ^ delta, (2 * j + 1) as u64)]
}

/// The zero-label table and the tables sent after garbling `gates` in
/// order from the table `wz`.
pub open spec fn garble_run(
    wz: Seq<u128>,
    zl: Seq<u128>,
    c0: u128,
    delta: u128,
    gates: Seq<Gate>,
    hf: spec_fn(u128, u64) -> u128,
) -> (Seq<u128>, Seq<[u128; 2]>)
    decreases gates.len(),
{
    if gates.len() == 0 {
        (wz, Seq::empty())
    } else {
        let (w, t) = garble_run(wz, zl, c0, delta, gates.drop_last(), hf);
        let g = gates.last();
        if is_real_and(g) {
            let (la0, lb0, w2) = and_inputs_spec(w, zl, c0, g);
            let (w0, tab) = halfgate_garble_spec(la0, lb0, delta, and_hashes(hf, la0, lb0, delta, t.len()));
            (w2.update(g.output.id as int, w0), t.push(tab))
        } else {
            (garble_free_spec(w, zl, c0, delta, g), t)
        }
    }
}

/// The number of real ANDs garbled is at most the number of gates.
pub proof fn lemma_garble_run_tables(
    wz: Seq<u128>,
    zl: Seq<u128>,
    c0: u128,
    delta: u128,
    gates: Seq<Gate>,
    hf: spec_fn(u128, u64) -> u128,
)
    ensures
        garble_run(wz, zl, c0, delta, gates, hf).1.len() <= gates.len(),
    decreases gates.len(),
{
    if gates.len() > 0 {
        lemma_garble_run_tables(wz, zl, c0, delta, gates.drop_last(), hf);
    }
}

/// Garbler that owns all wire labels and drives the half-gate protocol.
pub struct HalfGateGarbler {
    /// Sampled zero label of each wire.
    pub zero_labels: Vec<u128>,
    /// Global offset between the two labels of a wire.
    pub delta: u128,
    /// Public labels for false and true.
    pub constant: [u128; 2],
    /// Zero label of each wire as garbling progresses (zero when unset).
    pub wire_zero: Vec<u128>,
    /// Zero labels of the outputs.
    pub decoder: OutputDecoder,
    /// Next input wire for sequential feeding.
    pub next_input: usize,
    /// Number of AND gates garbled so far; the `j`-th AND overall hashes
    /// under tweaks `2j` and `2j + 1`.
    pub ands: u64,
}

/// The keyed hash seen from an AND count `n` on: tweak `t` reads `t + 2n`.
pub open spec fn hash_from(hf: spec_fn(u128, u64) -> u128, n: nat) -> spec_fn(u128, u64) -> u128 {
    |x: u128, t: u64| hf(x, (t + 2 * n) as u64)
}

impl HalfGateGarbler {
    /// The garbler's tables are consistent.
    pub open spec fn wf(&self) -> bool {
        &&& self.wire_zero@.len() == self.zero_labels@.len()
        &&& self.decoder.delta == self.delta
    }

    /// Initialise from random material: a delta seed, a public-label seed
    /// and one sampled zero label per wire.
    pub fn new(delta_seed: u128, constant_seed: u128, zero_labels: Vec<u128>) -> (g: HalfGateGarbler)
        ensures
            g.wf(),
            (g.delta, g.constant) == setup_spec(delta_seed, constant_seed),
            g.zero_labels@ == zero_labels@,
            g.wire_zero@ == Seq::new(zero_labels@.len(), |i: int| 0u128),
            g.decoder.zero_labels@ == Seq::<u128>::empty(),
            g.next_input == 0,
    {
        let (delta, constant) = garbler_setup(delta_seed, constant_seed);
        let n = zero_labels.len();
        let mut wire_zero: Vec<u128> = Vec::new();
        let mut i: usize = 0;
        while i < n
            invariant
                i <= n,
                wire_zero@ == Seq::new(i as nat, |k: int| 0u128),
            decreases n - i,
        {
            wire_zero.push(0);
            i = i + 1;
            assert(wire_zero@ =~= Seq::new(i as nat, |k: int| 0u128));
        }
        HalfGateGarbler {
            zero_labels,
            delta,
            constant,
            wire_zero,
            decoder: OutputDecoder::new(delta),
            next_input: 0,
            ands: 0,
        }
    }

    /// The public label of `b`.
    pub fn public_label(&self, b: bool) -> (l: u128)
        ensures
            l == self.constant[if b { 1int } else { 0int }],
    {
        if b { self.constant[1] } else { self.constant[0] }
    }

    /// The label pair of a wire.
    pub fn wire_label(&self, idx: usize) -> (w: WireLabel)
        requires
            idx < self.zero_labels@.len(),
        ensures
            w.zero == self.zero_labels@[idx as int],
            w.one == self.zero_labels@[idx as int] ^ self.delta,
            w.delta == self.delta,
    {
        WireLabel::new(self.zero_labels[idx], self.delta)
    }

    /// Assign input labels for a party.  Each input wire's zero label
    /// becomes its sampled one; the labels of the bits are returned for the
    /// evaluator's inputs (none for the garbler's own).
    pub fn feed(&mut self, party: Party, wire_indices: &[usize], bits: &[bool]) -> (sent: Vec<u128>)
        requires
            old(self).wf(),
            wire_indices@.len() == bits@.len(),
            forall|i: int| 0 <= i < wire_indices@.len() ==> #[trigger] wire_indices@[i] < old(self).zero_labels@.len(),
        ensures
            final(self).ands == old(self).ands,
            final(self).wf(),
            final(self).zero_labels == old(self).zero_labels,
            final(self).delta == old(self).delta,
            final(self).constant == old(self).constant,
            final(self).decoder == old(self).decoder,
            final(self).next_input == old(self).next_input,
            final(self).wire_zero@.len() == old(self).wire_zero@.len(),
            forall|j: int| 0 <= j < old(self).wire_zero@.len() ==> #[trigger] final(self).wire_zero@[j] == if exists|k: int| 0 <= k < wire_indices@.len() && #[trigger] wire_indices@[k] == j {
                old(self).zero_labels@[j]
            } else {
                old(self).wire_zero@[j]
            },
            party == Party::Garbler ==> sent@.len() == 0,
            party == Party::Evaluator ==> sent@.len() == bits@.len(),
            party == Party::Evaluator ==> forall|i: int| 0 <= i < bits@.len() ==> #[trigger] sent@[i]
                == old(self).zero_labels@[wire_indices@[i] as int] ^ sel(bits@[i], old(self).delta),
    {
        let mut sent: Vec<u128> = Vec::new();
        let mut i: usize = 0;
        while i < wire_indices.len()
            invariant
                self.ands == old(self).ands,
                i <= wire_indices@.len() == bits@.len(),
                self.wf(),
                self.zero_labels == old(self).zero_labels,
                self.delta == old(self).delta,
                self.constant == old(self).constant,
                self.decoder == old(self).decoder,
                self.next_input == old(self).next_input,
                self.wire_zero@.len() == old(self).wire_zero@.len(),
                forall|k: int| 0 <= k < wire_indices@.len() ==> #[trigger] wire_indices@[k] < old(self).zero_labels@.len(),
                forall|j: int| 0 <= j < old(self).wire_zero@.len() ==> #[trigger] self.wire_zero@[j] == if exists|k: int| 0 <= k < i && #[trigger] wire_indices@[k] == j {
                    old(self).zero_labels@[j]
                } else {
                    old(self).wire_zero@[j]
                },
                party == Party::Garbler ==> sent@.len() == 0,
                party == Party::Evaluator ==> sent@.len() == i,
                party == Party::Evaluator ==> forall|k: int| 0 <= k < i ==> #[trigger] sent@[k]
                    == old(self).zero_labels@[wire_indices@[k] as int] ^ sel(bits@[k], old(self).delta),
            decreases wire_indices.len() - i,
        {
            let idx = wire_indices[i];
            let bit = bits[i];
            let wl = self.wire_label(idx);
            let lbl = wl.label(bit);
            self.wire_zero.set(idx, wl.zero());
            if party == Party::Evaluator {
                sent.push(lbl);
            }
            proof {
                assert forall|j: int| 0 <= j < old(self).wire_zero@.len() implies #[trigger] self.wire_zero@[j] == if exists|k: int| 0 <= k < i + 1 && #[trigger] wire_indices@[k] == j {
                    old(self).zero_labels@[j]
                } else {
                    old(self).wire_zero@[j]
                } by {
                    if j == idx {
                        assert(wire_indices@[i as int] == j);
                    } else {
                        if exists|k: int| 0 <= k < i + 1 && #[trigger] wire_indices@[k] == j {
                            let k = choose|k: int| 0 <= k < i + 1 && #[trigger] wire_indices@[k] == j;
                            assert(k < i);
                        }
                    }
                }
                assert(lbl == old(self).zero_labels@[idx as int] ^ sel(bit, old(self).delta)) by {
                    let z = old(self).zero_labels@[idx as int];
                    let d = old(self).delta;
                    lemma_xor_zero(z);
                }
            }
            i = i + 1;
        }
        sent
    }

    /// The labels of the garbler's own inputs, to be sent to the evaluator.
    pub fn send_garbler_inputs(&self, wire_indices: &[usize], bits: &[bool]) -> (sent: Vec<u128>)
        requires
            wire_indices@.len() == bits@.len(),
            forall|i: int| 0 <= i < wire_indices@.len() ==> #[trigger] wire_indices@[i] < self.zero_labels@.len(),
        ensures
            sent@.len() == bits@.len(),
            forall|i: int| 0 <= i < bits@.len() ==> #[trigger] sent@[i]
                == self.zero_labels@[wire_indices@[i] as int] ^ sel(bits@[i], self.delta),
    {
        let mut sent: Vec<u128> = Vec::new();
        let mut i: usize = 0;
        while i < wire_indices.len()
            invariant
                i <= wire_indices@.len() == bits@.len(),
                forall|k: int| 0 <= k < wire_indices@.len() ==> #[trigger] wire_indices@[k] < self.zero_labels@.len(),
                sent@.len() == i,
                forall|k: int| 0 <= k < i ==> #[trigger] sent@[k]
                    == self.zero_labels@[wire_indices@[k] as int] ^ sel(bits@[k], self.delta),
            decreases wire_indices.len() - i,
        {
            let idx = wire_indices[i];
            let lbl = self.wire_label(idx).label(bits[i]);
            proof {
                let z = self.zero_labels@[idx as int];
                lemma_xor_zero(z);
            }
            sent.push(lbl);
            i = i + 1;
        }
        sent
    }

    fn zero_for_wire(&mut self, w: Wire) -> (z: u128)
        requires
            old(self).wf(),
            w.id < old(self).wire_zero@.len(),
        ensures
            final(self).ands == old(self).ands,
            final(self).wf(),
            (z, final(self).wire_zero@) == zero_for_wire_spec(
                old(self).wire_zero@,
                old(self).zero_labels@,
                old(self).constant[0],
                w,
            ),
            final(self).zero_labels == old(self).zero_labels,
            final(self).delta == old(self).delta,
            final(self).constant == old(self).constant,
            final(self).decoder == old(self).decoder,
            final(self).next_input == old(self).next_input,
    {
        if w.public.is_some() {
            let z = self.constant[0];
            self.wire_zero.set(w.id, z);
            return z;
        }
        if self.wire_zero[w.id] == 0 {
            let z = self.zero_labels[w.id];
            self.wire_zero.set(w.id, z);
        }
        self.wire_zero[w.id]
    }

    /// Garble one gate.  For a real AND (two private inputs) the input
    /// zero labels are fetched and returned, to be hashed and passed to
    /// `garble_and`; every other gate is garbled here and `None` returned.
    pub fn garble_gate(&mut self, g: &Gate) -> (need: Option<(u128, u128)>)
        requires
            old(self).wf(),
            gate_fits(*g, old(self).wire_zero@.len()),
        ensures
            final(self).wf(),
            final(self).zero_labels == old(self).zero_labels,
            final(self).delta == old(self).delta,
            final(self).constant == old(self).constant,
            final(self).decoder == old(self).decoder,
            final(self).next_input == old(self).next_input,
            final(self).ands == old(self).ands,
            is_real_and(*g) ==> ({
                let (la0, lb0, wz2) = and_inputs_spec(old(self).wire_zero@, old(self).zero_labels@, old(self).constant[0], *g);
                need == Some((la0, lb0)) && final(self).wire_zero@ == wz2
            }),
            !is_real_and(*g) ==> need is None && final(self).wire_zero@ == garble_free_spec(
                old(self).wire_zero@,
                old(self).zero_labels@,
                old(self).constant[0],
                old(self).delta,
                *g,
            ),
    {
        let out = g.output.id;
        match g.kind {
            GateKind::And => {
                let a = g.inputs[0];
                let b = g.inputs[1];
                if is_val(a.public, false) || is_val(b.public, false) {
                    let c0 = self.constant[0];
                    self.wire_zero.set(out, c0);
                    None
                } else if is_val(a.public, true) && is_val(b.public, true) {
                    let c0 = self.constant[0];
                    self.wire_zero.set(out, c0);
                    None
                } else if is_val(a.public, true) {
                    let z = self.zero_for_wire(b);
                    self.wire_zero.set(out, z);
                    None
                } else if is_val(b.public, true) {
                    let z = self.zero_for_wire(a);
                    self.wire_zero.set(out, z);
                    None
                } else {
                    proof {
                        lemma_opt_bool(a.public);
                        lemma_opt_bool(b.public);
                    }
                    let la0 = self.zero_for_wire(a);
                    let lb0 = self.zero_for_wire(b);
                    Some((la0, lb0))
                }
            },
            GateKind::Xor => {
                let a0 = self.zero_for_wire(g.inputs[0]);
                let b0 = self.zero_for_wire(g.inputs[1]);
                self.wire_zero.set(out, a0 ^ b0);
                None
            },
            GateKind::Not => {
                let a0 = self.zero_for_wire(g.inputs[0]);
                let d = self.delta;
                self.wire_zero.set(out, a0 ^ d);
                None
            },
        }
    }

    /// Finish garbling a real AND whose input zero labels are `la0`, `lb0`
    /// and whose hashes are `h = [H(la0), H(la0^delta), H(lb0), H(lb0^delta)]`:
    /// records the output zero label, counts the AND and returns the table
    /// to send.
    pub fn garble_and(&mut self, g: &Gate, la0: u128, lb0: u128, h: [u128; 4]) -> (table: [u128; 2])
        requires
            old(self).wf(),
            g.output.id < old(self).wire_zero@.len(),
            old(self).ands < u64::MAX,
        ensures
            final(self).wf(),
            final(self).ands == old(self).ands + 1,
            final(self).zero_labels == old(self).zero_labels,
            final(self).delta == old(self).delta,
            final(self).constant == old(self).constant,
            final(self).decoder == old(self).decoder,
            final(self).next_input == old(self).next_input,
            ({
                let (w0, t) = halfgate_garble_spec(la0, lb0, old(self).delta, h);
                table == t && final(self).wire_zero@ == old(self).wire_zero@.update(g.output.id as int, w0)
            }),
    {
        let mut table = [0u128; 2];
        let d = self.delta;
        let w0 = halfgates_garble(la0, la0 ^ d, lb0, lb0 ^ d, d, &mut table, h);
        self.wire_zero.set(g.output.id, w0);
        self.ands = self.ands + 1;
        table
    }

    /// Number of AND gates garbled so far.
    pub fn num_and(&self) -> (n: u64)
        ensures
            n == self.ands,
    {
        self.ands
    }

    /// The current zero label of a wire: its garbled value if set,
    /// otherwise its sampled zero label.
    pub fn zero_label(&self, idx: usize) -> (z: u128)
        requires
            idx < self.zero_labels@.len(),
        ensures
            z == if idx < self.wire_zero@.len() && self.wire_zero@[idx as int] != 0 {
                self.wire_zero@[idx as int]
            } else {
                self.zero_labels@[idx as int]
            },
    {
        if idx < self.wire_zero.len() && self.wire_zero[idx] != 0 {
            self.wire_zero[idx]
        } else {
            self.zero_labels[idx]
        }
    }

    /// Mark outputs to be decoded later (stores their zero labels).
    pub fn set_outputs(&mut self, outputs: &[usize])
        requires
            old(self).wf(),
            forall|i: int| 0 <= i < outputs@.len() ==> #[trigger] outputs@[i] < old(self).zero_labels@.len(),
        ensures
            final(self).ands == old(self).ands,
            final(self).wf(),
            final(self).zero_labels == old(self).zero_labels,
            final(self).delta == old(self).delta,
            final(self).constant == old(self).constant,
            final(self).wire_zero == old(self).wire_zero,
            final(self).next_input == old(self).next_input,
            final(self).decoder.zero_labels@.len() == old(self).decoder.zero_labels@.len() + outputs@.len(),
            forall|k: int| 0 <= k < old(self).decoder.zero_labels@.len() ==> #[trigger] final(self).decoder.zero_labels@[k]
                == old(self).decoder.zero_labels@[k],
            forall|k: int| 0 <= k < outputs@.len() ==> #[trigger] final(self).decoder.zero_labels@[old(self).decoder.zero_labels@.len() + k]
                == out_zero(old(self).wire_zero@, old(self).zero_labels@, outputs@[k]),
    {
        let mut i: usize = 0;
        while i < outputs.len()
            invariant
                self.ands == old(self).ands,
                i <= outputs@.len(),
                self.wf(),
                self.zero_labels == old(self).zero_labels,
                self.delta == old(self).delta,
                self.constant == old(self).constant,
                self.wire_zero == old(self).wire_zero,
                self.next_input == old(self).next_input,
                forall|k: int| 0 <= k < outputs@.len() ==> #[trigger] outputs@[k] < old(self).zero_labels@.len(),
                self.decoder.zero_labels@.len() == old(self).decoder.zero_labels@.len() + i,
                forall|k: int| 0 <= k < old(self).decoder.zero_labels@.len() ==> #[trigger] self.decoder.zero_labels@[k]
                    == old(self).decoder.zero_labels@[k],
                forall|k: int| 0 <= k < i ==> #[trigger] self.decoder.zero_labels@[old(self).decoder.zero_labels@.len() + k]
                    == out_zero(old(self).wire_zero@, old(self).zero_labels@, outputs@[k]),
            decreases outputs.len() - i,
        {
            let z = self.zero_label(outputs[i]);
            self.decoder.push_zero_label(z);
            i = i + 1;
        }
    }

    /// Decode the output labels returned by the evaluator.
    pub fn decode_outputs(&self, lbls: &[u128]) -> (bits: Vec<bool>)
        requires
            lbls@.len() <= self.decoder.zero_labels@.len(),
        ensures
            bits@.len() == lbls@.len(),
            forall|i: int| 0 <= i < lbls@.len() ==> #[trigger] bits@[i] == crate::label::decode_bit(
                self.decoder.zero_labels@[i],
                self.decoder.delta,
                lbls@[i],
            ),
    {
        self.decoder.decode_all(lbls)
    }

    /// Garble every gate of `circuit` in order (see `garble_run`): returns
    /// the table of each real AND, to be sent to the evaluator in order;
    /// `h` is the keyed hash, `h(label, tweak)`.
    pub fn garble<H: Fn(u128, u64) -> u128>(&mut self, circuit: &Circuit, h: &H) -> (tables: Vec<[u128; 2]>)
        requires
            old(self).wf(),
            is_hash(*h),
            old(self).ands + circuit.gate_seq().len() < 0x4000_0000_0000_0000,
            forall|k: int| 0 <= k < circuit.gate_seq().len() ==> gate_fits(#[trigger] circuit.gate_seq()[k], old(self).wire_zero@.len()),
        ensures
            final(self).wf(),
            final(self).ands == old(self).ands + tables@.len(),
            final(self).zero_labels == old(self).zero_labels,
            final(self).delta == old(self).delta,
            final(self).constant == old(self).constant,
            final(self).decoder == old(self).decoder,
            final(self).next_input == old(self).next_input,
            (final(self).wire_zero@, tables@) == garble_run(
                old(self).wire_zero@,
                old(self).zero_labels@,
                old(self).constant[0],
                old(self).delta,
                circuit.gate_seq(),
                hash_from(hash_of(*h), old(self).ands as nat),
            ),
    {
        let ghost hf = hash_from(hash_of(*h), old(self).ands as nat);
        let gates = circuit.gates();
        let mut tables: Vec<[u128; 2]> = Vec::new();
        let mut i: usize = 0;
        proof {
            assert(gates@.take(0) =~= Seq::<Gate>::empty());
        }
        while i < gates.len()
            invariant
                self.wf(),
                is_hash(*h),
                hf == hash_from(hash_of(*h), old(self).ands as nat),
                gates@ == circuit.gate_seq(),
                old(self).ands + gates@.len() < 0x4000_0000_0000_0000,
                self.ands == old(self).ands + tables@.len(),
                forall|k: int| 0 <= k < gates@.len() ==> gate_fits(#[trigger] gates@[k], old(self).wire_zero@.len()),
                i <= gates@.len(),
                self.wire_zero@.len() == old(self).wire_zero@.len(),
                self.zero_labels == old(self).zero_labels,
                self.delta == old(self).delta,
                self.constant == old(self).constant,
                self.decoder == old(self).decoder,
                self.next_input == old(self).next_input,
                (self.wire_zero@, tables@) == garble_run(
                    old(self).wire_zero@,
                    old(self).zero_labels@,
                    old(self).constant[0],
                    old(self).delta,
                    gates@.take(i as int),
                    hf,
                ),
            decreases gates@.len() - i,
        {
            let g = &gates[i];
            proof {
                assert(gates@.take(i + 1).drop_last() =~= gates@.take(i as int));
                assert(gates@.take(i + 1).last() == gates@[i as int]);
                lemma_garble_run_tables(old(self).wire_zero@, old(self).zero_labels@, old(self).constant[0], old(self).delta, gates@.take(i as int), hf);
            }
            match self.garble_gate(g) {
                None => {},
                Some((la0, lb0)) => {
                    let j = tables.len() as u64;
                    let t0 = 2 * (self.ands as u64);
                    let t1 = t0 + 1;
                    proof {
                        assert(t0 == ((2 * j) as u64 + 2 * old(self).ands) as u64);
                        assert(t1 == ((2 * j + 1) as u64 + 2 * old(self).ands) as u64);
                    }
                    let d = self.delta;
                    let hs = [hash_call(h, la0, t0), hash_call(h, la0 ^ d, t0), hash_call(h, lb0, t1), hash_call(h, lb0 ^ d, t1)];
                    proof {
                        assert(hs == and_hashes(hf, la0, lb0, d, tables@.len()));
                    }
                    let tab = self.garble_and(g, la0, lb0, hs);
                    tables.push(tab);
                },
            }
            i = i + 1;
        }
        proof {
            assert(gates@.take(gates@.len() as int) =~= gates@);
        }
        tables
    }

    /// The decoder of the outputs.
    pub fn decoder(&self) -> (d: &OutputDecoder)
        ensures
            *d == self.decoder,
    {
        &self.decoder
    }
}

} // verus!
