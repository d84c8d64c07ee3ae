//! A simple Boolean circuit container with a builder-style API.

use vstd::prelude::*;
use crate::gate::{Gate, GateKind};
use crate::wire::Wire;

verus! {

/// A Boolean circuit represented as a list of gates and wire allocation state.
#[derive(Debug, Clone)]
pub struct Circuit {
    gates: Vec<Gate>,
    next_wire: usize,
}

impl Circuit {
    /// The gates of the circuit, in order.
    pub closed spec fn gate_seq(&self) -> Seq<Gate> {
        self.gates@
    }

    /// The number of allocated wires.
    pub closed spec fn wires(&self) -> nat {
        self.next_wire as nat
    }

    /// Create an empty circuit.
    pub fn new() -> (c: Circuit)
        ensures
            c.gate_seq() == Seq::<Gate>::empty(),
            c.wires() == 0,
    {
        Circuit { gates: Vec::new(), next_wire: 0 }
    }

    /// An empty circuit with `n` wires already allocated.
    pub(crate) fn with_wires(n: usize) -> (c: Circuit)
        ensures
            c.gate_seq() == Seq::<Gate>::empty(),
            c.wires() == n,
    {
        Circuit { gates: Vec::new(), next_wire: n }
    }

    /// Allocate a fresh private wire.
    pub fn fresh_wire(&mut self) -> (w: Wire)
        requires
            old(self).wires() < usize::MAX,
        ensures
            w.id == old(self).wires(),
            w.public is None,
            final(self).wires() == old(self).wires() + 1,
            final(self).gate_seq() == old(self).gate_seq(),
    {
        let w = Wire::new(self.next_wire);
        self.next_wire = self.next_wire + 1;
        w
    }

    /// Allocate a public wire fixed to `value`.
    pub fn public_wire(&mut self, value: bool) -> (w: Wire)
        requires
            old(self).wires() < usize::MAX,
        ensures
            w.id == old(self).wires(),
            w.public == Some(value),
            final(self).wires() == old(self).wires() + 1,
            final(self).gate_seq() == old(self).gate_seq(),
    {
        let w = Wire::public(self.next_wire, value);
        self.next_wire = self.next_wire + 1;
        w
    }

    /// Append an AND gate and return its output wire.
    pub fn and(&mut self, a: Wire, b: Wire) -> (out: Wire)
        requires
            old(self).wires() < usize::MAX,
        ensures
            out.id == old(self).wires(),
            out.public is None,
            final(self).wires() == old(self).wires() + 1,
            final(self).gate_seq().len() == old(self).gate_seq().len() + 1,
            final(self).gate_seq().drop_last() == old(self).gate_seq(),
            final(self).gate_seq().last().kind == GateKind::And,
            final(self).gate_seq().last().inputs@ == seq![a, b],
            final(self).gate_seq().last().output == out,
    {
        let out = self.fresh_wire();
        self.gates.push(Gate::and(a, b, out));
        proof { assert(self.gates@.drop_last() =~= old(self).gates@); }
        out
    }

    /// Append an XOR gate and return its output wire.
    pub fn xor(&mut self, a: Wire, b: Wire) -> (out: Wire)
        requires
            old(self).wires() < usize::MAX,
        ensures
            out.id == old(self).wires(),
            out.public is None,
            final(self).wires() == old(self).wires() + 1,
            final(self).gate_seq().len() == old(self).gate_seq().len() + 1,
            final(self).gate_seq().drop_last() == old(self).gate_seq(),
            final(self).gate_seq().last().kind == GateKind::Xor,
            final(self).gate_seq().last().inputs@ == seq![a, b],
            final(self).gate_seq().last().output == out,
    {
        let out = self.fresh_wire();
        self.gates.push(Gate::xor(a, b, out));
        proof { assert(self.gates@.drop_last() =~= old(self).gates@); }
        out
    }

    /// Append a NOT gate and return its output wire.
    pub fn not(&mut self, a: Wire) -> (out: Wire)
        requires
            old(self).wires() < usize::MAX,
        ensures
            out.id == old(self).wires(),
            out.public is None,
            final(self).wires() == old(self).wires() + 1,
            final(self).gate_seq().len() == old(self).gate_seq().len() + 1,
            final(self).gate_seq().drop_last() == old(self).gate_seq(),
            final(self).gate_seq().last().kind == GateKind::Not,
            final(self).gate_seq().last().inputs@ == seq![a],
            final(self).gate_seq().last().output == out,
    {
        let out = self.fresh_wire();
        self.gates.push(Gate::not(a, out));
        proof { assert(self.gates@.drop_last() =~= old(self).gates@); }
        out
    }

    /// Total number of allocated wires.
    pub fn wire_count(&self) -> (n: usize)
        ensures
            n == self.wires(),
    {
        self.next_wire
    }

    /// The gates, in order.
    pub fn gates(&self) -> (gs: &[Gate])
        ensures
            gs@ == self.gate_seq(),
    {
        self.gates.as_slice()
    }

    /// Append a pre-built gate (used by parsers).
    pub(crate) fn push_gate(&mut self, gate: Gate)
        requires
            gate.output.id < usize::MAX,
        ensures
            final(self).gate_seq() == old(self).gate_seq().push(gate),
            final(self).wires() == if old(self).wires() > gate.output.id + 1 {
                old(self).wires()
            } else {
                (gate.output.id + 1) as nat
            },
    {
        self.add_gate_internal(gate);
    }

    pub(crate) fn add_gate_internal(&mut self, gate: Gate)
        requires
            gate.output.id < usize::MAX,
        ensures
            final(self).gate_seq() == old(self).gate_seq().push(gate),
            final(self).wires() == if old(self).wires() > gate.output.id + 1 {
                old(self).wires()
            } else {
                (gate.output.id + 1) as nat
            },
    {
        let bound = gate.output().id() + 1;
        if bound > self.next_wire {
            self.next_wire = bound;
        }
        self.gates.push(gate);
    }
}

/// Number of gates of kind `k` in `gs`.
pub open spec fn count_kind(gs: Seq<Gate>, k: GateKind) -> nat
    decreases gs.len(),
{
    if gs.len() == 0 {
        0
    } else {
        count_kind(gs.drop_last(), k) + if gs.last().kind == k { 1nat } else { 0nat }
    }
}

/// Count the AND, XOR and NOT gates of a circuit.
pub fn gate_counts(circuit: &Circuit) -> (r: (usize, usize, usize))
    ensures
        r.0 == count_kind(circuit.gate_seq(), GateKind::And),
        r.1 == count_kind(circuit.gate_seq(), GateKind::Xor),
        r.2 == count_kind(circuit.gate_seq(), GateKind::Not),
{
    let gs = circuit.gates();
    let mut ands: usize = 0;
    let mut xors: usize = 0;
    let mut nots: usize = 0;
    let mut i: usize = 0;
    while i < gs.len()
        invariant
            i <= gs@.len(),
            gs@ == circuit.gate_seq(),
            ands == count_kind(gs@.take(i as int), GateKind::And),
            xors == count_kind(gs@.take(i as int), GateKind::Xor),
            nots == count_kind(gs@.take(i as int), GateKind::Not),
            ands + xors + nots == i,
        decreases gs.len() - i,
    {
        assert(gs@.take(i + 1).drop_last() =~= gs@.take(i as int));
        match gs[i].kind() {
            GateKind::And => ands = ands + 1,
            GateKind::Xor => xors = xors + 1,
            GateKind::Not => nots = nots + 1,
        }
        i = i + 1;
    }
    assert(gs@.take(i as int) =~= gs@);
    (ands, xors, nots)
}

} // verus!
