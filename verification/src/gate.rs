//! Gate representation used by circuits.

use vstd::prelude::*;
use crate::wire::Wire;

verus! {

/// Supported gate kinds in Boolean circuits.
#[derive(Clone, Copy, Debug, PartialEq, Eq, Structural)]
pub enum GateKind {
    /// Logical AND gate.
    And,
    /// Logical XOR gate.
    Xor,
    /// Logical NOT gate.
    Not,
}

/// A gate with input wires and a single output wire.
#[derive(Clone, Debug, PartialEq, Eq)]
pub struct Gate {
    pub kind: GateKind,
    pub inputs: Vec<Wire>,
    pub output: Wire,
}

impl View for Gate {
    type V = (GateKind, Seq<Wire>, Wire);

    open spec fn view(&self) -> (GateKind, Seq<Wire>, Wire) {
        (self.kind, self.inputs@, self.output)
    }
}

/// The views of a sequence of gates.
pub open spec fn gate_views(gs: Seq<Gate>) -> Seq<(GateKind, Seq<Wire>, Wire)> {
    gs.map_values(|g: Gate| g@)
}

/// A gate is well shaped when it has two inputs (AND, XOR) or one input (NOT).
pub open spec fn gate_well_shaped(g: Gate) -> bool {
    match g.kind {
        GateKind::Not => g.inputs@.len() == 1,
        _ => g.inputs@.len() == 2,
    }
}

impl Gate {
    /// Create an AND gate.
    pub fn and(a: Wire, b: Wire, out: Wire) -> (g: Gate)
        ensures
            g.kind == GateKind::And,
            g.inputs@ == seq![a, b],
            g.output == out,
    {
        Gate { kind: GateKind::And, inputs: vec![a, b], output: out }
    }

    /// Create an XOR gate.
    pub fn xor(a: Wire, b: Wire, out: Wire) -> (g: Gate)
        ensures
            g.kind == GateKind::Xor,
            g.inputs@ == seq![a, b],
            g.output == out,
    {
        Gate { kind: GateKind::Xor, inputs: vec![a, b], output: out }
    }

    /// Create a NOT gate.
    pub fn not(a: Wire, out: Wire) -> (g: Gate)
        ensures
            g.kind == GateKind::Not,
            g.inputs@ == seq![a],
            g.output == out,
    {
        Gate { kind: GateKind::Not, inputs: vec![a], output: out }
    }

    /// Kind of gate.
    pub fn kind(&self) -> (k: GateKind)
        ensures
            k == self.kind,
    {
        self.kind
    }

    /// Access the input wires.
    pub fn inputs(&self) -> (ins: &[Wire])
        ensures
            ins@ == self.inputs@,
    {
        self.inputs.as_slice()
    }

    /// Access the output wire.
    pub fn output(&self) -> (w: Wire)
        ensures
            w == self.output,
    {
        self.output
    }
}

} // verus!
