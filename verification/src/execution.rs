//! Execution interface and a plain Boolean evaluator.

use vstd::prelude::*;
use std::collections::HashMap;
use crate::circuit::{count_kind, Circuit};
use crate::gate::{gate_well_shaped, Gate, GateKind};
use crate::wire::Wire;

verus! {

broadcast use vstd::std_specs::hash::group_hash_axioms;

/// A wire has a value in `env` when it is public or its identifier is bound.
pub open spec fn wire_known(env: Map<usize, bool>, w: Wire) -> bool {
    w.public is Some || env.contains_key(w.id)
}

/// The value carried by a wire: its public value, or its binding in `env`.
pub open spec fn wire_value(env: Map<usize, bool>, w: Wire) -> bool {
    match w.public {
        Some(v) => v,
        None => env[w.id],
    }
}

/// The Boolean computed by a gate from the values of its inputs.
pub open spec fn gate_value(env: Map<usize, bool>, g: Gate) -> bool {
    match g.kind {
        GateKind::And => wire_value(env, g.inputs@[0]) && wire_value(env, g.inputs@[1]),
        GateKind::Xor => wire_value(env, g.inputs@[0]) != wire_value(env, g.inputs@[1]),
        GateKind::Not => !wire_value(env, g.inputs@[0]),
    }
}

/// A gate can be evaluated in `env`: it is well shaped and all its inputs are known.
pub open spec fn gate_ready(env: Map<usize, bool>, g: Gate) -> bool {
    &&& gate_well_shaped(g)
    &&& forall|k: int| 0 <= k < g.inputs@.len() ==> wire_known(env, #[trigger] g.inputs@[k])
}

/// The environment after evaluating `gs` in order, starting from `env`.
pub open spec fn eval_gates(env: Map<usize, bool>, gs: Seq<Gate>) -> Map<usize, bool>
    decreases gs.len(),
{
    if gs.len() == 0 {
        env
    } else {
        let e = eval_gates(env, gs.drop_last());
        e.insert(gs.last().output.id, gate_value(e, gs.last()))
    }
}

/// Evaluating a concatenation evaluates the second part from where the first left off.
pub proof fn lemma_eval_concat(env: Map<usize, bool>, gs1: Seq<Gate>, gs2: Seq<Gate>)
    ensures
        eval_gates(env, gs1 + gs2) == eval_gates(eval_gates(env, gs1), gs2),
    decreases gs2.len(),
{
    if gs2.len() == 0 {
        assert(gs1 + gs2 =~= gs1);
    } else {
        assert((gs1 + gs2).drop_last() =~= gs1 + gs2.drop_last());
        lemma_eval_concat(env, gs1, gs2.drop_last());
    }
}

/// Every gate of `gs` is ready when its turn comes.
pub open spec fn gates_ready(env: Map<usize, bool>, gs: Seq<Gate>) -> bool {
    forall|i: int| 0 <= i < gs.len() ==> gate_ready(#[trigger] eval_gates(env, gs.take(i)), gs[i])
}

/// `env` with wires `0..n` bound to the first `n` input bits.
pub open spec fn load_inputs(env: Map<usize, bool>, inputs: Seq<bool>, n: nat) -> Map<usize, bool>
    decreases n,
{
    if n == 0 {
        env
    } else {
        load_inputs(env, inputs, (n - 1) as nat).insert((n - 1) as usize, inputs[n - 1])
    }
}

/// Execution interface for stepping gates one at a time.
pub trait CircuitExecution {
    /// Compute AND of two wires.
    fn and_gate(&mut self, in1: Wire, in2: Wire) -> Wire;

    /// Compute XOR of two wires.
    fn xor_gate(&mut self, in1: Wire, in2: Wire) -> Wire;

    /// Compute NOT of a wire.
    fn not_gate(&mut self, input: Wire) -> Wire;

    /// Return a public wire.
    fn public_label(&mut self, value: bool) -> Wire;

    /// Number of AND gates executed, if tracked; an executor that does not
    /// track them reports 0.
    fn num_and(&self) -> (n: u64)
        default_ensures
            n == 0,
    {
        0
    }
}

/// Plain Boolean evaluator for debugging and tests.
pub struct PlainEvaluator {
    env: HashMap<usize, bool>,
    ands: u64,
}

impl PlainEvaluator {
    /// The wire values computed so far.
    pub closed spec fn env_map(&self) -> Map<usize, bool> {
        self.env@
    }

    /// The number of AND gates evaluated so far.
    pub closed spec fn and_count(&self) -> nat {
        self.ands as nat
    }

    /// Create an empty evaluator.
    pub fn new() -> (ev: PlainEvaluator)
        ensures
            ev.env_map() == Map::<usize, bool>::empty(),
            ev.and_count() == 0,
    {
        PlainEvaluator { env: HashMap::new(), ands: 0 }
    }

    /// Evaluate a circuit given input assignments for the first `inputs.len()` wires.
    /// Returns every wire value known afterwards (earlier ones included).
    pub fn evaluate(&mut self, circuit: &Circuit, inputs: &[bool]) -> (vals: HashMap<usize, bool>)
        requires
            gates_ready(
                load_inputs(old(self).env_map(), inputs@, inputs@.len()),
                circuit.gate_seq(),
            ),
            old(self).and_count() + count_kind(circuit.gate_seq(), GateKind::And) <= u64::MAX,
        ensures
            vals@ == eval_gates(
                load_inputs(old(self).env_map(), inputs@, inputs@.len()),
                circuit.gate_seq(),
            ),
            final(self).env_map() == vals@,
            final(self).and_count() == old(self).and_count() + count_kind(
                circuit.gate_seq(),
                GateKind::And,
            ),
    {
        let mut i: usize = 0;
        while i < inputs.len()
            invariant
                i <= inputs@.len(),
                self.env@ == load_inputs(old(self).env@, inputs@, i as nat),
                self.ands == old(self).ands,
            decreases inputs.len() - i,
        {
            self.env.insert(i, inputs[i]);
            i = i + 1;
        }
        let ghost start = self.env@;
        let gs = circuit.gates();
        let mut j: usize = 0;
        while j < gs.len()
            invariant
                j <= gs@.len(),
                gs@ == circuit.gate_seq(),
                start == load_inputs(old(self).env@, inputs@, inputs@.len()),
                gates_ready(start, gs@),
                self.env@ == eval_gates(start, gs@.take(j as int)),
                self.ands == old(self).ands + count_kind(gs@.take(j as int), GateKind::And),
                old(self).ands + count_kind(gs@, GateKind::And) <= u64::MAX,
            decreases gs.len() - j,
        {
            let g = &gs[j];
            let ghost pre = gs@.take(j as int);
            assert(gs@.take(j + 1).drop_last() =~= pre);
            assert(gate_ready(eval_gates(start, pre), gs@[j as int]));
            proof { lemma_count_prefix_le(gs@, j as int + 1, GateKind::And); }
            match g.kind() {
                GateKind::And => {
                    let a = self.lookup(g.inputs[0]);
                    let b = self.lookup(g.inputs[1]);
                    self.env.insert(g.output.id, a && b);
                    self.ands = self.ands + 1;
                },
                GateKind::Xor => {
                    let a = self.lookup(g.inputs[0]);
                    let b = self.lookup(g.inputs[1]);
                    self.env.insert(g.output.id, a != b);
                },
                GateKind::Not => {
                    let a = self.lookup(g.inputs[0]);
                    self.env.insert(g.output.id, !a);
                },
            }
            j = j + 1;
        }
        assert(gs@.take(j as int) =~= gs@);
        self.env.clone()
    }

    /// Number of AND gates evaluated so far.
    pub fn num_and(&self) -> (n: u64)
        ensures
            n == self.and_count(),
    {
        self.ands
    }

    fn lookup(&self, w: Wire) -> (v: bool)
        requires
            wire_known(self.env@, w),
        ensures
            v == wire_value(self.env@, w),
    {
        match w.public_value() {
            Some(v) => v,
            None => *self.env.get(&w.id).unwrap(),
        }
    }
}

/// Gate counts of a prefix never exceed those of the whole sequence.
proof fn lemma_count_prefix_le(gs: Seq<Gate>, n: int, k: GateKind)
    requires
        0 <= n <= gs.len(),
    ensures
        count_kind(gs.take(n), k) <= count_kind(gs, k),
    decreases gs.len() - n,
{
    if n < gs.len() {
        lemma_count_prefix_le(gs, n + 1, k);
        assert(gs.take(n + 1).drop_last() =~= gs.take(n));
    } else {
        assert(gs.take(n) =~= gs);
    }
}

impl CircuitExecution for PlainEvaluator {
    /// The plain evaluator steps whole circuits with `evaluate`; a single
    /// gate step leaves it unchanged and yields the private placeholder
    /// wire `usize::MAX`.
    fn and_gate(&mut self, in1: Wire, in2: Wire) -> (out: Wire)
        ensures
            out == Wire::spec_new(usize::MAX),
            *final(self) == *old(self),
    {
        Wire::new(usize::MAX)
    }

    /// As `and_gate`: the placeholder wire, the evaluator unchanged.
    fn xor_gate(&mut self, in1: Wire, in2: Wire) -> (out: Wire)
        ensures
            out == Wire::spec_new(usize::MAX),
            *final(self) == *old(self),
    {
        Wire::new(usize::MAX)
    }

    /// As `and_gate`: the placeholder wire, the evaluator unchanged.
    fn not_gate(&mut self, input: Wire) -> (out: Wire)
        ensures
            out == Wire::spec_new(usize::MAX),
            *final(self) == *old(self),
    {
        Wire::new(usize::MAX)
    }

    /// The public placeholder wire `usize::MAX` fixed to `value`; the
    /// evaluator unchanged.
    fn public_label(&mut self, value: bool) -> (out: Wire)
        ensures
            out == Wire::spec_public(usize::MAX, value),
            *final(self) == *old(self),
    {
        Wire::public(usize::MAX, value)
    }

    /// The number of AND gates evaluated so far.
    fn num_and(&self) -> (n: u64)
        ensures
            n == self.and_count(),
    {
        PlainEvaluator::num_and(self)
    }
}

} // verus!
