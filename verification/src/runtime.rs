//! Execution interfaces through which higher-level code feeds inputs,
//! evaluates gates and reveals outputs, and the plain (non-garbled)
//! executors that compute on clear bits held in the colour bit.

use vstd::prelude::*;
use crate::circuit::Circuit;
use crate::input_map::Party;
use crate::label::{lsb, OutputDecoder};

verus! {

/// Feeding inputs and revealing outputs.
pub trait ProtocolExecution {
    /// Feed `bits` for `party` into labels.
    fn feed(&mut self, party: Party, bits: &[bool]) -> Vec<u128>;

    /// Reveal labels to `party`, returning clear bits.
    fn reveal_bits(&mut self, party: Party, labels: &[u128]) -> Vec<bool>;
}

/// Executing gates on labels.
pub trait CircuitExecution {
    /// A garbled AND of two labels.
    fn and_gate(&mut self, a: u128, b: u128) -> u128;

    /// A garbled XOR of two labels.
    fn xor_gate(&mut self, a: u128, b: u128) -> u128;

    /// A garbled NOT of a label.
    fn not_gate(&mut self, a: u128) -> u128;

    /// The public label of `b`.
    fn public_label(&self, b: bool) -> u128;
}

/// The plain label of a bit: all ones for true, zero for false.
pub open spec fn plain_label(b: bool) -> u128 {
    if b { u128::MAX } else { 0 }
}

/// Plain protocol executor: labels are the bits themselves.
#[derive(Clone, Copy, Debug, Default)]
pub struct PlainProtExec;

impl ProtocolExecution for PlainProtExec {
    fn feed(&mut self, party: Party, bits: &[bool]) -> (labels: Vec<u128>)
        ensures
            labels@.len() == bits@.len(),
            forall|i: int| 0 <= i < bits@.len() ==> #[trigger] labels@[i] == plain_label(bits@[i]),
    {
        let mut labels: Vec<u128> = Vec::new();
        let mut i: usize = 0;
        while i < bits.len()
            invariant
                i <= bits@.len(),
                labels@.len() == i,
                forall|k: int| 0 <= k < i ==> #[trigger] labels@[k] == plain_label(bits@[k]),
            decreases bits.len() - i,
        {
            labels.push(if bits[i] { u128::MAX } else { 0 });
            i = i + 1;
        }
        labels
    }

    fn reveal_bits(&mut self, party: Party, labels: &[u128]) -> (bits: Vec<bool>)
        ensures
            bits@.len() == labels@.len(),
            forall|i: int| 0 <= i < labels@.len() ==> #[trigger] bits@[i] == lsb(labels@[i]),
    {
        let mut bits: Vec<bool> = Vec::new();
        let mut i: usize = 0;
        while i < labels.len()
            invariant
                i <= labels@.len(),
                bits@.len() == i,
                forall|k: int| 0 <= k < i ==> #[trigger] bits@[k] == lsb(labels@[k]),
            decreases labels.len() - i,
        {
            bits.push(labels[i] & 1 == 1);
            i = i + 1;
        }
        bits
    }
}

/// Plain circuit executor: Boolean operations on the colour bits.
#[derive(Clone, Copy, Debug, Default)]
pub struct PlainCircExec;

impl CircuitExecution for PlainCircExec {
    fn and_gate(&mut self, a: u128, b: u128) -> (r: u128)
        ensures
            r == plain_label(lsb(a) && lsb(b)),
    {
        if (a & 1 == 1) && (b & 1 == 1) { u128::MAX } else { 0 }
    }

    fn xor_gate(&mut self, a: u128, b: u128) -> (r: u128)
        ensures
            r == plain_label(lsb(a) != lsb(b)),
    {
        if (a & 1 == 1) != (b & 1 == 1) { u128::MAX } else { 0 }
    }

    fn not_gate(&mut self, a: u128) -> (r: u128)
        ensures
            r == plain_label(!lsb(a)),
    {
        if a & 1 == 1 { 0 } else { u128::MAX }
    }

    fn public_label(&self, b: bool) -> (r: u128)
        ensures
            r == plain_label(b),
    {
        if b { u128::MAX } else { 0 }
    }
}

/// The plain label of a bit has that bit as its colour.
pub proof fn lemma_plain_label_colour(b: bool)
    ensures
        lsb(plain_label(b)) == b,
{
    assert(u128::MAX & 1 == 1 && 0u128 & 1 == 0) by (bit_vector);
}

/// A garbled-circuit party as seen by a protocol driver.
pub trait GcProtocol {
    /// Feed inputs for a given party.
    fn feed_inputs(&mut self, party: Party, wire_indices: &[usize], bits: &[bool]);

    /// Process the circuit (garble or evaluate).
    fn process(&mut self, circuit: &Circuit);

    /// Reveal outputs; the garbler decodes, the evaluator sends labels back.
    fn reveal_outputs(&mut self, outputs: &[usize], decoder: Option<&OutputDecoder>) -> Vec<bool>;

    /// The output decoder, if held locally (garbler side); a party that
    /// holds none returns `None`.
    fn output_decoder(&self) -> (r: Option<OutputDecoder>)
        default_ensures
            r is None,
    {
        None
    }
}

} // verus!
