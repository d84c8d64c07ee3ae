//! Wire labels and output decoding for garbled circuits.
//!
//! A label is a 128-bit block held as a `u128`; its least significant bit
//! is the colour (permute) bit.

use vstd::prelude::*;

verus! {

/// The colour (least significant bit) of a label.
pub open spec fn lsb(x: u128) -> bool {
    x & 1 == 1
}

/// `x` when `b` holds, zero otherwise (a selection mask applied to `x`).
pub open spec fn sel(b: bool, x: u128) -> u128 {
    if b { x } else { 0 }
}

/// The label of bit `b` on a wire whose zero label is `zero`.
pub open spec fn label_of(zero: u128, delta: u128, b: bool) -> u128 {
    zero ^ sel(b, delta)
}

/// A pair of labels for a wire along with the global delta.
#[derive(Clone, Copy, Debug)]
pub struct WireLabel {
    pub zero: u128,
    pub one: u128,
    pub delta: u128,
}

impl WireLabel {
    /// Construct labels from a zero label and a global delta.
    pub fn new(zero: u128, delta: u128) -> (w: WireLabel)
        ensures
            w.zero == zero,
            w.one == zero ^ delta,
            w.delta == delta,
    {
        WireLabel { zero, one: zero ^ delta, delta }
    }

    /// Return the label corresponding to bit `b`.
    pub fn label(&self, b: bool) -> (l: u128)
        ensures
            l == if b { self.one } else { self.zero },
    {
        if b { self.one } else { self.zero }
    }

    /// Return the zero label.
    pub fn zero(&self) -> (l: u128)
        ensures
            l == self.zero,
    {
        self.zero
    }

    /// Return the one label.
    pub fn one(&self) -> (l: u128)
        ensures
            l == self.one,
    {
        self.one
    }

    /// Global delta used for this label pair.
    pub fn delta(&self) -> (d: u128)
        ensures
            d == self.delta,
    {
        self.delta
    }
}

/// Decoder for output wires: stores the zero label of each output and the
/// delta to recover a bit.
#[derive(Clone, Debug)]
pub struct OutputDecoder {
    pub zero_labels: Vec<u128>,
    pub delta: u128,
}

/// The bit a label decodes to: true exactly when it is the one label;
/// an unknown label decodes to false.
pub open spec fn decode_bit(zero: u128, delta: u128, lbl: u128) -> bool {
    lbl != zero && lbl == zero ^ delta
}

impl OutputDecoder {
    /// Create a new decoder with known delta.
    pub fn new(delta: u128) -> (d: OutputDecoder)
        ensures
            d.zero_labels@ == Seq::<u128>::empty(),
            d.delta == delta,
    {
        OutputDecoder { zero_labels: Vec::new(), delta }
    }

    /// Register a zero label for an output wire.
    pub fn push_zero_label(&mut self, lbl0: u128)
        ensures
            final(self).zero_labels@ == old(self).zero_labels@.push(lbl0),
            final(self).delta == old(self).delta,
    {
        self.zero_labels.push(lbl0);
    }

    /// Decode output `idx` from its label.
    pub fn decode(&self, idx: usize, lbl: u128) -> (b: bool)
        requires
            idx < self.zero_labels@.len(),
        ensures
            b == decode_bit(self.zero_labels@[idx as int], self.delta, lbl),
    {
        let z = self.zero_labels[idx];
        if lbl == z {
            false
        } else if lbl == z ^ self.delta {
            true
        } else {
            false
        }
    }

    /// Decode a slice of labels into bits, the `i`th with the `i`th output.
    pub fn decode_all(&self, lbls: &[u128]) -> (bits: Vec<bool>)
        requires
            lbls@.len() <= self.zero_labels@.len(),
        ensures
            bits@.len() == lbls@.len(),
            forall|i: int| 0 <= i < lbls@.len() ==> #[trigger] bits@[i] == decode_bit(
                self.zero_labels@[i],
                self.delta,
                lbls@[i],
            ),
    {
        let mut bits: Vec<bool> = Vec::new();
        let mut i: usize = 0;
        while i < lbls.len()
            invariant
                i <= lbls@.len() <= self.zero_labels@.len(),
                bits@.len() == i,
                forall|k: int| 0 <= k < i ==> #[trigger] bits@[k] == decode_bit(
                    self.zero_labels@[k],
                    self.delta,
                    lbls@[k],
                ),
            decreases lbls.len() - i,
        {
            let b = self.decode(i, lbls[i]);
            bits.push(b);
            i = i + 1;
        }
        bits
    }
}

/// The label of bit `b` decodes to `b` whenever delta is nonzero.
pub proof fn lemma_decode_label(zero: u128, delta: u128, b: bool)
    requires
        delta != 0,
    ensures
        decode_bit(zero, delta, label_of(zero, delta, b)) == b,
{
    lemma_xor_zero(zero);
    assert(delta != 0 ==> zero ^ delta != zero) by (bit_vector);
}

/// XOR with zero is the identity.
pub proof fn lemma_xor_zero(x: u128)
    by (bit_vector)
    ensures
        x ^ 0 == x,
        0 ^ x == x,
{
}

/// XOR of a word with itself is zero; XOR is commutative and associative.
pub proof fn lemma_xor_laws(x: u128, y: u128, z: u128)
    by (bit_vector)
    ensures
        x ^ x == 0,
        x ^ y == y ^ x,
        (x ^ y) ^ z == x ^ (y ^ z),
{
}

/// XOR-ing the label of a colour-1 delta flips the colour.
pub proof fn lemma_lsb_flip(v: u128, d: u128, b: bool)
    requires
        lsb(d),
    ensures
        lsb(v ^ sel(b, d)) == (lsb(v) != b),
{
    assert((d & 1 == 1) ==> ((v ^ d) & 1 == 1) == !(v & 1 == 1)) by (bit_vector);
    lemma_xor_zero(v);
}

/// A colour-1 delta is nonzero, and XOR-ing a nonzero delta changes a
/// word.
pub proof fn lemma_delta_nonzero(x: u128, d: u128)
    by (bit_vector)
    ensures
        (d & 1 == 1) ==> d != 0,
        d != 0 ==> x ^ d != x,
{
}

} // verus!
