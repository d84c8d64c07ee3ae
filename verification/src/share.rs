//! One-hot garbling: party roles, garbled shares, truth tables and the
//! per-party state.
//!
//! A share is a 128-bit label; the generator's and the evaluator's shares
//! of a bit `x` differ by `x * delta`, and the colour of a share is its
//! least significant bit.  The keyed hash of a share is computed outside;
//! AND-gate functions here take its outputs.

use vstd::prelude::*;
use crate::label::{lsb, sel, lemma_xor_zero, lemma_lsb_flip};

verus! {

/// Party role in one-hot garbling.
#[derive(Clone, Copy, Debug, PartialEq, Eq, Structural)]
pub enum Role {
    /// Garbler / generator.
    Generator,
    /// Evaluator.
    Evaluator,
}

/// A garbled wire label.
#[derive(Clone, Copy, Debug, PartialEq, Eq, Structural)]
pub struct Share(pub u128);

impl Share {
    /// The colour (least significant bit) of the label.
    pub fn color(&self) -> (c: bool)
        ensures
            c == lsb(self.0),
    {
        (self.0 & 1) == 1
    }

    /// Clear the colour bit.
    pub fn clear_color(&mut self)
        ensures
            final(self).0 == old(self).0 & !1u128,
    {
        self.0 = self.0 & !1u128;
    }

    /// XOR the colour bit with `bit`.
    pub fn xor_color(&mut self, bit: bool)
        ensures
            final(self).0 == if bit { old(self).0 ^ 1u128 } else { old(self).0 },
    {
        if bit {
            self.0 = self.0 ^ 1u128;
        }
    }

    /// The share `self ^ rhs`.
    pub fn xor(self, rhs: Share) -> (r: Share)
        ensures
            r.0 == self.0 ^ rhs.0,
    {
        Share(self.0 ^ rhs.0)
    }

    /// The zero share.
    pub fn zero() -> (r: Share)
        ensures
            r.0 == 0,
    {
        Share(0)
    }
}

/// Truth table accessor used by the unary outer product.
pub trait Table {
    /// The table row (as a bitmask) for the given index.
    spec fn spec_row(&self, index: usize) -> usize;

    /// The table row (as a bitmask) for the given index.
    fn row(&self, index: usize) -> (r: usize)
        ensures
            r == self.spec_row(index),
    ;
}

/// Identity table `f(i) = i`.
#[derive(Clone, Copy, Debug)]
pub struct IdentityTable;

impl Table for IdentityTable {
    open spec fn spec_row(&self, index: usize) -> usize {
        index
    }

    fn row(&self, index: usize) -> (r: usize) {
        index
    }
}

/// The cryptographic state of a one-hot garbling party other than its
/// channel, key and random generator: role, global delta and nonce.
#[derive(Clone, Copy, Debug)]
pub struct OneHotState {
    pub role: Role,
    pub delta: u128,
    pub nonce: u64,
}

/// The four inputs the generator hashes for an AND gate: the first
/// input's share with and without delta (the one of colour 0 first), then
/// the same for the second input.
pub open spec fn and_keys_spec(a: u128, b: u128, delta: u128) -> [u128; 4] {
    let ac = lsb(a);
    let bc = lsb(b);
    [a ^ sel(ac, delta), a ^ sel(!ac, delta), b ^ sel(bc, delta), b ^ sel(!bc, delta)]
}

/// The generator's output share and the two rows it sends, given the
/// hashes `h` of `and_keys_spec` (the first two under the current nonce,
/// the last two under the next).
pub open spec fn and_garble_spec(a: u128, b: u128, delta: u128, h: [u128; 4]) -> (u128, u128, u128) {
    let ac = lsb(a);
    let bc = lsb(b);
    let x = h[0];
    let e_row = h[1] ^ x ^ b;
    let y = h[2] ^ sel(ac && bc, delta);
    let g_row = h[3] ^ y ^ sel(ac && !bc, delta);
    (x ^ y, e_row, g_row)
}

/// The evaluator's output share given the received rows and the hashes
/// `ha = H(a, nonce)`, `hb = H(b, nonce + 1)`.
pub open spec fn and_eval_spec(a: u128, b: u128, e_row: u128, g_row: u128, ha: u128, hb: u128) -> u128 {
    let x = ha ^ sel(lsb(a), e_row ^ b);
    let y = hb ^ sel(lsb(b), g_row);
    x ^ y
}

impl OneHotState {
    /// A generator whose delta is the sampled block with colour bit 1.
    pub fn new_generator(delta_sample: u128) -> (s: OneHotState)
        ensures
            s.role == Role::Generator,
            s.delta == delta_sample | 1u128,
            lsb(s.delta),
            s.nonce == 0,
    {
        assert((delta_sample | 1u128) & 1 == 1) by (bit_vector);
        OneHotState { role: Role::Generator, delta: delta_sample | 1u128, nonce: 0 }
    }

    /// An evaluator (whose delta is zero).
    pub fn new_evaluator() -> (s: OneHotState)
        ensures
            s.role == Role::Evaluator,
            s.delta == 0,
            s.nonce == 0,
    {
        OneHotState { role: Role::Evaluator, delta: 0, nonce: 0 }
    }

    /// The party role.
    pub fn role(&self) -> (r: Role)
        ensures
            r == self.role,
    {
        self.role
    }

    /// The global delta (only meaningful for the generator).
    pub fn delta(&self) -> (d: u128)
        ensures
            d == self.delta,
    {
        self.delta
    }

    /// The current nonce.
    pub fn nonce(&self) -> (n: u64)
        ensures
            n == self.nonce,
    {
        self.nonce
    }

    /// Set the nonce.
    pub fn set_nonce(&mut self, nonce: u64)
        ensures
            final(self).nonce == nonce,
            final(self).role == old(self).role,
            final(self).delta == old(self).delta,
    {
        self.nonce = nonce;
    }

    /// Advance the nonce (wrapping).
    pub fn bump_nonce(&mut self, by: u64)
        ensures
            final(self).nonce == (old(self).nonce + by) % 0x1_0000_0000_0000_0000,
            final(self).role == old(self).role,
            final(self).delta == old(self).delta,
    {
        self.nonce = self.nonce.wrapping_add(by);
    }

    /// Whether this party is the generator.
    pub fn is_generator(&self) -> (b: bool)
        ensures
            b == (self.role == Role::Generator),
    {
        self.role == Role::Generator
    }

    /// The constant share of `value`: delta for true, zero for false.
    pub fn bit(&self, value: bool) -> (s: Share)
        ensures
            s.0 == sel(value, self.delta),
    {
        if value { Share(self.delta) } else { Share(0) }
    }

    /// A share of a random bit: the generator's share of the sampled bit
    /// `b`, the evaluator's share of false.
    pub fn uniform_bit(&self, b: bool) -> (s: Share)
        ensures
            s.0 == if self.role == Role::Generator { sel(b, self.delta) } else { 0 },
    {
        if self.is_generator() { self.bit(b) } else { self.bit(false) }
    }

    /// Logical NOT: the generator XORs delta, the evaluator keeps its share.
    pub fn not(&self, s: Share) -> (r: Share)
        ensures
            r.0 == if self.role == Role::Generator { s.0 ^ self.delta } else { s.0 },
    {
        if self.is_generator() { Share(s.0 ^ self.delta) } else { s }
    }

    /// The generator's garbled input: the masked label `label ^ bit(value)`
    /// to send, given a fresh random `label`, which is its own share.
    pub fn ginput_mask(&self, label: Share, value: bool) -> (masked: Share)
        ensures
            masked.0 == label.0 ^ sel(value, self.delta),
    {
        Share(label.0 ^ self.bit(value).0)
    }

    /// The generator's reveal: the colour of `share` (to send), which is
    /// then cleared.
    pub fn reveal_generator(&self, share: &mut Share) -> (bit: bool)
        ensures
            bit == lsb(old(share).0),
            final(share).0 == old(share).0 & !1u128,
    {
        let bit = share.color();
        share.clear_color();
        bit
    }

    /// The evaluator's reveal: XOR the received colour into `share` and
    /// return the resulting colour.
    pub fn reveal_evaluator(&self, share: &mut Share, received: bool) -> (bit: bool)
        ensures
            final(share).0 == if received { old(share).0 ^ 1u128 } else { old(share).0 },
            bit == lsb(final(share).0),
    {
        share.xor_color(received);
        share.color()
    }

    /// The inputs the generator hashes for an AND gate.
    pub fn and_keys(&self, a: Share, b: Share) -> (k: [u128; 4])
        ensures
            k == and_keys_spec(a.0, b.0, self.delta),
    {
        let ac = a.color();
        let bc = b.color();
        let d = self.delta;
        let k = [
            a.0 ^ (if ac { d } else { 0 }),
            a.0 ^ (if ac { 0 } else { d }),
            b.0 ^ (if bc { d } else { 0 }),
            b.0 ^ (if bc { 0 } else { d }),
        ];
        assert(k =~= and_keys_spec(a.0, b.0, self.delta));
        k
    }

    /// The generator's half of an AND gate, given the hashes of
    /// `and_keys`: returns its output share and the two rows to send, and
    /// advances the nonce by two.
    pub fn and_gate_garble(&mut self, a: Share, b: Share, h: [u128; 4]) -> (r: (Share, u128, u128))
        ensures
            (r.0.0, r.1, r.2) == and_garble_spec(a.0, b.0, old(self).delta, h),
            final(self).nonce == (old(self).nonce + 2) % 0x1_0000_0000_0000_0000,
            final(self).role == old(self).role,
            final(self).delta == old(self).delta,
    {
        let ac = a.color();
        let bc = b.color();
        let d = self.delta;
        let x = h[0];
        let e_row = h[1] ^ x ^ b.0;
        let y = h[2] ^ (if ac && bc { d } else { 0 });
        let g_row = h[3] ^ y ^ (if ac && !bc { d } else { 0 });
        self.bump_nonce(1);
        self.bump_nonce(1);
        (Share(x ^ y), e_row, g_row)
    }

    /// The evaluator's half of an AND gate, given the received rows and
    /// the hashes of its shares under the current and next nonce; advances
    /// the nonce by two.
    pub fn and_gate_eval(&mut self, a: Share, b: Share, e_row: u128, g_row: u128, ha: u128, hb: u128) -> (r: Share)
        ensures
            r.0 == and_eval_spec(a.0, b.0, e_row, g_row, ha, hb),
            final(self).nonce == (old(self).nonce + 2) % 0x1_0000_0000_0000_0000,
            final(self).role == old(self).role,
            final(self).delta == old(self).delta,
    {
        let x = ha ^ (if a.color() { e_row ^ b.0 } else { 0 });
        let y = hb ^ (if b.color() { g_row } else { 0 });
        self.bump_nonce(1);
        self.bump_nonce(1);
        Share(x ^ y)
    }
}

/// The XOR algebra behind the one-hot AND gate, for each combination of
/// input bits and colours.
proof fn lemma_one_hot_alg(bg: u128, delta: u128, h0: u128, h1: u128, h2: u128, h3: u128, x: bool, y: bool, ac: bool, bc: bool)
    by (bit_vector)
    ensures
        ({
            let yv = h2 ^ sel(ac && bc, delta);
            let e_row = h1 ^ h0 ^ bg;
            let g_row = h3 ^ yv ^ sel(ac && !bc, delta);
            let be = bg ^ sel(y, delta);
            let xe = (if x == ac { h0 } else { h1 }) ^ sel(ac != x, e_row ^ be);
            let ye = (if y == bc { h2 } else { h3 }) ^ sel(bc != y, g_row);
            (h0 ^ yv) ^ (xe ^ ye) == sel(x && y, delta)
        }),
{
}

/// Correctness of the one-hot AND gate: if the evaluator's shares differ
/// from the generator's by `x * delta` and `y * delta` (delta of colour 1)
/// and both hash with the same `H` (`hash0` under this gate's nonce,
/// `hash1` under the next), the output shares differ by `(x && y) * delta`.
pub proof fn lemma_one_hot_and_correct(
    ag: u128,
    bg: u128,
    delta: u128,
    x: bool,
    y: bool,
    hash0: spec_fn(u128) -> u128,
    hash1: spec_fn(u128) -> u128,
)
    requires
        lsb(delta),
    ensures
        ({
            let k = and_keys_spec(ag, bg, delta);
            let h = [hash0(k[0]), hash0(k[1]), hash1(k[2]), hash1(k[3])];
            let (og, e_row, g_row) = and_garble_spec(ag, bg, delta, h);
            let ae = ag ^ sel(x, delta);
            let be = bg ^ sel(y, delta);
            let oe = and_eval_spec(ae, be, e_row, g_row, hash0(ae), hash1(be));
            og ^ oe == sel(x && y, delta)
        }),
{
    let k = and_keys_spec(ag, bg, delta);
    let ac = lsb(ag);
    let bc = lsb(bg);
    let ae = ag ^ sel(x, delta);
    let be = bg ^ sel(y, delta);
    lemma_xor_zero(ag);
        lemma_xor_zero(bg);
    lemma_lsb_flip(ag, delta, x);
    lemma_lsb_flip(bg, delta, y);
    assert(ae == if x == ac { k[0] } else { k[1] });
    assert(be == if y == bc { k[2] } else { k[3] });
    assert(lsb(ae) == (ac != x));
    assert(lsb(be) == (bc != y));
    lemma_one_hot_alg(bg, delta, hash0(k[0]), hash0(k[1]), hash1(k[2]), hash1(k[3]), x, y, ac, bc);
}

} // verus!
