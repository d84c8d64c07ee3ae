//! The one-hot garbling context: a party's state together with its link
//! to the other party, and the gates that send or read messages.
//!
//! The keyed hash `H(label, tweak)` is passed to the gates as a function;
//! the random choices (delta, input labels, random bits) are passed in as
//! values.  A gate of the evaluator fails (`None`) exactly when the
//! messages it has to read have not been received.

use vstd::prelude::*;
use crate::label::{lsb, sel};
use crate::link::{Link, LinkModel, after_read, after_read_bits, after_send, after_send_bits, empty_link};
use crate::matrix::{cm_index, lemma_cm_index_split};
use crate::share::{and_eval_spec, and_garble_spec, and_keys_spec, OneHotState, Role, Share};
use crate::share_matrix::ShareMatrix;
use crate::unary::{hash_call, hash_of, is_hash, nonce_after};
use vstd::arithmetic::div_mod::lemma_add_mod_noop_right;

verus! {

/// A party as the contracts see it: its state and its link.
pub struct Party {
    pub state: OneHotState,
    pub link: LinkModel,
}

/// A one-hot party: its role, delta and nonce, and its link.
pub struct OneHotContext {
    pub state: OneHotState,
    pub link: Link,
}

impl View for OneHotContext {
    type V = Party;

    open spec fn view(&self) -> Party {
        Party { state: self.state, link: self.link@ }
    }
}

/// The state with its nonce advanced by `k` (wrapping).
pub open spec fn advanced(st: OneHotState, k: nat) -> OneHotState {
    OneHotState { nonce: nonce_after(st.nonce, k), ..st }
}

/// Advancing by `a` then by `b` is advancing by `a + b`.
pub proof fn lemma_advanced_twice(st: OneHotState, a: nat, b: nat)
    ensures
        advanced(advanced(st, a), b) == advanced(st, a + b),
{
    let m = 0x1_0000_0000_0000_0000int;
    lemma_add_mod_noop_right(b as int, st.nonce + a, m);
    assert(nonce_after(nonce_after(st.nonce, a), b) == nonce_after(st.nonce, a + b));
}

/// Advancing by zero changes nothing.
pub proof fn lemma_advanced_zero(st: OneHotState)
    ensures
        advanced(st, 0) == st,
{
    assert(nonce_after(st.nonce, 0) == st.nonce);
}

/// Whether the party is the generator.
pub open spec fn is_gen(p: Party) -> bool {
    p.state.role == Role::Generator
}

/// Logical NOT of a share: the generator XORs delta, the evaluator keeps
/// its share.
pub open spec fn not_share(p: Party, s: u128) -> u128 {
    if is_gen(p) { s ^ p.state.delta } else { s }
}

/// Equality of two shared bits: NOT of their XOR.
pub open spec fn eq_share(p: Party, a: u128, b: u128) -> u128 {
    not_share(p, a ^ b)
}

/// The AND gate of shares `a` and `b`: the generator sends two rows
/// computed from the hashes of its keys under the current and the next
/// nonce; the evaluator reads them.  Both advance the nonce by two.
pub open spec fn and_step(p: Party, hf: spec_fn(u128, u64) -> u128, a: u128, b: u128) -> Option<(Party, u128)> {
    let n0 = p.state.nonce;
    let n1 = nonce_after(n0, 1);
    let st = advanced(p.state, 2);
    if is_gen(p) {
        let k = and_keys_spec(a, b, p.state.delta);
        let g = and_garble_spec(a, b, p.state.delta, [hf(k[0], n0), hf(k[1], n0), hf(k[2], n1), hf(k[3], n1)]);
        Some((Party { state: st, link: after_send(after_send(p.link, g.1), g.2) }, g.0))
    } else if p.link.pending.len() >= 2 {
        let e_row = p.link.pending[0];
        let g_row = p.link.pending[1];
        Some((Party { state: st, link: after_read(p.link, 2) }, and_eval_spec(a, b, e_row, g_row, hf(a, n0), hf(b, n1))))
    } else {
        None
    }
}

/// OR of two shares: NOT of the AND of their NOTs.
pub open spec fn or_step(p: Party, hf: spec_fn(u128, u64) -> u128, a: u128, b: u128) -> Option<(Party, u128)> {
    match and_step(p, hf, not_share(p, a), not_share(p, b)) {
        Some((q, t)) => Some((q, not_share(q, t))),
        None => None,
    }
}

/// A garbled input: the generator sends `label ^ value * delta` and keeps
/// `label`; the evaluator reads its share.
pub open spec fn ginput_step(p: Party, label: u128, value: bool) -> Option<(Party, u128)> {
    if is_gen(p) {
        Some((Party { state: p.state, link: after_send(p.link, label ^ sel(value, p.state.delta)) }, label))
    } else if p.link.pending.len() >= 1 {
        Some((Party { state: p.state, link: after_read(p.link, 1) }, p.link.pending[0]))
    } else {
        None
    }
}

/// Revealing the shares `v` in order: the generator sends their colours
/// and clears them; the evaluator reads one bit per share and XORs it into
/// the colour.
pub open spec fn reveal_step(p: Party, v: Seq<u128>) -> Option<(Party, Seq<u128>)> {
    if is_gen(p) {
        Some((
            Party { state: p.state, link: after_send_bits(p.link, v.map_values(|x: u128| lsb(x))) },
            v.map_values(|x: u128| x & !1u128),
        ))
    } else if p.link.pending_bits.len() >= v.len() {
        Some((
            Party { state: p.state, link: after_read_bits(p.link, v.len()) },
            Seq::new(v.len(), |i: int| if p.link.pending_bits[i] { v[i] ^ 1u128 } else { v[i] }),
        ))
    } else {
        None
    }
}

/// The entries of a matrix in column-major order.
pub open spec fn cm_entries(m: ShareMatrix) -> Seq<u128> {
    Seq::new(m.nrows() * m.ncols(), |k: int| m.entry(k % m.nrows() as int, k / m.nrows() as int))
}

impl OneHotContext {
    /// A generator whose delta is the sampled block with colour bit 1.
    pub fn new_generator(delta_sample: u128) -> (c: OneHotContext)
        ensures
            c@.state.role == Role::Generator,
            c@.state.delta == delta_sample | 1u128,
            lsb(c@.state.delta),
            c@.state.nonce == 0,
            c@.link == empty_link(),
    {
        OneHotContext { state: OneHotState::new_generator(delta_sample), link: Link::new() }
    }

    /// An evaluator that has received the generator's `blocks` and `bits`.
    pub fn new_evaluator(blocks: Vec<u128>, bits: Vec<bool>) -> (c: OneHotContext)
        ensures
            c@.state.role == Role::Evaluator,
            c@.state.delta == 0,
            c@.state.nonce == 0,
            c@.link == (LinkModel { sent: Seq::empty(), sent_bits: Seq::empty(), pending: blocks@, pending_bits: bits@ }),
    {
        OneHotContext { state: OneHotState::new_evaluator(), link: Link::with_incoming(blocks, bits) }
    }

    /// The party role.
    pub fn role(&self) -> (r: Role)
        ensures
            r == self.state.role,
    {
        self.state.role
    }

    /// The global delta (zero for the evaluator).
    pub fn delta(&self) -> (d: u128)
        ensures
            d == self.state.delta,
    {
        self.state.delta
    }

    /// The constant share of `value`.
    pub fn bit(&self, value: bool) -> (s: Share)
        ensures
            s.0 == sel(value, self.state.delta),
    {
        self.state.bit(value)
    }

    /// A share of a random bit, `b` being the generator's sample.
    pub fn uniform_bit(&self, b: bool) -> (s: Share)
        ensures
            s.0 == if self.state.role == Role::Generator { sel(b, self.state.delta) } else { 0 },
    {
        self.state.uniform_bit(b)
    }

    /// Logical NOT of a share.
    pub fn not(&self, s: Share) -> (r: Share)
        ensures
            r.0 == not_share(self@, s.0),
    {
        self.state.not(s)
    }

    /// A garbled input bit: the generator (with the fresh random `label`)
    /// sends the label of `value` and returns `label`; the evaluator
    /// returns the label it reads.
    pub fn ginput(&mut self, label: Share, value: bool) -> (r: Option<Share>)
        ensures
            match r {
                Some(s) => ginput_step(old(self)@, label.0, value) == Some((final(self)@, s.0)),
                None => ginput_step(old(self)@, label.0, value) is None,
            },
    {
        if self.state.is_generator() {
            let masked = self.state.ginput_mask(label, value);
            self.link.send_block(masked.0);
            Some(label)
        } else {
            match self.link.recv_block() {
                Some(b) => Some(Share(b)),
                None => None,
            }
        }
    }

    /// Reveal the colour of `share`: returns the opened bit.
    pub fn reveal_bit(&mut self, share: &mut Share) -> (r: Option<bool>)
        ensures
            match r {
                Some(bit) => {
                    &&& reveal_step(old(self)@, seq![old(share).0]) == Some((final(self)@, seq![final(share).0]))
                    &&& bit == if is_gen(old(self)@) { lsb(old(share).0) } else { lsb(final(share).0) }
                },
                None => reveal_step(old(self)@, seq![old(share).0]) is None,
            },
    {
        let ghost v = seq![share.0];
        if self.state.is_generator() {
            let bit = self.state.reveal_generator(share);
            let out = vec![bit];
            self.link.send_bits(out.as_slice());
            proof {
                assert(out@ =~= v.map_values(|x: u128| lsb(x)));
                assert(seq![share.0] =~= v.map_values(|x: u128| x & !1u128));
            }
            Some(bit)
        } else {
            match self.link.recv_bits(1) {
                Some(bits) => {
                    let bit = self.state.reveal_evaluator(share, bits[0]);
                    proof {
                        assert(seq![share.0] =~= Seq::new(1, |i: int| if old(self)@.link.pending_bits[i] { v[i] ^ 1u128 } else { v[i] }));
                    }
                    Some(bit)
                },
                None => None,
            }
        }
    }

    /// The AND gate (see `and_step`).
    pub fn and_gate<F: Fn(u128, u64) -> u128>(&mut self, h: &F, a: Share, b: Share) -> (r: Option<Share>)
        requires
            is_hash(*h),
        ensures
            match r {
                Some(s) => and_step(old(self)@, hash_of(*h), a.0, b.0) == Some((final(self)@, s.0)),
                None => and_step(old(self)@, hash_of(*h), a.0, b.0) is None,
            },
    {
        let n0 = self.state.nonce;
        let n1 = n0.wrapping_add(1);
        if self.state.is_generator() {
            let k = self.state.and_keys(a, b);
            let hs = [hash_call(h, k[0], n0), hash_call(h, k[1], n0), hash_call(h, k[2], n1), hash_call(h, k[3], n1)];
            let (o, e_row, g_row) = self.state.and_gate_garble(a, b, hs);
            self.link.send_block(e_row);
            self.link.send_block(g_row);
            proof {
                let hf = hash_of(*h);
                let kk = and_keys_spec(a.0, b.0, old(self)@.state.delta);
                assert(hs == [hf(kk[0], n0), hf(kk[1], n0), hf(kk[2], nonce_after(n0, 1)), hf(kk[3], nonce_after(n0, 1))]);
            }
            Some(o)
        } else {
            let e_row = match self.link.recv_block() {
                Some(v) => v,
                None => {
                    return None;
                },
            };
            let g_row = match self.link.recv_block() {
                Some(v) => v,
                None => {
                    return None;
                },
            };
            let ha = hash_call(h, a.0, n0);
            let hb = hash_call(h, b.0, n1);
            let o = self.state.and_gate_eval(a, b, e_row, g_row, ha, hb);
            proof {
                assert(self.link@.pending =~= old(self)@.link.pending.skip(2));
            }
            Some(o)
        }
    }
}

impl ShareMatrix {
    /// Reveal every share of the matrix, in column-major order (see
    /// `reveal_step`).
    pub fn reveal_all(&mut self, ctx: &mut OneHotContext) -> (ok: bool)
        requires
            old(self).wf(),
        ensures
            final(self).wf(),
            final(self).nrows() == old(self).nrows(),
            final(self).ncols() == old(self).ncols(),
            ok == reveal_step(old(ctx)@, cm_entries(*old(self))) is Some,
            ok ==> reveal_step(old(ctx)@, cm_entries(*old(self))) == Some((final(ctx)@, cm_entries(*final(self)))),
    {
        proof {
            self.lemma_size();
        }
        let n = self.rows() * self.cols();
        let ghost rows = self.nrows();
        let ghost before = cm_entries(*self);
        if ctx.state.is_generator() {
            let bits = self.reveal_generator();
            ctx.link.send_bits(bits.as_slice());
            proof {
                assert forall|k: int| 0 <= k < n implies #[trigger] bits@[k] == lsb(before[k]) by {
                    lemma_cm_index_split(rows, old(self).ncols(), k as nat);
                }
                assert(bits@ =~= before.map_values(|x: u128| lsb(x)));
                assert forall|k: int| 0 <= k < n implies #[trigger] cm_entries(*self)[k] == before[k] & !1u128 by {
                    lemma_cm_index_split(rows, old(self).ncols(), k as nat);
                }
                assert(cm_entries(*self) =~= before.map_values(|x: u128| x & !1u128));
            }
            true
        } else {
            match ctx.link.recv_bits(n) {
                Some(bits) => {
                    self.reveal_evaluator(bits.as_slice());
                    proof {
                        assert forall|k: int| 0 <= k < n implies #[trigger] cm_entries(*self)[k]
                            == if old(ctx)@.link.pending_bits[k] { before[k] ^ 1u128 } else { before[k] } by {
                            lemma_cm_index_split(rows, old(self).ncols(), k as nat);
                        }
                        assert(cm_entries(*self) =~= Seq::new(
                            before.len(),
                            |i: int| if old(ctx)@.link.pending_bits[i] { before[i] ^ 1u128 } else { before[i] },
                        ));
                    }
                    true
                },
                None => false,
            }
        }
    }
}

} // verus!
