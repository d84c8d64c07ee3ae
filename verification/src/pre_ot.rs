//! A buffer of precomputed oblivious transfers, consumed in windows.
//!
//! The receiver stores the hashes of its correlated blocks and their
//! colour bits (its choices); the sender stores the same hashes and the
//! hashes xored with delta.  A window of `length` transfers is then
//! one-time padded with the stored masks.

use vstd::prelude::*;
use crate::block_hash::{hash_block_idx_spec, Ccrh};
use crate::label::lsb;

verus! {

/// Precomputed OT buffer.
#[derive(Clone, Debug)]
pub struct PreOt {
    pre_data: Vec<u128>,
    bits: Vec<bool>,
    n: usize,
    length: usize,
    count: usize,
    hasher: Ccrh,
}

impl PreOt {
    /// Buffer sizes agree with the number of transfers.
    pub closed spec fn wf(&self) -> bool {
        &&& self.pre_data@.len() == 2 * self.n
        &&& self.bits@.len() == self.n
        &&& 2 * self.n <= usize::MAX
    }

    /// The stored masks: the first `total()` for choice 0, the next for choice 1.
    pub closed spec fn masks(&self) -> Seq<u128> {
        self.pre_data@
    }

    /// The stored choice bits.
    pub closed spec fn choice_bits(&self) -> Seq<bool> {
        self.bits@
    }

    /// Number of transfers held.
    pub closed spec fn total(&self) -> nat {
        self.n as nat
    }

    /// Transfers per window.
    pub closed spec fn window(&self) -> nat {
        self.length as nat
    }

    /// Transfers consumed so far.
    pub closed spec fn consumed(&self) -> nat {
        self.count as nat
    }

    /// An empty buffer for `times` windows of `length` transfers.
    pub fn new(length: usize, times: usize) -> (p: PreOt)
        requires
            2 * length * times <= usize::MAX,
        ensures
            p.wf(),
            p.choice_bits().len() == p.total(),
            p.masks().len() == 2 * p.total(),
            p.total() == length * times,
            p.window() == length,
            p.consumed() == 0,
            forall|i: int| 0 <= i < 2 * length * times ==> #[trigger] p.masks()[i] == 0,
            forall|i: int| 0 <= i < length * times ==> !#[trigger] p.choice_bits()[i],
    {
        proof {
            assert(length * times <= 2 * length * times && 2 * (length * times) == 2 * length * times)
                by (nonlinear_arith);
        }
        let n = length * times;
        PreOt { pre_data: vec![0u128; 2 * n], bits: vec![false; n], n, length, count: 0, hasher: Ccrh }
    }

    /// Start consuming from the first window again.
    pub fn reset(&mut self)
        ensures
            final(self).consumed() == 0,
            final(self).masks() == old(self).masks(),
            final(self).choice_bits() == old(self).choice_bits(),
            final(self).total() == old(self).total(),
            final(self).window() == old(self).window(),
            final(self).wf() == old(self).wf(),
            old(self).wf() ==> final(self).choice_bits().len() == final(self).total()
                && final(self).masks().len() == 2 * final(self).total(),
    {
        self.count = 0;
    }

    /// Receiver side: store the hashes of the correlated blocks and their
    /// colour bits as choices.
    pub fn recv_pre(&mut self, data: &[u128])
        requires
            old(self).wf(),
            data@.len() == old(self).total(),
        ensures
            final(self).wf(),
            final(self).choice_bits().len() == final(self).total(),
            final(self).masks().len() == 2 * final(self).total(),
            final(self).total() == old(self).total(),
            final(self).window() == old(self).window(),
            final(self).consumed() == old(self).consumed(),
            forall|i: int| 0 <= i < data@.len() ==> #[trigger] final(self).choice_bits()[i] == lsb(data@[i]),
            forall|i: int| 0 <= i < data@.len() ==> #[trigger] final(self).masks()[i]
                == hash_block_idx_spec(data@[i], i as u64),
            forall|i: int| data@.len() <= i < 2 * data@.len() ==> #[trigger] final(self).masks()[i]
                == old(self).masks()[i],
    {
        let hashed = self.hasher.hash_blocks(data);
        let mut i: usize = 0;
        while i < self.n
            invariant
                i <= self.n,
                self.wf(),
                self.n == old(self).n,
                self.length == old(self).length,
                self.count == old(self).count,
                data@.len() == self.n,
                hashed@.len() == self.n,
                forall|k: int| 0 <= k < self.n ==> #[trigger] hashed@[k] == hash_block_idx_spec(data@[k], k as u64),
                forall|k: int| 0 <= k < i ==> #[trigger] self.bits@[k] == lsb(data@[k]),
                forall|k: int| 0 <= k < i ==> #[trigger] self.pre_data@[k] == hashed@[k],
                forall|k: int| self.n <= k < 2 * self.n ==> #[trigger] self.pre_data@[k] == old(self).pre_data@[k],
            decreases self.n - i,
        {
            self.bits.set(i, (data[i] & 1) == 1);
            self.pre_data.set(i, hashed[i]);
            i = i + 1;
        }
    }

    /// Sender side: store the hashes of the correlated blocks, and the
    /// same xored with `delta`.
    pub fn send_pre(&mut self, data: &[u128], delta: u128)
        requires
            old(self).wf(),
            data@.len() == old(self).total(),
        ensures
            final(self).wf(),
            final(self).choice_bits().len() == final(self).total(),
            final(self).masks().len() == 2 * final(self).total(),
            final(self).total() == old(self).total(),
            final(self).window() == old(self).window(),
            final(self).consumed() == old(self).consumed(),
            final(self).choice_bits() == old(self).choice_bits(),
            forall|i: int| 0 <= i < data@.len() ==> #[trigger] final(self).masks()[i]
                == hash_block_idx_spec(data@[i], i as u64),
            forall|i: int| 0 <= i < data@.len() ==> #[trigger] final(self).masks()[data@.len() + i]
                == hash_block_idx_spec(data@[i], i as u64) ^ delta,
    {
        let hashed = self.hasher.hash_blocks(data);
        let n = self.n;
        let mut i: usize = 0;
        while i < n
            invariant
                i <= n,
                n == self.n,
                self.wf(),
                self.n == old(self).n,
                self.length == old(self).length,
                self.count == old(self).count,
                self.bits@ == old(self).bits@,
                data@.len() == n,
                hashed@.len() == n,
                forall|k: int| 0 <= k < n ==> #[trigger] hashed@[k] == hash_block_idx_spec(data@[k], k as u64),
                forall|k: int| 0 <= k < i ==> #[trigger] self.pre_data@[k] == hashed@[k],
                forall|k: int| 0 <= k < i ==> #[trigger] self.pre_data@[n + k] == hashed@[k] ^ delta,
            decreases n - i,
        {
            self.pre_data.set(i, hashed[i]);
            self.pre_data.set(n + i, hashed[i] ^ delta);
            i = i + 1;
        }
    }

    /// Sender side: consume one window.
    pub fn choices_sender(&mut self)
        requires
            old(self).consumed() + old(self).window() <= usize::MAX,
        ensures
            final(self).consumed() == old(self).consumed() + old(self).window(),
            final(self).masks() == old(self).masks(),
            final(self).choice_bits() == old(self).choice_bits(),
            final(self).total() == old(self).total(),
            final(self).window() == old(self).window(),
            final(self).wf() == old(self).wf(),
            old(self).wf() ==> final(self).choice_bits().len() == final(self).total()
                && final(self).masks().len() == 2 * final(self).total(),
    {
        self.count = self.count + self.length;
    }

    /// Receiver side: copy the next window of choice bits into `out` and
    /// consume it.
    pub fn choices_receiver(&mut self, out: &mut [bool])
        requires
            old(self).wf(),
            old(out)@.len() == old(self).window(),
            old(self).consumed() + old(self).window() <= old(self).total(),
        ensures
            final(self).consumed() == old(self).consumed() + old(self).window(),
            final(self).masks() == old(self).masks(),
            final(self).choice_bits() == old(self).choice_bits(),
            final(self).total() == old(self).total(),
            final(self).window() == old(self).window(),
            final(self).wf(),
            final(self).choice_bits().len() == final(self).total(),
            final(self).masks().len() == 2 * final(self).total(),
            final(out)@ == old(self).choice_bits().subrange(
                old(self).consumed() as int,
                (old(self).consumed() + old(self).window()) as int,
            ),
    {
        let mut i: usize = 0;
        while i < self.length
            invariant
                i <= self.length,
                self.wf(),
                self.count + self.length <= self.n,
                out@.len() == self.length,
                self.count == old(self).count,
                self.bits@ == old(self).bits@,
                self.length == old(self).length,
                forall|k: int| 0 <= k < i ==> #[trigger] out@[k] == self.bits@[self.count + k],
            decreases self.length - i,
        {
            out[i] = self.bits[self.count + i];
            i = i + 1;
        }
        assert(out@ =~= old(self).choice_bits().subrange(
            old(self).consumed() as int,
            (old(self).consumed() + old(self).window()) as int,
        ));
        self.count = self.count + self.length;
    }

    /// Sender side: pad window `window_idx` of message pairs with the
    /// stored masks.
    pub fn send_window(
        &self,
        m0: &[u128],
        m1: &[u128],
        out0: &mut [u128],
        out1: &mut [u128],
        window_idx: usize,
    )
        requires
            self.wf(),
            m0@.len() == self.window(),
            m1@.len() == self.window(),
            old(out0)@.len() == self.window(),
            old(out1)@.len() == self.window(),
            window_idx * self.window() + self.window() <= self.total(),
        ensures
            final(out0)@.len() == self.window(),
            final(out1)@.len() == self.window(),
            forall|i: int| 0 <= i < self.window() ==> #[trigger] final(out0)@[i]
                == m0@[i] ^ self.masks()[window_idx * self.window() + i],
            forall|i: int| 0 <= i < self.window() ==> #[trigger] final(out1)@[i]
                == m1@[i] ^ self.masks()[self.total() + window_idx * self.window() + i],
    {
        let start = window_idx * self.length;
        let mut i: usize = 0;
        while i < self.length
            invariant
                i <= self.length,
                self.wf(),
                start == window_idx * self.length,
                start + self.length <= self.n,
                m0@.len() == self.length,
                m1@.len() == self.length,
                out0@.len() == self.length,
                out1@.len() == self.length,
                forall|k: int| 0 <= k < i ==> #[trigger] out0@[k] == m0@[k] ^ self.pre_data@[start + k],
                forall|k: int| 0 <= k < i ==> #[trigger] out1@[k] == m1@[k] ^ self.pre_data@[self.n + start + k],
            decreases self.length - i,
        {
            let k = start + i;
            out0[i] = m0[i] ^ self.pre_data[k];
            out1[i] = m1[i] ^ self.pre_data[self.n + k];
            i = i + 1;
        }
    }

    /// Receiver side: unpad the chosen message of each pair in the window
    /// that was consumed last.
    pub fn recv_window(&self, pads0: &[u128], pads1: &[u128], choices: &[bool]) -> (out: Vec<u128>)
        requires
            self.wf(),
            pads0@.len() == self.window(),
            pads1@.len() == self.window(),
            choices@.len() == self.window(),
            self.window() <= self.consumed() <= self.total(),
        ensures
            out@.len() == self.window(),
            forall|i: int| 0 <= i < self.window() ==> #[trigger] out@[i]
                == self.masks()[self.consumed() - self.window() + i] ^ (if choices@[i] { pads1@[i] } else { pads0@[i] }),
    {
        let mut out: Vec<u128> = Vec::new();
        let start = self.count - self.length;
        let mut i: usize = 0;
        while i < self.length
            invariant
                i <= self.length,
                self.wf(),
                start == self.count - self.length,
                self.length <= self.count <= self.n,
                pads0@.len() == self.length,
                pads1@.len() == self.length,
                choices@.len() == self.length,
                out@.len() == i,
                forall|k: int| 0 <= k < i ==> #[trigger] out@[k]
                    == self.pre_data@[start + k] ^ (if choices@[k] { pads1@[k] } else { pads0@[k] }),
            decreases self.length - i,
        {
            let k = start + i;
            let mask = self.pre_data[k];
            let chosen = if choices[i] { pads1[i] } else { pads0[i] };
            out.push(mask ^ chosen);
            i = i + 1;
        }
        out
    }
}

} // verus!
