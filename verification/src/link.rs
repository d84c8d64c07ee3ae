//! An in-memory link between the two one-hot parties.
//!
//! In one-hot garbling the generator only sends and the evaluator only
//! reads, so a party's traffic is what it has sent (blocks and bits) and
//! what it has received but not read yet.  Moving the sent lists over a
//! real channel is the caller's business.

use vstd::prelude::*;

verus! {

/// What a party has sent, and what it has received and not yet read,
/// oldest first.
pub struct LinkModel {
    pub sent: Seq<u128>,
    pub sent_bits: Seq<bool>,
    pub pending: Seq<u128>,
    pub pending_bits: Seq<bool>,
}

/// The empty link model.
pub open spec fn empty_link() -> LinkModel {
    LinkModel { sent: Seq::empty(), sent_bits: Seq::empty(), pending: Seq::empty(), pending_bits: Seq::empty() }
}

/// The link model after sending `b`.
pub open spec fn after_send(lk: LinkModel, b: u128) -> LinkModel {
    LinkModel { sent: lk.sent.push(b), ..lk }
}

/// The link model after sending the blocks `msgs`.
pub open spec fn after_send_all(lk: LinkModel, msgs: Seq<u128>) -> LinkModel {
    LinkModel { sent: lk.sent + msgs, ..lk }
}

/// The link model after sending the bits `bits`.
pub open spec fn after_send_bits(lk: LinkModel, bits: Seq<bool>) -> LinkModel {
    LinkModel { sent_bits: lk.sent_bits + bits, ..lk }
}

/// The link model after reading `k` blocks.
pub open spec fn after_read(lk: LinkModel, k: nat) -> LinkModel {
    LinkModel { pending: lk.pending.skip(k as int), ..lk }
}

/// The link model after reading `k` bits.
pub open spec fn after_read_bits(lk: LinkModel, k: nat) -> LinkModel {
    LinkModel { pending_bits: lk.pending_bits.skip(k as int), ..lk }
}

/// An in-memory link: the outgoing blocks and bits, and the incoming ones
/// with how many of each have been read.
pub struct Link {
    outgoing: Vec<u128>,
    outgoing_bits: Vec<bool>,
    incoming: Vec<u128>,
    read: usize,
    incoming_bits: Vec<bool>,
    read_bits: usize,
}

impl View for Link {
    type V = LinkModel;

    closed spec fn view(&self) -> LinkModel {
        LinkModel {
            sent: self.outgoing@,
            sent_bits: self.outgoing_bits@,
            pending: if self.read <= self.incoming@.len() {
                self.incoming@.skip(self.read as int)
            } else {
                Seq::empty()
            },
            pending_bits: if self.read_bits <= self.incoming_bits@.len() {
                self.incoming_bits@.skip(self.read_bits as int)
            } else {
                Seq::empty()
            },
        }
    }
}

impl Link {
    /// A link with nothing sent or received.
    pub fn new() -> (l: Link)
        ensures
            l@ == empty_link(),
    {
        let l = Link {
            outgoing: Vec::new(),
            outgoing_bits: Vec::new(),
            incoming: Vec::new(),
            read: 0,
            incoming_bits: Vec::new(),
            read_bits: 0,
        };
        assert(l@.pending =~= Seq::<u128>::empty());
        assert(l@.pending_bits =~= Seq::<bool>::empty());
        l
    }

    /// A link that has received `blocks` and `bits`.
    pub fn with_incoming(blocks: Vec<u128>, bits: Vec<bool>) -> (l: Link)
        ensures
            l@ == (LinkModel { sent: Seq::empty(), sent_bits: Seq::empty(), pending: blocks@, pending_bits: bits@ }),
    {
        let l = Link {
            outgoing: Vec::new(),
            outgoing_bits: Vec::new(),
            incoming: blocks,
            read: 0,
            incoming_bits: bits,
            read_bits: 0,
        };
        assert(l@.pending =~= l.incoming@);
        assert(l@.pending_bits =~= l.incoming_bits@);
        l
    }

    /// Send a block.
    pub fn send_block(&mut self, b: u128)
        ensures
            final(self)@ == after_send(old(self)@, b),
    {
        self.outgoing.push(b);
    }

    /// Send a list of blocks.
    pub fn send_blocks(&mut self, blocks: &[u128])
        ensures
            final(self)@ == after_send_all(old(self)@, blocks@),
    {
        let ghost before = self.outgoing@;
        let mut i: usize = 0;
        while i < blocks.len()
            invariant
                i <= blocks@.len(),
                self.outgoing@ == before + blocks@.take(i as int),
                self.outgoing_bits@ == old(self).outgoing_bits@,
                self.incoming@ == old(self).incoming@,
                self.read == old(self).read,
                self.incoming_bits@ == old(self).incoming_bits@,
                self.read_bits == old(self).read_bits,
            decreases blocks@.len() - i,
        {
            self.outgoing.push(blocks[i]);
            assert(blocks@.take(i + 1) =~= blocks@.take(i as int).push(blocks@[i as int]));
            i = i + 1;
        }
        assert(blocks@.take(blocks@.len() as int) =~= blocks@);
    }

    /// Read the next `n` blocks, or `None` when fewer are left.
    pub fn recv_blocks(&mut self, n: usize) -> (r: Option<Vec<u128>>)
        ensures
            match r {
                Some(v) => old(self)@.pending.len() >= n && v@ == old(self)@.pending.take(n as int)
                    && final(self)@ == after_read(old(self)@, n as nat),
                None => old(self)@.pending.len() < n && final(self)@ == old(self)@,
            },
    {
        if self.read > self.incoming.len() {
            self.read = self.incoming.len();
            assert(self.incoming@.skip(self.read as int) =~= Seq::<u128>::empty());
        }
        if n > self.incoming.len() - self.read {
            return None;
        }
        let start = self.read;
        let mut v: Vec<u128> = Vec::new();
        let mut i: usize = 0;
        while i < n
            invariant
                i <= n,
                start + n <= self.incoming@.len(),
                self.incoming@.len() <= usize::MAX,
                v@ =~= self.incoming@.subrange(start as int, start + i),
            decreases n - i,
        {
            v.push(self.incoming[start + i]);
            i = i + 1;
        }
        self.read = start + n;
        assert(v@ =~= old(self)@.pending.take(n as int));
        assert(self.incoming@.skip(self.read as int) =~= old(self)@.pending.skip(n as int));
        Some(v)
    }

    /// Send a list of bits.
    pub fn send_bits(&mut self, bits: &[bool])
        ensures
            final(self)@ == after_send_bits(old(self)@, bits@),
    {
        let ghost before = self.outgoing_bits@;
        let mut i: usize = 0;
        while i < bits.len()
            invariant
                i <= bits@.len(),
                self.outgoing_bits@ == before + bits@.take(i as int),
                self.outgoing@ == old(self).outgoing@,
                self.incoming@ == old(self).incoming@,
                self.read == old(self).read,
                self.incoming_bits@ == old(self).incoming_bits@,
                self.read_bits == old(self).read_bits,
            decreases bits@.len() - i,
        {
            self.outgoing_bits.push(bits[i]);
            assert(bits@.take(i + 1) =~= bits@.take(i as int).push(bits@[i as int]));
            i = i + 1;
        }
        assert(bits@.take(bits@.len() as int) =~= bits@);
    }

    /// Read the next block, or `None` when none is left.
    pub fn recv_block(&mut self) -> (r: Option<u128>)
        ensures
            match r {
                Some(b) => old(self)@.pending.len() > 0 && b == old(self)@.pending[0] && final(self)@ == after_read(
                    old(self)@,
                    1,
                ),
                None => old(self)@.pending.len() == 0 && final(self)@ == old(self)@,
            },
    {
        if self.read < self.incoming.len() {
            let b = self.incoming[self.read];
            self.read = self.read + 1;
            assert(self.incoming@.skip(self.read as int) =~= old(self)@.pending.skip(1));
            Some(b)
        } else {
            None
        }
    }

    /// Read the next `n` bits, or `None` when fewer are left.
    pub fn recv_bits(&mut self, n: usize) -> (r: Option<Vec<bool>>)
        ensures
            match r {
                Some(v) => old(self)@.pending_bits.len() >= n && v@ == old(self)@.pending_bits.take(n as int)
                    && final(self)@ == after_read_bits(old(self)@, n as nat),
                None => old(self)@.pending_bits.len() < n && final(self)@ == old(self)@,
            },
    {
        if self.read_bits > self.incoming_bits.len() {
            self.read_bits = self.incoming_bits.len();
            assert(self.incoming_bits@.skip(self.read_bits as int) =~= Seq::<bool>::empty());
        }
        if n > self.incoming_bits.len() - self.read_bits {
            return None;
        }
        let start = self.read_bits;
        let mut v: Vec<bool> = Vec::new();
        let mut i: usize = 0;
        while i < n
            invariant
                i <= n,
                start + n <= self.incoming_bits@.len(),
                self.incoming_bits@.len() <= usize::MAX,
                v@ =~= self.incoming_bits@.subrange(start as int, start + i),
            decreases n - i,
        {
            v.push(self.incoming_bits[start + i]);
            i = i + 1;
        }
        self.read_bits = start + n;
        assert(v@ =~= old(self)@.pending_bits.take(n as int));
        assert(self.incoming_bits@.skip(self.read_bits as int) =~= old(self)@.pending_bits.skip(n as int));
        Some(v)
    }

    /// The blocks sent so far.
    pub fn sent_blocks(&self) -> (v: &[u128])
        ensures
            v@ == self@.sent,
    {
        self.outgoing.as_slice()
    }

    /// The bits sent so far.
    pub fn sent_bit_list(&self) -> (v: &[bool])
        ensures
            v@ == self@.sent_bits,
    {
        self.outgoing_bits.as_slice()
    }
}

} // verus!
