//! Party identifiers and input ownership between garbler and evaluator.

use vstd::prelude::*;

verus! {

/// The two garbled-circuit parties.
#[derive(Clone, Copy, Debug, PartialEq, Eq, Structural)]
pub enum Party {
    /// Garbler (ALICE).
    Garbler,
    /// Evaluator (BOB).
    Evaluator,
}

/// Describes contiguous input spans for each party.
#[derive(Clone, Copy, Debug)]
pub struct InputMap {
    /// Starting index for garbler inputs.
    pub garbler_offset: usize,
    /// Number of garbler inputs.
    pub garbler_len: usize,
    /// Starting index for evaluator inputs.
    pub evaluator_offset: usize,
    /// Number of evaluator inputs.
    pub evaluator_len: usize,
}

/// The indices `start .. start + len`.
pub open spec fn index_range(start: usize, len: usize) -> Seq<usize> {
    Seq::new(len as nat, |i: int| (start + i) as usize)
}

impl InputMap {
    /// Create a map where the garbler's inputs come first, then the evaluator's.
    pub fn new(garbler_len: usize, evaluator_len: usize) -> (m: InputMap)
        ensures
            m.garbler_offset == 0,
            m.garbler_len == garbler_len,
            m.evaluator_offset == garbler_len,
            m.evaluator_len == evaluator_len,
    {
        InputMap { garbler_offset: 0, garbler_len, evaluator_offset: garbler_len, evaluator_len }
    }

    /// The wire indices of a party's inputs.
    pub fn indices(&self, party: Party) -> (v: Vec<usize>)
        requires
            party == Party::Garbler ==> self.garbler_offset + self.garbler_len <= usize::MAX,
            party == Party::Evaluator ==> self.evaluator_offset + self.evaluator_len <= usize::MAX,
        ensures
            v@ == match party {
                Party::Garbler => index_range(self.garbler_offset, self.garbler_len),
                Party::Evaluator => index_range(self.evaluator_offset, self.evaluator_len),
            },
    {
        let (start, len) = match party {
            Party::Garbler => (self.garbler_offset, self.garbler_len),
            Party::Evaluator => (self.evaluator_offset, self.evaluator_len),
        };
        let mut v: Vec<usize> = Vec::new();
        let mut i: usize = 0;
        while i < len
            invariant
                i <= len,
                start + len <= usize::MAX,
                v@ == index_range(start, i),
            decreases len - i,
        {
            v.push(start + i);
            i = i + 1;
            assert(v@ =~= index_range(start, i));
        }
        v
    }
}

} // verus!
