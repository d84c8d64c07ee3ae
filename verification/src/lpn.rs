//! The learning-parity-with-noise map of Ferret: `y = A * x (+ e)` over
//! GF(2) with a sparse matrix `A` given implicitly by a keyed permutation
//! of blocks (row and counter in, column index out).

use vstd::prelude::*;
use crate::feistel::{function_of, is_function, join, lo};
use crate::ferret_params::PrimalLpnParameter;

verus! {

/// Row `row` of `A * x` from its first `d` column picks: the XOR of
/// `x[pi(row, c) mod k]` for `c < d`, where `pi` is the permutation.
pub open spec fn row_value(pf: spec_fn(u128) -> u128, row: u64, k: nat, x: Seq<u128>, d: nat) -> u128
    decreases d,
{
    if d == 0 {
        0
    } else {
        row_value(pf, row, k, x, (d - 1) as nat) ^ x[((pf(join(row, (d - 1) as u64)) as usize) as int) % (k as int)]
    }
}

/// The noise sample of a row: the low word of the permutation of the row
/// with counter `offset`.
pub open spec fn noise_sample(pf: spec_fn(u128) -> u128, row: u64, offset: u64) -> u64 {
    lo(pf(join(row, offset)))
}

/// Evaluate row `row` of `A * x` (see `row_value`).
pub fn eval_row<A: Fn(u128) -> u128>(aes: &A, row: u64, k: usize, d: usize, x: &[u128]) -> (acc: u128)
    requires
        is_function(*aes),
        k > 0,
        x@.len() == k,
        d <= u64::MAX,
    ensures
        acc == row_value(function_of(*aes), row, k as nat, x@, d as nat),
{
    let ghost pf = function_of(*aes);
    let mut acc: u128 = 0;
    let mut ctr: usize = 0;
    while ctr < d
        invariant
            is_function(*aes),
            pf == function_of(*aes),
            k > 0,
            x@.len() == k,
            d <= u64::MAX,
            ctr <= d,
            acc == row_value(pf, row, k as nat, x@, ctr as nat),
        decreases d - ctr,
    {
        let input = ((ctr as u64 as u128) << 64u128) | (row as u128);
        proof {
            let c = ctr as u64;
            assert(((c as u128) << 64u128) | (row as u128) == join(row, c)) by (bit_vector);
        }
        let prp = aes(input);
        proof {
            let z = choose|z: u128| aes.ensures((input,), z);
            assert(aes.ensures((input,), z));
        }
        let idx = (prp as usize) % k;
        acc = acc ^ x[idx];
        ctr = ctr + 1;
    }
    acc
}

/// The noise sample of row `row` (see `noise_sample`).
pub fn sample_noise_bit<A: Fn(u128) -> u128>(aes: &A, row: u64, offset: u64) -> (w: u64)
    requires
        is_function(*aes),
    ensures
        w == noise_sample(function_of(*aes), row, offset),
{
    let input = ((offset as u128) << 64u128) | (row as u128);
    proof {
        assert(((offset as u128) << 64u128) | (row as u128) == join(row, offset)) by (bit_vector);
    }
    let prp = aes(input);
    proof {
        let z = choose|z: u128| aes.ensures((input,), z);
        assert(aes.ensures((input,), z));
    }
    (prp & 0xffff_ffff_ffff_ffffu128) as u64
}

/// The dimensions and key of an LPN map: `n` outputs, `k` inputs, `d`
/// column picks per row.
#[derive(Clone, Copy, Debug)]
pub struct Lpn {
    pub n: usize,
    pub k: usize,
    pub d: usize,
    pub seed: u128,
}

impl Lpn {
    /// An LPN map; the density `d` and the input length `k` are positive.
    pub fn new(n: usize, k: usize, d: usize, seed: u128) -> (l: Lpn)
        requires
            d > 0,
            k > 0,
        ensures
            l == (Lpn { n, k, d, seed }),
    {
        Lpn { n, k, d, seed }
    }

    /// An LPN map of the dimensions of `params` with density `d`.
    pub fn from_params(params: PrimalLpnParameter, d: usize, seed: u128) -> (l: Lpn)
        requires
            d > 0,
            params.k > 0,
            params.n <= usize::MAX,
            params.k <= usize::MAX,
        ensures
            l == (Lpn { n: params.n as usize, k: params.k as usize, d, seed }),
    {
        Lpn::new(params.n as usize, params.k as usize, d, seed)
    }

    /// `y = A * x`, where `aes` is the permutation keyed by `seed`.
    pub fn apply<A: Fn(u128) -> u128>(&self, aes: &A, x: &[u128]) -> (y: Vec<u128>)
        requires
            is_function(*aes),
            self.k > 0,
            x@.len() == self.k,
            self.n <= u64::MAX,
            self.d <= u64::MAX,
        ensures
            y@.len() == self.n,
            forall|r: int| 0 <= r < self.n ==> #[trigger] y@[r] == row_value(
                function_of(*aes),
                r as u64,
                self.k as nat,
                x@,
                self.d as nat,
            ),
    {
        let mut y: Vec<u128> = Vec::new();
        let mut row: usize = 0;
        while row < self.n
            invariant
                is_function(*aes),
                self.k > 0,
                x@.len() == self.k,
                self.n <= u64::MAX,
                self.d <= u64::MAX,
                row <= self.n,
                y@.len() == row,
                forall|r: int| 0 <= r < row ==> #[trigger] y@[r] == row_value(
                    function_of(*aes),
                    r as u64,
                    self.k as nat,
                    x@,
                    self.d as nat,
                ),
            decreases self.n - row,
        {
            y.push(eval_row(aes, row as u64, self.k, self.d, x));
            row = row + 1;
        }
        y
    }

    /// `y = A * x + e`: row `r` gets its colour bit flipped when its noise
    /// sample is at most `threshold` (the noise probability scaled to the
    /// 64-bit range).
    pub fn apply_with_threshold<A: Fn(u128) -> u128>(&self, aes: &A, x: &[u128], threshold: u64) -> (y: Vec<u128>)
        requires
            is_function(*aes),
            self.k > 0,
            x@.len() == self.k,
            self.n <= u64::MAX,
            self.d <= u64::MAX,
        ensures
            y@.len() == self.n,
            forall|r: int| 0 <= r < self.n ==> #[trigger] y@[r] == row_value(
                function_of(*aes),
                r as u64,
                self.k as nat,
                x@,
                self.d as nat,
            ) ^ (if noise_sample(function_of(*aes), r as u64, self.d as u64) <= threshold {
                1u128
            } else {
                0u128
            }),
    {
        let mut y: Vec<u128> = Vec::new();
        let mut row: usize = 0;
        while row < self.n
            invariant
                is_function(*aes),
                self.k > 0,
                x@.len() == self.k,
                self.n <= u64::MAX,
                self.d <= u64::MAX,
                row <= self.n,
                y@.len() == row,
                forall|r: int| 0 <= r < row ==> #[trigger] y@[r] == row_value(
                    function_of(*aes),
                    r as u64,
                    self.k as nat,
                    x@,
                    self.d as nat,
                ) ^ (if noise_sample(function_of(*aes), r as u64, self.d as u64) <= threshold {
                    1u128
                } else {
                    0u128
                }),
            decreases self.n - row,
        {
            let v = eval_row(aes, row as u64, self.k, self.d, x);
            let noise = sample_noise_bit(aes, row as u64, self.d as u64);
            let flip: u128 = if noise <= threshold { 1 } else { 0 };
            y.push(v ^ flip);
            row = row + 1;
        }
        y
    }
}

} // verus!
