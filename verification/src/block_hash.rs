//! 128-bit blocks as bytes, and the SHA-256 based key derivations of the
//! oblivious-transfer protocols.
//!
//! A block is a `u128`; its byte form is little-endian.  Every derivation
//! hashes a byte string with SHA-256 and keeps the first sixteen bytes of
//! the digest as a block.

use vstd::prelude::*;
use sha2::Digest;

verus! {

/// The SHA-256 digest of `data`.
pub uninterp spec fn sha256_digest(data: Seq<u8>) -> Seq<u8>;

/// `sha2::Sha256::digest`: the SHA-256 digest of `data`.  Trusted to
/// return the 32-byte digest, a function of `data` alone.
#[verifier::external_body]
pub(crate) fn sha256(data: &[u8]) -> (d: Vec<u8>)
    ensures
        d@ == sha256_digest(data@),
        d@.len() == 32,
{
    sha2::Sha256::digest(data).to_vec()
}

/// Byte `i` (little-endian) of `x`.
pub open spec fn byte_of(x: u128, i: nat) -> u8 {
    ((x >> (8 * i) as u128) & 0xffu128) as u8
}

/// The `n` low bytes of `x`, least significant first.
pub open spec fn le_bytes(x: u128, n: nat) -> Seq<u8> {
    Seq::new(n, |i: int| byte_of(x, i as nat))
}

/// The block whose little-endian bytes are the first `n` entries of `s`
/// (at most sixteen are used).
pub open spec fn block_value(s: Seq<u8>, n: nat) -> u128
    decreases n,
{
    if n == 0 {
        0
    } else {
        let i = (n - 1) as nat;
        block_value(s, i) | (if i < 16 { ((s[i as int] as u128) << (8 * i) as u128) } else { 0 })
    }
}

/// The block made of the first sixteen bytes of `s`.
pub open spec fn block_of(s: Seq<u8>) -> u128 {
    block_value(s, 16)
}

/// The little-endian bytes of the low `n` bytes of `x`.
fn push_le_bytes(out: &mut Vec<u8>, x: u128, n: usize)
    requires
        n <= 16,
    ensures
        final(out)@ == old(out)@ + le_bytes(x, n as nat),
{
    let ghost start = old(out)@;
    let mut i: usize = 0;
    while i < n
        invariant
            i <= n,
            n <= 16,
            out@ == start + le_bytes(x, i as nat),
        decreases n - i,
    {
        let b = ((x >> ((8 * i) as u128)) & 0xffu128) as u8;
        out.push(b);
        assert(out@ =~= start + le_bytes(x, (i + 1) as nat));
        i = i + 1;
    }
}

/// The block made of the first sixteen bytes of `s`.
fn read_block(s: &[u8]) -> (b: u128)
    requires
        s@.len() >= 16,
    ensures
        b == block_of(s@),
{
    let mut acc: u128 = 0;
    let mut i: usize = 0;
    while i < 16
        invariant
            i <= 16,
            s@.len() >= 16,
            acc == block_value(s@, i as nat),
        decreases 16 - i,
    {
        acc = acc | ((s[i] as u128) << ((8 * i) as u128));
        i = i + 1;
    }
    acc
}

/// The little-endian bytes of a block.
pub fn block_to_bytes(b: u128) -> (v: Vec<u8>)
    ensures
        v@ == le_bytes(b, 16),
{
    let mut v: Vec<u8> = Vec::new();
    push_le_bytes(&mut v, b, 16);
    assert(v@ =~= le_bytes(b, 16));
    v
}

/// The block whose little-endian bytes are `s`.
pub fn block_from_bytes(s: &[u8]) -> (b: u128)
    requires
        s@.len() == 16,
    ensures
        b == block_of(s@),
{
    read_block(s)
}

/// The derivation `H(b || idx)` keyed by a block and a 64-bit index.
pub open spec fn hash_block_idx_spec(b: u128, idx: u64) -> u128 {
    block_of(sha256_digest(le_bytes(b, 16) + le_bytes(idx as u128, 8)))
}

/// The derivation `H(b)` of a block alone.
pub open spec fn hash_block_spec(b: u128) -> u128 {
    block_of(sha256_digest(le_bytes(b, 16)))
}

/// The derivation `H(p)` of a 32-byte compressed group element.
pub open spec fn hash_point_spec(p: Seq<u8>) -> u128 {
    block_of(sha256_digest(p))
}

/// The derivation `H(p || idx)` of a compressed group element and an index.
pub open spec fn hash_point_idx_spec(p: Seq<u8>, idx: u64) -> u128 {
    block_of(sha256_digest(p + le_bytes(idx as u128, 8)))
}

/// Hash a block together with its position: the first sixteen bytes of
/// SHA-256 over the block's bytes followed by the index's eight bytes.
pub fn hash_block_with_idx(b: u128, idx: u64) -> (h: u128)
    ensures
        h == hash_block_idx_spec(b, idx),
{
    let mut data: Vec<u8> = Vec::new();
    push_le_bytes(&mut data, b, 16);
    push_le_bytes(&mut data, idx as u128, 8);
    assert(data@ =~= le_bytes(b, 16) + le_bytes(idx as u128, 8));
    let d = sha256(data.as_slice());
    read_block(d.as_slice())
}

/// Hash a block alone: the first sixteen bytes of SHA-256 over its bytes.
pub fn kdf_block(b: u128) -> (h: u128)
    ensures
        h == hash_block_spec(b),
{
    let mut data: Vec<u8> = Vec::new();
    push_le_bytes(&mut data, b, 16);
    assert(data@ =~= le_bytes(b, 16));
    let d = sha256(data.as_slice());
    read_block(d.as_slice())
}

/// Hash a compressed group element into a block.
pub fn kdf_point(p: &[u8]) -> (h: u128)
    ensures
        h == hash_point_spec(p@),
{
    let d = sha256(p);
    read_block(d.as_slice())
}

/// Hash a compressed group element and an index into a block.
pub fn kdf_point_indexed(p: &[u8], idx: u64) -> (h: u128)
    ensures
        h == hash_point_idx_spec(p@, idx),
{
    let mut data: Vec<u8> = Vec::new();
    let mut i: usize = 0;
    while i < p.len()
        invariant
            i <= p@.len(),
            data@ == p@.subrange(0, i as int),
        decreases p.len() - i,
    {
        data.push(p[i]);
        assert(data@ =~= p@.subrange(0, (i + 1) as int));
        i = i + 1;
    }
    assert(data@ =~= p@);
    push_le_bytes(&mut data, idx as u128, 8);
    let d = sha256(data.as_slice());
    read_block(d.as_slice())
}

/// A minimal correlation-robust hash over blocks: each block is hashed
/// with its position.
#[derive(Clone, Copy, Debug, Default)]
pub struct Ccrh;

impl Ccrh {
    /// Hash each block with its index.
    pub fn hash_blocks(&self, inputs: &[u128]) -> (out: Vec<u128>)
        ensures
            out@.len() == inputs@.len(),
            forall|i: int| 0 <= i < inputs@.len() ==> #[trigger] out@[i] == hash_block_idx_spec(inputs@[i], i as u64),
    {
        let mut out: Vec<u128> = Vec::new();
        let mut i: usize = 0;
        while i < inputs.len()
            invariant
                i <= inputs@.len(),
                out@.len() == i,
                forall|k: int| 0 <= k < i ==> #[trigger] out@[k] == hash_block_idx_spec(inputs@[k], k as u64),
            decreases inputs.len() - i,
        {
            out.push(hash_block_with_idx(inputs[i], i as u64));
            i = i + 1;
        }
        out
    }
}

/// Two blocks as 32 bytes, the first block first.
pub fn encode_block_pair(m0: u128, m1: u128) -> (buf: Vec<u8>)
    ensures
        buf@ == le_bytes(m0, 16) + le_bytes(m1, 16),
{
    let mut buf: Vec<u8> = Vec::new();
    push_le_bytes(&mut buf, m0, 16);
    push_le_bytes(&mut buf, m1, 16);
    assert(buf@ =~= le_bytes(m0, 16) + le_bytes(m1, 16));
    buf
}

/// The two blocks held in 32 bytes.
pub fn decode_block_pair(buf: &[u8]) -> (r: (u128, u128))
    requires
        buf@.len() == 32,
    ensures
        r.0 == block_of(buf@.subrange(0, 16)),
        r.1 == block_of(buf@.subrange(16, 32)),
{
    let left = block_from_bytes(slice_range(buf, 0, 16).as_slice());
    let right = block_from_bytes(slice_range(buf, 16, 32).as_slice());
    (left, right)
}

/// The bytes `s[lo..hi]` as a vector.
fn slice_range(s: &[u8], lo: usize, hi: usize) -> (v: Vec<u8>)
    requires
        lo <= hi <= s@.len(),
    ensures
        v@ == s@.subrange(lo as int, hi as int),
{
    let mut v: Vec<u8> = Vec::new();
    let mut i: usize = lo;
    while i < hi
        invariant
            lo <= i <= hi,
            hi <= s@.len(),
            v@ == s@.subrange(lo as int, i as int),
        decreases hi - i,
    {
        v.push(s[i]);
        assert(v@ =~= s@.subrange(lo as int, (i + 1) as int));
        i = i + 1;
    }
    v
}

proof fn lemma_le_bytes_bits(x: u128)
    by (bit_vector)
    ensures
        x == ((((((((((((((((0u128 | (((x >> 0u128) & 0xffu128) << 0u128))
            | (((x >> 8u128) & 0xffu128) << 8u128))
            | (((x >> 16u128) & 0xffu128) << 16u128))
            | (((x >> 24u128) & 0xffu128) << 24u128))
            | (((x >> 32u128) & 0xffu128) << 32u128))
            | (((x >> 40u128) & 0xffu128) << 40u128))
            | (((x >> 48u128) & 0xffu128) << 48u128))
            | (((x >> 56u128) & 0xffu128) << 56u128))
            | (((x >> 64u128) & 0xffu128) << 64u128))
            | (((x >> 72u128) & 0xffu128) << 72u128))
            | (((x >> 80u128) & 0xffu128) << 80u128))
            | (((x >> 88u128) & 0xffu128) << 88u128))
            | (((x >> 96u128) & 0xffu128) << 96u128))
            | (((x >> 104u128) & 0xffu128) << 104u128))
            | (((x >> 112u128) & 0xffu128) << 112u128))
            | (((x >> 120u128) & 0xffu128) << 120u128)),
{
}

proof fn lemma_byte_mask(y: u128)
    by (bit_vector)
    ensures
        y & 0xffu128 <= 0xffu128,
{
}

/// Reading back the bytes of a block gives the block.
pub proof fn lemma_block_bytes_round_trip(x: u128)
    ensures
        block_of(le_bytes(x, 16)) == x,
{
    let s = le_bytes(x, 16);
    assert forall|i: nat| i < 16 implies (#[trigger] s[i as int]) as u128 == (x >> (8 * i) as u128) & 0xffu128 by {
        lemma_byte_mask(x >> (8 * i) as u128);
    }
    reveal_with_fuel(block_value, 17);
    lemma_le_bytes_bits(x);
}

/// Decoding an encoded pair gives the pair.
pub proof fn lemma_block_pair_round_trip(m0: u128, m1: u128)
    ensures
        block_of((le_bytes(m0, 16) + le_bytes(m1, 16)).subrange(0, 16)) == m0,
        block_of((le_bytes(m0, 16) + le_bytes(m1, 16)).subrange(16, 32)) == m1,
{
    assert((le_bytes(m0, 16) + le_bytes(m1, 16)).subrange(0, 16) =~= le_bytes(m0, 16));
    assert((le_bytes(m0, 16) + le_bytes(m1, 16)).subrange(16, 32) =~= le_bytes(m1, 16));
    lemma_block_bytes_round_trip(m0);
    lemma_block_bytes_round_trip(m1);
}

} // verus!
