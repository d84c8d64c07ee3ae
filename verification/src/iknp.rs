//! The local computations of IKNP oblivious-transfer extension over
//! `K = 128` base transfers.
//!
//! The rows of pseudorandom bits come from generators seeded by the base
//! transfers, and the rows and message pairs travel over a channel; these
//! functions take the rows as values and return what is to be sent.

use vstd::prelude::*;
use crate::block_hash::{hash_block_spec, kdf_block, le_bytes, encode_block_pair, block_of, lemma_block_pair_round_trip};
use crate::ot_bits::{bits_block, bools_to_block, bytes_to_bools, InvalidBoolByte};

verus! {

/// The number of base transfers.
pub const K: usize = 128;

/// The block whose bit `i` is `bits[i]`, for 128 bits.
pub open spec fn block_of_bits(bits: Seq<bool>) -> u128 {
    bits_block(bits, 128)
}

/// The sender's row `i` of `Q`: its generator row `t`, xored with the
/// receiver's row `u` when its base choice bit is set.
pub open spec fn q_row(t: Seq<bool>, u: Seq<bool>, s: bool) -> Seq<bool> {
    Seq::new(t.len(), |j: int| if s { t[j] != u[j] } else { t[j] })
}

/// Column `j` of the matrix whose rows are `rows`.
pub open spec fn column(rows: Seq<Seq<bool>>, j: int) -> Seq<bool> {
    Seq::new(rows.len(), |i: int| rows[i][j])
}

/// The sender's row of `Q` for base transfer `i`, from its generator row
/// `t` and the receiver's row `u` (one byte per bit).
pub fn sender_q_row(t: &[bool], u: &[u8], s: bool) -> (r: Result<Vec<bool>, InvalidBoolByte>)
    requires
        t@.len() == u@.len(),
    ensures
        match r {
            Ok(q) => {
                &&& forall|j: int| 0 <= j < u@.len() ==> #[trigger] u@[j] <= 1
                &&& q@ == q_row(t@, Seq::new(u@.len(), |j: int| u@[j] == 1), s)
            },
            Err(e) => {
                &&& e.position < u@.len()
                &&& e.value == u@[e.position as int]
                &&& u@[e.position as int] > 1
                &&& forall|j: int| 0 <= j < e.position ==> #[trigger] u@[j] <= 1
            },
        },
{
    let ub = bytes_to_bools(u)?;
    let mut q: Vec<bool> = Vec::new();
    let mut j: usize = 0;
    while j < t.len()
        invariant
            j <= t@.len(),
            t@.len() == ub@.len(),
            ub@.len() == u@.len(),
            forall|k: int| 0 <= k < u@.len() ==> #[trigger] ub@[k] == (u@[k] == 1),
            q@.len() == j,
            forall|k: int| 0 <= k < j ==> #[trigger] q@[k] == if s { t@[k] != ub@[k] } else { t@[k] },
        decreases t.len() - j,
    {
        q.push(if s { t[j] != ub[j] } else { t[j] });
        j = j + 1;
    }
    assert(q@ =~= q_row(t@, Seq::new(u@.len(), |j: int| u@[j] == 1), s));
    Ok(q)
}

/// Column `j` of the rows, as 128 bits.
fn column_bits(rows: &Vec<Vec<bool>>, j: usize) -> (col: [bool; 128])
    requires
        rows@.len() == 128,
        forall|i: int| 0 <= i < 128 ==> j < (#[trigger] rows@[i])@.len(),
    ensures
        col@ == column(rows@.map_values(|r: Vec<bool>| r@), j as int),
{
    let mut col = [false; 128];
    let mut i: usize = 0;
    while i < 128
        invariant
            i <= 128,
            rows@.len() == 128,
            forall|a: int| 0 <= a < 128 ==> j < (#[trigger] rows@[a])@.len(),
            forall|a: int| 0 <= a < i ==> #[trigger] col@[a] == rows@[a]@[j as int],
        decreases 128 - i,
    {
        col[i] = rows[i][j];
        i = i + 1;
    }
    assert(col@ =~= column(rows@.map_values(|r: Vec<bool>| r@), j as int));
    col
}

/// The two padded messages of transfer `j`: `m0` under the hash of column
/// `q_j`, `m1` under the hash of `q_j ^ delta`.
pub open spec fn sender_pair(q: Seq<Seq<bool>>, delta: Seq<bool>, m0: u128, m1: u128, j: int) -> (u128, u128) {
    let qb = block_of_bits(column(q, j));
    (hash_block_spec(qb) ^ m0, hash_block_spec(qb ^ block_of_bits(delta)) ^ m1)
}

/// The sender's messages: for each transfer, the two padded messages,
/// encoded as 32 bytes.
pub fn sender_messages(q_rows: &Vec<Vec<bool>>, delta: &[bool; 128], m0: &[u128], m1: &[u128]) -> (out: Vec<Vec<u8>>)
    requires
        q_rows@.len() == 128,
        m0@.len() == m1@.len(),
        forall|i: int| 0 <= i < 128 ==> (#[trigger] q_rows@[i])@.len() == m0@.len(),
    ensures
        out@.len() == m0@.len(),
        forall|j: int| 0 <= j < m0@.len() ==> (#[trigger] out@[j])@ == ({
            let p = sender_pair(q_rows@.map_values(|r: Vec<bool>| r@), delta@, m0@[j], m1@[j], j);
            le_bytes(p.0, 16) + le_bytes(p.1, 16)
        }),
{
    let delta_block = bools_to_block(delta);
    let mut out: Vec<Vec<u8>> = Vec::new();
    let mut j: usize = 0;
    while j < m0.len()
        invariant
            j <= m0@.len(),
            q_rows@.len() == 128,
            m0@.len() == m1@.len(),
            forall|i: int| 0 <= i < 128 ==> (#[trigger] q_rows@[i])@.len() == m0@.len(),
            delta_block == block_of_bits(delta@),
            out@.len() == j,
            forall|k: int| 0 <= k < j ==> (#[trigger] out@[k])@ == ({
                let p = sender_pair(q_rows@.map_values(|r: Vec<bool>| r@), delta@, m0@[k], m1@[k], k);
                le_bytes(p.0, 16) + le_bytes(p.1, 16)
            }),
        decreases m0.len() - j,
    {
        let col = column_bits(q_rows, j);
        let q_block = bools_to_block(&col);
        let k0 = kdf_block(q_block);
        let k1 = kdf_block(q_block ^ delta_block);
        let c0 = k0 ^ m0[j];
        let c1 = k1 ^ m1[j];
        out.push(encode_block_pair(c0, c1));
        j = j + 1;
    }
    out
}

/// The receiver's row for base transfer `i`, to send: `t0 ^ t1 ^ choices`,
/// one byte per bit.  Its own column bits of that row are `t0`.
pub fn receiver_row(t0: &[bool], t1: &[bool], choices: &[bool]) -> (u: Vec<u8>)
    requires
        t0@.len() == choices@.len(),
        t1@.len() == choices@.len(),
    ensures
        u@.len() == choices@.len(),
        forall|j: int| 0 <= j < choices@.len() ==> #[trigger] u@[j] == if (t0@[j] != t1@[j]) != choices@[j] { 1u8 } else { 0u8 },
{
    let mut u: Vec<u8> = Vec::new();
    let mut j: usize = 0;
    while j < choices.len()
        invariant
            j <= choices@.len(),
            t0@.len() == choices@.len(),
            t1@.len() == choices@.len(),
            u@.len() == j,
            forall|k: int| 0 <= k < j ==> #[trigger] u@[k] == if (t0@[k] != t1@[k]) != choices@[k] { 1u8 } else { 0u8 },
        decreases choices.len() - j,
    {
        u.push(if (t0[j] != t1[j]) != choices[j] { 1u8 } else { 0u8 });
        j = j + 1;
    }
    u
}

/// The receiver's output of transfer `j`: the chosen padded message,
/// unpadded with the hash of its column.
pub open spec fn receiver_output(columns: Seq<Seq<bool>>, choice: bool, buf: Seq<u8>, j: int) -> u128 {
    let key = hash_block_spec(block_of_bits(columns[j]));
    (if choice { block_of(buf.subrange(16, 32)) } else { block_of(buf.subrange(0, 16)) }) ^ key
}

/// The receiver's outputs, from its columns and the sender's 32-byte
/// pairs.
pub fn receiver_outputs(columns: &Vec<[bool; 128]>, choices: &[bool], pairs: &Vec<Vec<u8>>) -> (out: Vec<u128>)
    requires
        columns@.len() == choices@.len(),
        pairs@.len() == choices@.len(),
        forall|j: int| 0 <= j < pairs@.len() ==> (#[trigger] pairs@[j])@.len() == 32,
    ensures
        out@.len() == choices@.len(),
        forall|j: int| 0 <= j < choices@.len() ==> #[trigger] out@[j]
            == receiver_output(columns@.map_values(|c: [bool; 128]| c@), choices@[j], pairs@[j]@, j),
{
    let mut out: Vec<u128> = Vec::new();
    let mut j: usize = 0;
    while j < choices.len()
        invariant
            j <= choices@.len(),
            columns@.len() == choices@.len(),
            pairs@.len() == choices@.len(),
            forall|k: int| 0 <= k < pairs@.len() ==> (#[trigger] pairs@[k])@.len() == 32,
            out@.len() == j,
            forall|k: int| 0 <= k < j ==> #[trigger] out@[k]
                == receiver_output(columns@.map_values(|c: [bool; 128]| c@), choices@[k], pairs@[k]@, k),
        decreases choices.len() - j,
    {
        let (c0, c1) = crate::block_hash::decode_block_pair(pairs[j].as_slice());
        let colb = bools_to_block(&columns[j]);
        let key = kdf_block(colb);
        out.push(if choices[j] { c1 ^ key } else { c0 ^ key });
        j = j + 1;
    }
    out
}

/// The receiver's rows to send, as bits: `t0 ^ t1 ^ r`.
pub open spec fn receiver_u(t0: Seq<Seq<bool>>, t1: Seq<Seq<bool>>, r: Seq<bool>) -> Seq<Seq<bool>> {
    Seq::new(128, |i: int| Seq::new(r.len(), |k: int| (t0[i][k] != t1[i][k]) != r[k]))
}

/// The sender's rows of `Q`, when its generator rows are the receiver's
/// rows of its base choices `s`.
pub open spec fn sender_q(t0: Seq<Seq<bool>>, t1: Seq<Seq<bool>>, s: Seq<bool>, r: Seq<bool>) -> Seq<Seq<bool>> {
    Seq::new(128, |i: int| q_row(if s[i] { t1[i] } else { t0[i] }, receiver_u(t0, t1, r)[i], s[i]))
}

/// The receiver's column of transfer `k`: column `k` of its rows `t0`.
pub open spec fn receiver_column(t0: Seq<Seq<bool>>, k: int) -> Seq<bool> {
    Seq::new(128, |i: int| t0[i][k])
}

proof fn lemma_xor_cancel_block(a: u128, b: u128)
    by (bit_vector)
    ensures
        (a ^ b) ^ a == b,
{
}

/// Flipping the bits of a block where `b` is set xors the block with the
/// block of `b`.
proof fn lemma_bits_block_xor(a: Seq<bool>, b: Seq<bool>, c: Seq<bool>, n: nat)
    requires
        n <= 128,
        forall|i: int| 0 <= i < n ==> #[trigger] c[i] == (a[i] != b[i]),
    ensures
        bits_block(c, n) == bits_block(a, n) ^ bits_block(b, n),
        n < 128 ==> bits_block(a, n) >> (n as u128) == 0,
        n < 128 ==> bits_block(b, n) >> (n as u128) == 0,
    decreases n,
{
    if n == 0 {
        lemma_set_bit_xor(0, 0, 0);
    } else {
        let k = (n - 1) as nat;
        lemma_bits_block_xor(a, b, c, k);
        lemma_set_bit_xor(bits_block(a, k), bits_block(b, k), k as u128);
    }
}

/// Xor against a bit that neither block has yet; and the empty block.
proof fn lemma_set_bit_xor(x: u128, y: u128, k: u128)
    by (bit_vector)
    ensures
        0u128 >> 0u128 == 0,
        0u128 ^ 0u128 == 0,
        (k < 128 && x >> k == 0 && y >> k == 0) ==> {
            &&& (x | (1u128 << k)) ^ (y | (1u128 << k)) == x ^ y
            &&& (x | (1u128 << k)) ^ y == (x ^ y) | (1u128 << k)
            &&& x ^ (y | (1u128 << k)) == (x ^ y) | (1u128 << k)
            &&& k + 1 < 128 ==> x >> ((k + 1) as u128) == 0
            &&& k + 1 < 128 ==> (x | (1u128 << k)) >> ((k + 1) as u128) == 0
            &&& k + 1 < 128 ==> y >> ((k + 1) as u128) == 0
            &&& k + 1 < 128 ==> (y | (1u128 << k)) >> ((k + 1) as u128) == 0
        },
{
}

/// IKNP delivers the chosen message of every transfer.  The sender holds,
/// for each base transfer `i`, the receiver's generator row of its base
/// choice `s[i]`, and `s` is its correlation; its rows of `Q` come from the
/// receiver's rows `t0 ^ t1 ^ r`; the receiver unpads the message of its
/// choice with the hash of its column of `t0`.
pub proof fn lemma_iknp_delivers_choice(
    t0: Seq<Seq<bool>>,
    t1: Seq<Seq<bool>>,
    s: Seq<bool>,
    r: Seq<bool>,
    m0: Seq<u128>,
    m1: Seq<u128>,
    j: int,
)
    requires
        t0.len() == 128,
        t1.len() == 128,
        s.len() == 128,
        forall|i: int| 0 <= i < 128 ==> (#[trigger] t0[i]).len() == r.len() && t1[i].len() == r.len(),
        m0.len() == r.len(),
        m1.len() == r.len(),
        0 <= j < r.len(),
    ensures
        ({
            let p = sender_pair(sender_q(t0, t1, s, r), s, m0[j], m1[j], j);
            let cols = Seq::new(r.len(), |k: int| receiver_column(t0, k));
            receiver_output(cols, r[j], le_bytes(p.0, 16) + le_bytes(p.1, 16), j)
                == if r[j] { m1[j] } else { m0[j] }
        }),
{
    let q = sender_q(t0, t1, s, r);
    let cols = Seq::new(r.len(), |k: int| receiver_column(t0, k));
    let p = sender_pair(q, s, m0[j], m1[j], j);
    lemma_block_pair_round_trip(p.0, p.1);
    assert forall|i: int| 0 <= i < 128 implies #[trigger] column(q, j)[i] == (cols[j][i] != (r[j] && s[i])) by {
        assert(receiver_u(t0, t1, r)[i][j] == ((t0[i][j] != t1[i][j]) != r[j]));
    }
    if r[j] {
        lemma_bits_block_xor(column(q, j), s, cols[j], 128);
        lemma_xor_cancel_block(hash_block_spec(block_of_bits(cols[j])), m1[j]);
    } else {
        assert(column(q, j) =~= cols[j]);
        lemma_xor_cancel_block(hash_block_spec(block_of_bits(column(q, j))), m0[j]);
    }
}

} // verus!
