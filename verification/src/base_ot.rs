//! The computations of the Naor–Pinkas and Chou–Orlandi base oblivious
//! transfers over the Ristretto group.
//!
//! Group elements travel as their 32-byte compressed encodings and scalars
//! as 32 bytes (reduced modulo the group order).  The random scalars and
//! the channel stay with the caller; these functions take the scalars and
//! the received encodings as values and return what is to be sent or kept.
//! An encoding that does not decompress to a group element makes the
//! whole step fail with `None`.

use vstd::prelude::*;
use curve25519_dalek::constants::RISTRETTO_BASEPOINT_POINT;
use curve25519_dalek::ristretto::CompressedRistretto;
use curve25519_dalek::scalar::Scalar;
use crate::block_hash::{
    block_of, decode_block_pair, encode_block_pair, hash_point_idx_spec, hash_point_spec, kdf_point,
    kdf_point_indexed, le_bytes, lemma_block_pair_round_trip,
};

verus! {

/// The encoding of `s * P`, for `P` decoded from `p`; `None` when `p`
/// encodes no group element.
pub uninterp spec fn ristretto_mul(p: Seq<u8>, s: Seq<u8>) -> Option<Seq<u8>>;

/// The encoding of `s * G`, `G` the Ristretto base point.
pub uninterp spec fn ristretto_base_mul(s: Seq<u8>) -> Seq<u8>;

/// The encoding of `P - Q`; `None` when `p` or `q` encodes no group element.
pub uninterp spec fn ristretto_sub(p: Seq<u8>, q: Seq<u8>) -> Option<Seq<u8>>;

/// The encoding of `P + Q`; `None` when `p` or `q` encodes no group element.
pub uninterp spec fn ristretto_add(p: Seq<u8>, q: Seq<u8>) -> Option<Seq<u8>>;

/// `curve25519_dalek`: `CompressedRistretto::decompress`, then the product
/// with `Scalar::from_bytes_mod_order(s)`, compressed.  The contract
/// claims only that the result is a function of the two encodings, absent
/// exactly when decompression fails.
#[verifier::external_body]
fn point_mul(p: &[u8; 32], s: &[u8; 32]) -> (r: Option<[u8; 32]>)
    ensures
        match r {
            Some(v) => ristretto_mul(p@, s@) == Some(v@),
            None => ristretto_mul(p@, s@) is None,
        },
{
    match CompressedRistretto(*p).decompress() {
        Some(pt) => Some((pt * Scalar::from_bytes_mod_order(*s)).compress().to_bytes()),
        None => None,
    }
}

/// `curve25519_dalek`: the base point `RISTRETTO_BASEPOINT_POINT` times
/// `Scalar::from_bytes_mod_order(s)`, compressed; a function of `s`.
#[verifier::external_body]
fn point_base_mul(s: &[u8; 32]) -> (r: [u8; 32])
    ensures
        r@ == ristretto_base_mul(s@),
{
    (Scalar::from_bytes_mod_order(*s) * RISTRETTO_BASEPOINT_POINT).compress().to_bytes()
}

/// `curve25519_dalek`: the difference of two decompressed points,
/// compressed; absent exactly when one of them does not decompress.
#[verifier::external_body]
fn point_sub(p: &[u8; 32], q: &[u8; 32]) -> (r: Option<[u8; 32]>)
    ensures
        match r {
            Some(v) => ristretto_sub(p@, q@) == Some(v@),
            None => ristretto_sub(p@, q@) is None,
        },
{
    match (CompressedRistretto(*p).decompress(), CompressedRistretto(*q).decompress()) {
        (Some(a), Some(b)) => Some((a - b).compress().to_bytes()),
        _ => None,
    }
}

/// `curve25519_dalek`: the sum of two decompressed points, compressed;
/// absent exactly when one of them does not decompress.
#[verifier::external_body]
fn point_add(p: &[u8; 32], q: &[u8; 32]) -> (r: Option<[u8; 32]>)
    ensures
        match r {
            Some(v) => ristretto_add(p@, q@) == Some(v@),
            None => ristretto_add(p@, q@) is None,
        },
{
    match (CompressedRistretto(*p).decompress(), CompressedRistretto(*q).decompress()) {
        (Some(a), Some(b)) => Some((a + b).compress().to_bytes()),
        _ => None,
    }
}

/// The public points `s_i * G` of the scalars `s`.
pub fn public_points(s: &[[u8; 32]]) -> (out: Vec<[u8; 32]>)
    ensures
        out@.len() == s@.len(),
        forall|i: int| 0 <= i < s@.len() ==> (#[trigger] out@[i])@ == ristretto_base_mul(s@[i]@),
{
    let mut out: Vec<[u8; 32]> = Vec::new();
    let mut i: usize = 0;
    while i < s.len()
        invariant
            i <= s@.len(),
            out@.len() == i,
            forall|k: int| 0 <= k < i ==> (#[trigger] out@[k])@ == ristretto_base_mul(s@[k]@),
        decreases s.len() - i,
    {
        out.push(point_base_mul(&s[i]));
        i = i + 1;
    }
    out
}

/// The public point `s * G` of one scalar.
pub fn public_point(s: &[u8; 32]) -> (p: [u8; 32])
    ensures
        p@ == ristretto_base_mul(s@),
{
    point_base_mul(s)
}

/// The chosen message of a pair, unpadded with `key`.
pub open spec fn unpad(buf: Seq<u8>, choice: bool, key: u128) -> u128 {
    (if choice { block_of(buf.subrange(16, 32)) } else { block_of(buf.subrange(0, 16)) }) ^ key
}

// ---------------------------------------------------------------------------
// Naor–Pinkas.

/// Naor–Pinkas sender, transfer `i`: with its point `c = d * G`, its
/// scalar `r` and the receiver's point `pk0`, the keys are `k0 = r * pk0`
/// and `k1 = r * c - k0`; the pair is `(H(k0) ^ d0, H(k1) ^ d1)`.
pub open spec fn np_sender_pair(c: Seq<u8>, r: Seq<u8>, pk0: Seq<u8>, d0: u128, d1: u128) -> Option<(u128, u128)> {
    match (ristretto_mul(pk0, r), ristretto_mul(c, r)) {
        (Some(k0), Some(cr)) => match ristretto_sub(cr, k0) {
            Some(k1) => Some((hash_point_spec(k0) ^ d0, hash_point_spec(k1) ^ d1)),
            None => None,
        },
        _ => None,
    }
}

/// Naor–Pinkas sender: the padded pair of every transfer, as 32 bytes;
/// `None` exactly when some transfer's keys cannot be formed.
pub fn np_sender_pads(
    c: &[u8; 32],
    r: &[[u8; 32]],
    pk0: &[[u8; 32]],
    data0: &[u128],
    data1: &[u128],
) -> (out: Option<Vec<Vec<u8>>>)
    requires
        r@.len() == data0@.len(),
        pk0@.len() == data0@.len(),
        data1@.len() == data0@.len(),
    ensures
        out is Some <==> forall|i: int| 0 <= i < data0@.len() ==> (#[trigger] np_sender_pair(c@, r@[i]@, pk0@[i]@, data0@[i], data1@[i])) is Some,
        out matches Some(v) ==> v@.len() == data0@.len() && forall|i: int| 0 <= i < data0@.len() ==> (#[trigger] v@[i])@ == ({
            let p = np_sender_pair(c@, r@[i]@, pk0@[i]@, data0@[i], data1@[i]).unwrap();
            le_bytes(p.0, 16) + le_bytes(p.1, 16)
        }),
{
    let mut out: Vec<Vec<u8>> = Vec::new();
    let mut i: usize = 0;
    while i < data0.len()
        invariant
            i <= data0@.len(),
            r@.len() == data0@.len(),
            pk0@.len() == data0@.len(),
            data1@.len() == data0@.len(),
            out@.len() == i,
            forall|k: int| 0 <= k < i ==> (#[trigger] np_sender_pair(c@, r@[k]@, pk0@[k]@, data0@[k], data1@[k])) is Some,
            forall|k: int| 0 <= k < i ==> (#[trigger] out@[k])@ == ({
                let p = np_sender_pair(c@, r@[k]@, pk0@[k]@, data0@[k], data1@[k]).unwrap();
                le_bytes(p.0, 16) + le_bytes(p.1, 16)
            }),
        decreases data0.len() - i,
    {
        let k0 = match point_mul(&pk0[i], &r[i]) {
            Some(k) => k,
            None => {
                assert(np_sender_pair(c@, r@[i as int]@, pk0@[i as int]@, data0@[i as int], data1@[i as int]) is None);
                return None;
            },
        };
        let cr = match point_mul(c, &r[i]) {
            Some(k) => k,
            None => {
                assert(np_sender_pair(c@, r@[i as int]@, pk0@[i as int]@, data0@[i as int], data1@[i as int]) is None);
                return None;
            },
        };
        let k1 = match point_sub(&cr, &k0) {
            Some(k) => k,
            None => {
                assert(np_sender_pair(c@, r@[i as int]@, pk0@[i as int]@, data0@[i as int], data1@[i as int]) is None);
                return None;
            },
        };
        let m0 = kdf_point(&k0) ^ data0[i];
        let m1 = kdf_point(&k1) ^ data1[i];
        out.push(encode_block_pair(m0, m1));
        i = i + 1;
    }
    Some(out)
}

/// Naor–Pinkas receiver, transfer `i`: with its scalar `k`, the point it
/// sends is `c - k * G` for choice 1 and `k * G` for choice 0.
pub open spec fn np_receiver_point(c: Seq<u8>, k: Seq<u8>, choice: bool) -> Option<Seq<u8>> {
    if choice {
        ristretto_sub(c, ristretto_base_mul(k))
    } else {
        Some(ristretto_base_mul(k))
    }
}

/// Naor–Pinkas receiver: the points to send; `None` exactly when `c`
/// encodes no group element and some choice is 1.
pub fn np_receiver_points(c: &[u8; 32], k: &[[u8; 32]], choices: &[bool]) -> (out: Option<Vec<[u8; 32]>>)
    requires
        k@.len() == choices@.len(),
    ensures
        out is Some <==> forall|i: int| 0 <= i < choices@.len() ==> (#[trigger] np_receiver_point(c@, k@[i]@, choices@[i])) is Some,
        out matches Some(v) ==> v@.len() == choices@.len() && forall|i: int| 0 <= i < choices@.len() ==> Some((#[trigger] v@[i])@)
            == np_receiver_point(c@, k@[i]@, choices@[i]),
{
    let mut out: Vec<[u8; 32]> = Vec::new();
    let mut i: usize = 0;
    while i < choices.len()
        invariant
            i <= choices@.len(),
            k@.len() == choices@.len(),
            out@.len() == i,
            forall|j: int| 0 <= j < i ==> Some((#[trigger] out@[j])@) == np_receiver_point(c@, k@[j]@, choices@[j]),
        decreases choices.len() - i,
    {
        let gk = point_base_mul(&k[i]);
        if choices[i] {
            match point_sub(c, &gk) {
                Some(p) => out.push(p),
                None => {
                    assert(np_receiver_point(c@, k@[i as int]@, choices@[i as int]) is None);
                    return None;
                },
            }
        } else {
            out.push(gk);
        }
        i = i + 1;
    }
    assert forall|i: int| 0 <= i < choices@.len() implies (#[trigger] np_receiver_point(c@, k@[i]@, choices@[i])) is Some by {
        assert(Some(out@[i]@) == np_receiver_point(c@, k@[i]@, choices@[i]));
    }
    Some(out)
}

/// Naor–Pinkas receiver, transfer `i`: the chosen message of the pair
/// `buf`, unpadded with `H(k * gr)`.
pub open spec fn np_receiver_message(gr: Seq<u8>, k: Seq<u8>, buf: Seq<u8>, choice: bool) -> Option<u128> {
    match ristretto_mul(gr, k) {
        Some(sh) => Some(unpad(buf, choice, hash_point_spec(sh))),
        None => None,
    }
}

/// Naor–Pinkas receiver: the chosen messages; `None` exactly when some
/// sender point `gr[i]` encodes no group element.
pub fn np_receiver_output(gr: &[[u8; 32]], k: &[[u8; 32]], msgs: &Vec<Vec<u8>>, choices: &[bool]) -> (out: Option<Vec<u128>>)
    requires
        gr@.len() == choices@.len(),
        k@.len() == choices@.len(),
        msgs@.len() == choices@.len(),
        forall|i: int| 0 <= i < msgs@.len() ==> (#[trigger] msgs@[i])@.len() == 32,
    ensures
        out is Some <==> forall|i: int| 0 <= i < choices@.len() ==> (#[trigger] np_receiver_message(gr@[i]@, k@[i]@, msgs@[i]@, choices@[i])) is Some,
        out matches Some(v) ==> v@.len() == choices@.len() && forall|i: int| 0 <= i < choices@.len() ==> Some(#[trigger] v@[i])
            == np_receiver_message(gr@[i]@, k@[i]@, msgs@[i]@, choices@[i]),
{
    let mut out: Vec<u128> = Vec::new();
    let mut i: usize = 0;
    while i < choices.len()
        invariant
            i <= choices@.len(),
            gr@.len() == choices@.len(),
            k@.len() == choices@.len(),
            msgs@.len() == choices@.len(),
            forall|j: int| 0 <= j < msgs@.len() ==> (#[trigger] msgs@[j])@.len() == 32,
            out@.len() == i,
            forall|j: int| 0 <= j < i ==> Some(#[trigger] out@[j]) == np_receiver_message(gr@[j]@, k@[j]@, msgs@[j]@, choices@[j]),
        decreases choices.len() - i,
    {
        let sh = match point_mul(&gr[i], &k[i]) {
            Some(p) => p,
            None => {
                assert(np_receiver_message(gr@[i as int]@, k@[i as int]@, msgs@[i as int]@, choices@[i as int]) is None);
                return None;
            },
        };
        let (m0, m1) = decode_block_pair(msgs[i].as_slice());
        let key = kdf_point(&sh);
        out.push(if choices[i] { m1 ^ key } else { m0 ^ key });
        i = i + 1;
    }
    assert forall|i: int| 0 <= i < choices@.len() implies (#[trigger] np_receiver_message(gr@[i]@, k@[i]@, msgs@[i]@, choices@[i])) is Some by {
        assert(Some(out@[i]) == np_receiver_message(gr@[i]@, k@[i]@, msgs@[i]@, choices@[i]));
    }
    Some(out)
}

// ---------------------------------------------------------------------------
// Chou–Orlandi.

/// Chou–Orlandi sender, transfer `i`: with its scalar `a`, its point
/// `A = a * G` and the receiver's point `B`, the keys are `a * B` and
/// `a * B - a * A`, each hashed with the index `i`.
pub open spec fn co_sender_pair(a: Seq<u8>, pa: Seq<u8>, b: Seq<u8>, i: u64, d0: u128, d1: u128) -> Option<(u128, u128)> {
    match (ristretto_mul(b, a), ristretto_mul(pa, a)) {
        (Some(ba), Some(aa)) => match ristretto_sub(ba, aa) {
            Some(ba1) => Some((hash_point_idx_spec(ba, i) ^ d0, hash_point_idx_spec(ba1, i) ^ d1)),
            None => None,
        },
        _ => None,
    }
}

/// Chou–Orlandi sender: the padded pair of every transfer, as 32 bytes;
/// `None` exactly when some transfer's keys cannot be formed.
pub fn co_sender_pads(a: &[u8; 32], pa: &[u8; 32], b: &[[u8; 32]], data0: &[u128], data1: &[u128]) -> (out: Option<Vec<Vec<u8>>>)
    requires
        b@.len() == data0@.len(),
        data1@.len() == data0@.len(),
        data0@.len() <= u64::MAX,
    ensures
        out is Some <==> forall|i: int| 0 <= i < data0@.len() ==> (#[trigger] co_sender_pair(a@, pa@, b@[i]@, i as u64, data0@[i], data1@[i])) is Some,
        out matches Some(v) ==> v@.len() == data0@.len() && forall|i: int| 0 <= i < data0@.len() ==> (#[trigger] v@[i])@ == ({
            let p = co_sender_pair(a@, pa@, b@[i]@, i as u64, data0@[i], data1@[i]).unwrap();
            le_bytes(p.0, 16) + le_bytes(p.1, 16)
        }),
{
    let mut out: Vec<Vec<u8>> = Vec::new();
    let mut i: usize = 0;
    while i < data0.len()
        invariant
            i <= data0@.len(),
            b@.len() == data0@.len(),
            data1@.len() == data0@.len(),
            data0@.len() <= u64::MAX,
            out@.len() == i,
            forall|k: int| 0 <= k < i ==> (#[trigger] co_sender_pair(a@, pa@, b@[k]@, k as u64, data0@[k], data1@[k])) is Some,
            forall|k: int| 0 <= k < i ==> (#[trigger] out@[k])@ == ({
                let p = co_sender_pair(a@, pa@, b@[k]@, k as u64, data0@[k], data1@[k]).unwrap();
                le_bytes(p.0, 16) + le_bytes(p.1, 16)
            }),
        decreases data0.len() - i,
    {
        let ghost ii = i as int;
        let ba = match point_mul(&b[i], a) {
            Some(p) => p,
            None => {
                assert(co_sender_pair(a@, pa@, b@[ii]@, ii as u64, data0@[ii], data1@[ii]) is None);
                return None;
            },
        };
        let aa = match point_mul(pa, a) {
            Some(p) => p,
            None => {
                assert(co_sender_pair(a@, pa@, b@[ii]@, ii as u64, data0@[ii], data1@[ii]) is None);
                return None;
            },
        };
        let ba1 = match point_sub(&ba, &aa) {
            Some(p) => p,
            None => {
                assert(co_sender_pair(a@, pa@, b@[ii]@, ii as u64, data0@[ii], data1@[ii]) is None);
                return None;
            },
        };
        let idx = i as u64;
        let m0 = kdf_point_indexed(&ba, idx) ^ data0[i];
        let m1 = kdf_point_indexed(&ba1, idx) ^ data1[i];
        out.push(encode_block_pair(m0, m1));
        i = i + 1;
    }
    Some(out)
}

/// Chou–Orlandi receiver, transfer `i`: with its scalar `r`, the point it
/// sends is `r * G`, plus the sender's `A` for choice 1.
pub open spec fn co_receiver_point(pa: Seq<u8>, r: Seq<u8>, choice: bool) -> Option<Seq<u8>> {
    if choice {
        ristretto_add(ristretto_base_mul(r), pa)
    } else {
        Some(ristretto_base_mul(r))
    }
}

/// Chou–Orlandi receiver: the points to send; `None` exactly when `A`
/// encodes no group element and some choice is 1.
pub fn co_receiver_points(pa: &[u8; 32], r: &[[u8; 32]], choices: &[bool]) -> (out: Option<Vec<[u8; 32]>>)
    requires
        r@.len() == choices@.len(),
    ensures
        out is Some <==> forall|i: int| 0 <= i < choices@.len() ==> (#[trigger] co_receiver_point(pa@, r@[i]@, choices@[i])) is Some,
        out matches Some(v) ==> v@.len() == choices@.len() && forall|i: int| 0 <= i < choices@.len() ==> Some((#[trigger] v@[i])@)
            == co_receiver_point(pa@, r@[i]@, choices@[i]),
{
    let mut out: Vec<[u8; 32]> = Vec::new();
    let mut i: usize = 0;
    while i < choices.len()
        invariant
            i <= choices@.len(),
            r@.len() == choices@.len(),
            out@.len() == i,
            forall|j: int| 0 <= j < i ==> Some((#[trigger] out@[j])@) == co_receiver_point(pa@, r@[j]@, choices@[j]),
        decreases choices.len() - i,
    {
        let gr = point_base_mul(&r[i]);
        if choices[i] {
            match point_add(&gr, pa) {
                Some(p) => out.push(p),
                None => {
                    assert(co_receiver_point(pa@, r@[i as int]@, choices@[i as int]) is None);
                    return None;
                },
            }
        } else {
            out.push(gr);
        }
        i = i + 1;
    }
    assert forall|i: int| 0 <= i < choices@.len() implies (#[trigger] co_receiver_point(pa@, r@[i]@, choices@[i])) is Some by {
        assert(Some(out@[i]@) == co_receiver_point(pa@, r@[i]@, choices@[i]));
    }
    Some(out)
}

/// Chou–Orlandi receiver, transfer `i`: the chosen message of the pair
/// `buf`, unpadded with `H(r * A, i)`.
pub open spec fn co_receiver_message(pa: Seq<u8>, r: Seq<u8>, i: u64, buf: Seq<u8>, choice: bool) -> Option<u128> {
    match ristretto_mul(pa, r) {
        Some(sh) => Some(unpad(buf, choice, hash_point_idx_spec(sh, i))),
        None => None,
    }
}

/// Chou–Orlandi receiver: the chosen messages; `None` exactly when there
/// is a transfer and `A` encodes no group element.
pub fn co_receiver_output(pa: &[u8; 32], r: &[[u8; 32]], msgs: &Vec<Vec<u8>>, choices: &[bool]) -> (out: Option<Vec<u128>>)
    requires
        r@.len() == choices@.len(),
        msgs@.len() == choices@.len(),
        choices@.len() <= u64::MAX,
        forall|i: int| 0 <= i < msgs@.len() ==> (#[trigger] msgs@[i])@.len() == 32,
    ensures
        out is Some <==> forall|i: int| 0 <= i < choices@.len() ==> (#[trigger] co_receiver_message(pa@, r@[i]@, i as u64, msgs@[i]@, choices@[i])) is Some,
        out matches Some(v) ==> v@.len() == choices@.len() && forall|i: int| 0 <= i < choices@.len() ==> Some(#[trigger] v@[i])
            == co_receiver_message(pa@, r@[i]@, i as u64, msgs@[i]@, choices@[i]),
{
    let mut out: Vec<u128> = Vec::new();
    let mut i: usize = 0;
    while i < choices.len()
        invariant
            i <= choices@.len(),
            r@.len() == choices@.len(),
            msgs@.len() == choices@.len(),
            choices@.len() <= u64::MAX,
            forall|j: int| 0 <= j < msgs@.len() ==> (#[trigger] msgs@[j])@.len() == 32,
            out@.len() == i,
            forall|j: int| 0 <= j < i ==> Some(#[trigger] out@[j]) == co_receiver_message(pa@, r@[j]@, j as u64, msgs@[j]@, choices@[j]),
        decreases choices.len() - i,
    {
        let ghost ii = i as int;
        let sh = match point_mul(pa, &r[i]) {
            Some(p) => p,
            None => {
                assert(co_receiver_message(pa@, r@[ii]@, ii as u64, msgs@[ii]@, choices@[ii]) is None);
                return None;
            },
        };
        let (m0, m1) = decode_block_pair(msgs[i].as_slice());
        let key = kdf_point_indexed(&sh, i as u64);
        out.push(if choices[i] { m1 ^ key } else { m0 ^ key });
        i = i + 1;
    }
    assert forall|i: int| 0 <= i < choices@.len() implies (#[trigger] co_receiver_message(pa@, r@[i]@, i as u64, msgs@[i]@, choices@[i])) is Some by {
        assert(Some(out@[i]) == co_receiver_message(pa@, r@[i]@, i as u64, msgs@[i]@, choices@[i]));
    }
    Some(out)
}

// ---------------------------------------------------------------------------
// Delivery.

proof fn lemma_unpad_xor(k: u128, m: u128)
    ensures
        (k ^ m) ^ k == m,
{
    crate::label::lemma_xor_laws(k, m, k);
    crate::label::lemma_xor_laws(k, k, m);
    crate::label::lemma_xor_laws(m, k, k);
    crate::label::lemma_xor_zero(m);
}

/// Naor–Pinkas delivers the chosen message: when the receiver's shared
/// point `k * gr` is the sender's key point of the chosen message (`k0`
/// for choice 0, `r * c - k0` for choice 1, which the group laws give
/// in an honest run), unpadding the sender's pair yields that message.
pub proof fn lemma_np_delivers_choice(
    c: Seq<u8>,
    r: Seq<u8>,
    pk0: Seq<u8>,
    d0: u128,
    d1: u128,
    gr: Seq<u8>,
    k: Seq<u8>,
    choice: bool,
)
    requires
        np_sender_pair(c, r, pk0, d0, d1) is Some,
        ristretto_mul(gr, k) is Some,
        ({
            let k0 = ristretto_mul(pk0, r).unwrap();
            let key = if choice { ristretto_sub(ristretto_mul(c, r).unwrap(), k0).unwrap() } else { k0 };
            ristretto_mul(gr, k).unwrap() == key
        }),
    ensures
        ({
            let p = np_sender_pair(c, r, pk0, d0, d1).unwrap();
            np_receiver_message(gr, k, le_bytes(p.0, 16) + le_bytes(p.1, 16), choice) == Some(if choice { d1 } else { d0 })
        }),
{
    let p = np_sender_pair(c, r, pk0, d0, d1).unwrap();
    lemma_block_pair_round_trip(p.0, p.1);
    let k0 = ristretto_mul(pk0, r).unwrap();
    let k1 = ristretto_sub(ristretto_mul(c, r).unwrap(), k0).unwrap();
    lemma_unpad_xor(hash_point_spec(k0), d0);
    lemma_unpad_xor(hash_point_spec(k1), d1);
}

/// Chou–Orlandi delivers the chosen message of transfer `i`: when the
/// receiver's shared point `r * A` is the sender's key point of the
/// chosen message (`a * B` for choice 0, `a * B - a * A` for choice 1,
/// which the group laws give in an honest run), unpadding the sender's
/// pair yields that message.
pub proof fn lemma_co_delivers_choice(
    a: Seq<u8>,
    pa: Seq<u8>,
    b: Seq<u8>,
    i: u64,
    d0: u128,
    d1: u128,
    r: Seq<u8>,
    choice: bool,
)
    requires
        co_sender_pair(a, pa, b, i, d0, d1) is Some,
        ristretto_mul(pa, r) is Some,
        ({
            let ba = ristretto_mul(b, a).unwrap();
            let key = if choice { ristretto_sub(ba, ristretto_mul(pa, a).unwrap()).unwrap() } else { ba };
            ristretto_mul(pa, r).unwrap() == key
        }),
    ensures
        ({
            let p = co_sender_pair(a, pa, b, i, d0, d1).unwrap();
            co_receiver_message(pa, r, i, le_bytes(p.0, 16) + le_bytes(p.1, 16), choice) == Some(if choice { d1 } else { d0 })
        }),
{
    let p = co_sender_pair(a, pa, b, i, d0, d1).unwrap();
    lemma_block_pair_round_trip(p.0, p.1);
    let ba = ristretto_mul(b, a).unwrap();
    let ba1 = ristretto_sub(ba, ristretto_mul(pa, a).unwrap()).unwrap();
    lemma_unpad_xor(hash_point_idx_spec(ba, i), d0);
    lemma_unpad_xor(hash_point_idx_spec(ba1, i), d1);
}

} // verus!
