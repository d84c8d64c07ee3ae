//! Bit, comparison, integer, multiplexer and swap gadgets built on the
//! circuit builder.

use vstd::prelude::*;
use crate::circuit::Circuit;
use crate::execution::{eval_gates, wire_value};
use crate::gate::{gate_views, Gate, GateKind};
use crate::wire::Wire;

verus! {

/// Gate appended by a builder call, as a view.
pub open spec fn gview(k: GateKind, ins: Seq<Wire>, out: usize) -> (GateKind, Seq<Wire>, Wire) {
    (k, ins, Wire::spec_new(out))
}

/// XOR two wires using the circuit builder.
pub fn xor(c: &mut Circuit, a: Wire, b: Wire) -> (out: Wire)
    requires
        old(c).wires() < usize::MAX,
    ensures
        out == Wire::spec_new(old(c).wires() as usize),
        final(c).wires() == old(c).wires() + 1,
        gate_views(final(c).gate_seq()) == gate_views(old(c).gate_seq()).push(
            gview(GateKind::Xor, seq![a, b], old(c).wires() as usize),
        ),
{
    let out = c.xor(a, b);
    assert(gate_views(c.gate_seq()) =~= gate_views(old(c).gate_seq()).push(
        gview(GateKind::Xor, seq![a, b], old(c).wires() as usize),
    )) by {
        assert(c.gate_seq() =~= old(c).gate_seq().push(c.gate_seq().last()));
    }
    out
}

/// AND two wires using the circuit builder.
pub fn and(c: &mut Circuit, a: Wire, b: Wire) -> (out: Wire)
    requires
        old(c).wires() < usize::MAX,
    ensures
        out == Wire::spec_new(old(c).wires() as usize),
        final(c).wires() == old(c).wires() + 1,
        gate_views(final(c).gate_seq()) == gate_views(old(c).gate_seq()).push(
            gview(GateKind::And, seq![a, b], old(c).wires() as usize),
        ),
{
    let out = c.and(a, b);
    assert(gate_views(c.gate_seq()) =~= gate_views(old(c).gate_seq()).push(
        gview(GateKind::And, seq![a, b], old(c).wires() as usize),
    )) by {
        assert(c.gate_seq() =~= old(c).gate_seq().push(c.gate_seq().last()));
    }
    out
}

/// NOT a wire using the circuit builder.
pub fn not(c: &mut Circuit, a: Wire) -> (out: Wire)
    requires
        old(c).wires() < usize::MAX,
    ensures
        out == Wire::spec_new(old(c).wires() as usize),
        final(c).wires() == old(c).wires() + 1,
        gate_views(final(c).gate_seq()) == gate_views(old(c).gate_seq()).push(
            gview(GateKind::Not, seq![a], old(c).wires() as usize),
        ),
{
    let out = c.not(a);
    assert(gate_views(c.gate_seq()) =~= gate_views(old(c).gate_seq()).push(
        gview(GateKind::Not, seq![a], old(c).wires() as usize),
    )) by {
        assert(c.gate_seq() =~= old(c).gate_seq().push(c.gate_seq().last()));
    }
    out
}

/// The gates of a multiplexer whose fresh wires start at `w`.
pub open spec fn mux_gates(sel: Wire, a: Wire, b: Wire, w: usize) -> Seq<(GateKind, Seq<Wire>, Wire)> {
    seq![
        gview(GateKind::Xor, seq![a, b], w),
        gview(GateKind::And, seq![Wire::spec_new(w), sel], (w + 1) as usize),
        gview(GateKind::Xor, seq![a, Wire::spec_new((w + 1) as usize)], (w + 2) as usize),
    ]
}

/// Return `a` if `sel` is false, `b` if `sel` is true.
pub fn mux(c: &mut Circuit, sel: Wire, a: Wire, b: Wire) -> (out: Wire)
    requires
        old(c).wires() + 3 <= usize::MAX,
    ensures
        out == Wire::spec_new((old(c).wires() + 2) as usize),
        final(c).wires() == old(c).wires() + 3,
        gate_views(final(c).gate_seq()) == gate_views(old(c).gate_seq()) + mux_gates(
            sel,
            a,
            b,
            old(c).wires() as usize,
        ),
{
    let diff = xor(c, a, b);
    let masked = and(c, diff, sel);
    let out = xor(c, a, masked);
    assert(gate_views(c.gate_seq()) =~= gate_views(old(c).gate_seq()) + mux_gates(
        sel,
        a,
        b,
        old(c).wires() as usize,
    ));
    out
}

/// The gates of a conditional swap whose fresh wires start at `w`.
pub open spec fn swap_gates(sel: Wire, a: Wire, b: Wire, w: usize) -> Seq<(GateKind, Seq<Wire>, Wire)> {
    seq![
        gview(GateKind::Xor, seq![a, b], w),
        gview(GateKind::And, seq![Wire::spec_new(w), sel], (w + 1) as usize),
        gview(GateKind::Xor, seq![a, Wire::spec_new((w + 1) as usize)], (w + 2) as usize),
        gview(GateKind::Xor, seq![b, Wire::spec_new((w + 1) as usize)], (w + 3) as usize),
    ]
}

/// Conditionally swap two wires if `sel` is true, returning the pair in the new order.
pub fn swap_if(c: &mut Circuit, sel: Wire, a: Wire, b: Wire) -> (r: (Wire, Wire))
    requires
        old(c).wires() + 4 <= usize::MAX,
    ensures
        r.0 == Wire::spec_new((old(c).wires() + 2) as usize),
        r.1 == Wire::spec_new((old(c).wires() + 3) as usize),
        final(c).wires() == old(c).wires() + 4,
        gate_views(final(c).gate_seq()) == gate_views(old(c).gate_seq()) + swap_gates(
            sel,
            a,
            b,
            old(c).wires() as usize,
        ),
{
    let diff = xor(c, a, b);
    let masked = and(c, diff, sel);
    let a_out = xor(c, a, masked);
    let b_out = xor(c, b, masked);
    assert(gate_views(c.gate_seq()) =~= gate_views(old(c).gate_seq()) + swap_gates(
        sel,
        a,
        b,
        old(c).wires() as usize,
    ));
    (a_out, b_out)
}

/// A wire that is public or was allocated before `w`.
pub open spec fn older_than(x: Wire, w: usize) -> bool {
    x.public is Some || x.id < w
}

/// Evaluating the multiplexer gates yields `b` when `sel` holds and `a`
/// otherwise, for inputs allocated before the multiplexer.
pub proof fn lemma_mux_value(env: Map<usize, bool>, gs: Seq<Gate>, sel: Wire, a: Wire, b: Wire, w: usize)
    requires
        gate_views(gs) == mux_gates(sel, a, b, w),
        w + 3 <= usize::MAX,
        older_than(sel, w),
        older_than(a, w),
        older_than(b, w),
    ensures
        ({
            let e = eval_gates(env, gs);
            wire_value(e, Wire::spec_new((w + 2) as usize)) == if wire_value(env, sel) {
                wire_value(env, b)
            } else {
                wire_value(env, a)
            }
        }),
{
    assert(mux_gates(sel, a, b, w).len() == 3);
    assert(gate_views(gs).len() == gs.len());
    assert(gs.len() == 3);
    assert(gs[0]@ == gate_views(gs)[0]);
    assert(gs[1]@ == gate_views(gs)[1]);
    assert(gs[2]@ == gate_views(gs)[2]);
    assert(gs.take(1).drop_last() =~= Seq::<Gate>::empty());
    assert(gs.take(2).drop_last() =~= gs.take(1));
    assert(gs.drop_last() =~= gs.take(2));
    assert(gs.take(1).last() == gs[0]);
    assert(gs.take(2).last() == gs[1]);
    reveal_with_fuel(eval_gates, 4);
}

/// Evaluating the swap gates yields `(b, a)` when `sel` holds and `(a, b)`
/// otherwise, for inputs allocated before the swap.
pub proof fn lemma_swap_value(env: Map<usize, bool>, gs: Seq<Gate>, sel: Wire, a: Wire, b: Wire, w: usize)
    requires
        gate_views(gs) == swap_gates(sel, a, b, w),
        w + 4 <= usize::MAX,
        older_than(sel, w),
        older_than(a, w),
        older_than(b, w),
    ensures
        ({
            let e = eval_gates(env, gs);
            &&& wire_value(e, Wire::spec_new((w + 2) as usize)) == if wire_value(env, sel) {
                wire_value(env, b)
            } else {
                wire_value(env, a)
            }
            &&& wire_value(e, Wire::spec_new((w + 3) as usize)) == if wire_value(env, sel) {
                wire_value(env, a)
            } else {
                wire_value(env, b)
            }
        }),
{
    assert(swap_gates(sel, a, b, w).len() == 4);
    assert(gate_views(gs).len() == gs.len());
    assert(gs.len() == 4);
    assert(gs[0]@ == gate_views(gs)[0]);
    assert(gs[1]@ == gate_views(gs)[1]);
    assert(gs[2]@ == gate_views(gs)[2]);
    assert(gs[3]@ == gate_views(gs)[3]);
    assert(gs.take(1).drop_last() =~= Seq::<Gate>::empty());
    assert(gs.take(2).drop_last() =~= gs.take(1));
    assert(gs.take(3).drop_last() =~= gs.take(2));
    assert(gs.drop_last() =~= gs.take(3));
    assert(gs.take(1).last() == gs[0]);
    assert(gs.take(2).last() == gs[1]);
    assert(gs.take(3).last() == gs[2]);
    reveal_with_fuel(eval_gates, 5);
}


/// The running accumulator of the equality gadget after `i` bits.
pub open spec fn eq_acc(acc0: Wire, w: usize, i: nat) -> Wire {
    if i == 0 {
        acc0
    } else {
        Wire::spec_new((w + 3 * (i - 1) + 2) as usize)
    }
}

/// The gates of the equality gadget over `a` and `b`, starting from the
/// accumulator `acc0`, with fresh wires from `w`.
pub open spec fn eq_gates(a: Seq<Wire>, b: Seq<Wire>, acc0: Wire, w: usize) -> Seq<(GateKind, Seq<Wire>, Wire)>
    decreases a.len(),
{
    if a.len() == 0 {
        seq![]
    } else {
        let i = (a.len() - 1) as nat;
        let x = (w + 3 * i) as usize;
        eq_gates(a.drop_last(), b.drop_last(), acc0, w) + seq![
            gview(GateKind::Xor, seq![a[i as int], b[i as int]], x),
            gview(GateKind::Not, seq![Wire::spec_new(x)], (x + 1) as usize),
            gview(GateKind::And, seq![eq_acc(acc0, w, i), Wire::spec_new((x + 1) as usize)], (x + 2) as usize),
        ]
    }
}

/// Compute equality over two equal-length bit-vectors (little-endian).
pub fn eq(c: &mut Circuit, a: &[Wire], b: &[Wire]) -> (out: Wire)
    requires
        a@.len() == b@.len(),
        old(c).wires() + 1 + 3 * a@.len() <= usize::MAX,
    ensures
        out == eq_acc(Wire::spec_public(old(c).wires() as usize, true), (old(c).wires() + 1) as usize, a@.len()),
        final(c).wires() == old(c).wires() + 1 + 3 * a@.len(),
        gate_views(final(c).gate_seq()) == gate_views(old(c).gate_seq()) + eq_gates(
            a@,
            b@,
            Wire::spec_public(old(c).wires() as usize, true),
            (old(c).wires() + 1) as usize,
        ),
{
    let mut acc = c.public_wire(true);
    let ghost acc0 = acc;
    let ghost w = (old(c).wires() + 1) as usize;
    let ghost base = gate_views(old(c).gate_seq());
    let mut i: usize = 0;
    assert(a@.take(0) =~= Seq::<Wire>::empty());
    assert(base + eq_gates(a@.take(0), b@.take(0), acc0, w) =~= base);
    while i < a.len()
        invariant
            i <= a@.len() == b@.len(),
            acc0 == Wire::spec_public(old(c).wires() as usize, true),
            w == old(c).wires() + 1,
            w + 3 * a@.len() <= usize::MAX,
            base == gate_views(old(c).gate_seq()),
            c.wires() == w + 3 * i,
            acc == eq_acc(acc0, w, i as nat),
            gate_views(c.gate_seq()) == base + eq_gates(a@.take(i as int), b@.take(i as int), acc0, w),
        decreases a.len() - i,
    {
        let ghost before = gate_views(c.gate_seq());
        let x = xor(c, a[i], b[i]);
        let nx = not(c, x);
        acc = and(c, acc, nx);
        proof {
            let ai = a@.take(i + 1);
            let bi = b@.take(i + 1);
            assert(ai.drop_last() =~= a@.take(i as int));
            assert(bi.drop_last() =~= b@.take(i as int));
            assert(ai[i as int] == a@[i as int]);
            assert(bi[i as int] == b@[i as int]);
            assert(gate_views(c.gate_seq()) =~= base + eq_gates(ai, bi, acc0, w));
        }
        i = i + 1;
    }
    assert(a@.take(i as int) =~= a@);
    assert(b@.take(i as int) =~= b@);
    acc
}

/// The carry entering bit `i` of the ripple-carry adder.
pub open spec fn add_carry(c0: Wire, w: usize, i: nat) -> Wire {
    if i == 0 {
        c0
    } else {
        Wire::spec_new((w + 5 * (i - 1) + 4) as usize)
    }
}

/// The gates of the ripple-carry adder over `a` and `b`, with carry-in
/// `c0` and fresh wires from `w`: per bit `t = a^b`, `sum = t^carry`,
/// `t2 = t&carry`, `t3 = a&b`, `carry' = t2^t3`.
pub open spec fn add_gates(a: Seq<Wire>, b: Seq<Wire>, c0: Wire, w: usize) -> Seq<(GateKind, Seq<Wire>, Wire)>
    decreases a.len(),
{
    if a.len() == 0 {
        seq![]
    } else {
        let i = (a.len() - 1) as nat;
        let x = (w + 5 * i) as usize;
        let cin = add_carry(c0, w, i);
        add_gates(a.drop_last(), b.drop_last(), c0, w) + seq![
            gview(GateKind::Xor, seq![a[i as int], b[i as int]], x),
            gview(GateKind::Xor, seq![Wire::spec_new(x), cin], (x + 1) as usize),
            gview(GateKind::And, seq![Wire::spec_new(x), cin], (x + 2) as usize),
            gview(GateKind::And, seq![a[i as int], b[i as int]], (x + 3) as usize),
            gview(GateKind::Xor, seq![Wire::spec_new((x + 2) as usize), Wire::spec_new((x + 3) as usize)], (x + 4) as usize),
        ]
    }
}

/// Ripple-carry add two equal-length little-endian bit-vectors; returns
/// the sum bits and the carry out.
pub fn add(c: &mut Circuit, a: &[Wire], b: &[Wire]) -> (r: (Vec<Wire>, Wire))
    requires
        a@.len() == b@.len(),
        old(c).wires() + 1 + 5 * a@.len() <= usize::MAX,
    ensures
        r.1 == add_carry(Wire::spec_public(old(c).wires() as usize, false), (old(c).wires() + 1) as usize, a@.len()),
        r.0@.len() == a@.len(),
        forall|i: int| 0 <= i < a@.len() ==> #[trigger] r.0@[i] == Wire::spec_new((old(c).wires() + 1 + 5 * i + 1) as usize),
        final(c).wires() == old(c).wires() + 1 + 5 * a@.len(),
        gate_views(final(c).gate_seq()) == gate_views(old(c).gate_seq()) + add_gates(
            a@,
            b@,
            Wire::spec_public(old(c).wires() as usize, false),
            (old(c).wires() + 1) as usize,
        ),
{
    let mut carry = c.public_wire(false);
    let ghost c0 = carry;
    let ghost w = (old(c).wires() + 1) as usize;
    let ghost base = gate_views(old(c).gate_seq());
    let mut out: Vec<Wire> = Vec::new();
    let mut i: usize = 0;
    assert(a@.take(0) =~= Seq::<Wire>::empty());
    assert(base + add_gates(a@.take(0), b@.take(0), c0, w) =~= base);
    while i < a.len()
        invariant
            i <= a@.len() == b@.len(),
            c0 == Wire::spec_public(old(c).wires() as usize, false),
            w == old(c).wires() + 1,
            w + 5 * a@.len() <= usize::MAX,
            base == gate_views(old(c).gate_seq()),
            c.wires() == w + 5 * i,
            carry == add_carry(c0, w, i as nat),
            out@.len() == i,
            forall|k: int| 0 <= k < i ==> #[trigger] out@[k] == Wire::spec_new((w + 5 * k + 1) as usize),
            gate_views(c.gate_seq()) == base + add_gates(a@.take(i as int), b@.take(i as int), c0, w),
        decreases a.len() - i,
    {
        let t = xor(c, a[i], b[i]);
        let sum = xor(c, t, carry);
        let t2 = and(c, t, carry);
        let t3 = and(c, a[i], b[i]);
        carry = xor(c, t2, t3);
        out.push(sum);
        proof {
            let ai = a@.take(i + 1);
            let bi = b@.take(i + 1);
            assert(ai.drop_last() =~= a@.take(i as int));
            assert(bi.drop_last() =~= b@.take(i as int));
            assert(ai[i as int] == a@[i as int]);
            assert(bi[i as int] == b@[i as int]);
            assert(gate_views(c.gate_seq()) =~= base + add_gates(ai, bi, c0, w));
        }
        i = i + 1;
    }
    assert(a@.take(i as int) =~= a@);
    assert(b@.take(i as int) =~= b@);
    (out, carry)
}

} // verus!
