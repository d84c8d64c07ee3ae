//! What the equality and ripple-carry gadgets compute: their gates,
//! evaluated on any assignment of their input wires, give equality of the
//! two bit vectors and their sum.

use vstd::prelude::*;
use vstd::arithmetic::power2::{lemma_pow2_unfold, pow2};
use crate::execution::{eval_gates, gate_value, wire_value};
use crate::circuit::count_kind;
use crate::gadgets::{add_carry, add_gates, eq_acc, eq_gates, gview, older_than, swap_gates};
use crate::gate::{gate_views, Gate, GateKind};
use crate::wire::Wire;

verus! {

/// The value a gate, given by its view, computes in `env`.
pub open spec fn view_value(env: Map<usize, bool>, v: (GateKind, Seq<Wire>, Wire)) -> bool {
    match v.0 {
        GateKind::And => wire_value(env, v.1[0]) && wire_value(env, v.1[1]),
        GateKind::Xor => wire_value(env, v.1[0]) != wire_value(env, v.1[1]),
        GateKind::Not => !wire_value(env, v.1[0]),
    }
}

/// Evaluation of gates given by their views, as `eval_gates` does.
pub open spec fn eval_views(env: Map<usize, bool>, vs: Seq<(GateKind, Seq<Wire>, Wire)>) -> Map<usize, bool>
    decreases vs.len(),
{
    if vs.len() == 0 {
        env
    } else {
        let e = eval_views(env, vs.drop_last());
        e.insert(vs.last().2.id, view_value(e, vs.last()))
    }
}

/// Evaluating gates depends only on their views.
pub proof fn lemma_eval_views(env: Map<usize, bool>, gs: Seq<Gate>)
    ensures
        eval_gates(env, gs) == eval_views(env, gate_views(gs)),
    decreases gs.len(),
{
    if gs.len() > 0 {
        assert(gate_views(gs).drop_last() =~= gate_views(gs.drop_last()));
        lemma_eval_views(env, gs.drop_last());
        let e = eval_gates(env, gs.drop_last());
        assert(gate_value(e, gs.last()) == view_value(e, gate_views(gs).last()));
    }
}

proof fn lemma_eval_views_concat(env: Map<usize, bool>, v1: Seq<(GateKind, Seq<Wire>, Wire)>, v2: Seq<(GateKind, Seq<Wire>, Wire)>)
    ensures
        eval_views(env, v1 + v2) == eval_views(eval_views(env, v1), v2),
    decreases v2.len(),
{
    if v2.len() == 0 {
        assert(v1 + v2 =~= v1);
    } else {
        assert((v1 + v2).drop_last() =~= v1 + v2.drop_last());
        lemma_eval_views_concat(env, v1, v2.drop_last());
    }
}

/// Gates whose outputs all lie at or after `w` leave every wire before
/// `w` as it was.
proof fn lemma_eval_views_frame(env: Map<usize, bool>, vs: Seq<(GateKind, Seq<Wire>, Wire)>, w: int, id: usize)
    requires
        forall|k: int| 0 <= k < vs.len() ==> (#[trigger] vs[k]).2.id >= w,
        id < w,
    ensures
        eval_views(env, vs)[id] == env[id],
    decreases vs.len(),
{
    if vs.len() > 0 {
        assert forall|k: int| 0 <= k < vs.drop_last().len() implies (#[trigger] vs.drop_last()[k]).2.id >= w by {
            assert(vs.drop_last()[k] == vs[k]);
        }
        lemma_eval_views_frame(env, vs.drop_last(), w, id);
        assert(vs.last() == vs[vs.len() - 1]);
    }
}

/// A wire older than `w` reads the same after gates writing at or after `w`.
proof fn lemma_older_value(env: Map<usize, bool>, vs: Seq<(GateKind, Seq<Wire>, Wire)>, w: int, x: Wire)
    requires
        forall|k: int| 0 <= k < vs.len() ==> (#[trigger] vs[k]).2.id >= w,
        x.public is Some || x.id < w,
    ensures
        wire_value(eval_views(env, vs), x) == wire_value(env, x),
{
    if x.public is None {
        lemma_eval_views_frame(env, vs, w, x.id);
    }
}

/// Three gates in a row.
proof fn lemma_eval_three(env: Map<usize, bool>, v0: (GateKind, Seq<Wire>, Wire), v1: (GateKind, Seq<Wire>, Wire), v2: (GateKind, Seq<Wire>, Wire))
    ensures
        ({
            let e0 = env.insert(v0.2.id, view_value(env, v0));
            let e1 = e0.insert(v1.2.id, view_value(e0, v1));
            eval_views(env, seq![v0, v1, v2]) == e1.insert(v2.2.id, view_value(e1, v2))
        }),
{
    reveal_with_fuel(eval_views, 4);
    let s = seq![v0, v1, v2];
    assert(s.drop_last() =~= seq![v0, v1]);
    assert(seq![v0, v1].drop_last() =~= seq![v0]);
    assert(seq![v0].drop_last() =~= Seq::<(GateKind, Seq<Wire>, Wire)>::empty());
}

/// Outputs of the equality gadget's gates lie at or after `w`.
proof fn lemma_eq_outputs(a: Seq<Wire>, b: Seq<Wire>, acc0: Wire, w: usize)
    requires
        w + 3 * a.len() <= usize::MAX,
    ensures
        eq_gates(a, b, acc0, w).len() == 3 * a.len(),
        forall|k: int| 0 <= k < eq_gates(a, b, acc0, w).len() ==> (#[trigger] eq_gates(a, b, acc0, w)[k]).2.id >= w
            && eq_gates(a, b, acc0, w)[k].2.id < w + 3 * a.len(),
    decreases a.len(),
{
    if a.len() > 0 {
        lemma_eq_outputs(a.drop_last(), b.drop_last(), acc0, w);
    }
}

/// Inputs older than `w` stay so after dropping the last pair.
proof fn lemma_older_prefix(a: Seq<Wire>, b: Seq<Wire>, w: usize)
    requires
        a.len() == b.len(),
        a.len() > 0,
        forall|i: int| 0 <= i < a.len() ==> older_than(#[trigger] a[i], w) && older_than(b[i], w),
    ensures
        forall|i: int| 0 <= i < a.drop_last().len() ==> older_than(#[trigger] a.drop_last()[i], w)
            && older_than(b.drop_last()[i], w),
{
    assert forall|i: int| 0 <= i < a.drop_last().len() implies older_than(#[trigger] a.drop_last()[i], w)
        && older_than(b.drop_last()[i], w) by {
        assert(a.drop_last()[i] == a[i]);
        assert(b.drop_last()[i] == b[i]);
        assert(older_than(a[i], w));
    }
}

/// The equality gadget computes equality: evaluated in any `env`, its
/// final accumulator is true exactly when every bit of `a` equals the bit
/// of `b` at the same place, for input wires that are public or older
/// than the gadget's first fresh wire `w`, starting from the public true
/// accumulator `acc0`.
#[verifier::spinoff_prover]
pub proof fn lemma_eq_value(env: Map<usize, bool>, a: Seq<Wire>, b: Seq<Wire>, acc0: Wire, w: usize)
    requires
        a.len() == b.len(),
        w + 3 * a.len() <= usize::MAX,
        acc0.public == Some(true),
        forall|i: int| 0 <= i < a.len() ==> older_than(#[trigger] a[i], w) && older_than(b[i], w),
    ensures
        wire_value(eval_views(env, eq_gates(a, b, acc0, w)), eq_acc(acc0, w, a.len()))
            == forall|i: int| 0 <= i < a.len() ==> wire_value(env, #[trigger] a[i]) == wire_value(env, b[i]),
    decreases a.len(),
{
    if a.len() > 0 {
        let n = a.len();
        let i = (n - 1) as nat;
        let a1 = a.drop_last();
        let b1 = b.drop_last();
        lemma_older_prefix(a, b, w);
        lemma_eq_value(env, a1, b1, acc0, w);
        lemma_eq_outputs(a1, b1, acc0, w);
        let g1 = eq_gates(a1, b1, acc0, w);
        let e1 = eval_views(env, g1);
        let x = (w + 3 * i) as usize;
        let v0 = gview(GateKind::Xor, seq![a[i as int], b[i as int]], x);
        let v1 = gview(GateKind::Not, seq![Wire::spec_new(x)], (x + 1) as usize);
        let v2 = gview(GateKind::And, seq![eq_acc(acc0, w, i), Wire::spec_new((x + 1) as usize)], (x + 2) as usize);
        assert(eq_gates(a, b, acc0, w) == g1 + seq![v0, v1, v2]);
        lemma_eval_views_concat(env, g1, seq![v0, v1, v2]);
        lemma_eval_three(e1, v0, v1, v2);
        // The inputs read the same before and after the earlier bits.
        assert forall|k: int| 0 <= k < g1.len() implies (#[trigger] g1[k]).2.id >= w by {}
        lemma_older_value(env, g1, w as int, a[i as int]);
        lemma_older_value(env, g1, w as int, b[i as int]);
        assert forall|k: int| 0 <= k < n implies (wire_value(env, #[trigger] a[k]) == wire_value(env, b[k])) == (if k < i {
            wire_value(env, a1[k]) == wire_value(env, b1[k])
        } else {
            wire_value(env, a[i as int]) == wire_value(env, b[i as int])
        }) by {
            if k < i {
                assert(a1[k] == a[k] && b1[k] == b[k]);
            }
        }
        let acc = eq_acc(acc0, w, i);
        let e_0 = e1.insert(x, view_value(e1, v0));
        let e_1 = e_0.insert((x + 1) as usize, view_value(e_0, v1));
        assert(wire_value(e_1, acc) == wire_value(e1, acc));
        if (forall|k: int| 0 <= k < n ==> wire_value(env, #[trigger] a[k]) == wire_value(env, b[k])) {
            assert forall|k: int| 0 <= k < a1.len() implies wire_value(env, #[trigger] a1[k]) == wire_value(env, b1[k]) by {
                assert(a1[k] == a[k] && b1[k] == b[k]);
                assert(wire_value(env, a[k]) == wire_value(env, b[k]));
            }
            assert(wire_value(env, a[i as int]) == wire_value(env, b[i as int]));
        } else {
            let k = choose|k: int| 0 <= k < n && !(wire_value(env, #[trigger] a[k]) == wire_value(env, b[k]));
            if k < i {
                assert(a1[k] == a[k] && b1[k] == b[k]);
            }
        }
    }
}

/// The equality law over the gates the builder appends.
pub proof fn lemma_eq_gadget(env: Map<usize, bool>, gs: Seq<Gate>, a: Seq<Wire>, b: Seq<Wire>, acc0: Wire, w: usize)
    requires
        gate_views(gs) == eq_gates(a, b, acc0, w),
        a.len() == b.len(),
        w + 3 * a.len() <= usize::MAX,
        acc0.public == Some(true),
        forall|i: int| 0 <= i < a.len() ==> older_than(#[trigger] a[i], w) && older_than(b[i], w),
    ensures
        wire_value(eval_gates(env, gs), eq_acc(acc0, w, a.len()))
            == forall|i: int| 0 <= i < a.len() ==> wire_value(env, #[trigger] a[i]) == wire_value(env, b[i]),
{
    lemma_eval_views(env, gs);
    lemma_eq_value(env, a, b, acc0, w);
}

// ---------------------------------------------------------------------------
// Ripple-carry addition.

/// The number whose little-endian bits are the values of `ws` in `env`.
pub open spec fn wires_num(env: Map<usize, bool>, ws: Seq<Wire>) -> nat
    decreases ws.len(),
{
    if ws.len() == 0 {
        0
    } else {
        wires_num(env, ws.drop_last()) + (if wire_value(env, ws.last()) { pow2((ws.len() - 1) as nat) } else { 0 })
    }
}

/// The sum wires of an adder with fresh wires from `w`.
pub open spec fn add_sums(w: usize, n: nat) -> Seq<Wire> {
    Seq::new(n, |i: int| Wire::spec_new((w + 5 * i + 1) as usize))
}

proof fn lemma_add_outputs(a: Seq<Wire>, b: Seq<Wire>, c0: Wire, w: usize)
    requires
        w + 5 * a.len() <= usize::MAX,
    ensures
        add_gates(a, b, c0, w).len() == 5 * a.len(),
        forall|k: int| 0 <= k < add_gates(a, b, c0, w).len() ==> (#[trigger] add_gates(a, b, c0, w)[k]).2.id >= w
            && add_gates(a, b, c0, w)[k].2.id < w + 5 * a.len(),
    decreases a.len(),
{
    if a.len() > 0 {
        lemma_add_outputs(a.drop_last(), b.drop_last(), c0, w);
    }
}

/// A wires number depends only on the values its wires read.
proof fn lemma_wires_num_same(e1: Map<usize, bool>, e2: Map<usize, bool>, ws: Seq<Wire>)
    requires
        forall|k: int| 0 <= k < ws.len() ==> wire_value(e1, #[trigger] ws[k]) == wire_value(e2, ws[k]),
    ensures
        wires_num(e1, ws) == wires_num(e2, ws),
    decreases ws.len(),
{
    if ws.len() > 0 {
        assert forall|k: int| 0 <= k < ws.drop_last().len() implies wire_value(e1, #[trigger] ws.drop_last()[k])
            == wire_value(e2, ws.drop_last()[k]) by {
            assert(ws.drop_last()[k] == ws[k]);
        }
        lemma_wires_num_same(e1, e2, ws.drop_last());
        assert(ws.last() == ws[ws.len() - 1]);
    }
}

/// One full adder: sum and twice the carry out make the inputs' sum.
proof fn lemma_full_adder(x: bool, y: bool, c: bool, p: nat)
    ensures
        (if (x != y) != c { p } else { 0nat }) + 2 * (if ((x != y) && c) != (x && y) { p } else { 0nat })
            == (if x { p } else { 0nat }) + (if y { p } else { 0nat }) + (if c { p } else { 0nat }),
{
}

/// The ripple-carry adder adds: evaluated in any `env`, its sum bits and
/// carry out, weighted by powers of two, make the sum of the numbers whose
/// bits are `a` and `b`, for input wires that are public or older than
/// the gadget's first fresh wire `w`, starting from the public false
/// carry `c0`.
#[verifier::spinoff_prover]
pub proof fn lemma_add_value(env: Map<usize, bool>, a: Seq<Wire>, b: Seq<Wire>, c0: Wire, w: usize)
    requires
        a.len() == b.len(),
        w + 5 * a.len() <= usize::MAX,
        c0.public == Some(false),
        forall|i: int| 0 <= i < a.len() ==> older_than(#[trigger] a[i], w) && older_than(b[i], w),
    ensures
        ({
            let e = eval_views(env, add_gates(a, b, c0, w));
            wires_num(e, add_sums(w, a.len())) + (if wire_value(e, add_carry(c0, w, a.len())) { pow2(a.len()) } else { 0 })
                == wires_num(env, a) + wires_num(env, b)
        }),
    decreases a.len(),
{
    let n = a.len();
    if n == 0 {
        assert(add_sums(w, 0) =~= Seq::<Wire>::empty());
    } else {
        let i = (n - 1) as nat;
        let a1 = a.drop_last();
        let b1 = b.drop_last();
        lemma_older_prefix(a, b, w);
        lemma_add_value(env, a1, b1, c0, w);
        lemma_add_outputs(a1, b1, c0, w);
        let g1 = add_gates(a1, b1, c0, w);
        let e1 = eval_views(env, g1);
        let x = (w + 5 * i) as usize;
        let cin = add_carry(c0, w, i);
        let ai = a[i as int];
        let bi = b[i as int];
        let v0 = gview(GateKind::Xor, seq![ai, bi], x);
        let v1 = gview(GateKind::Xor, seq![Wire::spec_new(x), cin], (x + 1) as usize);
        let v2 = gview(GateKind::And, seq![Wire::spec_new(x), cin], (x + 2) as usize);
        let v3 = gview(GateKind::And, seq![ai, bi], (x + 3) as usize);
        let v4 = gview(GateKind::Xor, seq![Wire::spec_new((x + 2) as usize), Wire::spec_new((x + 3) as usize)], (x + 4) as usize);
        let tail = seq![v0, v1, v2, v3, v4];
        assert(add_gates(a, b, c0, w) == g1 + tail);
        lemma_eval_views_concat(env, g1, tail);
        let e = eval_views(env, add_gates(a, b, c0, w));
        assert(e == eval_views(e1, tail));
        // The five new gates, one at a time.
        assert(tail.drop_last() =~= seq![v0, v1, v2, v3]);
        assert(seq![v0, v1, v2, v3].drop_last() =~= seq![v0, v1, v2]);
        lemma_eval_three(e1, v0, v1, v2);
        let f0 = e1.insert(x, view_value(e1, v0));
        let f1 = f0.insert((x + 1) as usize, view_value(f0, v1));
        let f2 = f1.insert((x + 2) as usize, view_value(f1, v2));
        let f3 = f2.insert((x + 3) as usize, view_value(f2, v3));
        assert(eval_views(e1, seq![v0, v1, v2, v3]) == f3);
        assert(e == f3.insert((x + 4) as usize, view_value(f3, v4)));
        // Inputs and the carry in read as before.
        assert forall|k: int| 0 <= k < g1.len() implies (#[trigger] g1[k]).2.id >= w by {}
        lemma_older_value(env, g1, w as int, ai);
        lemma_older_value(env, g1, w as int, bi);
        let va = wire_value(env, ai);
        let vb = wire_value(env, bi);
        let vc = wire_value(e1, cin);
        assert(cin.public is Some || cin.id < x);
        assert(wire_value(f0, cin) == vc);
        assert(wire_value(f1, cin) == vc);
        assert(wire_value(f0, ai) == va && wire_value(f0, bi) == vb) by {
            assert(ai.public is Some || ai.id < x);
            assert(bi.public is Some || bi.id < x);
        }
        assert(wire_value(f2, ai) == va && wire_value(f2, bi) == vb) by {
            assert(ai.public is Some || ai.id < x);
            assert(bi.public is Some || bi.id < x);
        }
        let s = (va != vb) != vc;
        let cout = ((va != vb) && vc) != (va && vb);
        assert(wire_value(e, Wire::spec_new((x + 1) as usize)) == s);
        assert(wire_value(e, add_carry(c0, w, n)) == cout);
        // The earlier sum bits read as before.
        let sums = add_sums(w, n);
        let sums1 = add_sums(w, i);
        assert(sums.drop_last() =~= sums1);
        assert forall|k: int| 0 <= k < sums1.len() implies wire_value(e, #[trigger] sums1[k]) == wire_value(e1, sums1[k]) by {
            lemma_eval_views_frame(e1, tail, x as int, sums1[k].id);
        }
        lemma_wires_num_same(e, e1, sums1);
        assert(sums.last() == Wire::spec_new((x + 1) as usize));
        assert(a.drop_last() == a1 && b.drop_last() == b1);
        lemma_pow2_unfold(n);
        lemma_full_adder(va, vb, vc, pow2(i));
    }
}

/// The addition law over the gates the builder appends.
pub proof fn lemma_add_gadget(env: Map<usize, bool>, gs: Seq<Gate>, a: Seq<Wire>, b: Seq<Wire>, c0: Wire, w: usize)
    requires
        gate_views(gs) == add_gates(a, b, c0, w),
        a.len() == b.len(),
        w + 5 * a.len() <= usize::MAX,
        c0.public == Some(false),
        forall|i: int| 0 <= i < a.len() ==> older_than(#[trigger] a[i], w) && older_than(b[i], w),
    ensures
        ({
            let e = eval_gates(env, gs);
            wires_num(e, add_sums(w, a.len())) + (if wire_value(e, add_carry(c0, w, a.len())) { pow2(a.len()) } else { 0 })
                == wires_num(env, a) + wires_num(env, b)
        }),
{
    lemma_eval_views(env, gs);
    lemma_add_value(env, a, b, c0, w);
}

// ---------------------------------------------------------------------------
// Gate counts.

/// The number of gates of kind `k` among views.
pub open spec fn view_count(vs: Seq<(GateKind, Seq<Wire>, Wire)>, k: GateKind) -> nat
    decreases vs.len(),
{
    if vs.len() == 0 {
        0
    } else {
        view_count(vs.drop_last(), k) + if vs.last().0 == k { 1nat } else { 0nat }
    }
}

proof fn lemma_count_views(gs: Seq<Gate>, k: GateKind)
    ensures
        count_kind(gs, k) == view_count(gate_views(gs), k),
    decreases gs.len(),
{
    if gs.len() > 0 {
        assert(gate_views(gs).drop_last() =~= gate_views(gs.drop_last()));
        lemma_count_views(gs.drop_last(), k);
    }
}

proof fn lemma_view_count_concat(v1: Seq<(GateKind, Seq<Wire>, Wire)>, v2: Seq<(GateKind, Seq<Wire>, Wire)>, k: GateKind)
    ensures
        view_count(v1 + v2, k) == view_count(v1, k) + view_count(v2, k),
    decreases v2.len(),
{
    if v2.len() == 0 {
        assert(v1 + v2 =~= v1);
    } else {
        assert((v1 + v2).drop_last() =~= v1 + v2.drop_last());
        lemma_view_count_concat(v1, v2.drop_last(), k);
    }
}

proof fn lemma_eq_view_counts(a: Seq<Wire>, b: Seq<Wire>, acc0: Wire, w: usize)
    ensures
        view_count(eq_gates(a, b, acc0, w), GateKind::And) == a.len(),
        view_count(eq_gates(a, b, acc0, w), GateKind::Xor) == a.len(),
        view_count(eq_gates(a, b, acc0, w), GateKind::Not) == a.len(),
    decreases a.len(),
{
    if a.len() > 0 {
        let i = (a.len() - 1) as nat;
        let x = (w + 3 * i) as usize;
        let tail = seq![
            gview(GateKind::Xor, seq![a[i as int], b[i as int]], x),
            gview(GateKind::Not, seq![Wire::spec_new(x)], (x + 1) as usize),
            gview(GateKind::And, seq![eq_acc(acc0, w, i), Wire::spec_new((x + 1) as usize)], (x + 2) as usize),
        ];
        lemma_eq_view_counts(a.drop_last(), b.drop_last(), acc0, w);
        assert(tail.drop_last().drop_last().drop_last() =~= Seq::<(GateKind, Seq<Wire>, Wire)>::empty());
        reveal_with_fuel(view_count, 4);
        lemma_view_count_concat(eq_gates(a.drop_last(), b.drop_last(), acc0, w), tail, GateKind::And);
        lemma_view_count_concat(eq_gates(a.drop_last(), b.drop_last(), acc0, w), tail, GateKind::Xor);
        lemma_view_count_concat(eq_gates(a.drop_last(), b.drop_last(), acc0, w), tail, GateKind::Not);
    }
}

proof fn lemma_add_view_counts(a: Seq<Wire>, b: Seq<Wire>, c0: Wire, w: usize)
    ensures
        view_count(add_gates(a, b, c0, w), GateKind::And) == 2 * a.len(),
        view_count(add_gates(a, b, c0, w), GateKind::Xor) == 3 * a.len(),
        view_count(add_gates(a, b, c0, w), GateKind::Not) == 0,
    decreases a.len(),
{
    if a.len() > 0 {
        let i = (a.len() - 1) as nat;
        let x = (w + 5 * i) as usize;
        let cin = add_carry(c0, w, i);
        let tail = seq![
            gview(GateKind::Xor, seq![a[i as int], b[i as int]], x),
            gview(GateKind::Xor, seq![Wire::spec_new(x), cin], (x + 1) as usize),
            gview(GateKind::And, seq![Wire::spec_new(x), cin], (x + 2) as usize),
            gview(GateKind::And, seq![a[i as int], b[i as int]], (x + 3) as usize),
            gview(GateKind::Xor, seq![Wire::spec_new((x + 2) as usize), Wire::spec_new((x + 3) as usize)], (x + 4) as usize),
        ];
        lemma_add_view_counts(a.drop_last(), b.drop_last(), c0, w);
        reveal_with_fuel(view_count, 6);
        assert(tail.drop_last().drop_last().drop_last().drop_last().drop_last() =~= Seq::<(GateKind, Seq<Wire>, Wire)>::empty());
        lemma_view_count_concat(add_gates(a.drop_last(), b.drop_last(), c0, w), tail, GateKind::And);
        lemma_view_count_concat(add_gates(a.drop_last(), b.drop_last(), c0, w), tail, GateKind::Xor);
        lemma_view_count_concat(add_gates(a.drop_last(), b.drop_last(), c0, w), tail, GateKind::Not);
    }
}

/// The equality gadget appends `n` AND, `n` XOR and `n` NOT gates to the
/// gates `before` it found.
pub proof fn lemma_eq_gadget_counts(before: Seq<Gate>, after: Seq<Gate>, a: Seq<Wire>, b: Seq<Wire>, acc0: Wire, w: usize)
    requires
        gate_views(after) == gate_views(before) + eq_gates(a, b, acc0, w),
    ensures
        count_kind(after, GateKind::And) == count_kind(before, GateKind::And) + a.len(),
        count_kind(after, GateKind::Xor) == count_kind(before, GateKind::Xor) + a.len(),
        count_kind(after, GateKind::Not) == count_kind(before, GateKind::Not) + a.len(),
{
    lemma_eq_view_counts(a, b, acc0, w);
    lemma_count_views(after, GateKind::And);
    lemma_count_views(after, GateKind::Xor);
    lemma_count_views(after, GateKind::Not);
    lemma_count_views(before, GateKind::And);
    lemma_count_views(before, GateKind::Xor);
    lemma_count_views(before, GateKind::Not);
    lemma_view_count_concat(gate_views(before), eq_gates(a, b, acc0, w), GateKind::And);
    lemma_view_count_concat(gate_views(before), eq_gates(a, b, acc0, w), GateKind::Xor);
    lemma_view_count_concat(gate_views(before), eq_gates(a, b, acc0, w), GateKind::Not);
}

/// The ripple-carry adder appends `2n` AND and `3n` XOR gates and no NOT
/// gate to the gates `before` it found.
pub proof fn lemma_add_gadget_counts(before: Seq<Gate>, after: Seq<Gate>, a: Seq<Wire>, b: Seq<Wire>, c0: Wire, w: usize)
    requires
        gate_views(after) == gate_views(before) + add_gates(a, b, c0, w),
    ensures
        count_kind(after, GateKind::And) == count_kind(before, GateKind::And) + 2 * a.len(),
        count_kind(after, GateKind::Xor) == count_kind(before, GateKind::Xor) + 3 * a.len(),
        count_kind(after, GateKind::Not) == count_kind(before, GateKind::Not),
{
    lemma_add_view_counts(a, b, c0, w);
    lemma_count_views(after, GateKind::And);
    lemma_count_views(after, GateKind::Xor);
    lemma_count_views(after, GateKind::Not);
    lemma_count_views(before, GateKind::And);
    lemma_count_views(before, GateKind::Xor);
    lemma_count_views(before, GateKind::Not);
    lemma_view_count_concat(gate_views(before), add_gates(a, b, c0, w), GateKind::And);
    lemma_view_count_concat(gate_views(before), add_gates(a, b, c0, w), GateKind::Xor);
    lemma_view_count_concat(gate_views(before), add_gates(a, b, c0, w), GateKind::Not);
}

/// The conditional swap appends one AND and three XOR gates and no NOT
/// gate to the gates `before` it found.
pub proof fn lemma_swap_gadget_counts(before: Seq<Gate>, after: Seq<Gate>, sel: Wire, a: Wire, b: Wire, w: usize)
    requires
        gate_views(after) == gate_views(before) + swap_gates(sel, a, b, w),
    ensures
        count_kind(after, GateKind::And) == count_kind(before, GateKind::And) + 1,
        count_kind(after, GateKind::Xor) == count_kind(before, GateKind::Xor) + 3,
        count_kind(after, GateKind::Not) == count_kind(before, GateKind::Not),
{
    let sg = swap_gates(sel, a, b, w);
    reveal_with_fuel(view_count, 5);
    assert(sg.drop_last().drop_last().drop_last().drop_last() =~= Seq::<(GateKind, Seq<Wire>, Wire)>::empty());
    lemma_count_views(after, GateKind::And);
    lemma_count_views(after, GateKind::Xor);
    lemma_count_views(after, GateKind::Not);
    lemma_count_views(before, GateKind::And);
    lemma_count_views(before, GateKind::Xor);
    lemma_count_views(before, GateKind::Not);
    lemma_view_count_concat(gate_views(before), sg, GateKind::And);
    lemma_view_count_concat(gate_views(before), sg, GateKind::Xor);
    lemma_view_count_concat(gate_views(before), sg, GateKind::Not);
}

} // verus!
