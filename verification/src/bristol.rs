//! Bristol-format circuit parser.
//!
//! The text is read as its UTF-8 bytes: it is cut into lines at `\n`, each
//! line into tokens at the characters that `char::is_whitespace` accepts,
//! and numbers are read as Rust reads a `usize` (an optional `+`, then
//! decimal digits, no overflow).

use vstd::prelude::*;
use vstd::string::StringSliceAdditionalSpecFns;
use crate::circuit::Circuit;
use crate::gate::{gate_views, Gate, GateKind};
use crate::wire::Wire;

verus! {

/// Summary of a parsed Bristol circuit.
#[derive(Clone, Debug, PartialEq, Eq)]
pub struct BristolCircuit {
    /// Number of gates.
    pub gates: usize,
    /// Number of wires.
    pub wires: usize,
    /// Input counts per party (if present).
    pub inputs: Vec<usize>,
    /// Output counts per party (if present).
    pub outputs: Vec<usize>,
}

// ---------------------------------------------------------------------------
// Lexical structure.

/// The UTF-8 length of the whitespace character that starts at byte `i`
/// of `l`, or 0 if none does.  The characters are those `char::is_whitespace`
/// accepts: U+0009 to U+000D and U+0020 (one byte), U+0085 and U+00A0
/// (two bytes), U+1680, U+2000 to U+200A, U+2028, U+2029, U+202F, U+205F
/// and U+3000 (three bytes).  Their lead bytes are never continuation
/// bytes, so in UTF-8 text a match starts on a character boundary.
pub open spec fn ws_len(l: Seq<u8>, i: int) -> nat {
    if i < 0 || i >= l.len() {
        0
    } else {
        let b0 = l[i];
        if b0 == 32 || (9 <= b0 && b0 <= 13) {
            1
        } else if b0 == 0xC2 && i + 1 < l.len() && (l[i + 1] == 0x85 || l[i + 1] == 0xA0) {
            2
        } else if i + 2 < l.len() && ({
            let b1 = l[i + 1];
            let b2 = l[i + 2];
            ||| b0 == 0xE1 && b1 == 0x9A && b2 == 0x80
            ||| b0 == 0xE2 && b1 == 0x80 && ((0x80 <= b2 && b2 <= 0x8A) || b2 == 0xA8 || b2 == 0xA9 || b2 == 0xAF)
            ||| b0 == 0xE2 && b1 == 0x81 && b2 == 0x9F
            ||| b0 == 0xE3 && b1 == 0x80 && b2 == 0x80
        }) {
            3
        } else {
            0
        }
    }
}

pub open spec fn is_nl(b: u8) -> bool {
    b == 10
}

pub open spec fn nl_pred() -> spec_fn(u8) -> bool {
    |b: u8| is_nl(b)
}

/// Index of the first byte of `s` satisfying `p`, or `s.len()` if none does.
pub open spec fn first_where(s: Seq<u8>, p: spec_fn(u8) -> bool) -> nat
    decreases s.len(),
{
    if s.len() == 0 {
        0
    } else if p(s[0]) {
        0
    } else {
        1 + first_where(s.skip(1), p)
    }
}

pub proof fn lemma_first_where_bound(s: Seq<u8>, p: spec_fn(u8) -> bool)
    ensures
        first_where(s, p) <= s.len(),
        s.len() > 0 && !p(s[0]) ==> first_where(s, p) >= 1,
    decreases s.len(),
{
    if s.len() > 0 && !p(s[0]) {
        lemma_first_where_bound(s.skip(1), p);
    }
}

/// `first_where` is the index `k` when no byte before `k` satisfies `p`
/// and `k` is the end or a byte satisfying `p`.
pub proof fn lemma_first_where_at(s: Seq<u8>, p: spec_fn(u8) -> bool, k: int)
    requires
        0 <= k <= s.len(),
        forall|i: int| 0 <= i < k ==> !p(#[trigger] s[i]),
        k == s.len() || p(s[k]),
    ensures
        first_where(s, p) == k,
    decreases k,
{
    if k > 0 {
        let t = s.skip(1);
        assert forall|i: int| 0 <= i < k - 1 implies !p(#[trigger] t[i]) by {
            assert(t[i] == s[i + 1]);
        }
        if k < s.len() {
            assert(t[k - 1] == s[k]);
        }
        lemma_first_where_at(t, p, k - 1);
    }
}

/// The lines of a text, as `str::lines` yields them (carriage returns kept;
/// they count as whitespace below).
pub open spec fn lines_of(s: Seq<u8>) -> Seq<Seq<u8>>
    decreases s.len(),
{
    if s.len() == 0 {
        seq![]
    } else {
        let k = first_where(s, nl_pred());
        if k >= s.len() {
            seq![s]
        } else {
            seq![s.take(k as int)] + lines_of(s.skip((k + 1) as int))
        }
    }
}

/// The first index at or after `i` where `l` ends or a whitespace
/// character starts.
pub open spec fn token_end(l: Seq<u8>, i: int) -> int
    decreases l.len() - i,
{
    if i >= l.len() {
        l.len() as int
    } else if ws_len(l, i) > 0 {
        i
    } else {
        token_end(l, i + 1)
    }
}

/// The whitespace-separated tokens of a line.
pub open spec fn tokens_of(l: Seq<u8>) -> Seq<Seq<u8>>
    decreases l.len(),
{
    if l.len() == 0 {
        seq![]
    } else if ws_len(l, 0) > 0 {
        tokens_of(l.skip(ws_len(l, 0) as int))
    } else {
        let k = token_end(l, 1);
        proof {
            lemma_token_end_bound(l, 1);
        }
        seq![l.take(k)] + tokens_of(l.skip(k))
    }
}

pub proof fn lemma_token_end_bound(l: Seq<u8>, i: int)
    requires
        1 <= i,
    ensures
        i <= l.len() ==> i <= token_end(l, i) <= l.len(),
        i > l.len() ==> token_end(l, i) == l.len(),
    decreases l.len() - i,
{
    if i < l.len() && ws_len(l, i) == 0 {
        lemma_token_end_bound(l, i + 1);
    }
}

/// `token_end(l, i)` is `k` when no whitespace starts in `i..k` and `k`
/// is the end or starts one.
proof fn lemma_token_end_at(l: Seq<u8>, i: int, k: int)
    requires
        0 <= i <= k <= l.len(),
        forall|q: int| i <= q < k ==> ws_len(l, q) == 0,
        k == l.len() || ws_len(l, k) > 0,
    ensures
        token_end(l, i) == k,
    decreases k - i,
{
    if i < k {
        lemma_token_end_at(l, i + 1, k);
    }
}

pub open spec fn is_digit(b: u8) -> bool {
    48 <= b && b <= 57
}

pub open spec fn all_digits(d: Seq<u8>) -> bool {
    forall|i: int| 0 <= i < d.len() ==> is_digit(#[trigger] d[i])
}

/// The decimal value of a digit string.
pub open spec fn digits_value(d: Seq<u8>) -> nat
    decreases d.len(),
{
    if d.len() == 0 {
        0
    } else {
        digits_value(d.drop_last()) * 10 + (d.last() - 48) as nat
    }
}

/// A token read as a `usize`: an optional `+`, then at least one digit,
/// with a value that fits.
pub open spec fn parse_usize(t: Seq<u8>) -> Option<usize> {
    let d = if t.len() > 0 && t[0] == 43 { t.skip(1) } else { t };
    if d.len() == 0 || !all_digits(d) || digits_value(d) > usize::MAX {
        None
    } else {
        Some(digits_value(d) as usize)
    }
}

// ---------------------------------------------------------------------------
// Grammar.

/// All tokens of `ts` read as numbers, or `None` if one is not a number.
pub open spec fn parse_all(ts: Seq<Seq<u8>>) -> Option<Seq<usize>>
    decreases ts.len(),
{
    if ts.len() == 0 {
        Some(seq![])
    } else {
        match (parse_all(ts.drop_last()), parse_usize(ts.last())) {
            (Some(vs), Some(v)) => Some(vs.push(v)),
            _ => None,
        }
    }
}

/// Outcome of reading the optional line of input and output counts.
pub enum CountsLine {
    /// An input count is not a number: the whole parse fails.
    Fail,
    /// The line is not a counts line; it is read as a gate line.
    Absent,
    /// The line holds the counts.
    Present(Seq<usize>, Seq<usize>),
    /// A Bristol Fashion input line: the number of inputs, then that many
    /// input widths.  An output line may follow.
    Inputs(Seq<usize>),
}

/// The counts line: a party count `np`, then at least `np + 1` more tokens,
/// the first `np` being input counts and the rest output counts.  A line
/// of exactly `np + 1` numbers is the input line of Bristol Fashion.
pub open spec fn counts_line(toks: Seq<Seq<u8>>) -> CountsLine {
    if toks.len() == 0 {
        CountsLine::Absent
    } else {
        match parse_usize(toks[0]) {
            None => CountsLine::Absent,
            Some(np) => if toks.len() >= np + 2 {
                match parse_all(toks.subrange(1, np + 1)) {
                    None => CountsLine::Fail,
                    Some(ins) => match parse_all(toks.subrange(np + 1, toks.len() as int)) {
                        None => CountsLine::Absent,
                        Some(outs) => CountsLine::Present(ins, outs),
                    },
                }
            } else if toks.len() == np + 1 {
                match parse_all(toks.subrange(1, toks.len() as int)) {
                    None => CountsLine::Absent,
                    Some(ins) => CountsLine::Inputs(ins),
                }
            } else {
                CountsLine::Absent
            },
        }
    }
}

/// The output line of Bristol Fashion: the number of outputs `nov`, then
/// `nov` output widths, all numbers.
pub open spec fn outputs_line(toks: Seq<Seq<u8>>) -> Option<Seq<usize>> {
    if toks.len() == 0 {
        None
    } else {
        match parse_usize(toks[0]) {
            Some(nov) => if toks.len() == nov + 1 {
                parse_all(toks.subrange(1, toks.len() as int))
            } else {
                None
            },
            None => None,
        }
    }
}

pub open spec fn xor_tok() -> Seq<u8> {
    seq![88u8, 79u8, 82u8]
}

pub open spec fn and_tok() -> Seq<u8> {
    seq![65u8, 78u8, 68u8]
}

pub open spec fn inv_tok() -> Seq<u8> {
    seq![73u8, 78u8, 86u8]
}

/// A gate line: `num_in num_out in_1 .. in_num_in out TYPE ...`, of which
/// `2 1 a b o XOR`, `2 1 a b o AND` and `1 1 a o INV` are accepted.
pub open spec fn gate_line(toks: Seq<Seq<u8>>) -> Option<(GateKind, Seq<Wire>, Wire)> {
    if toks.len() < 2 {
        None
    } else {
        match (parse_usize(toks[0]), parse_usize(toks[1])) {
            (Some(num_in), Some(num_out)) => if toks.len() < num_in + 4 {
                None
            } else {
                match (parse_all(toks.subrange(2, num_in + 2)), parse_usize(toks[num_in + 2])) {
                    (Some(ins), Some(o)) => {
                        let ty = toks[num_in + 3];
                        if ty == xor_tok() && num_in == 2 && num_out == 1 {
                            Some((GateKind::Xor, seq![Wire::spec_new(ins[0]), Wire::spec_new(ins[1])], Wire::spec_new(o)))
                        } else if ty == and_tok() && num_in == 2 && num_out == 1 {
                            Some((GateKind::And, seq![Wire::spec_new(ins[0]), Wire::spec_new(ins[1])], Wire::spec_new(o)))
                        } else if ty == inv_tok() && num_in == 1 && num_out == 1 {
                            Some((GateKind::Not, seq![Wire::spec_new(ins[0])], Wire::spec_new(o)))
                        } else {
                            None
                        }
                    },
                    _ => None,
                }
            },
            _ => None,
        }
    }
}

/// Read gate lines `ls`, appending to gates `gs`, with wire count `w`
/// gathered so far; blank lines are skipped.  A gate whose output wire is
/// `usize::MAX` is refused, as no wire count past it fits.
pub open spec fn gate_lines(ls: Seq<Seq<u8>>, gs: Seq<(GateKind, Seq<Wire>, Wire)>, w: nat)
    -> Option<(Seq<(GateKind, Seq<Wire>, Wire)>, nat)>
    decreases ls.len(),
{
    if ls.len() == 0 {
        Some((gs, w))
    } else {
        let toks = tokens_of(ls[0]);
        if toks.len() == 0 {
            gate_lines(ls.skip(1), gs, w)
        } else {
            match gate_line(toks) {
                None => None,
                Some(g) => if g.2.id == usize::MAX {
                    None
                } else {
                    let w2 = if w > g.2.id + 1 { w } else { (g.2.id + 1) as nat };
                    gate_lines(ls.skip(1), gs.push(g), w2)
                },
            }
        }
    }
}

/// The result of parsing `s`: the gates, the wire count, and the header
/// values (gate count, wire count, input counts, output counts).
pub open spec fn parse_spec(s: Seq<u8>) -> Option<
    (Seq<(GateKind, Seq<Wire>, Wire)>, nat, usize, usize, Seq<usize>, Seq<usize>),
> {
    let ls = lines_of(s);
    if ls.len() == 0 {
        None
    } else {
        let h = tokens_of(ls[0]);
        if h.len() < 2 {
            None
        } else {
            match (parse_usize(h[0]), parse_usize(h[1])) {
                (Some(ng), Some(nw)) => {
                    let rest = ls.skip(1);
                    let cl = if rest.len() == 0 { CountsLine::Absent } else { counts_line(tokens_of(rest[0])) };
                    match cl {
                        CountsLine::Fail => None,
                        CountsLine::Absent => match gate_lines(rest, seq![], nw as nat) {
                            Some((gs, w)) => Some((gs, w, ng, nw, seq![], seq![])),
                            None => None,
                        },
                        CountsLine::Present(ins, outs) => match gate_lines(rest.skip(1), seq![], nw as nat) {
                            Some((gs, w)) => Some((gs, w, ng, nw, ins, outs)),
                            None => None,
                        },
                        CountsLine::Inputs(ins) => {
                            let ol = if rest.len() > 1 { outputs_line(tokens_of(rest[1])) } else { None };
                            match ol {
                                Some(outs) => match gate_lines(rest.skip(2), seq![], nw as nat) {
                                    Some((gs, w)) => Some((gs, w, ng, nw, ins, outs)),
                                    None => None,
                                },
                                None => match gate_lines(rest.skip(1), seq![], nw as nat) {
                                    Some((gs, w)) => Some((gs, w, ng, nw, ins, seq![])),
                                    None => None,
                                },
                            }
                        },
                    }
                },
                _ => None,
            }
        }
    }
}


// ---------------------------------------------------------------------------
// Lemmas linking byte positions to the lexical specification.

/// The texts of the token ranges `r` in `s`.
pub open spec fn ranges_text(s: Seq<u8>, r: Seq<(usize, usize)>) -> Seq<Seq<u8>> {
    Seq::new(r.len(), |k: int| s.subrange(r[k].0 as int, r[k].1 as int))
}

proof fn lemma_lines_step(s: Seq<u8>, pos: int, e: int)
    requires
        0 <= pos < s.len(),
        pos <= e <= s.len(),
        e - pos == first_where(s.skip(pos), nl_pred()),
    ensures
        lines_of(s.skip(pos)) == seq![s.subrange(pos, e)] + (if e < s.len() {
            lines_of(s.skip(e + 1))
        } else {
            Seq::<Seq<u8>>::empty()
        }),
{
    let t = s.skip(pos);
    let k = first_where(t, nl_pred());
    assert(t.take(k as int) =~= s.subrange(pos, e));
    if e < s.len() {
        assert(t.skip((k + 1) as int) =~= s.skip(e + 1));
    } else {
        assert(t =~= s.subrange(pos, e));
        assert(seq![t] + Seq::<Seq<u8>>::empty() =~= seq![t]);
    }
}

/// Whitespace at a position depends on the bytes from there to the end
/// of the line, not on where the slice starts.
proof fn lemma_ws_shift(s: Seq<u8>, a: int, q: int, b: int)
    requires
        0 <= a <= q < b <= s.len(),
    ensures
        ws_len(s.subrange(a, b), q - a) == ws_len(s.subrange(q, b), 0),
{
    let t = s.subrange(a, b);
    let u = s.subrange(q, b);
    assert(t[q - a] == u[0]);
    if q + 1 < b {
        assert(t[q - a + 1] == u[1]);
    }
    if q + 2 < b {
        assert(t[q - a + 2] == u[2]);
    }
}

proof fn lemma_tokens_ws(s: Seq<u8>, i: int, b: int)
    requires
        0 <= i < b <= s.len(),
        ws_len(s.subrange(i, b), 0) > 0,
    ensures
        i + ws_len(s.subrange(i, b), 0) <= b,
        tokens_of(s.subrange(i, b)) == tokens_of(s.subrange(i + ws_len(s.subrange(i, b), 0), b)),
{
    let t = s.subrange(i, b);
    assert(t.skip(ws_len(t, 0) as int) =~= s.subrange(i + ws_len(t, 0), b));
}

proof fn lemma_tokens_tok(s: Seq<u8>, i: int, j: int, b: int)
    requires
        0 <= i < j <= b <= s.len(),
        ws_len(s.subrange(i, b), 0) == 0,
        forall|q: int| i < q < j ==> #[trigger] ws_len(s.subrange(q, b), 0) == 0,
        j == b || ws_len(s.subrange(j, b), 0) > 0,
    ensures
        tokens_of(s.subrange(i, b)) == seq![s.subrange(i, j)] + tokens_of(s.subrange(j, b)),
{
    let t = s.subrange(i, b);
    assert forall|q: int| 1 <= q < j - i implies ws_len(t, q) == 0 by {
        lemma_ws_shift(s, i, i + q, b);
        assert(ws_len(s.subrange(i + q, b), 0) == 0);
    }
    if j < b {
        lemma_ws_shift(s, i, j, b);
    }
    lemma_token_end_at(t, 1, j - i);
    assert(t.take(j - i) =~= s.subrange(i, j));
    assert(t.skip(j - i) =~= s.subrange(j, b));
}

proof fn lemma_digits_prefix(d: Seq<u8>, n: int)
    requires
        0 <= n <= d.len(),
    ensures
        digits_value(d.take(n)) <= digits_value(d),
    decreases d.len() - n,
{
    if n < d.len() {
        lemma_digits_prefix(d, n + 1);
        assert(d.take(n + 1).drop_last() =~= d.take(n));
    } else {
        assert(d.take(n) =~= d);
    }
}

proof fn lemma_parse_all_prefix_none(ts: Seq<Seq<u8>>, n: int)
    requires
        0 <= n <= ts.len(),
        parse_all(ts.take(n)) is None,
    ensures
        parse_all(ts) is None,
    decreases ts.len() - n,
{
    if n < ts.len() {
        assert(ts.take(n + 1).drop_last() =~= ts.take(n));
        lemma_parse_all_prefix_none(ts, n + 1);
    } else {
        assert(ts.take(n) =~= ts);
    }
}

// ---------------------------------------------------------------------------
// Scanners.

/// The UTF-8 length of the whitespace character at byte `i` of the line
/// `s[i..b]`, or 0.
fn ws_width(s: &[u8], i: usize, b: usize) -> (n: usize)
    requires
        i < b <= s@.len(),
    ensures
        n == ws_len(s@.subrange(i as int, b as int), 0),
{
    let ghost t = s@.subrange(i as int, b as int);
    proof {
        assert(t[0] == s@[i as int]);
        if i + 1 < b {
            assert(t[1] == s@[i + 1]);
        }
        if i + 2 < b {
            assert(t[2] == s@[i + 2]);
        }
    }
    let b0 = s[i];
    if b0 == 32 || (9 <= b0 && b0 <= 13) {
        1
    } else if b0 == 0xC2 && b - i > 1 && (s[i + 1] == 0x85 || s[i + 1] == 0xA0) {
        2
    } else if b - i > 2 {
        let b1 = s[i + 1];
        let b2 = s[i + 2];
        if (b0 == 0xE1 && b1 == 0x9A && b2 == 0x80)
            || (b0 == 0xE2 && b1 == 0x80 && ((0x80 <= b2 && b2 <= 0x8A) || b2 == 0xA8 || b2 == 0xA9 || b2 == 0xAF))
            || (b0 == 0xE2 && b1 == 0x81 && b2 == 0x9F)
            || (b0 == 0xE3 && b1 == 0x80 && b2 == 0x80) {
            3
        } else {
            0
        }
    } else {
        0
    }
}

/// Position of the first line feed at or after `pos`, or the end.
fn find_newline(s: &[u8], pos: usize) -> (e: usize)
    requires
        pos <= s@.len(),
    ensures
        pos <= e <= s@.len(),
        e - pos == first_where(s@.skip(pos as int), nl_pred()),
{
    let mut e = pos;
    while e < s.len() && s[e] != 10
        invariant
            pos <= e <= s@.len(),
            forall|q: int| pos <= q < e ==> s@[q] != 10,
        decreases s.len() - e,
    {
        e = e + 1;
    }
    proof {
        let t = s@.skip(pos as int);
        assert forall|q: int| 0 <= q < e - pos implies !nl_pred()(#[trigger] t[q]) by {
            assert(t[q] == s@[pos + q]);
        }
        if e < s@.len() {
            assert(t[e - pos] == s@[e as int]);
        }
        lemma_first_where_at(t, nl_pred(), e - pos);
    }
    e
}

/// The token ranges of the line `s[a..b]`.
fn line_tokens(s: &[u8], a: usize, b: usize) -> (r: Vec<(usize, usize)>)
    requires
        a <= b <= s@.len(),
    ensures
        forall|k: int| 0 <= k < r@.len() ==> a <= (#[trigger] r@[k]).0 <= r@[k].1 <= b,
        ranges_text(s@, r@) == tokens_of(s@.subrange(a as int, b as int)),
{
    let mut r: Vec<(usize, usize)> = Vec::new();
    let mut i = a;
    while i < b
        invariant
            a <= i <= b <= s@.len(),
            forall|k: int| 0 <= k < r@.len() ==> a <= (#[trigger] r@[k]).0 <= r@[k].1 <= b,
            tokens_of(s@.subrange(a as int, b as int)) == ranges_text(s@, r@) + tokens_of(
                s@.subrange(i as int, b as int),
            ),
        decreases b - i,
    {
        let w = ws_width(s, i, b);
        if w > 0 {
            proof { lemma_tokens_ws(s@, i as int, b as int); }
            i = i + w;
        } else {
            let mut j = i + 1;
            while j < b && ws_width(s, j, b) == 0
                invariant
                    i < j <= b <= s@.len(),
                    forall|q: int| i < q < j ==> #[trigger] ws_len(s@.subrange(q, b as int), 0) == 0,
                decreases b - j,
            {
                j = j + 1;
            }
            proof { lemma_tokens_tok(s@, i as int, j as int, b as int); }
            let ghost old_r = r@;
            r.push((i, j));
            proof {
                assert(ranges_text(s@, r@) =~= ranges_text(s@, old_r) + seq![s@.subrange(i as int, j as int)]);
                assert(ranges_text(s@, old_r) + (seq![s@.subrange(i as int, j as int)] + tokens_of(s@.subrange(j as int, b as int)))
                    =~= ranges_text(s@, r@) + tokens_of(s@.subrange(j as int, b as int)));
            }
            i = j;
        }
    }
    proof {
        assert(tokens_of(s@.subrange(i as int, b as int)) =~= Seq::<Seq<u8>>::empty());
        assert(ranges_text(s@, r@) + Seq::<Seq<u8>>::empty() =~= ranges_text(s@, r@));
    }
    r
}

/// Read `s[a..b]` as a `usize`.
fn parse_num(s: &[u8], a: usize, b: usize) -> (r: Option<usize>)
    requires
        a <= b <= s@.len(),
    ensures
        r == parse_usize(s@.subrange(a as int, b as int)),
{
    let ghost t = s@.subrange(a as int, b as int);
    let mut start = a;
    if a < b && s[a] == 43 {
        start = a + 1;
    }
    let ghost d = s@.subrange(start as int, b as int);
    assert(d =~= (if t.len() > 0 && t[0] == 43 { t.skip(1) } else { t }));
    if start == b {
        return None;
    }
    let mut acc: usize = 0;
    let mut i = start;
    assert(s@.subrange(start as int, start as int) =~= Seq::<u8>::empty());
    while i < b
        invariant
            start <= i <= b <= s@.len(),
            t == s@.subrange(a as int, b as int),
            d == s@.subrange(start as int, b as int),
            d == (if t.len() > 0 && t[0] == 43 { t.skip(1) } else { t }),
            d.len() > 0,
            all_digits(s@.subrange(start as int, i as int)),
            acc == digits_value(s@.subrange(start as int, i as int)),
        decreases b - i,
    {
        let c = s[i];
        if c < 48 || c > 57 {
            assert(d[i - start] == c);
            assert(!is_digit(d[i - start]));
            return None;
        }
        let ghost pre = s@.subrange(start as int, i as int);
        let ghost nxt = s@.subrange(start as int, i + 1);
        assert(nxt.drop_last() =~= pre);
        assert(nxt.last() == c);
        assert(digits_value(nxt) == digits_value(pre) * 10 + (c - 48) as nat);
        assert(all_digits(nxt)) by {
            assert forall|q: int| 0 <= q < nxt.len() implies is_digit(#[trigger] nxt[q]) by {
                if q < pre.len() {
                    assert(nxt[q] == pre[q]);
                }
            }
        }
        assert(d.take(i + 1 - start) =~= nxt);
        let m = acc.checked_mul(10);
        match m {
            None => {
                proof {
                    if all_digits(d) {
                        lemma_digits_prefix(d, i + 1 - start);
                    }
                }
                return None;
            },
            Some(m) => {
                let v = m.checked_add((c - 48) as usize);
                match v {
                    None => {
                        proof {
                            if all_digits(d) {
                                lemma_digits_prefix(d, i + 1 - start);
                            }
                        }
                        return None;
                    },
                    Some(v) => {
                        acc = v;
                    },
                }
            },
        }
        i = i + 1;
    }
    Some(acc)
}


/// Read the tokens `toks[lo..hi]` as numbers.
fn parse_ranges(s: &[u8], toks: &Vec<(usize, usize)>, lo: usize, hi: usize) -> (r: Option<Vec<usize>>)
    requires
        lo <= hi <= toks@.len(),
        forall|k: int| 0 <= k < toks@.len() ==> (#[trigger] toks@[k]).0 <= toks@[k].1 <= s@.len(),
    ensures
        match r {
            Some(v) => parse_all(ranges_text(s@, toks@).subrange(lo as int, hi as int)) == Some(v@)
                && v@.len() == hi - lo,
            None => parse_all(ranges_text(s@, toks@).subrange(lo as int, hi as int)) is None,
        },
{
    let ghost tt = ranges_text(s@, toks@);
    let mut v: Vec<usize> = Vec::new();
    let mut k = lo;
    assert(tt.subrange(lo as int, lo as int) =~= Seq::<Seq<u8>>::empty());
    while k < hi
        invariant
            lo <= k <= hi <= toks@.len(),
            tt == ranges_text(s@, toks@),
            forall|q: int| 0 <= q < toks@.len() ==> (#[trigger] toks@[q]).0 <= toks@[q].1 <= s@.len(),
            parse_all(tt.subrange(lo as int, k as int)) == Some(v@),
            v@.len() == k - lo,
        decreases hi - k,
    {
        let rg = toks[k];
        let x = parse_num(s, rg.0, rg.1);
        let ghost nxt = tt.subrange(lo as int, k + 1);
        assert(nxt.drop_last() =~= tt.subrange(lo as int, k as int));
        assert(nxt.last() == tt[k as int]);
        match x {
            None => {
                proof {
                    let all = tt.subrange(lo as int, hi as int);
                    assert(all.take(k + 1 - lo) =~= nxt);
                    lemma_parse_all_prefix_none(all, k + 1 - lo);
                }
                return None;
            },
            Some(x) => {
                v.push(x);
            },
        }
        k = k + 1;
    }
    Some(v)
}

/// What the line after the header holds, as `counts_line` reads it.
enum CountsRead {
    Fail,
    Absent,
    Present(Vec<usize>, Vec<usize>),
    Inputs(Vec<usize>),
}

/// Read the optional counts line.
fn read_counts(s: &[u8], toks: &Vec<(usize, usize)>) -> (r: CountsRead)
    requires
        forall|k: int| 0 <= k < toks@.len() ==> (#[trigger] toks@[k]).0 <= toks@[k].1 <= s@.len(),
    ensures
        match (r, counts_line(ranges_text(s@, toks@))) {
            (CountsRead::Fail, CountsLine::Fail) => true,
            (CountsRead::Absent, CountsLine::Absent) => true,
            (CountsRead::Present(ins, outs), CountsLine::Present(si, so)) => ins@ == si && outs@ == so,
            (CountsRead::Inputs(ins), CountsLine::Inputs(si)) => ins@ == si,
            _ => false,
        },
{
    let ghost tt = ranges_text(s@, toks@);
    if toks.len() == 0 {
        return CountsRead::Absent;
    }
    let np = match parse_num(s, toks[0].0, toks[0].1) {
        None => {
            return CountsRead::Absent;
        },
        Some(np) => np,
    };
    if np > toks.len() || toks.len() - np < 2 {
        if np < toks.len() && toks.len() - np == 1 {
            return match parse_ranges(s, toks, 1, toks.len()) {
                None => CountsRead::Absent,
                Some(ins) => CountsRead::Inputs(ins),
            };
        }
        return CountsRead::Absent;
    }
    let ins = match parse_ranges(s, toks, 1, np + 1) {
        None => {
            return CountsRead::Fail;
        },
        Some(ins) => ins,
    };
    let outs = match parse_ranges(s, toks, np + 1, toks.len()) {
        None => {
            return CountsRead::Absent;
        },
        Some(outs) => outs,
    };
    CountsRead::Present(ins, outs)
}

/// Read the Bristol Fashion output line.
fn read_outputs_line(s: &[u8], toks: &Vec<(usize, usize)>) -> (r: Option<Vec<usize>>)
    requires
        forall|k: int| 0 <= k < toks@.len() ==> (#[trigger] toks@[k]).0 <= toks@[k].1 <= s@.len(),
    ensures
        match (r, outputs_line(ranges_text(s@, toks@))) {
            (Some(v), Some(sv)) => v@ == sv,
            (None, None) => true,
            _ => false,
        },
{
    if toks.len() == 0 {
        return None;
    }
    match parse_num(s, toks[0].0, toks[0].1) {
        None => None,
        Some(nov) => if nov < toks.len() && toks.len() - nov == 1 {
            parse_ranges(s, toks, 1, toks.len())
        } else {
            None
        },
    }
}

/// Whether the token `s[rg.0..rg.1]` is the three bytes `x y z`.
fn token_is(s: &[u8], rg: (usize, usize), x: u8, y: u8, z: u8) -> (r: bool)
    requires
        rg.0 <= rg.1 <= s@.len(),
    ensures
        r == (s@.subrange(rg.0 as int, rg.1 as int) == seq![x, y, z]),
{
    let ghost t = s@.subrange(rg.0 as int, rg.1 as int);
    if rg.1 - rg.0 != 3 {
        assert(t.len() != 3);
        assert(t != seq![x, y, z]);
        return false;
    }
    let r = s[rg.0] == x && s[rg.0 + 1] == y && s[rg.0 + 2] == z;
    assert(t[0] == s@[rg.0 as int] && t[1] == s@[rg.0 + 1] && t[2] == s@[rg.0 + 2]);
    if r {
        assert(t =~= seq![x, y, z]);
    } else {
        assert(t != seq![x, y, z]) by {
            if t == seq![x, y, z] {
                assert(t[0] == x && t[1] == y && t[2] == z);
            }
        }
    }
    r
}

/// Read one gate line.
fn read_gate(s: &[u8], toks: &Vec<(usize, usize)>) -> (r: Option<Gate>)
    requires
        forall|k: int| 0 <= k < toks@.len() ==> (#[trigger] toks@[k]).0 <= toks@[k].1 <= s@.len(),
    ensures
        match r {
            Some(g) => gate_line(ranges_text(s@, toks@)) == Some(g@),
            None => gate_line(ranges_text(s@, toks@)) is None,
        },
{
    let ghost tt = ranges_text(s@, toks@);
    if toks.len() < 2 {
        return None;
    }
    let num_in = match parse_num(s, toks[0].0, toks[0].1) {
        None => {
            return None;
        },
        Some(v) => v,
    };
    let num_out = match parse_num(s, toks[1].0, toks[1].1) {
        None => {
            return None;
        },
        Some(v) => v,
    };
    if num_in > toks.len() || toks.len() - num_in < 4 {
        return None;
    }
    let ins = match parse_ranges(s, toks, 2, num_in + 2) {
        None => {
            return None;
        },
        Some(v) => v,
    };
    let o = match parse_num(s, toks[num_in + 2].0, toks[num_in + 2].1) {
        None => {
            return None;
        },
        Some(v) => v,
    };
    let ty = toks[num_in + 3];
    assert(tt[num_in + 3] == s@.subrange(ty.0 as int, ty.1 as int));
    if token_is(s, ty, 88, 79, 82) && num_in == 2 && num_out == 1 {
        let g = Gate::xor(Wire::new(ins[0]), Wire::new(ins[1]), Wire::new(o));
        assert(g@.1 =~= seq![Wire::spec_new(ins@[0]), Wire::spec_new(ins@[1])]);
        Some(g)
    } else if token_is(s, ty, 65, 78, 68) && num_in == 2 && num_out == 1 {
        let g = Gate::and(Wire::new(ins[0]), Wire::new(ins[1]), Wire::new(o));
        assert(g@.1 =~= seq![Wire::spec_new(ins@[0]), Wire::spec_new(ins@[1])]);
        Some(g)
    } else if token_is(s, ty, 73, 78, 86) && num_in == 1 && num_out == 1 {
        let g = Gate::not(Wire::new(ins[0]), Wire::new(o));
        assert(g@.1 =~= seq![Wire::spec_new(ins@[0])]);
        Some(g)
    } else {
        None
    }
}


/// `r` is what `parse_spec` says of `s`.
pub open spec fn parse_agrees(r: Option<(Circuit, BristolCircuit)>, s: Seq<u8>) -> bool {
    match (r, parse_spec(s)) {
        (Some((c, m)), Some(p)) => {
            &&& gate_views(c.gate_seq()) == p.0
            &&& c.wires() == p.1
            &&& m.gates == p.2
            &&& m.wires == p.3
            &&& m.inputs@ == p.4
            &&& m.outputs@ == p.5
        },
        (None, None) => true,
        _ => false,
    }
}

/// Read gate lines starting at byte `pos` into `c`.
fn read_gate_lines(s: &[u8], pos: usize, c: &mut Circuit) -> (ok: bool)
    requires
        pos <= s@.len(),
    ensures
        match gate_lines(lines_of(s@.skip(pos as int)), gate_views(old(c).gate_seq()), old(c).wires()) {
            Some((gs, w)) => ok && gate_views(final(c).gate_seq()) == gs && final(c).wires() == w,
            None => !ok,
        },
{
    let ghost target = gate_lines(lines_of(s@.skip(pos as int)), gate_views(c.gate_seq()), c.wires());
    let mut p = pos;
    while p < s.len()
        invariant
            p <= s@.len(),
            target == gate_lines(lines_of(s@.skip(pos as int)), gate_views(old(c).gate_seq()), old(c).wires()),
            target == gate_lines(lines_of(s@.skip(p as int)), gate_views(c.gate_seq()), c.wires()),
        decreases s.len() - p,
    {
        let e = find_newline(s, p);
        let toks = line_tokens(s, p, e);
        proof { lemma_lines_step(s@, p as int, e as int); }
        let ghost ls = lines_of(s@.skip(p as int));
        let ghost rest = if e < s@.len() { lines_of(s@.skip(e + 1)) } else { Seq::<Seq<u8>>::empty() };
        assert(ls[0] == s@.subrange(p as int, e as int));
        assert(ls.skip(1) =~= rest);
        if toks.len() != 0 {
            match read_gate(s, &toks) {
                None => {
                    return false;
                },
                Some(g) => {
                    if g.output.id == usize::MAX {
                        return false;
                    }
                    let ghost before = c.gate_seq();
                    c.push_gate(g);
                    assert(gate_views(c.gate_seq()) =~= gate_views(before).push(g@));
                },
            }
        }
        if e < s.len() {
            p = e + 1;
        } else {
            p = s.len();
            assert(s@.skip(p as int) =~= Seq::<u8>::empty());
        }
    }
    assert(s@.skip(p as int) =~= Seq::<u8>::empty());
    true
}

/// Parse a Bristol-formatted string into a `Circuit` and metadata.
///
/// The header line gives gate and wire counts.  An optional second line
/// gives either the party count followed by input and output counts, or,
/// as in Bristol Fashion, the number of inputs and their widths, in which
/// case an optional third line gives the number of outputs and their
/// widths.  Every other non-blank line is a gate.  The circuit starts with the header's wire
/// count and grows to cover every gate output.
#[verifier::spinoff_prover]
#[verifier::rlimit(40)]
pub fn parse_str(contents: &str) -> (r: Option<(Circuit, BristolCircuit)>)
    ensures
        parse_agrees(r, contents.spec_bytes()),
{
    let s = contents.as_bytes();
    let n = s.len();
    if n == 0 {
        assert(lines_of(s@) =~= Seq::<Seq<u8>>::empty());
        return None;
    }
    let e0 = find_newline(s, 0);
    assert(s@.skip(0) =~= s@);
    proof { lemma_lines_step(s@, 0, e0 as int); }
    let h = line_tokens(s, 0, e0);
    if h.len() < 2 {
        return None;
    }
    let ng = match parse_num(s, h[0].0, h[0].1) {
        None => {
            return None;
        },
        Some(v) => v,
    };
    let nw = match parse_num(s, h[1].0, h[1].1) {
        None => {
            return None;
        },
        Some(v) => v,
    };
    let pos = if e0 < n { e0 + 1 } else { n };
    let ghost rest = lines_of(s@.skip(pos as int));
    assert(s@.skip(n as int) =~= Seq::<u8>::empty());
    assert(lines_of(s@).skip(1) =~= rest);
    let mut inputs: Vec<usize> = Vec::new();
    let mut outputs: Vec<usize> = Vec::new();
    let mut start = pos;
    if pos < n {
        let e1 = find_newline(s, pos);
        proof { lemma_lines_step(s@, pos as int, e1 as int); }
        let toks = line_tokens(s, pos, e1);
        assert(rest[0] == s@.subrange(pos as int, e1 as int));
        match read_counts(s, &toks) {
            CountsRead::Fail => {
                return None;
            },
            CountsRead::Absent => {},
            CountsRead::Present(ins, outs) => {
                inputs = ins;
                outputs = outs;
                start = if e1 < n { e1 + 1 } else { n };
                assert(rest.skip(1) =~= lines_of(s@.skip(start as int)));
            },
            CountsRead::Inputs(ins) => {
                inputs = ins;
                start = if e1 < n { e1 + 1 } else { n };
                assert(rest.skip(1) =~= lines_of(s@.skip(start as int)));
                if start < n {
                    let e2 = find_newline(s, start);
                    proof { lemma_lines_step(s@, start as int, e2 as int); }
                    let toks2 = line_tokens(s, start, e2);
                    assert(rest[1] == s@.subrange(start as int, e2 as int));
                    match read_outputs_line(s, &toks2) {
                        None => {},
                        Some(outs) => {
                            outputs = outs;
                            start = if e2 < n { e2 + 1 } else { n };
                            assert(s@.skip(n as int) =~= Seq::<u8>::empty());
                            assert(rest.skip(2) =~= lines_of(s@.skip(start as int)));
                        },
                    }
                } else {
                    assert(rest.len() == 1);
                }
            },
        }
    }
    let mut c = Circuit::with_wires(nw);
    assert(gate_views(c.gate_seq()) =~= Seq::empty());
    if !read_gate_lines(s, start, &mut c) {
        return None;
    }
    Some((c, BristolCircuit { gates: ng, wires: nw, inputs, outputs }))
}

} // verus!
