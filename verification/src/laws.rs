use vstd::prelude::*;

use crate::bits::{lemma_bit_clear, lemma_bit_set};
use crate::complex::{cx_add, cx_mul, Cx};
use crate::gate::{gate_h, gate_x, gate_y, gate_z, Gate};
use crate::state::{
    all_even, cx_even, cx_half, dim, gate_amp, gate_step, halve, lemma_dim, lemma_qubit_mask,
    lemma_sum_prefix_ext, lemma_sum_prefix_update, qubit_mask, qubit_shift, raw_gate, reduce, sum,
    sum_prefix, QState, SimError, bit_of, cnot_index, cnot_state, lemma_cnot_index,
    lemma_reduce_normalized, lemma_sum_prefix_add, lemma_sum_prefix_scale, lemma_swap_index,
    normalized, swap_index, swap_state,
};
use crate::complex::cx_norm_sq;
use crate::gate::gate_s;
use crate::circuit::{initial_state, lemma_run_ops_err, op_step, op_valid, run_ops, Op};
use crate::state::{basis_amps, lemma_reduce_wf};
use crate::grover::{
    cx_total, diffusion_raw, diffusion_step, grover_iterations, grover_rounds, grover_state,
    hadamard_all, iterations_ok, lemma_iterations_unique, oracle_step, PI_QUARTER_Q32,
};
use crate::state::{
    collapsed, controlled_step, lemma_pick_positive, lemma_possible_outcome_positive, pick,
    raw_controlled,
};
use crate::circuit::{observable, CircuitSpec};
use crate::complex::{cx_fits, cx_scale};
use crate::render::{diagram_row, label_width, num_rows, op_cell, op_cells, row_label};
use crate::text::decimal;
use crate::complex::{cx_neg, lemma_square_nonneg};
use crate::state::{lemma_elem_le_sum, lemma_weights_nonneg};
use crate::grover::GROVER_EXACT_QUBITS;
use vstd::arithmetic::power2::pow2;

verus! {

// ---------------------------------------------------------------------------
// Equal amplitudes
// ---------------------------------------------------------------------------

/// `t`'s entries are `p/q` times `s`'s and its norm `(p/q)^2` times `s`'s, so
/// the amplitudes `amps[i] / sqrt(norm)` of the two states are equal.
pub open spec fn scaled(s: QState, t: QState, p: int, q: int) -> bool {
    &&& p > 0
    &&& q > 0
    &&& s.num_qubits == t.num_qubits
    &&& s.amps.len() == t.amps.len()
    &&& forall|i: int|
        0 <= i < s.amps.len() ==> q * (#[trigger] t.amps[i]).0 == p * s.amps[i].0 && q
            * t.amps[i].1 == p * s.amps[i].1
    &&& q * q * t.norm == p * p * s.norm
}

/// `s` and `t` have the same amplitudes `amps[i] / sqrt(norm)`: they are the
/// same quantum state, written with different scales.
pub open spec fn same_amplitudes(s: QState, t: QState) -> bool {
    exists|p: int, q: int| scaled(s, t, p, q)
}

pub proof fn lemma_same_refl(s: QState)
    ensures
        scaled(s, s, 1, 1),
        same_amplitudes(s, s),
{
    assert(scaled(s, s, 1, 1));
}

pub proof fn lemma_same_trans(s: QState, t: QState, u: QState)
    requires
        same_amplitudes(s, t),
        same_amplitudes(t, u),
    ensures
        same_amplitudes(s, u),
{
    let (p1, q1) = choose|p: int, q: int| scaled(s, t, p, q);
    let (p2, q2) = choose|p: int, q: int| scaled(t, u, p, q);
    assert forall|i: int| 0 <= i < s.amps.len() implies (q1 * q2) * (#[trigger] u.amps[i]).0 == (p1
        * p2) * s.amps[i].0 && (q1 * q2) * u.amps[i].1 == (p1 * p2) * s.amps[i].1 by {
        let (a, b, c) = (s.amps[i], t.amps[i], u.amps[i]);
        assert(q1 * b.0 == p1 * a.0 && q1 * b.1 == p1 * a.1);
        assert(q2 * c.0 == p2 * b.0 && q2 * c.1 == p2 * b.1);
        assert((q1 * q2) * c.0 == (p1 * p2) * a.0) by (nonlinear_arith)
            requires
                q1 * b.0 == p1 * a.0,
                q2 * c.0 == p2 * b.0,
        ;
        assert((q1 * q2) * c.1 == (p1 * p2) * a.1) by (nonlinear_arith)
            requires
                q1 * b.1 == p1 * a.1,
                q2 * c.1 == p2 * b.1,
        ;
    }
    lemma_norm_chain(p1, q1, p2, q2, s.norm as int, t.norm as int, u.norm as int);
    assert(p1 * p2 > 0 && q1 * q2 > 0) by (nonlinear_arith)
        requires
            p1 > 0,
            p2 > 0,
            q1 > 0,
            q2 > 0,
    ;
    assert(scaled(s, u, p1 * p2, q1 * q2));
}

/// Removing common factors of two keeps the amplitudes.
pub proof fn lemma_reduce_same(s: QState)
    ensures
        same_amplitudes(s, reduce(s)),
    decreases s.norm,
{
    if s.norm >= 4 && s.norm % 4 == 0 && all_even(s.amps) {
        let t = QState { num_qubits: s.num_qubits, amps: halve(s.amps), norm: s.norm / 4 };
        assert forall|i: int| 0 <= i < s.amps.len() implies 2 * (#[trigger] t.amps[i]).0 == 1
            * s.amps[i].0 && 2 * t.amps[i].1 == 1 * s.amps[i].1 by {
            assert(cx_even(s.amps[i]));
        }
        assert(t.norm == s.norm / 4);
        assert(s.norm == 4 * (s.norm / 4)) by {
            vstd::arithmetic::div_mod::lemma_fundamental_div_mod(s.norm as int, 4);
        }
        assert(4 * t.norm == s.norm);
        let one: int = 1;
        let two: int = 2;
        assert(two * two * t.norm == one * one * s.norm) by (nonlinear_arith)
            requires
                4 * t.norm == s.norm,
                one == 1,
                two == 2,
        ;
        assert(scaled(s, t, one, two));
        lemma_reduce_same(t);
        lemma_same_trans(s, t, reduce(t));
    } else {
        lemma_same_refl(s);
    }
}

// ---------------------------------------------------------------------------
// Gates are linear
// ---------------------------------------------------------------------------

/// `q * (g0*ta + g1*tb) == p * (g0*sa + g1*sb)` when `q*t == p*s` entrywise.
pub proof fn lemma_combo_scaled(g0: Cx, g1: Cx, sa: Cx, sb: Cx, ta: Cx, tb: Cx, p: int, q: int)
    requires
        q * ta.0 == p * sa.0,
        q * ta.1 == p * sa.1,
        q * tb.0 == p * sb.0,
        q * tb.1 == p * sb.1,
    ensures
        q * cx_add(cx_mul(g0, ta), cx_mul(g1, tb)).0 == p * cx_add(cx_mul(g0, sa), cx_mul(g1, sb)).0,
        q * cx_add(cx_mul(g0, ta), cx_mul(g1, tb)).1 == p * cx_add(cx_mul(g0, sa), cx_mul(g1, sb)).1,
{
    lemma_mul_scaled(g0.0, ta.0, sa.0, p, q);
    lemma_mul_scaled(g0.1, ta.1, sa.1, p, q);
    lemma_mul_scaled(g1.0, tb.0, sb.0, p, q);
    lemma_mul_scaled(g1.1, tb.1, sb.1, p, q);
    lemma_mul_scaled(g0.0, ta.1, sa.1, p, q);
    lemma_mul_scaled(g0.1, ta.0, sa.0, p, q);
    lemma_mul_scaled(g1.0, tb.1, sb.1, p, q);
    lemma_mul_scaled(g1.1, tb.0, sb.0, p, q);
    assert(q * (g0.0 * ta.0 - g0.1 * ta.1 + g1.0 * tb.0 - g1.1 * tb.1) == q * (g0.0 * ta.0) - q * (
    g0.1 * ta.1) + q * (g1.0 * tb.0) - q * (g1.1 * tb.1)) by (nonlinear_arith);
    assert(p * (g0.0 * sa.0 - g0.1 * sa.1 + g1.0 * sb.0 - g1.1 * sb.1) == p * (g0.0 * sa.0) - p * (
    g0.1 * sa.1) + p * (g1.0 * sb.0) - p * (g1.1 * sb.1)) by (nonlinear_arith);
    assert(q * (g0.0 * ta.1 + g0.1 * ta.0 + g1.0 * tb.1 + g1.1 * tb.0) == q * (g0.0 * ta.1) + q * (
    g0.1 * ta.0) + q * (g1.0 * tb.1) + q * (g1.1 * tb.0)) by (nonlinear_arith);
    assert(p * (g0.0 * sa.1 + g0.1 * sa.0 + g1.0 * sb.1 + g1.1 * sb.0) == p * (g0.0 * sa.1) + p * (
    g0.1 * sa.0) + p * (g1.0 * sb.1) + p * (g1.1 * sb.0)) by (nonlinear_arith);
}

/// `q*x == p*y` implies `q*(c*x) == p*(c*y)`.
pub proof fn lemma_mul_scaled(c: int, x: int, y: int, p: int, q: int)
    requires
        q * x == p * y,
    ensures
        q * (c * x) == p * (c * y),
{
    assert(q * (c * x) == c * (q * x)) by (nonlinear_arith);
    assert(p * (c * y) == c * (p * y)) by (nonlinear_arith);
}

proof fn lemma_norm_chain(p1: int, q1: int, p2: int, q2: int, a: int, b: int, c: int)
    requires
        q1 * q1 * b == p1 * p1 * a,
        q2 * q2 * c == p2 * p2 * b,
    ensures
        (q1 * q2) * (q1 * q2) * c == (p1 * p2) * (p1 * p2) * a,
{
    let x = q1 * q1;
    let y = p2 * p2;
    assert((q1 * q2) * (q1 * q2) * c == x * (q2 * q2 * c)) by (nonlinear_arith)
        requires
            x == q1 * q1,
    ;
    assert(x * (q2 * q2 * c) == x * (y * b));
    assert(x * (y * b) == y * (x * b)) by (nonlinear_arith);
    assert(y * (x * b) == y * (p1 * p1 * a));
    assert(y * (p1 * p1 * a) == (p1 * p2) * (p1 * p2) * a) by (nonlinear_arith)
        requires
            y == p2 * p2,
    ;
}

/// Applying a gate to two writings of the same state gives two writings of
/// the same state.
pub proof fn lemma_raw_gate_scaled(s: QState, t: QState, p: int, q: int, qb: nat, g: Gate)
    requires
        scaled(s, t, p, q),
        s.num_qubits < usize::BITS,
        s.amps.len() == dim(s.num_qubits),
        qb < s.num_qubits,
    ensures
        scaled(raw_gate(s, qb, g), raw_gate(t, qb, g), p, q),
{
    let n = s.num_qubits;
    let m = qubit_mask(n, qb);
    let rs = raw_gate(s, qb, g);
    let rt = raw_gate(t, qb, g);
    lemma_dim(n);
    lemma_qubit_mask(n, qb);
    assert forall|i: int| 0 <= i < rs.amps.len() implies q * (#[trigger] rt.amps[i]).0 == p
        * rs.amps[i].0 && q * rt.amps[i].1 == p * rs.amps[i].1 by {
        let iu = i as usize;
        if iu & m == 0 {
            lemma_bit_clear(iu, qubit_shift(n, qb), n as usize);
            let j = i + m;
            assert(q * t.amps[j].0 == p * s.amps[j].0);
            assert(q * t.amps[i].0 == p * s.amps[i].0);
            lemma_combo_scaled(g.entry(0, 0), g.entry(0, 1), s.amps[i], s.amps[j], t.amps[i], t.amps[j], p, q);
        } else {
            lemma_bit_set(iu, qubit_shift(n, qb));
            let j = i - m;
            assert(q * t.amps[j].0 == p * s.amps[j].0);
            assert(q * t.amps[i].0 == p * s.amps[i].0);
            lemma_combo_scaled(g.entry(1, 0), g.entry(1, 1), s.amps[j], s.amps[i], t.amps[j], t.amps[i], p, q);
        }
    }
    let f = pow2(g.sqrt2_exp as nat);
    assert(q * q * (t.norm * f) == p * p * (s.norm * f)) by (nonlinear_arith)
        requires
            q * q * t.norm == p * p * s.norm,
    ;
}

/// Multiplying by 0, 1, -1, i and -i.
pub proof fn lemma_unit_mul(a: Cx)
    ensures
        cx_mul((0, 0), a) == (0int, 0int),
        cx_mul((1, 0), a) == a,
        cx_mul((-1, 0), a) == (-a.0, -a.1),
        cx_mul((0, 1), a) == (-a.1, a.0),
        cx_mul((0, -1), a) == (a.1, -a.0),
{
    assert(0 * a.0 - 0 * a.1 == 0 && 0 * a.1 + 0 * a.0 == 0) by (nonlinear_arith);
    assert(1 * a.0 - 0 * a.1 == a.0 && 1 * a.1 + 0 * a.0 == a.1) by (nonlinear_arith);
    assert(-1 * a.0 - 0 * a.1 == -a.0 && -1 * a.1 + 0 * a.0 == -a.1) by (nonlinear_arith);
    assert(0 * a.0 - 1 * a.1 == -a.1 && 0 * a.1 + 1 * a.0 == a.0) by (nonlinear_arith);
    assert(0 * a.0 - (-1) * a.1 == a.1 && 0 * a.1 + (-1) * a.0 == -a.0) by (nonlinear_arith);
}

/// The self-inverse gates X, Y, Z and H: the integer matrix squared is `k`
/// times the identity, with `k = 2` for H's matrix `[[1, 1], [1, -1]]` and
/// `k = 1` for the others.
pub open spec fn self_inverse_gate(g: Gate) -> bool {
    g == gate_x() || g == gate_y() || g == gate_z() || g == gate_h()
}

pub open spec fn square_factor(g: Gate) -> int {
    if g == gate_h() { 2 } else { 1 }
}

/// Applying a self-inverse gate twice multiplies every entry by `k` and the
/// norm by `k^2`.
pub proof fn lemma_gate_twice(s: QState, qb: nat, g: Gate)
    requires
        self_inverse_gate(g),
        s.num_qubits < usize::BITS,
        s.amps.len() == dim(s.num_qubits),
        qb < s.num_qubits,
    ensures
        scaled(s, raw_gate(raw_gate(s, qb, g), qb, g), square_factor(g), 1),
{
    let n = s.num_qubits;
    let m = qubit_mask(n, qb);
    let r1 = raw_gate(s, qb, g);
    let r2 = raw_gate(r1, qb, g);
    let k = square_factor(g);
    lemma_dim(n);
    lemma_qubit_mask(n, qb);
    assert forall|i: int| 0 <= i < s.amps.len() implies 1 * (#[trigger] r2.amps[i]).0 == k
        * s.amps[i].0 && 1 * r2.amps[i].1 == k * s.amps[i].1 by {
        let iu = i as usize;
        let a = s.amps[i];
        if iu & m == 0 {
            lemma_bit_clear(iu, qubit_shift(n, qb), n as usize);
            let j = i + m;
            let ju = j as usize;
            assert(ju & m != 0);
            assert(ju - m == i);
            let b = s.amps[j];
            let x = r1.amps[i];
            let y = r1.amps[j];
            assert(x == cx_add(cx_mul(g.entry(0, 0), a), cx_mul(g.entry(0, 1), b)));
            assert(y == cx_add(cx_mul(g.entry(1, 0), a), cx_mul(g.entry(1, 1), b)));
            assert(r2.amps[i] == cx_add(cx_mul(g.entry(0, 0), x), cx_mul(g.entry(0, 1), y)));
            lemma_unit_mul(a);
            lemma_unit_mul(b);
            lemma_unit_mul(x);
            lemma_unit_mul(y);
        } else {
            lemma_bit_set(iu, qubit_shift(n, qb));
            let j = i - m;
            let ju = j as usize;
            lemma_bit_clear(ju, qubit_shift(n, qb), n as usize);
            assert(ju & m == 0);
            let b = s.amps[j];
            let x = r1.amps[j];
            let y = r1.amps[i];
            assert(x == cx_add(cx_mul(g.entry(0, 0), b), cx_mul(g.entry(0, 1), a)));
            assert(y == cx_add(cx_mul(g.entry(1, 0), b), cx_mul(g.entry(1, 1), a)));
            assert(r2.amps[i] == cx_add(cx_mul(g.entry(1, 0), x), cx_mul(g.entry(1, 1), y)));
            lemma_unit_mul(a);
            lemma_unit_mul(b);
            lemma_unit_mul(x);
            lemma_unit_mul(y);
        }
    }
    let e = g.sqrt2_exp as nat;
    assert(pow2(0) == 1 && pow2(1) == 2) by {
        vstd::arithmetic::power2::lemma2_to64();
    }
    let one: int = 1;
    assert(one * one * r2.norm == k * k * s.norm) by (nonlinear_arith)
        requires
            r2.norm == (s.norm * pow2(e)) * pow2(e),
            e == 0 ==> pow2(e) == 1,
            e == 1 ==> pow2(e) == 2,
            k == 1 ==> e == 0,
            k == 2 ==> e == 1,
            k == 1 || k == 2,
            one == 1,
    ;
    assert(scaled(s, r2, k, one));
}

/// Law: X, Y, Z and H are their own inverses -- applying one twice to the same
/// qubit gives back the same amplitudes (XX|0> = |0>, HH|0> = |0>), whenever
/// neither step overflows.
pub proof fn law_gate_self_inverse(s: QState, qb: nat, g: Gate, t: QState, u: QState)
    requires
        s.wf(),
        qb < s.num_qubits,
        self_inverse_gate(g),
        gate_step(s, qb, g) == Ok::<QState, SimError>(t),
        gate_step(t, qb, g) == Ok::<QState, SimError>(u),
    ensures
        same_amplitudes(s, u),
{
    let r1 = raw_gate(s, qb, g);
    lemma_reduce_same(r1);
    let (p, q) = choose|p: int, q: int| scaled(r1, t, p, q);
    lemma_raw_gate_scaled(r1, t, p, q, qb, g);
    let rr = raw_gate(r1, qb, g);
    let rt = raw_gate(t, qb, g);
    assert(same_amplitudes(rr, rt));
    lemma_reduce_same(rt);
    lemma_gate_twice(s, qb, g);
    assert(same_amplitudes(s, rr));
    lemma_same_trans(s, rr, rt);
    lemma_same_trans(s, rt, u);
}

// ---------------------------------------------------------------------------
// Sums under an involution of the indices
// ---------------------------------------------------------------------------

/// `f` maps `[0, n)` onto itself and undoes itself.
pub open spec fn is_involution(f: spec_fn(int) -> int, n: int) -> bool {
    forall|i: int| 0 <= i < n ==> 0 <= #[trigger] f(i) < n && f(f(i)) == i
}

pub open spec fn reorder(w: Seq<int>, f: spec_fn(int) -> int) -> Seq<int> {
    Seq::new(w.len(), |i: int| w[f(i)])
}

proof fn lemma_sum_take(s: Seq<int>, k: int)
    requires
        0 <= k <= s.len(),
    ensures
        sum(s.take(k)) == sum_prefix(s, k),
{
    lemma_sum_prefix_ext(s.take(k), s, k);
}

/// Reading a sequence in the order of an involution of its indices does not
/// change its sum.
pub proof fn lemma_sum_involution(w: Seq<int>, f: spec_fn(int) -> int)
    requires
        is_involution(f, w.len() as int),
    ensures
        sum(reorder(w, f)) == sum(w),
    decreases w.len(),
{
    let n = w.len() as int;
    if n == 0 {
        return;
    }
    let last = n - 1;
    let k = f(last);
    let w1 = w.take(last);
    let sf = reorder(w, f);
    assert(sum(sf) == sum_prefix(sf, last) + sf[last]);
    assert(sum(w) == sum_prefix(w, last) + w[last]);
    lemma_sum_take(w, last);
    if k == last {
        assert forall|i: int| 0 <= i < last implies 0 <= #[trigger] f(i) < last && f(f(i)) == i by {
            if f(i) == last {
                assert(f(f(i)) == k);
            }
        }
        lemma_sum_involution(w1, f);
        let s1 = reorder(w1, f);
        assert forall|i: int| 0 <= i < last implies #[trigger] s1[i] == sf[i] by {}
        lemma_sum_prefix_ext(s1, sf, last);
    } else {
        let g = |i: int| if i == k { k } else { f(i) };
        assert forall|i: int| 0 <= i < last implies 0 <= #[trigger] g(i) < last && g(g(i)) == i by {
            if i != k {
                if f(i) == last {
                    assert(f(f(i)) == k);
                }
                if f(i) == k {
                    assert(f(k) == last);
                }
            }
        }
        lemma_sum_involution(w1, g);
        let sg = reorder(w1, g);
        // reading with f instead of g differs only at index k
        let sfl = sf.take(last);
        assert(sfl =~= sg.update(k, w[last]));
        lemma_sum_prefix_update(sg, k, w[last], last);
        lemma_sum_take(sf, last);
        assert(sum(sfl) == sum_prefix(sf, last));
        assert(sum_prefix(sg.update(k, w[last]), last) == sum(sg) - w[k] + w[last]);
        assert(sf[last] == w[k]);
    }
}

// ---------------------------------------------------------------------------
// CNOT and SWAP
// ---------------------------------------------------------------------------

/// Law: CNOT is its own inverse.
pub proof fn law_cnot_self_inverse(s: QState, c: nat, t: nat)
    requires
        s.wf(),
        c < s.num_qubits,
        t < s.num_qubits,
        c != t,
    ensures
        cnot_state(cnot_state(s, c, t), c, t) == s,
{
    let s1 = cnot_state(s, c, t);
    let s2 = cnot_state(s1, c, t);
    assert forall|k: int| 0 <= k < s.amps.len() implies #[trigger] s2.amps[k] == s.amps[k] by {
        lemma_cnot_index(s.num_qubits, c, t, k);
    }
    assert(s2.amps =~= s.amps);
}

/// Law: SWAP is its own inverse.
pub proof fn law_swap_self_inverse(s: QState, a: nat, b: nat)
    requires
        s.wf(),
        a < s.num_qubits,
        b < s.num_qubits,
        a != b,
    ensures
        swap_state(swap_state(s, a, b), a, b) == s,
{
    let s1 = swap_state(s, a, b);
    let s2 = swap_state(s1, a, b);
    assert forall|k: int| 0 <= k < s.amps.len() implies #[trigger] s2.amps[k] == s.amps[k] by {
        lemma_swap_index(s.num_qubits, a, b, k);
    }
    assert(s2.amps =~= s.amps);
}

/// Law: CNOT keeps a normalized state normalized.
pub proof fn law_cnot_normalized(s: QState, c: nat, t: nat)
    requires
        s.wf(),
        normalized(s),
        c < s.num_qubits,
        t < s.num_qubits,
        c != t,
    ensures
        normalized(cnot_state(s, c, t)),
{
    let f = |k: int| cnot_index(s.num_qubits, c, t, k);
    let w = s.weights();
    assert forall|i: int| 0 <= i < w.len() implies 0 <= #[trigger] f(i) < w.len() && f(f(i)) == i by {
        lemma_cnot_index(s.num_qubits, c, t, i);
    }
    lemma_sum_involution(w, f);
    assert(cnot_state(s, c, t).weights() =~= reorder(w, f));
}

/// Law: SWAP keeps a normalized state normalized.
pub proof fn law_swap_normalized(s: QState, a: nat, b: nat)
    requires
        s.wf(),
        normalized(s),
        a < s.num_qubits,
        b < s.num_qubits,
        a != b,
    ensures
        normalized(swap_state(s, a, b)),
{
    let f = |k: int| swap_index(s.num_qubits, a, b, k);
    let w = s.weights();
    assert forall|i: int| 0 <= i < w.len() implies 0 <= #[trigger] f(i) < w.len() && f(f(i)) == i by {
        lemma_swap_index(s.num_qubits, a, b, i);
    }
    lemma_sum_involution(w, f);
    assert(swap_state(s, a, b).weights() =~= reorder(w, f));
}

// ---------------------------------------------------------------------------
// Standard gates are unitary
// ---------------------------------------------------------------------------

/// The gates the library provides: X, Y, Z, S and H.
pub open spec fn standard_gate(g: Gate) -> bool {
    g == gate_x() || g == gate_y() || g == gate_z() || g == gate_s() || g == gate_h()
}

/// The index paired with `i` by a gate on the qubit with mask `m`.
pub open spec fn partner(m: usize, i: int) -> int {
    if (i as usize) & m == 0 {
        i + m
    } else {
        i - m
    }
}

/// A standard gate maps the pair `(a, b)` to one of `2^e` times its weight.
pub proof fn lemma_pair_unitary(g: Gate, a: Cx, b: Cx)
    requires
        standard_gate(g),
    ensures
        cx_norm_sq(cx_add(cx_mul(g.entry(0, 0), a), cx_mul(g.entry(0, 1), b))) + cx_norm_sq(
            cx_add(cx_mul(g.entry(1, 0), a), cx_mul(g.entry(1, 1), b)),
        ) == pow2(g.sqrt2_exp as nat) * (cx_norm_sq(a) + cx_norm_sq(b)),
{
    lemma_unit_mul(a);
    lemma_unit_mul(b);
    assert(pow2(0) == 1 && pow2(1) == 2) by {
        vstd::arithmetic::power2::lemma2_to64();
    }
    let (a0, a1, b0, b1) = (a.0, a.1, b.0, b.1);
    assert((a0 + b0) * (a0 + b0) + (a1 + b1) * (a1 + b1) + (a0 - b0) * (a0 - b0) + (a1 - b1) * (
    a1 - b1) == 2 * (a0 * a0 + a1 * a1 + b0 * b0 + b1 * b1)) by (nonlinear_arith);
    assert((-a0) * (-a0) == a0 * a0 && (-a1) * (-a1) == a1 * a1 && (-b0) * (-b0) == b0 * b0 && (
    -b1) * (-b1) == b1 * b1) by (nonlinear_arith);
    assert(1 * (a0 * a0 + a1 * a1 + b0 * b0 + b1 * b1) == a0 * a0 + a1 * a1 + b0 * b0 + b1 * b1)
        by (nonlinear_arith);
}

/// The exact result of X, Y, Z, S or H, before common factors are removed,
/// is normalized (with the norm multiplied by `2^e`).
pub proof fn lemma_raw_gate_normalized(s: QState, qb: nat, g: Gate)
    requires
        s.wf(),
        qb < s.num_qubits,
        standard_gate(g),
        normalized(s),
    ensures
        normalized(raw_gate(s, qb, g)),
{
    let n = s.num_qubits;
    let m = qubit_mask(n, qb);
    let r = raw_gate(s, qb, g);
    let c = pow2(g.sqrt2_exp as nat) as int;
    let v = r.weights();
    let w = s.weights();
    let len = w.len() as int;
    let f = |i: int| partner(m, i);
    lemma_dim(n);
    lemma_qubit_mask(n, qb);
    assert forall|i: int| 0 <= i < len implies 0 <= #[trigger] f(i) < len && f(f(i)) == i by {
        let iu = i as usize;
        if iu & m == 0 {
            lemma_bit_clear(iu, qubit_shift(n, qb), n as usize);
            let ju = (i + m) as usize;
            assert(ju & m != 0);
        } else {
            lemma_bit_set(iu, qubit_shift(n, qb));
            let ju = (i - m) as usize;
            lemma_bit_clear(ju, qubit_shift(n, qb), n as usize);
        }
    }
    let vv = reorder(v, f);
    let ww = reorder(w, f);
    let pv = Seq::new(len as nat, |i: int| v[i] + vv[i]);
    let pw = Seq::new(len as nat, |i: int| w[i] + ww[i]);
    assert forall|i: int| 0 <= i < len implies #[trigger] pv[i] == c * pw[i] by {
        let iu = i as usize;
        if iu & m == 0 {
            lemma_bit_clear(iu, qubit_shift(n, qb), n as usize);
            let j = i + m;
            assert((j as usize) & m != 0);
            assert((j - m) == i);
            lemma_pair_unitary(g, s.amps[i], s.amps[j]);
        } else {
            lemma_bit_set(iu, qubit_shift(n, qb));
            let j = i - m;
            lemma_bit_clear(j as usize, qubit_shift(n, qb), n as usize);
            assert(j + m == i);
            lemma_pair_unitary(g, s.amps[j], s.amps[i]);
        }
    }
    lemma_sum_prefix_add(v, vv, pv, len);
    lemma_sum_prefix_add(w, ww, pw, len);
    lemma_sum_prefix_scale(pw, pv, c, len);
    lemma_sum_involution(v, f);
    lemma_sum_involution(w, f);
    assert(2 * sum(v) == c * (2 * sum(w)));
    assert(sum(v) == c * sum(w)) by (nonlinear_arith)
        requires
            2 * sum(v) == c * (2 * sum(w)),
    ;
    assert(r.norm == s.norm * c);
    assert(sum(w) == s.norm);
    assert(c * sum(w) == s.norm * c) by (nonlinear_arith)
        requires
            sum(w) == s.norm,
    ;
    assert(normalized(r));
}

/// Law: X, Y, Z, S and H keep a normalized state normalized.
pub proof fn law_gate_normalized(s: QState, qb: nat, g: Gate, t: QState)
    requires
        s.wf(),
        qb < s.num_qubits,
        standard_gate(g),
        normalized(s),
        gate_step(s, qb, g) == Ok::<QState, SimError>(t),
    ensures
        normalized(t),
{
    lemma_raw_gate_normalized(s, qb, g);
    lemma_reduce_normalized(raw_gate(s, qb, g));
}

// ---------------------------------------------------------------------------
// Circuits
// ---------------------------------------------------------------------------

proof fn lemma_basis_sum(n: nat, k: int, j: int)
    requires
        0 <= k < dim(n),
        0 <= j <= dim(n),
    ensures
        sum_prefix(QState { num_qubits: n, amps: basis_amps(n, k), norm: 1 }.weights(), j) == (if k
            < j {
            1int
        } else {
            0int
        }),
    decreases j,
{
    if j > 0 {
        lemma_basis_sum(n, k, j - 1);
        let w = QState { num_qubits: n, amps: basis_amps(n, k), norm: 1 }.weights();
        assert(1int * 1int + 0int * 0int == 1 && 0int * 0int + 0int * 0int == 0) by (nonlinear_arith);
        assert(w[j - 1] == (if j - 1 == k { 1int } else { 0int }));
    }
}

/// Law: a basis state |k> (in particular the starting state |0...0>) is normalized.
pub proof fn law_basis_normalized(n: nat, k: int)
    requires
        0 <= k < dim(n),
    ensures
        normalized(QState { num_qubits: n, amps: basis_amps(n, k), norm: 1 }),
{
    lemma_basis_sum(n, k, dim(n) as int);
}

/// One operation keeps a well-formed, normalized state well-formed and normalized.
pub proof fn lemma_op_normalized(s: QState, op: Op, t: QState)
    requires
        s.wf(),
        normalized(s),
        op_valid(op, s.num_qubits),
        op_step(s, op) == Ok::<QState, SimError>(t),
    ensures
        t.wf(),
        t.num_qubits == s.num_qubits,
        normalized(t),
{
    match op {
        Op::Cnot { control, target } => {
            law_cnot_normalized(s, control as nat, target as nat);
        },
        Op::Swap(a, b) => {
            law_swap_normalized(s, a as nat, b as nat);
        },
        Op::H(q) => {
            lemma_gate_wf(s, q as nat, gate_h());
            law_gate_normalized(s, q as nat, gate_h(), t);
        },
        Op::X(q) => {
            lemma_gate_wf(s, q as nat, gate_x());
            law_gate_normalized(s, q as nat, gate_x(), t);
        },
        Op::Y(q) => {
            lemma_gate_wf(s, q as nat, gate_y());
            law_gate_normalized(s, q as nat, gate_y(), t);
        },
        Op::Z(q) => {
            lemma_gate_wf(s, q as nat, gate_z());
            law_gate_normalized(s, q as nat, gate_z(), t);
        },
        Op::S(q) => {
            lemma_gate_wf(s, q as nat, gate_s());
            law_gate_normalized(s, q as nat, gate_s(), t);
        },
    }
}

/// A gate step keeps a state well-formed.
pub proof fn lemma_gate_wf(s: QState, qb: nat, g: Gate)
    requires
        s.wf(),
    ensures
        gate_step(s, qb, g) matches Ok(t) ==> t.wf() && t.num_qubits == s.num_qubits,
{
    let r = raw_gate(s, qb, g);
    vstd::arithmetic::power2::lemma_pow2_pos(g.sqrt2_exp as nat);
    let p = pow2(g.sqrt2_exp as nat);
    assert(s.norm * p >= 1) by (nonlinear_arith)
        requires
            s.norm >= 1,
            p >= 1,
    ;
    lemma_reduce_wf(r);
}

/// Law: running a circuit keeps a normalized state normalized -- every
/// operation of the library is unitary.
pub proof fn law_run_normalized(s: QState, ops: Seq<Op>, t: QState)
    requires
        s.wf(),
        normalized(s),
        forall|i: int| 0 <= i < ops.len() ==> op_valid(#[trigger] ops[i], s.num_qubits),
        run_ops(s, ops) == Ok::<QState, SimError>(t),
    ensures
        t.wf(),
        t.num_qubits == s.num_qubits,
        normalized(t),
    decreases ops.len(),
{
    if ops.len() > 0 {
        let front = ops.drop_last();
        match run_ops(s, front) {
            Ok(m) => {
                assert forall|i: int| 0 <= i < front.len() implies op_valid(
                    #[trigger] front[i],
                    s.num_qubits,
                ) by {
                    assert(front[i] == ops[i]);
                }
                law_run_normalized(s, front, m);
                assert(op_valid(ops[ops.len() - 1], s.num_qubits));
                lemma_op_normalized(m, ops.last(), t);
            },
            Err(_) => {},
        }
    }
}

/// Law: running a circuit is applying its operations by hand, one after the
/// other: the empty circuit leaves the state as it is, and one more operation
/// takes the result so far to its `op_step`: `gate_step` for H, X, Y, Z and
/// S, `cnot_state` for CNOT and `swap_state` for SWAP, which are what
/// `apply_gate`, `apply_cnot` and `apply_swap` ensure.
pub proof fn law_run_is_stepwise(s: QState, ops: Seq<Op>, op: Op)
    ensures
        run_ops(s, Seq::empty()) == Ok::<QState, SimError>(s),
        run_ops(s, ops.push(op)) == (match run_ops(s, ops) {
            Ok(t) => op_step(t, op),
            Err(e) => Err(e),
        }),
        op_step(s, op) == (match op {
            Op::H(q) => gate_step(s, q as nat, gate_h()),
            Op::X(q) => gate_step(s, q as nat, gate_x()),
            Op::Y(q) => gate_step(s, q as nat, gate_y()),
            Op::Z(q) => gate_step(s, q as nat, gate_z()),
            Op::S(q) => gate_step(s, q as nat, gate_s()),
            Op::Cnot { control, target } => Ok(cnot_state(s, control as nat, target as nat)),
            Op::Swap(a, b) => Ok(swap_state(s, a as nat, b as nat)),
        }),
{
    assert(ops.push(op).drop_last() =~= ops);
}

/// Law: when a run succeeds, applying its operations by hand never fails
/// part-way: every prefix of the operations succeeds, and the next operation
/// takes its result to the next prefix's.
pub proof fn law_run_prefixes_succeed(s: QState, ops: Seq<Op>, k: int)
    requires
        run_ops(s, ops) is Ok,
        0 <= k < ops.len(),
    ensures
        run_ops(s, ops.take(k)) is Ok,
        run_ops(s, ops.take(k + 1)) == op_step(run_ops(s, ops.take(k))->Ok_0, ops[k]),
{
    if run_ops(s, ops.take(k)) is Err {
        lemma_run_ops_err(s, ops, k);
    }
    assert(ops.take(k + 1).drop_last() =~= ops.take(k));
    assert(ops.take(k + 1).last() == ops[k]);
}

/// Law: running `a` then `b` is running `a + b`.
pub proof fn law_run_concat(s: QState, a: Seq<Op>, b: Seq<Op>)
    ensures
        run_ops(s, a + b) == (match run_ops(s, a) {
            Ok(t) => run_ops(t, b),
            Err(e) => Err(e),
        }),
    decreases b.len(),
{
    if b.len() == 0 {
        assert(a + b =~= a);
    } else {
        assert((a + b).drop_last() =~= a + b.drop_last());
        assert((a + b).last() == b.last());
        law_run_concat(s, a, b.drop_last());
    }
}

// ---------------------------------------------------------------------------
// Grover's search
// ---------------------------------------------------------------------------

proof fn lemma_distrib(c: int, x: int, y: int)
    ensures
        c * (x + y) == c * x + c * y,
{
    assert(c * (x + y) == c * x + c * y) by (nonlinear_arith);
}

/// `(2t - d*a)^2 == 4t^2 - 4dt*a + d^2*a^2`
proof fn lemma_square_expand(t: int, d: int, a: int)
    ensures
        (2 * t - d * a) * (2 * t - d * a) == 4 * (t * t) + (-4 * d * t) * a + (d * d) * (a * a),
{
    assert((2 * t - d * a) * (2 * t - d * a) == 4 * (t * t) + (-4 * d * t) * a + (d * d) * (a * a))
        by (nonlinear_arith);
}

/// Sums of affine combinations of three sequences.
proof fn lemma_sum_affine(
    x: Seq<int>,
    y: Seq<int>,
    z: Seq<int>,
    r: Seq<int>,
    c0: int,
    c1: int,
    c2: int,
    c3: int,
    k: int,
)
    requires
        x.len() == y.len(),
        y.len() == z.len(),
        z.len() == r.len(),
        0 <= k <= x.len(),
        forall|i: int| 0 <= i < x.len() ==> #[trigger] r[i] == c0 + c1 * x[i] + c2 * y[i] + c3 * z[i],
    ensures
        sum_prefix(r, k) == c0 * k + c1 * sum_prefix(x, k) + c2 * sum_prefix(y, k) + c3 * sum_prefix(z, k),
    decreases k,
{
    if k > 0 {
        lemma_sum_affine(x, y, z, r, c0, c1, c2, c3, k - 1);
        let (sx, sy, sz) = (sum_prefix(x, k - 1), sum_prefix(y, k - 1), sum_prefix(z, k - 1));
        let (a, b, c) = (x[k - 1], y[k - 1], z[k - 1]);
        assert(r[k - 1] == c0 + c1 * a + c2 * b + c3 * c);
        lemma_distrib(c0, k - 1, 1);
        lemma_distrib(c1, sx, a);
        lemma_distrib(c2, sy, b);
        lemma_distrib(c3, sz, c);
        assert(c0 * 1 == c0) by (nonlinear_arith);
        assert(sum_prefix(x, k) == sx + a);
        assert(sum_prefix(y, k) == sy + b);
        assert(sum_prefix(z, k) == sz + c);
        assert(sum_prefix(r, k) == sum_prefix(r, k - 1) + r[k - 1]);
    } else {
        assert(c0 * 0 + c1 * 0 + c2 * 0 + c3 * 0 == 0) by (nonlinear_arith);
    }
}

/// Law: the oracle keeps a normalized state normalized.
pub proof fn law_oracle_normalized(s: QState, target: int, t: QState)
    requires
        s.wf(),
        normalized(s),
        0 <= target < s.amps.len(),
        oracle_step(s, target) == Ok::<QState, SimError>(t),
    ensures
        t.wf(),
        t.num_qubits == s.num_qubits,
        normalized(t),
{
    let a = s.amps[target];
    assert((-a.0) * (-a.0) + (-a.1) * (-a.1) == a.0 * a.0 + a.1 * a.1) by (nonlinear_arith);
    assert(t.weights() =~= s.weights());
}

/// Law: the diffusion (inversion about the mean) keeps a normalized state
/// normalized: `sum |2T - D*w[i]|^2 == D^2 * sum |w[i]|^2` for `T = sum w`.
pub proof fn law_diffusion_normalized(s: QState, t: QState)
    requires
        s.wf(),
        normalized(s),
        diffusion_step(s) == Ok::<QState, SimError>(t),
    ensures
        t.wf(),
        t.num_qubits == s.num_qubits,
        normalized(t),
{
    let r = diffusion_raw(s);
    lemma_raw_diffusion_normalized(s);
    lemma_reduce_wf(r);
    lemma_reduce_normalized(r);
}

/// The exact inversion about the mean, before common factors are removed, is
/// normalized with the norm multiplied by `D^2`.
pub proof fn lemma_raw_diffusion_normalized(s: QState)
    requires
        s.wf(),
        normalized(s),
    ensures
        normalized(diffusion_raw(s)),
        diffusion_raw(s).wf(),
        diffusion_raw(s).num_qubits == s.num_qubits,
{
    let r = diffusion_raw(s);
    let len = s.amps.len() as int;
    let d = len;
    let tot = cx_total(s.amps);
    let x = Seq::new(s.amps.len(), |i: int| s.amps[i].0);
    let y = Seq::new(s.amps.len(), |i: int| s.amps[i].1);
    let w = s.weights();
    let v = r.weights();
    let (t0, t1) = (tot.0, tot.1);
    let c0 = 4 * (t0 * t0 + t1 * t1);
    let c1 = -4 * d * t0;
    let c2 = -4 * d * t1;
    let c3 = d * d;
    assert forall|i: int| 0 <= i < len implies #[trigger] v[i] == c0 + c1 * x[i] + c2 * y[i] + c3
        * w[i] by {
        let (a0, a1) = (s.amps[i].0, s.amps[i].1);
        assert(r.amps[i] == (2 * t0 - d * a0, 2 * t1 - d * a1));
        lemma_square_expand(t0, d, a0);
        lemma_square_expand(t1, d, a1);
        lemma_distrib(d * d, a0 * a0, a1 * a1);
        lemma_distrib(4, t0 * t0, t1 * t1);
    }
    lemma_sum_affine(x, y, w, v, c0, c1, c2, c3, len);
    assert(sum(x) == t0 && sum(y) == t1);
    assert(sum(v) == c0 * d + c1 * t0 + c2 * t1 + c3 * sum(w));
    assert(c0 * d + c1 * t0 + c2 * t1 == 0) by (nonlinear_arith)
        requires
            c0 == 4 * (t0 * t0 + t1 * t1),
            c1 == -4 * d * t0,
            c2 == -4 * d * t1,
    ;
    assert(sum(w) == s.norm);
    assert(r.norm == s.norm * (d * d) as nat);
    assert(d * d >= 1) by (nonlinear_arith)
        requires
            d >= 1,
    ;
    assert(c3 * sum(w) == s.norm * (d * d)) by (nonlinear_arith)
        requires
            c3 == d * d,
            sum(w) == s.norm,
    ;
    assert(normalized(r));
    assert(s.norm * (d * d) >= 1) by (nonlinear_arith)
        requires
            s.norm >= 1,
            d * d >= 1,
    ;
}

proof fn lemma_hadamard_all_normalized(s: QState, k: nat, t: QState)
    requires
        s.wf(),
        normalized(s),
        k <= s.num_qubits,
        hadamard_all(s, k) == Ok::<QState, SimError>(t),
    ensures
        t.wf(),
        t.num_qubits == s.num_qubits,
        normalized(t),
    decreases k,
{
    if k > 0 {
        match hadamard_all(s, (k - 1) as nat) {
            Ok(m) => {
                lemma_hadamard_all_normalized(s, (k - 1) as nat, m);
                lemma_gate_wf(m, (k - 1) as nat, gate_h());
                law_gate_normalized(m, (k - 1) as nat, gate_h(), t);
            },
            Err(_) => {},
        }
    }
}

proof fn lemma_rounds_normalized(s: QState, target: int, k: nat, t: QState)
    requires
        s.wf(),
        normalized(s),
        0 <= target < s.amps.len(),
        grover_rounds(s, target, k) == Ok::<QState, SimError>(t),
    ensures
        t.wf(),
        t.num_qubits == s.num_qubits,
        normalized(t),
    decreases k,
{
    if k > 0 {
        match grover_rounds(s, target, (k - 1) as nat) {
            Ok(m) => {
                lemma_rounds_normalized(s, target, (k - 1) as nat, m);
                match oracle_step(m, target) {
                    Ok(u) => {
                        law_oracle_normalized(m, target, u);
                        law_diffusion_normalized(u, t);
                    },
                    Err(_) => {},
                }
            },
            Err(_) => {},
        }
    }
}

/// Law: the state Grover's search returns is normalized.
pub proof fn law_grover_normalized(n: nat, target: int, t: QState)
    requires
        1 <= n < usize::BITS,
        0 <= target < dim(n),
        grover_state(n, target) == Ok::<QState, SimError>(t),
    ensures
        t.wf(),
        normalized(t),
{
    let s0 = initial_state(n);
    law_basis_normalized(n, 0);
    lemma_dim(n);
    match hadamard_all(s0, n) {
        Ok(s1) => {
            lemma_hadamard_all_normalized(s0, n, s1);
            lemma_rounds_normalized(s1, target, crate::grover::grover_iterations(n), t);
        },
        Err(_) => {},
    }
}

// ---------------------------------------------------------------------------
// Controlled gates and measurement
// ---------------------------------------------------------------------------

/// Law: the controlled X is the CNOT -- applying X to the target where the
/// control is |1> gives the CNOT's amplitudes.
pub proof fn law_cnot_is_controlled_x(s: QState, c: nat, t: nat)
    requires
        s.wf(),
        s.fits(),
        c < s.num_qubits,
        t < s.num_qubits,
        c != t,
    ensures
        controlled_step(s, c, t, gate_x()) == Ok::<QState, SimError>(reduce(cnot_state(s, c, t))),
        same_amplitudes(cnot_state(s, c, t), reduce(cnot_state(s, c, t))),
{
    let n = s.num_qubits;
    let g = gate_x();
    let r = raw_controlled(s, c, t, g);
    let cs = cnot_state(s, c, t);
    let tm = qubit_mask(n, t);
    lemma_dim(n);
    lemma_qubit_mask(n, c);
    lemma_qubit_mask(n, t);
    assert(pow2(0) == 1) by {
        vstd::arithmetic::power2::lemma2_to64();
    }
    assert forall|i: int| 0 <= i < s.amps.len() implies #[trigger] r.amps[i] == cs.amps[i] by {
        lemma_cnot_index(n, c, t, i);
        let a = s.amps[i];
        lemma_unit_mul(a);
        if bit_of(n, c, i) {
            if !bit_of(n, t, i) {
                lemma_unit_mul(s.amps[i + tm]);
            } else {
                lemma_unit_mul(s.amps[i - tm]);
            }
        } else {
            assert(cx_scale(1, a) == a);
        }
    }
    assert(r.amps =~= cs.amps);
    assert(g.sqrt2_exp == 0);
    assert(r.norm == s.norm * pow2(0));
    assert(s.norm * 1 == s.norm);
    assert(r == cs);
    assert forall|i: int| 0 <= i < cs.amps.len() implies #[trigger] cx_fits(cs.amps[i]) by {
        lemma_cnot_index(n, c, t, i);
        assert(cx_fits(s.amps[cnot_index(n, c, t, i)]));
    }
    lemma_reduce_same(cs);
}

/// Law: measuring collapses the state -- measuring the collapsed state again
/// gives the same outcome, whatever the draw, and leaves the state as it is.
pub proof fn law_measure_repeatable(s: QState, k: int, r: int)
    requires
        s.wf(),
        0 <= k < s.amps.len(),
        0 <= r < collapsed(s, k).norm,
    ensures
        pick(collapsed(s, k).weights(), r) == k,
        collapsed(collapsed(s, k), k) == collapsed(s, k),
{
    let c = collapsed(s, k);
    law_basis_normalized(s.num_qubits, k);
    lemma_pick_positive(c, r);
    let p = pick(c.weights(), r);
    if p != k {
        assert(c.amps[p] == (0int, 0int));
        assert(0int * 0int + 0int * 0int == 0) by (nonlinear_arith);
        assert(c.weights()[p] == 0);
    }
}

/// Law: every outcome that sampling a circuit can report has positive
/// probability in the circuit's final state (a Bell circuit only ever reports
/// "00" or "11").
pub proof fn law_observed_outcome_positive(n: nat, ops: Seq<Op>, i: int)
    requires
        n < usize::BITS,
        forall|j: int| 0 <= j < ops.len() ==> op_valid(#[trigger] ops[j], n),
        observable(initial_state(n), ops, i),
    ensures
        0 <= i < dim(n),
        match run_ops(initial_state(n), ops) {
            Ok(t) => t.weights()[i] > 0,
            Err(_) => false,
        },
{
    lemma_dim(n);
    let s0 = initial_state(n);
    law_basis_normalized(n, 0);
    match run_ops(s0, ops) {
        Ok(t) => {
            law_run_normalized(s0, ops, t);
            lemma_possible_outcome_positive(t, i);
        },
        Err(_) => {},
    }
}

// ---------------------------------------------------------------------------
// Diagrams
// ---------------------------------------------------------------------------

pub proof fn lemma_decimal_len_mono(a: nat, b: nat)
    requires
        a <= b,
    ensures
        1 <= decimal(a).len() <= decimal(b).len(),
    decreases b,
{
    if b >= 10 {
        if a >= 10 {
            lemma_decimal_len_mono(a / 10, b / 10);
        } else {
            lemma_decimal_len_mono(0, b / 10);
        }
    }
}

pub proof fn lemma_op_cells_len(ops: Seq<Op>, i: nat)
    ensures
        op_cells(ops, i).len() == 3 * ops.len(),
    decreases ops.len(),
{
    if ops.len() > 0 {
        lemma_op_cells_len(ops.drop_last(), i);
        let op = ops.last();
        assert(op_cell(op, i).len() == 3);
    }
}

/// Law: every operation appends a column of the same width to every row, so
/// all rows of a diagram are equally long: the label column plus three
/// characters per operation.
pub proof fn law_diagram_rows_aligned(c: CircuitSpec, i: nat)
    requires
        1 <= c.num_qubits,
        i < num_rows(c.num_qubits),
    ensures
        diagram_row(c, i).len() == label_width(c.num_qubits) + 3 * c.ops.len(),
{
    let n = c.num_qubits;
    lemma_op_cells_len(c.ops, i);
    lemma_decimal_len_mono(i / 2, (n - 1) as nat);
    assert(row_label(n, i).len() == label_width(n));
}

// ---------------------------------------------------------------------------
// Grover's search on two qubits
// ---------------------------------------------------------------------------

/// The equal superposition of two qubits: four entries 1, norm 4.
pub open spec fn two_qubit_superposition() -> QState {
    QState { num_qubits: 2, amps: Seq::new(4, |i: int| (1int, 0int)), norm: 4 }
}

proof fn lemma_two_qubit_masks()
    ensures
        qubit_mask(2, 0) == 2usize,
        qubit_mask(2, 1) == 1usize,
        dim(2) == 4,
        0usize & 2usize == 0usize,
        1usize & 2usize == 0usize,
        2usize & 2usize == 2usize,
        3usize & 2usize == 2usize,
        0usize & 1usize == 0usize,
        1usize & 1usize == 1usize,
        2usize & 1usize == 0usize,
        3usize & 1usize == 1usize,
{
    vstd::arithmetic::power2::lemma2_to64();
    assert(1usize << 1usize == 2usize) by (bit_vector);
    assert(1usize << 0usize == 1usize) by (bit_vector);
    assert(0usize & 2usize == 0usize && 1usize & 2usize == 0usize && 2usize & 2usize == 2usize
        && 3usize & 2usize == 2usize) by (bit_vector);
    assert(0usize & 1usize == 0usize && 1usize & 1usize == 1usize && 2usize & 1usize == 0usize
        && 3usize & 1usize == 1usize) by (bit_vector);
}

/// Hadamard on both qubits of |00> gives the equal superposition.
proof fn lemma_two_qubit_hadamards()
    ensures
        hadamard_all(initial_state(2), 2) == Ok::<QState, SimError>(two_qubit_superposition()),
{
    lemma_two_qubit_masks();
    vstd::arithmetic::power2::lemma2_to64();
    let h = gate_h();
    let s0 = initial_state(2);
    let r1 = raw_gate(s0, 0, h);
    assert(s0.amps[0] == (1int, 0int) && s0.amps[1] == (0int, 0int) && s0.amps[2] == (0int, 0int)
        && s0.amps[3] == (0int, 0int));
    lemma_unit_mul((1int, 0int));
    lemma_unit_mul((0int, 0int));
    let t1 = QState {
        num_qubits: 2,
        amps: seq![(1int, 0int), (0int, 0int), (1int, 0int), (0int, 0int)],
        norm: 2,
    };
    assert(r1.amps[0] == (1int, 0int));
    assert(r1.amps[1] == (0int, 0int));
    assert(r1.amps[2] == (1int, 0int));
    assert(r1.amps[3] == (0int, 0int));
    assert(r1.amps =~= t1.amps);
    assert(r1 == t1);
    assert(r1.fits());
    assert(reduce(r1) == r1);
    assert(gate_step(s0, 0, h) == Ok::<QState, SimError>(t1));
    assert(hadamard_all(s0, 0) == Ok::<QState, SimError>(s0));
    assert(hadamard_all(s0, 1) == Ok::<QState, SimError>(t1));
    let r2 = raw_gate(t1, 1, h);
    let s1 = two_qubit_superposition();
    assert(r2.amps[0] == (1int, 0int));
    assert(r2.amps[1] == (1int, 0int));
    assert(r2.amps[2] == (1int, 0int));
    assert(r2.amps[3] == (1int, 0int));
    assert(r2.amps =~= s1.amps);
    assert(r2 == s1);
    assert(r2.fits());
    assert(!cx_even(r2.amps[0]));
    assert(reduce(r2) == r2);
}

/// Two qubits take one Grover iteration.
proof fn lemma_two_qubit_iterations()
    ensures
        grover_iterations(2) == 1,
{
    vstd::arithmetic::power2::lemma2_to64();
    let t = PI_QUARTER_Q32 * PI_QUARTER_Q32 * pow2(2);
    let u = pow2(32);
    assert((1 * u) * (1 * u) <= t && t < ((1 + 1) * u) * ((1 + 1) * u)) by (nonlinear_arith)
        requires
            t == PI_QUARTER_Q32 * PI_QUARTER_Q32 * 4,
            u == 0x1_0000_0000,
            PI_QUARTER_Q32 == 3373259426,
    ;
    assert(iterations_ok(2, 1));
    let k = grover_iterations(2);
    lemma_iterations_unique(2, k, 1);
}

/// One round on the two-qubit superposition lands exactly on the target.
proof fn lemma_two_qubit_round(t: int)
    requires
        0 <= t < 4,
    ensures
        grover_rounds(two_qubit_superposition(), t, 1) == Ok::<QState, SimError>(
            QState { num_qubits: 2, amps: basis_amps(2, t), norm: 1 },
        ),
{
    vstd::arithmetic::power2::lemma2_to64();
    let s1 = two_qubit_superposition();
    let u = QState { num_qubits: 2, amps: s1.amps.update(t, (-1int, 0int)), norm: 4 };
    assert(u.fits());
    assert(oracle_step(s1, t) == Ok::<QState, SimError>(u));
    reveal_with_fuel(sum_prefix, 5);
    let re = Seq::new(u.amps.len(), |i: int| u.amps[i].0);
    let im = Seq::new(u.amps.len(), |i: int| u.amps[i].1);
    assert(sum(re) == 2);
    assert(sum(im) == 0);
    assert(cx_total(u.amps) == (2int, 0int));
    let r = diffusion_raw(u);
    let e8 = Seq::new(4, |i: int| if i == t { (8int, 0int) } else { (0int, 0int) });
    let e4 = Seq::new(4, |i: int| if i == t { (4int, 0int) } else { (0int, 0int) });
    let e2 = Seq::new(4, |i: int| if i == t { (2int, 0int) } else { (0int, 0int) });
    let e1 = Seq::new(4, |i: int| if i == t { (1int, 0int) } else { (0int, 0int) });
    assert(r.amps =~= e8);
    assert(r.norm == 64);
    assert(r.fits());
    assert(diffusion_step(u) == Ok::<QState, SimError>(reduce(r)));
    let q1 = QState { num_qubits: 2, amps: e4, norm: 16 };
    let q2 = QState { num_qubits: 2, amps: e2, norm: 4 };
    let q3 = QState { num_qubits: 2, amps: e1, norm: 1 };
    assert(all_even(e8)) by {
        assert forall|i: int| 0 <= i < e8.len() implies #[trigger] cx_even(e8[i]) by {}
    }
    assert(halve(e8) =~= e4);
    assert(reduce(r) == reduce(q1));
    assert(all_even(e4)) by {
        assert forall|i: int| 0 <= i < e4.len() implies #[trigger] cx_even(e4[i]) by {}
    }
    assert(halve(e4) =~= e2);
    assert(reduce(q1) == reduce(q2));
    assert(all_even(e2)) by {
        assert forall|i: int| 0 <= i < e2.len() implies #[trigger] cx_even(e2[i]) by {}
    }
    assert(halve(e2) =~= e1);
    assert(reduce(q2) == reduce(q3));
    assert(reduce(q3) == q3);
    assert(e1 =~= basis_amps(2, t));
    assert(grover_rounds(s1, t, 0) == Ok::<QState, SimError>(s1));
}

/// Law: on two qubits Grover's search is exact -- it ends in the target's
/// basis state, so measuring gives the target with probability 1 and every
/// other amplitude is 0.
pub proof fn law_grover_two_qubits_exact(target: int)
    requires
        0 <= target < 4,
    ensures
        grover_state(2, target) == Ok::<QState, SimError>(
            QState { num_qubits: 2, amps: basis_amps(2, target), norm: 1 },
        ),
{
    lemma_two_qubit_hadamards();
    lemma_two_qubit_iterations();
    lemma_two_qubit_round(target);
}

// ---------------------------------------------------------------------------
// Grover's search fits 128-bit norms up to seven qubits
// ---------------------------------------------------------------------------

/// A normalized state whose norm is at most `2^124` fits the machine
/// representation: every part squared is at most the norm.
pub proof fn lemma_small_normalized_fits(s: QState)
    requires
        normalized(s),
        s.norm <= 0x1000_0000_0000_0000_0000_0000_0000_0000,
    ensures
        s.fits(),
{
    lemma_weights_nonneg(s);
    assert forall|i: int| 0 <= i < s.amps.len() implies #[trigger] cx_fits(s.amps[i]) by {
        lemma_elem_le_sum(s.weights(), i);
        let a = s.amps[i].0;
        let b = s.amps[i].1;
        lemma_square_nonneg(a);
        lemma_square_nonneg(b);
        assert(a * a <= 0x1000_0000_0000_0000_0000_0000_0000_0000);
        assert(b * b <= 0x1000_0000_0000_0000_0000_0000_0000_0000);
        assert(-0x4000_0000_0000_0000 <= a <= 0x4000_0000_0000_0000) by (nonlinear_arith)
            requires
                a * a <= 0x1000_0000_0000_0000_0000_0000_0000_0000,
        ;
        assert(-0x4000_0000_0000_0000 <= b <= 0x4000_0000_0000_0000) by (nonlinear_arith)
            requires
                b * b <= 0x1000_0000_0000_0000_0000_0000_0000_0000,
        ;
    }
}

pub proof fn lemma_pow2_le(a: nat, b: nat)
    requires
        a <= b,
    ensures
        pow2(a) <= pow2(b),
{
    if a < b {
        vstd::arithmetic::power2::lemma_pow2_strictly_increases(a, b);
    }
}

pub proof fn lemma_pow2_124()
    ensures
        pow2(124) == 0x1000_0000_0000_0000_0000_0000_0000_0000,
{
    vstd::arithmetic::power2::lemma2_to64_rest();
    vstd::arithmetic::power2::lemma_pow2_adds(62, 62);
    let h = pow2(62);
    assert(h * h == 0x1000_0000_0000_0000_0000_0000_0000_0000) by (nonlinear_arith)
        requires
            h == 0x4000_0000_0000_0000,
    ;
}

/// Hadamard on the first `k` qubits of |0...0> never overflows for up to
/// seven qubits, and leaves a norm of at most `2^k`.
proof fn lemma_hadamards_fit(n: nat, k: nat)
    requires
        1 <= n <= 7,
        k <= n,
    ensures
        hadamard_all(initial_state(n), k) matches Ok(t) && t.wf() && t.num_qubits == n
            && normalized(t) && t.norm <= pow2(k),
    decreases k,
{
    lemma_dim(n);
    vstd::arithmetic::power2::lemma2_to64();
    if k == 0 {
        law_basis_normalized(n, 0);
    } else {
        let km: nat = (k - 1) as nat;
        lemma_hadamards_fit(n, km);
        let t = hadamard_all(initial_state(n), km)->Ok_0;
        let h = gate_h();
        let r = raw_gate(t, km, h);
        lemma_raw_gate_normalized(t, km, h);
        vstd::arithmetic::power2::lemma_pow2_unfold(k);
        lemma_pow2_le(k, 7);
        assert(r.norm == t.norm * 2);
        assert(r.norm <= pow2(k));
        lemma_small_normalized_fits(r);
        assert(gate_step(t, km, h) == Ok::<QState, SimError>(reduce(r)));
        lemma_gate_wf(t, km, h);
        lemma_reduce_wf(r);
        lemma_reduce_normalized(r);
    }
}

/// `n + 2(n-1)k`: the exponent of the bound on the norm after `k` rounds.
pub open spec fn round_exp(n: nat, k: nat) -> nat {
    (n + 2 * (n - 1) * k) as nat
}

/// `k` Grover rounds (`k <= 8`) on a normalized state of up to seven qubits
/// with norm at most `2^n` never overflow, and leave a norm of at most
/// `2^(n + 2(n-1)k)`: each diffusion multiplies the norm by `D^2 = 4^n`, and
/// the result, all of whose entries are even, sheds at least one factor 4.
proof fn lemma_rounds_fit(n: nat, s1: QState, target: int, k: nat)
    requires
        1 <= n <= 7,
        k <= 8,
        s1.wf(),
        s1.num_qubits == n,
        normalized(s1),
        s1.norm <= pow2(n),
        0 <= target < s1.amps.len(),
    ensures
        grover_rounds(s1, target, k) matches Ok(t) && t.wf() && t.num_qubits == n
            && normalized(t) && t.norm <= pow2(round_exp(n, k)),
    decreases k,
{
    if k == 0 {
        assert(round_exp(n, k) == n) by (nonlinear_arith)
            requires
                k == 0,
                round_exp(n, k) == n + 2 * (n - 1) * k,
        ;
    } else {
        let km: nat = (k - 1) as nat;
        lemma_rounds_fit(n, s1, target, km);
        let m = grover_rounds(s1, target, km)->Ok_0;
        let ep: nat = round_exp(n, km);
        let e2: nat = (2 * (n - 1)) as nat;
        assert(ep + 2 * n <= 124 && ep + e2 == round_exp(n, k)) by (nonlinear_arith)
            requires
                1 <= n <= 7,
                1 <= k <= 8,
                km == k - 1,
                ep == n + 2 * (n - 1) * km,
                e2 == 2 * (n - 1),
                round_exp(n, k) == n + 2 * (n - 1) * k,
        ;
        lemma_pow2_124();
        lemma_pow2_le(ep, 124);
        // the oracle
        let a = m.amps[target];
        let u = QState { num_qubits: m.num_qubits, amps: m.amps.update(target, cx_neg(a)), norm: m.norm };
        assert((-a.0) * (-a.0) + (-a.1) * (-a.1) == a.0 * a.0 + a.1 * a.1) by (nonlinear_arith);
        assert(u.weights() =~= m.weights());
        lemma_small_normalized_fits(u);
        assert(oracle_step(m, target) == Ok::<QState, SimError>(u));
        // the diffusion
        let r = diffusion_raw(u);
        lemma_raw_diffusion_normalized(u);
        lemma_dim(n);
        let d = u.amps.len() as int;
        let hh = pow2((n - 1) as nat);
        vstd::arithmetic::power2::lemma_pow2_unfold(n);
        assert(d == 2 * hh);
        vstd::arithmetic::power2::lemma_pow2_adds(n, n);
        vstd::arithmetic::power2::lemma_pow2_adds(ep, 2 * n);
        vstd::arithmetic::power2::lemma_pow2_adds((n - 1) as nat, (n - 1) as nat);
        vstd::arithmetic::power2::lemma_pow2_adds(ep, e2);
        assert(d * d == pow2(2 * n));
        assert(r.norm == u.norm * (d * d));
        assert(r.norm <= pow2(ep + 2 * n)) by (nonlinear_arith)
            requires
                r.norm == u.norm * (d * d),
                u.norm <= pow2(ep),
                d * d == pow2(2 * n),
                pow2(ep + 2 * n) == pow2(ep) * pow2(2 * n),
        ;
        lemma_pow2_le(ep + 2 * n, 124);
        lemma_small_normalized_fits(r);
        assert(diffusion_step(u) == Ok::<QState, SimError>(reduce(r)));
        // every entry of `r` is even and its norm a multiple of 4: one halving
        let tot = cx_total(u.amps);
        assert forall|i: int| 0 <= i < r.amps.len() implies #[trigger] cx_even(r.amps[i]) by {
            let x = tot.0 - hh * u.amps[i].0;
            let y = tot.1 - hh * u.amps[i].1;
            assert(r.amps[i].0 == 2 * x) by (nonlinear_arith)
                requires
                    r.amps[i].0 == 2 * tot.0 - d * u.amps[i].0,
                    d == 2 * hh,
                    x == tot.0 - hh * u.amps[i].0,
            ;
            assert(r.amps[i].1 == 2 * y) by (nonlinear_arith)
                requires
                    r.amps[i].1 == 2 * tot.1 - d * u.amps[i].1,
                    d == 2 * hh,
                    y == tot.1 - hh * u.amps[i].1,
            ;
        }
        let q = u.norm * (hh * hh);
        assert(r.norm == 4 * q) by (nonlinear_arith)
            requires
                r.norm == u.norm * (d * d),
                d == 2 * hh,
                q == u.norm * (hh * hh),
        ;
        vstd::arithmetic::power2::lemma_pow2_pos((n - 1) as nat);
        assert(q >= 1) by (nonlinear_arith)
            requires
                q == u.norm * (hh * hh),
                u.norm >= 1,
                hh >= 1,
        ;
        let hv = QState { num_qubits: r.num_qubits, amps: halve(r.amps), norm: r.norm / 4 };
        assert(reduce(r) == reduce(hv));
        lemma_reduce_wf(hv);
        assert(hh * hh == pow2(e2));
        assert(hv.norm <= pow2(round_exp(n, k))) by (nonlinear_arith)
            requires
                hv.norm == q,
                q == u.norm * (hh * hh),
                u.norm <= pow2(ep),
                hh * hh == pow2(e2),
                pow2(ep + e2) == pow2(ep) * pow2(e2),
                ep + e2 == round_exp(n, k),
        ;
        lemma_reduce_wf(r);
        lemma_reduce_normalized(r);
        assert(grover_rounds(s1, target, k) == Ok::<QState, SimError>(reduce(r)));
    }
}

/// `k` is the number of Grover iterations for `n` qubits, where `2^n == p`.
proof fn lemma_iterations_at(n: nat, k: nat, p: int)
    requires
        pow2(n) == p,
        pow2(32) == 0x1_0000_0000,
        (k * 0x1_0000_0000) * (k * 0x1_0000_0000) <= PI_QUARTER_Q32 * PI_QUARTER_Q32 * p,
        PI_QUARTER_Q32 * PI_QUARTER_Q32 * p < ((k + 1) * 0x1_0000_0000) * ((k + 1) * 0x1_0000_0000),
    ensures
        grover_iterations(n) == k,
{
    assert(iterations_ok(n, k));
    lemma_iterations_unique(n, grover_iterations(n), k);
}

/// The Grover iteration counts for one to seven qubits: 1, 1, 2, 3, 4, 6, 8.
pub proof fn lemma_iterations_small(n: nat)
    requires
        1 <= n <= 7,
    ensures
        grover_iterations(n) <= 8,
        grover_iterations(n) == (if n <= 2 {
            1nat
        } else if n == 3 {
            2nat
        } else if n == 4 {
            3nat
        } else if n == 5 {
            4nat
        } else if n == 6 {
            6nat
        } else {
            8nat
        }),
{
    vstd::arithmetic::power2::lemma2_to64();
    if n == 1 {
        assert((1 * 0x1_0000_0000) * (1 * 0x1_0000_0000) <= 3373259426 * 3373259426 * 2) by (nonlinear_arith);
        assert(3373259426 * 3373259426 * 2 < (2 * 0x1_0000_0000) * (2 * 0x1_0000_0000)) by (nonlinear_arith);
        lemma_iterations_at(1, 1, 2);
    } else if n == 2 {
        assert((1 * 0x1_0000_0000) * (1 * 0x1_0000_0000) <= 3373259426 * 3373259426 * 4) by (nonlinear_arith);
        assert(3373259426 * 3373259426 * 4 < (2 * 0x1_0000_0000) * (2 * 0x1_0000_0000)) by (nonlinear_arith);
        lemma_iterations_at(2, 1, 4);
    } else if n == 3 {
        assert((2 * 0x1_0000_0000) * (2 * 0x1_0000_0000) <= 3373259426 * 3373259426 * 8) by (nonlinear_arith);
        assert(3373259426 * 3373259426 * 8 < (3 * 0x1_0000_0000) * (3 * 0x1_0000_0000)) by (nonlinear_arith);
        lemma_iterations_at(3, 2, 8);
    } else if n == 4 {
        assert((3 * 0x1_0000_0000) * (3 * 0x1_0000_0000) <= 3373259426 * 3373259426 * 16) by (nonlinear_arith);
        assert(3373259426 * 3373259426 * 16 < (4 * 0x1_0000_0000) * (4 * 0x1_0000_0000)) by (nonlinear_arith);
        lemma_iterations_at(4, 3, 16);
    } else if n == 5 {
        assert((4 * 0x1_0000_0000) * (4 * 0x1_0000_0000) <= 3373259426 * 3373259426 * 32) by (nonlinear_arith);
        assert(3373259426 * 3373259426 * 32 < (5 * 0x1_0000_0000) * (5 * 0x1_0000_0000)) by (nonlinear_arith);
        lemma_iterations_at(5, 4, 32);
    } else if n == 6 {
        assert((6 * 0x1_0000_0000) * (6 * 0x1_0000_0000) <= 3373259426 * 3373259426 * 64) by (nonlinear_arith);
        assert(3373259426 * 3373259426 * 64 < (7 * 0x1_0000_0000) * (7 * 0x1_0000_0000)) by (nonlinear_arith);
        lemma_iterations_at(6, 6, 64);
    } else {
        assert((8 * 0x1_0000_0000) * (8 * 0x1_0000_0000) <= 3373259426 * 3373259426 * 128) by (nonlinear_arith);
        assert(3373259426 * 3373259426 * 128 < (9 * 0x1_0000_0000) * (9 * 0x1_0000_0000)) by (nonlinear_arith);
        lemma_iterations_at(7, 8, 128);
    }
}

/// Law: Grover's search on up to seven qubits never overflows -- its exact
/// result always fits the 64-bit entries and the 128-bit norm.
pub proof fn law_grover_fits(n: nat, target: int)
    requires
        1 <= n <= GROVER_EXACT_QUBITS,
        0 <= target < dim(n),
    ensures
        grover_state(n, target) is Ok,
{
    lemma_hadamards_fit(n, n);
    lemma_iterations_small(n);
    let s1 = hadamard_all(initial_state(n), n)->Ok_0;
    lemma_rounds_fit(n, s1, target, grover_iterations(n));
}

// ---------------------------------------------------------------------------
// When gates and circuits fit the machine representation
// ---------------------------------------------------------------------------

/// Law: X, Y, Z, S or H on a normalized state never overflows while the norm
/// times `2^e` (`e` = 1 for H, 0 for the others) stays within `2^124`; the
/// result's norm is at most that product.
pub proof fn law_gate_fits(s: QState, qb: nat, g: Gate)
    requires
        s.wf(),
        qb < s.num_qubits,
        standard_gate(g),
        normalized(s),
        s.norm * pow2(g.sqrt2_exp as nat) <= 0x1000_0000_0000_0000_0000_0000_0000_0000,
    ensures
        gate_step(s, qb, g) matches Ok(t) && t.wf() && t.num_qubits == s.num_qubits
            && normalized(t) && t.norm <= s.norm * pow2(g.sqrt2_exp as nat),
{
    let r = raw_gate(s, qb, g);
    lemma_raw_gate_normalized(s, qb, g);
    lemma_small_normalized_fits(r);
    lemma_gate_wf(s, qb, g);
    lemma_reduce_wf(r);
    lemma_reduce_normalized(r);
}

/// Law: running a circuit of the library's operations on a normalized state
/// never overflows while the norm times `2^(number of operations)` stays
/// within `2^124` (only H can double the norm); the result's norm is at most
/// that product.
pub proof fn law_run_fits(s: QState, ops: Seq<Op>)
    requires
        s.wf(),
        normalized(s),
        forall|i: int| 0 <= i < ops.len() ==> op_valid(#[trigger] ops[i], s.num_qubits),
        s.norm * pow2(ops.len()) <= 0x1000_0000_0000_0000_0000_0000_0000_0000,
    ensures
        run_ops(s, ops) matches Ok(t) && t.wf() && t.num_qubits == s.num_qubits && normalized(t)
            && t.norm <= s.norm * pow2(ops.len()),
    decreases ops.len(),
{
    vstd::arithmetic::power2::lemma2_to64();
    if ops.len() > 0 {
        let front = ops.drop_last();
        let op = ops.last();
        let k: nat = front.len();
        vstd::arithmetic::power2::lemma_pow2_unfold(ops.len());
        vstd::arithmetic::power2::lemma_pow2_pos(k);
        assert(s.norm * pow2(k) <= s.norm * pow2(ops.len())) by (nonlinear_arith)
            requires
                pow2(ops.len()) == 2 * pow2(k),
                pow2(k) > 0,
        ;
        assert forall|i: int| 0 <= i < front.len() implies op_valid(
            #[trigger] front[i],
            s.num_qubits,
        ) by {
            assert(front[i] == ops[i]);
        }
        law_run_fits(s, front);
        let m = run_ops(s, front)->Ok_0;
        assert(op_valid(ops[ops.len() - 1], s.num_qubits));
        assert(m.norm * 2 <= s.norm * pow2(ops.len())) by (nonlinear_arith)
            requires
                m.norm <= s.norm * pow2(k),
                pow2(ops.len()) == 2 * pow2(k),
        ;
        assert(m.norm * pow2(0) <= m.norm * 2 && m.norm * pow2(1) <= m.norm * 2) by (nonlinear_arith)
            requires
                pow2(0) == 1,
                pow2(1) == 2,
                m.norm >= 0,
        ;
        match op {
            Op::Cnot { control, target } => {
                law_cnot_normalized(m, control as nat, target as nat);
            },
            Op::Swap(a, b) => {
                law_swap_normalized(m, a as nat, b as nat);
            },
            Op::H(q) => {
                law_gate_fits(m, q as nat, gate_h());
            },
            Op::X(q) => {
                law_gate_fits(m, q as nat, gate_x());
            },
            Op::Y(q) => {
                law_gate_fits(m, q as nat, gate_y());
            },
            Op::Z(q) => {
                law_gate_fits(m, q as nat, gate_z());
            },
            Op::S(q) => {
                law_gate_fits(m, q as nat, gate_s());
            },
        }
    } else {
        assert(s.norm * 1 == s.norm);
    }
}

} // verus!
