use vstd::prelude::*;

use crate::complex::{cx_add, cx_mul, cx_norm_sq, Cx};
use crate::circuit::{CircuitSpec, Op};
use crate::gate::Gate;
use crate::render::{diagram_row, label_width, op_cell, op_cells, row_label};
use crate::laws::{lemma_reduce_same, scaled};
use crate::state::{
    after_qubit_measure, branch_amps, branch_weights, sum,
    cnot_state, gate_step, raw_gate,
    bit_of, branch_zero, controlled_step, dim, lemma_dim, lemma_qubit_mask, lemma_swap_index,
    qubit_mask, qubit_shift, raw_controlled, reduce, swap_state, QState, SimError,
};
use vstd::arithmetic::power2::pow2;

verus! {

/// The value (0 or 1) of qubit `q` in basis state `k` of an `n`-qubit
/// register: bit `n - 1 - q` of `k`, qubit 0 being the most significant.
pub open spec fn qubit_value(n: nat, q: nat, k: int) -> int {
    (k / (pow2((n - 1 - q) as nat) as int)) % 2
}

/// The place value of qubit `q` in a basis-state index: `2^(n - 1 - q)`.
pub open spec fn place(n: nat, q: nat) -> int {
    pow2((n - 1 - q) as nat) as int
}

/// The mask test `bit_of` reads the value of the qubit.
pub proof fn lemma_bit_of_value(n: nat, q: nat, k: int)
    requires
        q < n < usize::BITS,
        0 <= k < dim(n),
    ensures
        bit_of(n, q, k) == (qubit_value(n, q, k) == 1),
        qubit_value(n, q, k) == 0 || qubit_value(n, q, k) == 1,
        qubit_mask(n, q) as int == place(n, q),
{
    lemma_dim(n);
    lemma_qubit_mask(n, q);
    let s = qubit_shift(n, q);
    let i = k as usize;
    assert((i & (1usize << s) != 0) == ((i >> s) & 1usize == 1usize)) by (bit_vector)
        requires
            s < usize::BITS,
    ;
    assert(((i >> s) & 1usize == 1usize) == ((i >> s) % 2 == 1)) by (bit_vector);
    vstd::bits::lemma_usize_shr_is_div(i, s);
    assert(s as nat == (n - 1 - q) as nat);
}

// ---------------------------------------------------------------------------
// SWAP
// ---------------------------------------------------------------------------

/// The index of basis state `k` with the values of qubits `a` and `b`
/// exchanged, computed from the place values.
pub open spec fn exchanged(n: nat, a: nat, b: nat, k: int) -> int {
    let va = qubit_value(n, a, k);
    let vb = qubit_value(n, b, k);
    k + (vb - va) * place(n, a) + (va - vb) * place(n, b)
}

/// Law: SWAP exchanges two qubits -- the amplitude of every basis state `k`
/// afterwards is the amplitude, before, of `k` with the values of qubits `a`
/// and `b` exchanged.
pub proof fn law_swap_exchanges_qubits(s: QState, a: nat, b: nat, k: int)
    requires
        s.wf(),
        a < s.num_qubits,
        b < s.num_qubits,
        a != b,
        0 <= k < s.amps.len(),
    ensures
        0 <= exchanged(s.num_qubits, a, b, k) < s.amps.len(),
        swap_state(s, a, b).amps[k] == s.amps[exchanged(s.num_qubits, a, b, k)],
{
    let n = s.num_qubits;
    lemma_bit_of_value(n, a, k);
    lemma_bit_of_value(n, b, k);
    lemma_swap_index(n, a, b, k);
    let va = qubit_value(n, a, k);
    let vb = qubit_value(n, b, k);
    let pa = place(n, a);
    let pb = place(n, b);
    assert(exchanged(n, a, b, k) == crate::state::swap_index(n, a, b, k)) by {
        if va == 1 && vb == 0 {
            assert((vb - va) * pa == -pa && (va - vb) * pb == pb) by (nonlinear_arith)
                requires
                    va == 1,
                    vb == 0,
            ;
        } else if va == 0 && vb == 1 {
            assert((vb - va) * pa == pa && (va - vb) * pb == -pb) by (nonlinear_arith)
                requires
                    va == 0,
                    vb == 1,
            ;
        } else {
            assert((vb - va) * pa == 0 && (va - vb) * pb == 0) by (nonlinear_arith)
                requires
                    va == vb,
            ;
        }
    }
}

// ---------------------------------------------------------------------------
// Controlled gates
// ---------------------------------------------------------------------------

/// `q * x == p * y`, part by part.
pub open spec fn cx_ratio(x: Cx, y: Cx, p: int, q: int) -> bool {
    q * x.0 == p * y.0 && q * x.1 == p * y.1
}

/// What the controlled gate `g = matrix / sqrt(2)^e` gives at basis state `i`,
/// up to the common factor: the amplitude unchanged, times `sqrt(2)^e`, where
/// the control reads 0; the matrix applied to the pair `(i0, i1)` that differ
/// only in the target where the control reads 1.
pub open spec fn controlled_entry(s: QState, c: nat, t: nat, g: Gate, i: int) -> Cx {
    let n = s.num_qubits;
    if qubit_value(n, c, i) == 0 {
        (pow2((g.sqrt2_exp / 2) as nat) * s.amps[i].0, pow2((g.sqrt2_exp / 2) as nat) * s.amps[i].1)
    } else if qubit_value(n, t, i) == 0 {
        cx_add(cx_mul(g.entry(0, 0), s.amps[i]), cx_mul(g.entry(0, 1), s.amps[i + place(n, t)]))
    } else {
        cx_add(cx_mul(g.entry(1, 0), s.amps[i - place(n, t)]), cx_mul(g.entry(1, 1), s.amps[i]))
    }
}

/// Up to one common scale `p/q`, every entry of `u` is `controlled_entry` at
/// that index, and the norm is multiplied by `2^e`.
pub open spec fn controlled_result(s: QState, c: nat, t: nat, g: Gate, u: QState, p: int, q: int) -> bool {
    &&& p > 0
    &&& q > 0
    &&& q * q * u.norm == p * p * (s.norm * pow2(g.sqrt2_exp as nat))
    &&& forall|i: int|
        0 <= i < s.amps.len() ==> #[trigger] cx_ratio(u.amps[i], controlled_entry(s, c, t, g, i), p, q)
}

/// Every amplitude of `s` where qubit `c` reads 1 is 0.
pub open spec fn zero_where_one(s: QState, c: nat) -> bool {
    forall|i: int|
        0 <= i < s.amps.len() && #[trigger] qubit_value(s.num_qubits, c, i) == 1 ==> s.amps[i] == (
        0int,
        0int,
    )
}

/// Law: a controlled gate keeps the amplitudes `amps[i] / sqrt(norm)` where
/// the control reads 0, and where it reads 1 mixes each pair that differs
/// only in the target by `matrix / sqrt(2)^e`.  Stated with one pair `p, q > 0`:
/// `q * u[i] == p * controlled_entry(i)` for every `i`, and
/// `q^2 * u.norm == p^2 * s.norm * 2^e`.  (For an odd `e` the result can also
/// be the state itself, when the control reads 1 nowhere.)
pub proof fn law_controlled_gate(s: QState, c: nat, t: nat, g: Gate, u: QState)
    requires
        s.wf(),
        c < s.num_qubits,
        t < s.num_qubits,
        c != t,
        controlled_step(s, c, t, g) == Ok::<QState, SimError>(u),
    ensures
        u.num_qubits == s.num_qubits,
        u.amps.len() == s.amps.len(),
        (g.sqrt2_exp % 2 == 1 && u == s && zero_where_one(s, c)) || exists|p: int, q: int|
            #[trigger] controlled_result(s, c, t, g, u, p, q),
{
    let n = s.num_qubits;
    if g.sqrt2_exp % 2 == 1 && branch_zero(s, c, true) {
        assert forall|i: int|
            0 <= i < s.amps.len() && #[trigger] qubit_value(n, c, i) == 1 implies s.amps[i] == (
            0int,
            0int,
        ) by {
            lemma_bit_of_value(n, c, i);
        }
    } else {
        let raw = raw_controlled(s, c, t, g);
        lemma_reduce_same(raw);
        crate::state::lemma_reduce_wf(raw);
        let (p, q) = choose|p: int, q: int| scaled(raw, u, p, q);
        assert forall|i: int| 0 <= i < s.amps.len() implies #[trigger] cx_ratio(
            u.amps[i],
            controlled_entry(s, c, t, g, i),
            p,
            q,
        ) by {
            lemma_bit_of_value(n, c, i);
            lemma_bit_of_value(n, t, i);
            assert(q * u.amps[i].0 == p * raw.amps[i].0 && q * u.amps[i].1 == p * raw.amps[i].1);
        }
        assert(raw.norm == s.norm * pow2(g.sqrt2_exp as nat));
        assert(controlled_result(s, c, t, g, u, p, q));
    }
}

// ---------------------------------------------------------------------------
// Diagrams
// ---------------------------------------------------------------------------

/// The operation joins qubit `q` to qubit `q + 1` in the diagram: a CNOT or
/// SWAP whose two qubits lie on either side of the gap below `q`.
pub open spec fn connects(op: Op, q: nat) -> bool {
    match op {
        Op::Cnot { control, target } => (control <= q && q < target) || (target <= q && q
            < control),
        Op::Swap(a, b) => (a <= q && q < b) || (b <= q && q < a),
        _ => false,
    }
}

/// The symbol an operation draws on the wire of qubit `q` ('─' where it does
/// not act on `q`).
pub open spec fn wire_symbol(op: Op, q: nat) -> char {
    match op {
        Op::H(x) => if x == q { 'H' } else { '─' },
        Op::X(x) => if x == q { 'X' } else { '─' },
        Op::Y(x) => if x == q { 'Y' } else { '─' },
        Op::Z(x) => if x == q { 'Z' } else { '─' },
        Op::S(x) => if x == q { 'S' } else { '─' },
        Op::Cnot { control, target } => if control == q {
            '●'
        } else if target == q {
            '⊕'
        } else {
            '─'
        },
        Op::Swap(a, b) => if a == q || b == q { '×' } else { '─' },
    }
}

/// Character `m` of column `j` in a row is character `m` of that operation's cell.
proof fn lemma_op_cells_index(ops: Seq<Op>, i: nat, j: int, m: int)
    requires
        0 <= j < ops.len(),
        0 <= m < 3,
    ensures
        op_cells(ops, i).len() == 3 * ops.len(),
        op_cells(ops, i)[3 * j + m] == op_cell(ops[j], i)[m],
    decreases ops.len(),
{
    crate::laws::lemma_op_cells_len(ops, i);
    let front = ops.drop_last();
    crate::laws::lemma_op_cells_len(front, i);
    if j < ops.len() - 1 {
        lemma_op_cells_index(front, i, j, m);
        assert(front[j] == ops[j]);
    }
}

/// The label column of row `i` is `label_width(n)` characters wide.
proof fn lemma_row_label_len(n: nat, i: nat)
    requires
        1 <= n,
        i < 2 * n - 1,
    ensures
        row_label(n, i).len() == label_width(n),
{
    crate::laws::lemma_decimal_len_mono(i / 2, (n - 1) as nat);
}

/// Law: the connector row between qubits `q` and `q + 1` shows, in the column
/// of each operation, a vertical bar exactly when that operation is a CNOT or
/// SWAP joining a qubit at or above `q` to one below it, and blanks otherwise.
pub proof fn law_diagram_connectors(c: CircuitSpec, q: nat, j: int)
    requires
        q + 1 < c.num_qubits,
        0 <= j < c.ops.len(),
    ensures
        diagram_row(c, 2 * q + 1).len() == label_width(c.num_qubits) + 3 * c.ops.len(),
        diagram_row(c, 2 * q + 1)[label_width(c.num_qubits) + 3 * j] == (if connects(c.ops[j], q) {
            '│'
        } else {
            ' '
        }),
        diagram_row(c, 2 * q + 1)[label_width(c.num_qubits) + 3 * j + 1] == ' ',
        diagram_row(c, 2 * q + 1)[label_width(c.num_qubits) + 3 * j + 2] == ' ',
{
    let n = c.num_qubits;
    let i: nat = 2 * q + 1;
    lemma_row_label_len(n, i);
    lemma_op_cells_index(c.ops, i, j, 0);
    lemma_op_cells_index(c.ops, i, j, 1);
    lemma_op_cells_index(c.ops, i, j, 2);
    assert(i / 2 == q && i % 2 == 1);
}

/// Law: the wire row of qubit `q` shows, in the column of each operation, the
/// operation's symbol for `q` followed by two '─'.
pub proof fn law_diagram_wires(c: CircuitSpec, q: nat, j: int)
    requires
        q < c.num_qubits,
        0 <= j < c.ops.len(),
    ensures
        diagram_row(c, 2 * q).len() == label_width(c.num_qubits) + 3 * c.ops.len(),
        diagram_row(c, 2 * q)[label_width(c.num_qubits) + 3 * j] == wire_symbol(c.ops[j], q),
        diagram_row(c, 2 * q)[label_width(c.num_qubits) + 3 * j + 1] == '─',
        diagram_row(c, 2 * q)[label_width(c.num_qubits) + 3 * j + 2] == '─',
{
    let n = c.num_qubits;
    let i: nat = 2 * q;
    lemma_row_label_len(n, i);
    lemma_op_cells_index(c.ops, i, j, 0);
    lemma_op_cells_index(c.ops, i, j, 1);
    lemma_op_cells_index(c.ops, i, j, 2);
    assert(i / 2 == q && i % 2 == 0);
}

// ---------------------------------------------------------------------------
// Single-qubit gates and CNOT
// ---------------------------------------------------------------------------

/// What `g = matrix / sqrt(2)^e` on qubit `qb` gives at basis state `i`, up to
/// the common factor: the matrix applied to the pair of basis states that
/// differ only in qubit `qb`.
pub open spec fn gate_entry(s: QState, qb: nat, g: Gate, i: int) -> Cx {
    let n = s.num_qubits;
    if qubit_value(n, qb, i) == 0 {
        cx_add(cx_mul(g.entry(0, 0), s.amps[i]), cx_mul(g.entry(0, 1), s.amps[i + place(n, qb)]))
    } else {
        cx_add(cx_mul(g.entry(1, 0), s.amps[i - place(n, qb)]), cx_mul(g.entry(1, 1), s.amps[i]))
    }
}

/// Up to one common scale `p/q`, every entry of `u` is `gate_entry` at that
/// index, and the norm is multiplied by `2^e`.
pub open spec fn gate_result(s: QState, qb: nat, g: Gate, u: QState, p: int, q: int) -> bool {
    &&& p > 0
    &&& q > 0
    &&& q * q * u.norm == p * p * (s.norm * pow2(g.sqrt2_exp as nat))
    &&& forall|i: int|
        0 <= i < s.amps.len() ==> #[trigger] cx_ratio(u.amps[i], gate_entry(s, qb, g, i), p, q)
}

/// Law: a single-qubit gate mixes, for every pair of basis states that differ
/// only in qubit `qb` (qubit 0 the most significant), the two amplitudes by
/// `matrix / sqrt(2)^e`, and leaves the amplitudes `amps[i] / sqrt(norm)`
/// otherwise as that product gives them.
pub proof fn law_gate_entries(s: QState, qb: nat, g: Gate, u: QState)
    requires
        s.wf(),
        qb < s.num_qubits,
        gate_step(s, qb, g) == Ok::<QState, SimError>(u),
    ensures
        u.num_qubits == s.num_qubits,
        u.amps.len() == s.amps.len(),
        exists|p: int, q: int| #[trigger] gate_result(s, qb, g, u, p, q),
{
    let n = s.num_qubits;
    let raw = raw_gate(s, qb, g);
    lemma_reduce_same(raw);
    crate::state::lemma_reduce_wf(raw);
    let (p, q) = choose|p: int, q: int| scaled(raw, u, p, q);
    assert forall|i: int| 0 <= i < s.amps.len() implies #[trigger] cx_ratio(
        u.amps[i],
        gate_entry(s, qb, g, i),
        p,
        q,
    ) by {
        lemma_bit_of_value(n, qb, i);
        assert(q * u.amps[i].0 == p * raw.amps[i].0 && q * u.amps[i].1 == p * raw.amps[i].1);
    }
    assert(gate_result(s, qb, g, u, p, q));
}

/// The index of basis state `k` with the target's value flipped when the
/// control reads 1, computed from the place values.
pub open spec fn target_flipped(n: nat, c: nat, t: nat, k: int) -> int {
    if qubit_value(n, c, k) == 1 {
        k + (1 - 2 * qubit_value(n, t, k)) * place(n, t)
    } else {
        k
    }
}

/// Law: CNOT flips the target where the control reads 1 -- the amplitude of
/// every basis state `k` afterwards is the amplitude, before, of `k` with the
/// target flipped if the control of `k` is 1.
pub proof fn law_cnot_flips_target(s: QState, c: nat, t: nat, k: int)
    requires
        s.wf(),
        c < s.num_qubits,
        t < s.num_qubits,
        c != t,
        0 <= k < s.amps.len(),
    ensures
        0 <= target_flipped(s.num_qubits, c, t, k) < s.amps.len(),
        cnot_state(s, c, t).amps[k] == s.amps[target_flipped(s.num_qubits, c, t, k)],
{
    let n = s.num_qubits;
    lemma_bit_of_value(n, c, k);
    lemma_bit_of_value(n, t, k);
    crate::state::lemma_cnot_index(n, c, t, k);
    let vt = qubit_value(n, t, k);
    let pt = place(n, t);
    if vt == 0 {
        assert((1 - 2 * vt) * pt == pt) by (nonlinear_arith)
            requires
                vt == 0,
        ;
    } else {
        assert((1 - 2 * vt) * pt == -pt) by (nonlinear_arith)
            requires
                vt == 1,
        ;
    }
}

// ---------------------------------------------------------------------------
// Measuring one qubit
// ---------------------------------------------------------------------------

/// The amplitude of `s` at `i` if qubit `qb` reads 1 there exactly when
/// `one`, else 0.
pub open spec fn kept_amp(s: QState, qb: nat, one: bool, i: int) -> Cx {
    if (qubit_value(s.num_qubits, qb, i) == 1) == one {
        s.amps[i]
    } else {
        (0int, 0int)
    }
}

/// `u` keeps, up to one scale `p/q`, the amplitudes of `s` where qubit `qb`
/// reads the value read (`one`: 1) and is 0 elsewhere; its norm is the weight
/// kept (when some is).
pub open spec fn kept_branch(s: QState, qb: nat, one: bool, u: QState, p: int, q: int) -> bool {
    &&& p > 0
    &&& q > 0
    &&& forall|i: int|
        0 <= i < s.amps.len() ==> #[trigger] cx_ratio(u.amps[i], kept_amp(s, qb, one, i), p, q)
    &&& kept_weight(s, qb, one) > 0 ==> q * q * u.norm == p * p * kept_weight(s, qb, one)
}

/// The total weight `sum |kept_amp|^2` of the branch kept.
pub open spec fn kept_weight(s: QState, qb: nat, one: bool) -> int {
    sum(Seq::new(s.amps.len(), |i: int| cx_norm_sq(kept_amp(s, qb, one, i))))
}

/// Law: measuring qubit `qb` and reading it as `one` (1) or not (0) keeps the
/// amplitudes of the basis states in which the qubit reads that value, up to
/// one common scale, and sets the others to 0; the norm becomes the weight
/// that was kept.
pub proof fn law_qubit_measure_keeps_branch(s: QState, qb: nat, one: bool)
    requires
        s.wf(),
        qb < s.num_qubits,
    ensures
        after_qubit_measure(s, qb, one).amps.len() == s.amps.len(),
        exists|p: int, q: int| #[trigger] kept_branch(s, qb, one, after_qubit_measure(s, qb, one), p, q),
{
    let n = s.num_qubits;
    let w = sum(branch_weights(s, qb, one));
    let t0 = QState {
        num_qubits: n,
        amps: branch_amps(s, qb, one),
        norm: if w > 0 { w as nat } else { 1 },
    };
    let u = after_qubit_measure(s, qb, one);
    assert(u == reduce(t0));
    lemma_reduce_same(t0);
    crate::state::lemma_reduce_wf(t0);
    let (p, q) = choose|p: int, q: int| scaled(t0, u, p, q);
    assert forall|i: int| 0 <= i < s.amps.len() implies #[trigger] cx_ratio(
        u.amps[i],
        kept_amp(s, qb, one, i),
        p,
        q,
    ) by {
        lemma_bit_of_value(n, qb, i);
        assert(q * u.amps[i].0 == p * t0.amps[i].0 && q * u.amps[i].1 == p * t0.amps[i].1);
    }
    assert(branch_weights(s, qb, one) =~= Seq::new(
        s.amps.len(),
        |i: int| cx_norm_sq(kept_amp(s, qb, one, i)),
    )) by {
        assert forall|i: int| 0 <= i < s.amps.len() implies branch_weights(s, qb, one)[i]
            == cx_norm_sq(kept_amp(s, qb, one, i)) by {
            lemma_bit_of_value(n, qb, i);
            assert(0int * 0int + 0int * 0int == 0) by (nonlinear_arith);
        }
    }
    assert(kept_branch(s, qb, one, u, p, q));
}

/// Law: measuring qubit `qb` with the draw `r` from `[0, norm)` reads 1
/// exactly when `r` falls below the total weight of the basis states in which
/// the qubit reads 1 -- so it reads 1 with probability `P(1)`.
pub proof fn law_qubit_reading(s: QState, qb: nat, r: int)
    requires
        s.wf(),
        qb < s.num_qubits,
    ensures
        crate::state::qubit_reads_one(s, qb, r) == (r < kept_weight(s, qb, true)),
{
    let n = s.num_qubits;
    assert(branch_weights(s, qb, true) =~= Seq::new(
        s.amps.len(),
        |i: int| cx_norm_sq(kept_amp(s, qb, true, i)),
    )) by {
        assert forall|i: int| 0 <= i < s.amps.len() implies branch_weights(s, qb, true)[i]
            == cx_norm_sq(kept_amp(s, qb, true, i)) by {
            lemma_bit_of_value(n, qb, i);
            assert(0int * 0int + 0int * 0int == 0) by (nonlinear_arith);
        }
    }
}

// ---------------------------------------------------------------------------
// Measuring all qubits
// ---------------------------------------------------------------------------

proof fn lemma_pick_from_reaches(w: Seq<int>, i: int, j: int)
    requires
        crate::state::nonneg(w),
        0 <= j <= i < w.len(),
        w[i] > 0,
    ensures
        crate::state::pick_from(w, crate::state::sum_prefix(w, i), j) == i,
    decreases i - j,
{
    if j < i {
        crate::state::lemma_sum_prefix_mono(w, j + 1, i);
        lemma_pick_from_reaches(w, i, j + 1);
    }
}

/// Law: every outcome of positive probability can come out of a measurement:
/// some draw `r` in `[0, norm)` -- the first one of the outcome's slice of the
/// cumulative distribution -- picks it.
pub proof fn law_every_likely_outcome_reachable(s: QState, i: int)
    requires
        s.wf(),
        crate::state::normalized(s),
        0 <= i < s.amps.len(),
        s.weights()[i] > 0,
    ensures
        0 <= crate::state::sum_prefix(s.weights(), i) < s.norm,
        crate::state::pick(s.weights(), crate::state::sum_prefix(s.weights(), i)) == i,
{
    let w = s.weights();
    crate::state::lemma_weights_nonneg(s);
    crate::state::lemma_sum_prefix_nonneg(w, i);
    crate::state::lemma_sum_prefix_mono(w, i + 1, w.len() as int);
    lemma_pick_from_reaches(w, i, 0);
}

} // verus!
