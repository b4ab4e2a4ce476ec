use vstd::prelude::*;

use crate::bits::lemma_low_bits;
use crate::circuit::initial_state;
use crate::complex::cx_neg;
use crate::gate::gate_h;
use crate::grover::{
    cx_total, diffusion_raw, diffusion_step, grover_rounds, grover_state, hadamard_all,
    oracle_step,
};
use crate::laws::lemma_unit_mul;
use crate::state::{
    all_even, cx_even, dim, gate_step, halve, lemma_dim, qubit_mask, qubit_shift, raw_gate, reduce,
    QState, SimError,
};
use vstd::arithmetic::power2::pow2;

verus! {

/// The low `n - k` bits of an index of `n` qubits.
pub open spec fn low_mask(n: nat, k: nat) -> usize {
    ((1usize << ((n - k) as usize)) - 1) as usize
}

/// Hadamard on qubits `0..k` of |0...0>: entry 1 where the low `n - k` bits of
/// the index are 0, entry 0 elsewhere, norm `2^k`.
pub open spec fn hadamard_pattern(n: nat, k: nat) -> QState {
    QState {
        num_qubits: n,
        amps: Seq::new(
            dim(n),
            |i: int|
                if (i as usize) & low_mask(n, k) == 0 {
                    (1int, 0int)
                } else {
                    (0int, 0int)
                },
        ),
        norm: pow2(k),
    }
}

/// Hadamard on the first `k` qubits of |0...0> gives `hadamard_pattern(n, k)`.
pub proof fn lemma_hadamard_pattern(n: nat, k: nat)
    requires
        1 <= n <= 7,
        k <= n,
    ensures
        hadamard_all(initial_state(n), k) == Ok::<QState, SimError>(hadamard_pattern(n, k)),
    decreases k,
{
    lemma_dim(n);
    vstd::arithmetic::power2::lemma2_to64();
    vstd::arithmetic::power2::lemma2_to64_rest();
    if k == 0 {
        let p = hadamard_pattern(n, 0);
        let s0 = initial_state(n);
        let nu = n as usize;
        assert forall|i: int| 0 <= i < dim(n) implies #[trigger] p.amps[i] == s0.amps[i] by {
            let iu = i as usize;
            assert(iu < (1usize << nu));
            assert((iu & (((1usize << nu) - 1) as usize) == 0) == (iu == 0)) by (bit_vector)
                requires
                    iu < (1usize << nu),
                    nu <= 7,
            ;
        }
        assert(p.amps =~= s0.amps);
    } else {
        let km: nat = (k - 1) as nat;
        lemma_hadamard_pattern(n, km);
        let t = hadamard_pattern(n, km);
        let h = gate_h();
        let r = raw_gate(t, km, h);
        let p = hadamard_pattern(n, k);
        let s: usize = qubit_shift(n, km);
        let m: usize = qubit_mask(n, km);
        let lo = low_mask(n, k);
        let hi = low_mask(n, km);
        assert(s as int == n - 1 - km);
        assert(m == 1usize << s);
        assert(lo == (m - 1) as usize);
        assert((1usize << ((s + 1) as usize)) == m + m) by (bit_vector)
            requires
                s < 7,
                m == 1usize << s,
        ;
        assert(((n - km) as usize) == ((s + 1) as usize));
        assert(hi == (m + m - 1) as usize);
        lemma_unit_mul((1int, 0int));
        lemma_unit_mul((0int, 0int));
        assert forall|i: int| 0 <= i < dim(n) implies #[trigger] r.amps[i] == p.amps[i] by {
            let iu = i as usize;
            lemma_low_bits(iu, s, n as usize, m, lo, hi);
            if iu & m == 0 {
                assert(i + m < dim(n)) by {
                    crate::bits::lemma_bit_clear(iu, s, n as usize);
                }
                assert(((i + m) as usize) == (iu + m) as usize);
            } else {
                assert(i >= m) by {
                    crate::bits::lemma_bit_set(iu, s);
                }
                assert(((i - m) as usize) == (iu - m) as usize);
            }
        }
        assert(r.amps =~= p.amps);
        vstd::arithmetic::power2::lemma_pow2_unfold(k);
        assert(h.sqrt2_exp == 1);
        assert(r.norm == t.norm * pow2(1));
        assert(r.norm == p.norm);
        assert(r == p);
        crate::laws::lemma_pow2_le(k, 64);
        assert(r.fits());
        assert(0usize & lo == 0) by (bit_vector);
        assert(r.amps[0] == p.amps[0]);
        assert(!cx_even(r.amps[0]));
        assert(reduce(r) == r);
        assert(gate_step(t, km, h) == Ok::<QState, SimError>(p));
    }
}

/// The states Grover's search passes through: entry `b` at the target and `a`
/// everywhere else (real parts; the imaginary parts are 0), norm `norm`.
pub open spec fn sym(n: nat, t: int, b: int, a: int, norm: nat) -> QState {
    QState {
        num_qubits: n,
        amps: Seq::new(dim(n), |i: int| if i == t { (b, 0int) } else { (a, 0int) }),
        norm,
    }
}

/// Removing common factors of two from `(b, a, norm)`, as `reduce` does.
pub open spec fn red(b: int, a: int, norm: nat) -> (int, int, nat)
    decreases norm,
{
    if norm >= 4 && norm % 4 == 0 && b % 2 == 0 && a % 2 == 0 {
        red(b / 2, a / 2, norm / 4)
    } else {
        (b, a, norm)
    }
}

pub proof fn lemma_reduce_sym(n: nat, t: int, b: int, a: int, norm: nat)
    requires
        1 <= n <= 7,
        0 <= t < dim(n),
    ensures
        reduce(sym(n, t, b, a, norm)) == sym(n, t, red(b, a, norm).0, red(b, a, norm).1, red(
            b,
            a,
            norm,
        ).2),
    decreases norm,
{
    lemma_dim(n);
    vstd::arithmetic::power2::lemma_pow2_unfold(n);
    vstd::arithmetic::power2::lemma_pow2_pos((n - 1) as nat);
    let s = sym(n, t, b, a, norm);
    let other: int = if t == 0 { 1 } else { 0 };
    assert(s.amps[t] == (b, 0int) && s.amps[other] == (a, 0int));
    if norm >= 4 && norm % 4 == 0 && b % 2 == 0 && a % 2 == 0 {
        assert forall|i: int| 0 <= i < s.amps.len() implies #[trigger] cx_even(s.amps[i]) by {}
        assert(all_even(s.amps));
        assert(halve(s.amps) =~= sym(n, t, b / 2, a / 2, norm / 4).amps);
        lemma_reduce_sym(n, t, b / 2, a / 2, norm / 4);
    } else {
        if norm >= 4 && norm % 4 == 0 {
            assert(!cx_even(s.amps[t]) || !cx_even(s.amps[other]));
        }
    }
}

/// The sum of `D` entries, `x` at `t` and `y` elsewhere.
proof fn lemma_sym_sum(len: nat, t: int, x: int, y: int, j: int)
    requires
        0 <= t < len,
        0 <= j <= len,
    ensures
        crate::state::sum_prefix(Seq::new(len, |i: int| if i == t { x } else { y }), j) == j * y
            + (if t < j {
            x - y
        } else {
            0
        }),
    decreases j,
{
    let sq = Seq::new(len, |i: int| if i == t { x } else { y });
    if j > 0 {
        lemma_sym_sum(len, t, x, y, j - 1);
        assert(sq[j - 1] == (if j - 1 == t { x } else { y }));
        assert((j - 1) * y + y == j * y) by (nonlinear_arith);
    } else {
        assert(j * y == 0) by (nonlinear_arith)
            requires
                j == 0,
        ;
    }
}

/// The entries after one oracle and diffusion, before common factors are
/// removed: with `D = 2^n` entries and total `T = -b + (D-1)a`,
/// `(2T + Db, 2T - Da)`, norm times `D^2`.
pub open spec fn round_raw(n: nat, b: int, a: int, norm: nat) -> (int, int, nat) {
    let d = pow2(n) as int;
    let tt = -b + (d - 1) * a;
    (2 * tt + d * b, 2 * tt - d * a, (norm * (d * d)) as nat)
}

/// One round on a symmetric state: the oracle negates the target, and the
/// diffusion gives the symmetric state of `red(round_raw(..))`.
pub proof fn lemma_round_sym(n: nat, t: int, b: int, a: int, norm: nat)
    requires
        1 <= n <= 7,
        0 <= t < dim(n),
    ensures
        oracle_step(sym(n, t, b, a, norm), t) is Ok ==> oracle_step(sym(n, t, b, a, norm), t)
            == Ok::<QState, SimError>(sym(n, t, -b, a, norm)),
        ({
            let rr = round_raw(n, b, a, norm);
            let rd = red(rr.0, rr.1, rr.2);
            diffusion_step(sym(n, t, -b, a, norm)) is Ok ==> diffusion_step(sym(n, t, -b, a, norm))
                == Ok::<QState, SimError>(sym(n, t, rd.0, rd.1, rd.2))
        }),
{
    lemma_dim(n);
    let m = sym(n, t, b, a, norm);
    let u = sym(n, t, -b, a, norm);
    assert(cx_neg((b, 0int)) == (-b, 0int));
    assert(m.amps.update(t, cx_neg(m.amps[t])) =~= u.amps);
    let d = dim(n) as int;
    let re = Seq::new(u.amps.len(), |i: int| u.amps[i].0);
    let im = Seq::new(u.amps.len(), |i: int| u.amps[i].1);
    assert(re =~= Seq::new(dim(n), |i: int| if i == t { -b } else { a }));
    assert(im =~= Seq::new(dim(n), |i: int| if i == t { 0int } else { 0int }));
    lemma_sym_sum(dim(n), t, -b, a, d);
    lemma_sym_sum(dim(n), t, 0, 0, d);
    assert(d * 0 == 0) by (nonlinear_arith);
    let tt = -b + (d - 1) * a;
    assert(d * a + (-b - a) == tt) by (nonlinear_arith)
        requires
            tt == -b + (d - 1) * a,
    ;
    assert(cx_total(u.amps) == (tt, 0int));
    let rr = round_raw(n, b, a, norm);
    let r = diffusion_raw(u);
    assert(r.amps =~= sym(n, t, rr.0, rr.1, rr.2).amps) by {
        assert forall|i: int| 0 <= i < dim(n) implies #[trigger] r.amps[i] == sym(
            n,
            t,
            rr.0,
            rr.1,
            rr.2,
        ).amps[i] by {
            assert(d * (-b) == -(d * b)) by (nonlinear_arith);
        }
    }
    assert(r == sym(n, t, rr.0, rr.1, rr.2));
    lemma_reduce_sym(n, t, rr.0, rr.1, rr.2);
}

/// `(b, a, norm)` after `k` rounds on `n` qubits, starting from the equal
/// superposition `(1, 1, 2^n)`.
pub open spec fn grover_triple(n: nat, k: nat) -> (int, int, nat)
    decreases k,
{
    if k == 0 {
        (1, 1, pow2(n))
    } else {
        let p = grover_triple(n, (k - 1) as nat);
        let rr = round_raw(n, p.0, p.1, p.2);
        red(rr.0, rr.1, rr.2)
    }
}

/// Rounds on the equal superposition stay symmetric: whenever they succeed,
/// the result is `sym` of `grover_triple`.
pub proof fn lemma_rounds_sym(n: nat, t: int, k: nat)
    requires
        1 <= n <= 7,
        0 <= t < dim(n),
    ensures
        grover_rounds(sym(n, t, 1, 1, pow2(n)), t, k) is Ok ==> grover_rounds(
            sym(n, t, 1, 1, pow2(n)),
            t,
            k,
        ) == Ok::<QState, SimError>(
            sym(n, t, grover_triple(n, k).0, grover_triple(n, k).1, grover_triple(n, k).2),
        ),
    decreases k,
{
    if k > 0 {
        let km: nat = (k - 1) as nat;
        lemma_rounds_sym(n, t, km);
        let p = grover_triple(n, km);
        lemma_round_sym(n, t, p.0, p.1, p.2);
    }
}


proof fn lemma_triple_1()
    ensures
        grover_triple(1, 1) == (1int, -1int, 2nat),
{
    vstd::arithmetic::power2::lemma2_to64();
    assert(grover_triple(1, 0) == (1int, 1int, 2nat));
    assert(grover_triple(1, 1) == (1int, -1int, 2nat)) by {
        assert(2 * (-1int + (2 - 1) * 1int) + 2 * 1int == 2) by (nonlinear_arith);
        assert(2 * (-1int + (2 - 1) * 1int) - 2 * 1int == -2) by (nonlinear_arith);
        assert(2int * (2int * 2int) == 8) by (nonlinear_arith);
        assert(round_raw(1, 1, 1, 2) == (2int, -2int, 8nat));
        assert(8 >= 4 && 8nat % 4 == 0 && 2int % 2 == 0 && -2int % 2 == 0) by (nonlinear_arith);
        assert(2int / 2 == 1 && -2int / 2 == -1 && 8nat / 4 == 2) by (nonlinear_arith);
        assert(red(2, -2, 8) == red(1, -1, 2));
        assert(!(2 >= 4 && 2nat % 4 == 0 && 1int % 2 == 0 && -1int % 2 == 0)) by (nonlinear_arith);
        assert(red(1, -1, 2) == (1int, -1int, 2nat));
    }
}

proof fn lemma_triple_2()
    ensures
        grover_triple(2, 1) == (1int, 0int, 1nat),
{
    vstd::arithmetic::power2::lemma2_to64();
    assert(grover_triple(2, 0) == (1int, 1int, 4nat));
    assert(grover_triple(2, 1) == (1int, 0int, 1nat)) by {
        assert(2 * (-1int + (4 - 1) * 1int) + 4 * 1int == 8) by (nonlinear_arith);
        assert(2 * (-1int + (4 - 1) * 1int) - 4 * 1int == 0) by (nonlinear_arith);
        assert(4int * (4int * 4int) == 64) by (nonlinear_arith);
        assert(round_raw(2, 1, 1, 4) == (8int, 0int, 64nat));
        assert(64 >= 4 && 64nat % 4 == 0 && 8int % 2 == 0 && 0int % 2 == 0) by (nonlinear_arith);
        assert(8int / 2 == 4 && 0int / 2 == 0 && 64nat / 4 == 16) by (nonlinear_arith);
        assert(red(8, 0, 64) == red(4, 0, 16));
        assert(16 >= 4 && 16nat % 4 == 0 && 4int % 2 == 0 && 0int % 2 == 0) by (nonlinear_arith);
        assert(4int / 2 == 2 && 0int / 2 == 0 && 16nat / 4 == 4) by (nonlinear_arith);
        assert(red(4, 0, 16) == red(2, 0, 4));
        assert(4 >= 4 && 4nat % 4 == 0 && 2int % 2 == 0 && 0int % 2 == 0) by (nonlinear_arith);
        assert(2int / 2 == 1 && 0int / 2 == 0 && 4nat / 4 == 1) by (nonlinear_arith);
        assert(red(2, 0, 4) == red(1, 0, 1));
        assert(!(1 >= 4 && 1nat % 4 == 0 && 1int % 2 == 0 && 0int % 2 == 0)) by (nonlinear_arith);
        assert(red(1, 0, 1) == (1int, 0int, 1nat));
    }
}

proof fn lemma_triple_3()
    ensures
        grover_triple(3, 2) == (11int, -1int, 128nat),
{
    vstd::arithmetic::power2::lemma2_to64();
    assert(grover_triple(3, 0) == (1int, 1int, 8nat));
    assert(grover_triple(3, 1) == (5int, 1int, 32nat)) by {
        assert(2 * (-1int + (8 - 1) * 1int) + 8 * 1int == 20) by (nonlinear_arith);
        assert(2 * (-1int + (8 - 1) * 1int) - 8 * 1int == 4) by (nonlinear_arith);
        assert(8int * (8int * 8int) == 512) by (nonlinear_arith);
        assert(round_raw(3, 1, 1, 8) == (20int, 4int, 512nat));
        assert(512 >= 4 && 512nat % 4 == 0 && 20int % 2 == 0 && 4int % 2 == 0) by (nonlinear_arith);
        assert(20int / 2 == 10 && 4int / 2 == 2 && 512nat / 4 == 128) by (nonlinear_arith);
        assert(red(20, 4, 512) == red(10, 2, 128));
        assert(128 >= 4 && 128nat % 4 == 0 && 10int % 2 == 0 && 2int % 2 == 0) by (nonlinear_arith);
        assert(10int / 2 == 5 && 2int / 2 == 1 && 128nat / 4 == 32) by (nonlinear_arith);
        assert(red(10, 2, 128) == red(5, 1, 32));
        assert(!(32 >= 4 && 32nat % 4 == 0 && 5int % 2 == 0 && 1int % 2 == 0)) by (nonlinear_arith);
        assert(red(5, 1, 32) == (5int, 1int, 32nat));
    }
    assert(grover_triple(3, 2) == (11int, -1int, 128nat)) by {
        assert(2 * (-5int + (8 - 1) * 1int) + 8 * 5int == 44) by (nonlinear_arith);
        assert(2 * (-5int + (8 - 1) * 1int) - 8 * 1int == -4) by (nonlinear_arith);
        assert(32int * (8int * 8int) == 2048) by (nonlinear_arith);
        assert(round_raw(3, 5, 1, 32) == (44int, -4int, 2048nat));
        assert(2048 >= 4 && 2048nat % 4 == 0 && 44int % 2 == 0 && -4int % 2 == 0) by (nonlinear_arith);
        assert(44int / 2 == 22 && -4int / 2 == -2 && 2048nat / 4 == 512) by (nonlinear_arith);
        assert(red(44, -4, 2048) == red(22, -2, 512));
        assert(512 >= 4 && 512nat % 4 == 0 && 22int % 2 == 0 && -2int % 2 == 0) by (nonlinear_arith);
        assert(22int / 2 == 11 && -2int / 2 == -1 && 512nat / 4 == 128) by (nonlinear_arith);
        assert(red(22, -2, 512) == red(11, -1, 128));
        assert(!(128 >= 4 && 128nat % 4 == 0 && 11int % 2 == 0 && -1int % 2 == 0)) by (nonlinear_arith);
        assert(red(11, -1, 128) == (11int, -1int, 128nat));
    }
}

proof fn lemma_triple_4()
    ensures
        grover_triple(4, 3) == (251int, -13int, 65536nat),
{
    vstd::arithmetic::power2::lemma2_to64();
    assert(grover_triple(4, 0) == (1int, 1int, 16nat));
    assert(grover_triple(4, 1) == (11int, 3int, 256nat)) by {
        assert(2 * (-1int + (16 - 1) * 1int) + 16 * 1int == 44) by (nonlinear_arith);
        assert(2 * (-1int + (16 - 1) * 1int) - 16 * 1int == 12) by (nonlinear_arith);
        assert(16int * (16int * 16int) == 4096) by (nonlinear_arith);
        assert(round_raw(4, 1, 1, 16) == (44int, 12int, 4096nat));
        assert(4096 >= 4 && 4096nat % 4 == 0 && 44int % 2 == 0 && 12int % 2 == 0) by (nonlinear_arith);
        assert(44int / 2 == 22 && 12int / 2 == 6 && 4096nat / 4 == 1024) by (nonlinear_arith);
        assert(red(44, 12, 4096) == red(22, 6, 1024));
        assert(1024 >= 4 && 1024nat % 4 == 0 && 22int % 2 == 0 && 6int % 2 == 0) by (nonlinear_arith);
        assert(22int / 2 == 11 && 6int / 2 == 3 && 1024nat / 4 == 256) by (nonlinear_arith);
        assert(red(22, 6, 1024) == red(11, 3, 256));
        assert(!(256 >= 4 && 256nat % 4 == 0 && 11int % 2 == 0 && 3int % 2 == 0)) by (nonlinear_arith);
        assert(red(11, 3, 256) == (11int, 3int, 256nat));
    }
    assert(grover_triple(4, 2) == (61int, 5int, 4096nat)) by {
        assert(2 * (-11int + (16 - 1) * 3int) + 16 * 11int == 244) by (nonlinear_arith);
        assert(2 * (-11int + (16 - 1) * 3int) - 16 * 3int == 20) by (nonlinear_arith);
        assert(256int * (16int * 16int) == 65536) by (nonlinear_arith);
        assert(round_raw(4, 11, 3, 256) == (244int, 20int, 65536nat));
        assert(65536 >= 4 && 65536nat % 4 == 0 && 244int % 2 == 0 && 20int % 2 == 0) by (nonlinear_arith);
        assert(244int / 2 == 122 && 20int / 2 == 10 && 65536nat / 4 == 16384) by (nonlinear_arith);
        assert(red(244, 20, 65536) == red(122, 10, 16384));
        assert(16384 >= 4 && 16384nat % 4 == 0 && 122int % 2 == 0 && 10int % 2 == 0) by (nonlinear_arith);
        assert(122int / 2 == 61 && 10int / 2 == 5 && 16384nat / 4 == 4096) by (nonlinear_arith);
        assert(red(122, 10, 16384) == red(61, 5, 4096));
        assert(!(4096 >= 4 && 4096nat % 4 == 0 && 61int % 2 == 0 && 5int % 2 == 0)) by (nonlinear_arith);
        assert(red(61, 5, 4096) == (61int, 5int, 4096nat));
    }
    assert(grover_triple(4, 3) == (251int, -13int, 65536nat)) by {
        assert(2 * (-61int + (16 - 1) * 5int) + 16 * 61int == 1004) by (nonlinear_arith);
        assert(2 * (-61int + (16 - 1) * 5int) - 16 * 5int == -52) by (nonlinear_arith);
        assert(4096int * (16int * 16int) == 1048576) by (nonlinear_arith);
        assert(round_raw(4, 61, 5, 4096) == (1004int, -52int, 1048576nat));
        assert(1048576 >= 4 && 1048576nat % 4 == 0 && 1004int % 2 == 0 && -52int % 2 == 0) by (nonlinear_arith);
        assert(1004int / 2 == 502 && -52int / 2 == -26 && 1048576nat / 4 == 262144) by (nonlinear_arith);
        assert(red(1004, -52, 1048576) == red(502, -26, 262144));
        assert(262144 >= 4 && 262144nat % 4 == 0 && 502int % 2 == 0 && -26int % 2 == 0) by (nonlinear_arith);
        assert(502int / 2 == 251 && -26int / 2 == -13 && 262144nat / 4 == 65536) by (nonlinear_arith);
        assert(red(502, -26, 262144) == red(251, -13, 65536));
        assert(!(65536 >= 4 && 65536nat % 4 == 0 && 251int % 2 == 0 && -13int % 2 == 0)) by (nonlinear_arith);
        assert(red(251, -13, 65536) == (251int, -13int, 65536nat));
    }
}

proof fn lemma_triple_5()
    ensures
        grover_triple(5, 4) == (23161int, -119int, 536870912nat),
{
    vstd::arithmetic::power2::lemma2_to64();
    assert(grover_triple(5, 0) == (1int, 1int, 32nat));
    assert(grover_triple(5, 1) == (23int, 7int, 2048nat)) by {
        assert(2 * (-1int + (32 - 1) * 1int) + 32 * 1int == 92) by (nonlinear_arith);
        assert(2 * (-1int + (32 - 1) * 1int) - 32 * 1int == 28) by (nonlinear_arith);
        assert(32int * (32int * 32int) == 32768) by (nonlinear_arith);
        assert(round_raw(5, 1, 1, 32) == (92int, 28int, 32768nat));
        assert(32768 >= 4 && 32768nat % 4 == 0 && 92int % 2 == 0 && 28int % 2 == 0) by (nonlinear_arith);
        assert(92int / 2 == 46 && 28int / 2 == 14 && 32768nat / 4 == 8192) by (nonlinear_arith);
        assert(red(92, 28, 32768) == red(46, 14, 8192));
        assert(8192 >= 4 && 8192nat % 4 == 0 && 46int % 2 == 0 && 14int % 2 == 0) by (nonlinear_arith);
        assert(46int / 2 == 23 && 14int / 2 == 7 && 8192nat / 4 == 2048) by (nonlinear_arith);
        assert(red(46, 14, 8192) == red(23, 7, 2048));
        assert(!(2048 >= 4 && 2048nat % 4 == 0 && 23int % 2 == 0 && 7int % 2 == 0)) by (nonlinear_arith);
        assert(red(23, 7, 2048) == (23int, 7int, 2048nat));
    }
    assert(grover_triple(5, 2) == (281int, 41int, 131072nat)) by {
        assert(2 * (-23int + (32 - 1) * 7int) + 32 * 23int == 1124) by (nonlinear_arith);
        assert(2 * (-23int + (32 - 1) * 7int) - 32 * 7int == 164) by (nonlinear_arith);
        assert(2048int * (32int * 32int) == 2097152) by (nonlinear_arith);
        assert(round_raw(5, 23, 7, 2048) == (1124int, 164int, 2097152nat));
        assert(2097152 >= 4 && 2097152nat % 4 == 0 && 1124int % 2 == 0 && 164int % 2 == 0) by (nonlinear_arith);
        assert(1124int / 2 == 562 && 164int / 2 == 82 && 2097152nat / 4 == 524288) by (nonlinear_arith);
        assert(red(1124, 164, 2097152) == red(562, 82, 524288));
        assert(524288 >= 4 && 524288nat % 4 == 0 && 562int % 2 == 0 && 82int % 2 == 0) by (nonlinear_arith);
        assert(562int / 2 == 281 && 82int / 2 == 41 && 524288nat / 4 == 131072) by (nonlinear_arith);
        assert(red(562, 82, 524288) == red(281, 41, 131072));
        assert(!(131072 >= 4 && 131072nat % 4 == 0 && 281int % 2 == 0 && 41int % 2 == 0)) by (nonlinear_arith);
        assert(red(281, 41, 131072) == (281int, 41int, 131072nat));
    }
    assert(grover_triple(5, 3) == (2743int, 167int, 8388608nat)) by {
        assert(2 * (-281int + (32 - 1) * 41int) + 32 * 281int == 10972) by (nonlinear_arith);
        assert(2 * (-281int + (32 - 1) * 41int) - 32 * 41int == 668) by (nonlinear_arith);
        assert(131072int * (32int * 32int) == 134217728) by (nonlinear_arith);
        assert(round_raw(5, 281, 41, 131072) == (10972int, 668int, 134217728nat));
        assert(134217728 >= 4 && 134217728nat % 4 == 0 && 10972int % 2 == 0 && 668int % 2 == 0) by (nonlinear_arith);
        assert(10972int / 2 == 5486 && 668int / 2 == 334 && 134217728nat / 4 == 33554432) by (nonlinear_arith);
        assert(red(10972, 668, 134217728) == red(5486, 334, 33554432));
        assert(33554432 >= 4 && 33554432nat % 4 == 0 && 5486int % 2 == 0 && 334int % 2 == 0) by (nonlinear_arith);
        assert(5486int / 2 == 2743 && 334int / 2 == 167 && 33554432nat / 4 == 8388608) by (nonlinear_arith);
        assert(red(5486, 334, 33554432) == red(2743, 167, 8388608));
        assert(!(8388608 >= 4 && 8388608nat % 4 == 0 && 2743int % 2 == 0 && 167int % 2 == 0)) by (nonlinear_arith);
        assert(red(2743, 167, 8388608) == (2743int, 167int, 8388608nat));
    }
    assert(grover_triple(5, 4) == (23161int, -119int, 536870912nat)) by {
        assert(2 * (-2743int + (32 - 1) * 167int) + 32 * 2743int == 92644) by (nonlinear_arith);
        assert(2 * (-2743int + (32 - 1) * 167int) - 32 * 167int == -476) by (nonlinear_arith);
        assert(8388608int * (32int * 32int) == 8589934592) by (nonlinear_arith);
        assert(round_raw(5, 2743, 167, 8388608) == (92644int, -476int, 8589934592nat));
        assert(8589934592 >= 4 && 8589934592nat % 4 == 0 && 92644int % 2 == 0 && -476int % 2 == 0) by (nonlinear_arith);
        assert(92644int / 2 == 46322 && -476int / 2 == -238 && 8589934592nat / 4 == 2147483648) by (nonlinear_arith);
        assert(red(92644, -476, 8589934592) == red(46322, -238, 2147483648));
        assert(2147483648 >= 4 && 2147483648nat % 4 == 0 && 46322int % 2 == 0 && -238int % 2 == 0) by (nonlinear_arith);
        assert(46322int / 2 == 23161 && -238int / 2 == -119 && 2147483648nat / 4 == 536870912) by (nonlinear_arith);
        assert(red(46322, -238, 2147483648) == red(23161, -119, 536870912));
        assert(!(536870912 >= 4 && 536870912nat % 4 == 0 && 23161int % 2 == 0 && -119int % 2 == 0)) by (nonlinear_arith);
        assert(red(23161, -119, 536870912) == (23161int, -119int, 536870912nat));
    }
}

proof fn lemma_triple_6()
    ensures
        grover_triple(6, 6) == (133988401int, -988079int, 18014398509481984nat),
{
    vstd::arithmetic::power2::lemma2_to64();
    assert(grover_triple(6, 0) == (1int, 1int, 64nat));
    assert(grover_triple(6, 1) == (47int, 15int, 16384nat)) by {
        assert(2 * (-1int + (64 - 1) * 1int) + 64 * 1int == 188) by (nonlinear_arith);
        assert(2 * (-1int + (64 - 1) * 1int) - 64 * 1int == 60) by (nonlinear_arith);
        assert(64int * (64int * 64int) == 262144) by (nonlinear_arith);
        assert(round_raw(6, 1, 1, 64) == (188int, 60int, 262144nat));
        assert(262144 >= 4 && 262144nat % 4 == 0 && 188int % 2 == 0 && 60int % 2 == 0) by (nonlinear_arith);
        assert(188int / 2 == 94 && 60int / 2 == 30 && 262144nat / 4 == 65536) by (nonlinear_arith);
        assert(red(188, 60, 262144) == red(94, 30, 65536));
        assert(65536 >= 4 && 65536nat % 4 == 0 && 94int % 2 == 0 && 30int % 2 == 0) by (nonlinear_arith);
        assert(94int / 2 == 47 && 30int / 2 == 15 && 65536nat / 4 == 16384) by (nonlinear_arith);
        assert(red(94, 30, 65536) == red(47, 15, 16384));
        assert(!(16384 >= 4 && 16384nat % 4 == 0 && 47int % 2 == 0 && 15int % 2 == 0)) by (nonlinear_arith);
        assert(red(47, 15, 16384) == (47int, 15int, 16384nat));
    }
    assert(grover_triple(6, 2) == (1201int, 209int, 4194304nat)) by {
        assert(2 * (-47int + (64 - 1) * 15int) + 64 * 47int == 4804) by (nonlinear_arith);
        assert(2 * (-47int + (64 - 1) * 15int) - 64 * 15int == 836) by (nonlinear_arith);
        assert(16384int * (64int * 64int) == 67108864) by (nonlinear_arith);
        assert(round_raw(6, 47, 15, 16384) == (4804int, 836int, 67108864nat));
        assert(67108864 >= 4 && 67108864nat % 4 == 0 && 4804int % 2 == 0 && 836int % 2 == 0) by (nonlinear_arith);
        assert(4804int / 2 == 2402 && 836int / 2 == 418 && 67108864nat / 4 == 16777216) by (nonlinear_arith);
        assert(red(4804, 836, 67108864) == red(2402, 418, 16777216));
        assert(16777216 >= 4 && 16777216nat % 4 == 0 && 2402int % 2 == 0 && 418int % 2 == 0) by (nonlinear_arith);
        assert(2402int / 2 == 1201 && 418int / 2 == 209 && 16777216nat / 4 == 4194304) by (nonlinear_arith);
        assert(red(2402, 418, 16777216) == red(1201, 209, 4194304));
        assert(!(4194304 >= 4 && 4194304nat % 4 == 0 && 1201int % 2 == 0 && 209int % 2 == 0)) by (nonlinear_arith);
        assert(red(1201, 209, 4194304) == (1201int, 209int, 4194304nat));
    }
    assert(grover_triple(6, 3) == (25199int, 2639int, 1073741824nat)) by {
        assert(2 * (-1201int + (64 - 1) * 209int) + 64 * 1201int == 100796) by (nonlinear_arith);
        assert(2 * (-1201int + (64 - 1) * 209int) - 64 * 209int == 10556) by (nonlinear_arith);
        assert(4194304int * (64int * 64int) == 17179869184) by (nonlinear_arith);
        assert(round_raw(6, 1201, 209, 4194304) == (100796int, 10556int, 17179869184nat));
        assert(17179869184 >= 4 && 17179869184nat % 4 == 0 && 100796int % 2 == 0 && 10556int % 2 == 0) by (nonlinear_arith);
        assert(100796int / 2 == 50398 && 10556int / 2 == 5278 && 17179869184nat / 4 == 4294967296) by (nonlinear_arith);
        assert(red(100796, 10556, 17179869184) == red(50398, 5278, 4294967296));
        assert(4294967296 >= 4 && 4294967296nat % 4 == 0 && 50398int % 2 == 0 && 5278int % 2 == 0) by (nonlinear_arith);
        assert(50398int / 2 == 25199 && 5278int / 2 == 2639 && 4294967296nat / 4 == 1073741824) by (nonlinear_arith);
        assert(red(50398, 5278, 4294967296) == red(25199, 2639, 1073741824));
        assert(!(1073741824 >= 4 && 1073741824nat % 4 == 0 && 25199int % 2 == 0 && 2639int % 2 == 0)) by (nonlinear_arith);
        assert(red(25199, 2639, 1073741824) == (25199int, 2639int, 1073741824nat));
    }
    assert(grover_triple(6, 4) == (473713int, 28305int, 274877906944nat)) by {
        assert(2 * (-25199int + (64 - 1) * 2639int) + 64 * 25199int == 1894852) by (nonlinear_arith);
        assert(2 * (-25199int + (64 - 1) * 2639int) - 64 * 2639int == 113220) by (nonlinear_arith);
        assert(1073741824int * (64int * 64int) == 4398046511104) by (nonlinear_arith);
        assert(round_raw(6, 25199, 2639, 1073741824) == (1894852int, 113220int, 4398046511104nat));
        assert(4398046511104 >= 4 && 4398046511104nat % 4 == 0 && 1894852int % 2 == 0 && 113220int % 2 == 0) by (nonlinear_arith);
        assert(1894852int / 2 == 947426 && 113220int / 2 == 56610 && 4398046511104nat / 4 == 1099511627776) by (nonlinear_arith);
        assert(red(1894852, 113220, 4398046511104) == red(947426, 56610, 1099511627776));
        assert(1099511627776 >= 4 && 1099511627776nat % 4 == 0 && 947426int % 2 == 0 && 56610int % 2 == 0) by (nonlinear_arith);
        assert(947426int / 2 == 473713 && 56610int / 2 == 28305 && 1099511627776nat / 4 == 274877906944) by (nonlinear_arith);
        assert(red(947426, 56610, 1099511627776) == red(473713, 28305, 274877906944));
        assert(!(274877906944 >= 4 && 274877906944nat % 4 == 0 && 473713int % 2 == 0 && 28305int % 2 == 0)) by (nonlinear_arith);
        assert(red(473713, 28305, 274877906944) == (473713int, 28305int, 274877906944nat));
    }
    assert(grover_triple(6, 5) == (8234159int, 201871int, 70368744177664nat)) by {
        assert(2 * (-473713int + (64 - 1) * 28305int) + 64 * 473713int == 32936636) by (nonlinear_arith);
        assert(2 * (-473713int + (64 - 1) * 28305int) - 64 * 28305int == 807484) by (nonlinear_arith);
        assert(274877906944int * (64int * 64int) == 1125899906842624) by (nonlinear_arith);
        assert(round_raw(6, 473713, 28305, 274877906944) == (32936636int, 807484int, 1125899906842624nat));
        assert(1125899906842624 >= 4 && 1125899906842624nat % 4 == 0 && 32936636int % 2 == 0 && 807484int % 2 == 0) by (nonlinear_arith);
        assert(32936636int / 2 == 16468318 && 807484int / 2 == 403742 && 1125899906842624nat / 4 == 281474976710656) by (nonlinear_arith);
        assert(red(32936636, 807484, 1125899906842624) == red(16468318, 403742, 281474976710656));
        assert(281474976710656 >= 4 && 281474976710656nat % 4 == 0 && 16468318int % 2 == 0 && 403742int % 2 == 0) by (nonlinear_arith);
        assert(16468318int / 2 == 8234159 && 403742int / 2 == 201871 && 281474976710656nat / 4 == 70368744177664) by (nonlinear_arith);
        assert(red(16468318, 403742, 281474976710656) == red(8234159, 201871, 70368744177664));
        assert(!(70368744177664 >= 4 && 70368744177664nat % 4 == 0 && 8234159int % 2 == 0 && 201871int % 2 == 0)) by (nonlinear_arith);
        assert(red(8234159, 201871, 70368744177664) == (8234159int, 201871int, 70368744177664nat));
    }
    assert(grover_triple(6, 6) == (133988401int, -988079int, 18014398509481984nat)) by {
        assert(2 * (-8234159int + (64 - 1) * 201871int) + 64 * 8234159int == 535953604) by (nonlinear_arith);
        assert(2 * (-8234159int + (64 - 1) * 201871int) - 64 * 201871int == -3952316) by (nonlinear_arith);
        assert(70368744177664int * (64int * 64int) == 288230376151711744) by (nonlinear_arith);
        assert(round_raw(6, 8234159, 201871, 70368744177664) == (535953604int, -3952316int, 288230376151711744nat));
        assert(288230376151711744 >= 4 && 288230376151711744nat % 4 == 0 && 535953604int % 2 == 0 && -3952316int % 2 == 0) by (nonlinear_arith);
        assert(535953604int / 2 == 267976802 && -3952316int / 2 == -1976158 && 288230376151711744nat / 4 == 72057594037927936) by (nonlinear_arith);
        assert(red(535953604, -3952316, 288230376151711744) == red(267976802, -1976158, 72057594037927936));
        assert(72057594037927936 >= 4 && 72057594037927936nat % 4 == 0 && 267976802int % 2 == 0 && -1976158int % 2 == 0) by (nonlinear_arith);
        assert(267976802int / 2 == 133988401 && -1976158int / 2 == -988079 && 72057594037927936nat / 4 == 18014398509481984) by (nonlinear_arith);
        assert(red(267976802, -1976158, 72057594037927936) == red(133988401, -988079, 18014398509481984));
        assert(!(18014398509481984 >= 4 && 18014398509481984nat % 4 == 0 && 133988401int % 2 == 0 && -988079int % 2 == 0)) by (nonlinear_arith);
        assert(red(133988401, -988079, 18014398509481984) == (133988401int, -988079int, 18014398509481984nat));
    }
}

proof fn lemma_triple_7()
    ensures
        grover_triple(7, 8) == (12412280691169int, 73054448161int, 154742504910672534362390528nat),
{
    vstd::arithmetic::power2::lemma2_to64();
    assert(grover_triple(7, 0) == (1int, 1int, 128nat));
    assert(grover_triple(7, 1) == (95int, 31int, 131072nat)) by {
        assert(2 * (-1int + (128 - 1) * 1int) + 128 * 1int == 380) by (nonlinear_arith);
        assert(2 * (-1int + (128 - 1) * 1int) - 128 * 1int == 124) by (nonlinear_arith);
        assert(128int * (128int * 128int) == 2097152) by (nonlinear_arith);
        assert(round_raw(7, 1, 1, 128) == (380int, 124int, 2097152nat));
        assert(2097152 >= 4 && 2097152nat % 4 == 0 && 380int % 2 == 0 && 124int % 2 == 0) by (nonlinear_arith);
        assert(380int / 2 == 190 && 124int / 2 == 62 && 2097152nat / 4 == 524288) by (nonlinear_arith);
        assert(red(380, 124, 2097152) == red(190, 62, 524288));
        assert(524288 >= 4 && 524288nat % 4 == 0 && 190int % 2 == 0 && 62int % 2 == 0) by (nonlinear_arith);
        assert(190int / 2 == 95 && 62int / 2 == 31 && 524288nat / 4 == 131072) by (nonlinear_arith);
        assert(red(190, 62, 524288) == red(95, 31, 131072));
        assert(!(131072 >= 4 && 131072nat % 4 == 0 && 95int % 2 == 0 && 31int % 2 == 0)) by (nonlinear_arith);
        assert(red(95, 31, 131072) == (95int, 31int, 131072nat));
    }
    assert(grover_triple(7, 2) == (4961int, 929int, 134217728nat)) by {
        assert(2 * (-95int + (128 - 1) * 31int) + 128 * 95int == 19844) by (nonlinear_arith);
        assert(2 * (-95int + (128 - 1) * 31int) - 128 * 31int == 3716) by (nonlinear_arith);
        assert(131072int * (128int * 128int) == 2147483648) by (nonlinear_arith);
        assert(round_raw(7, 95, 31, 131072) == (19844int, 3716int, 2147483648nat));
        assert(2147483648 >= 4 && 2147483648nat % 4 == 0 && 19844int % 2 == 0 && 3716int % 2 == 0) by (nonlinear_arith);
        assert(19844int / 2 == 9922 && 3716int / 2 == 1858 && 2147483648nat / 4 == 536870912) by (nonlinear_arith);
        assert(red(19844, 3716, 2147483648) == red(9922, 1858, 536870912));
        assert(536870912 >= 4 && 536870912nat % 4 == 0 && 9922int % 2 == 0 && 1858int % 2 == 0) by (nonlinear_arith);
        assert(9922int / 2 == 4961 && 1858int / 2 == 929 && 536870912nat / 4 == 134217728) by (nonlinear_arith);
        assert(red(9922, 1858, 536870912) == red(4961, 929, 134217728));
        assert(!(134217728 >= 4 && 134217728nat % 4 == 0 && 4961int % 2 == 0 && 929int % 2 == 0)) by (nonlinear_arith);
        assert(red(4961, 929, 134217728) == (4961int, 929int, 134217728nat));
    }
    assert(grover_triple(7, 3) == (215263int, 26783int, 137438953472nat)) by {
        assert(2 * (-4961int + (128 - 1) * 929int) + 128 * 4961int == 861052) by (nonlinear_arith);
        assert(2 * (-4961int + (128 - 1) * 929int) - 128 * 929int == 107132) by (nonlinear_arith);
        assert(134217728int * (128int * 128int) == 2199023255552) by (nonlinear_arith);
        assert(round_raw(7, 4961, 929, 134217728) == (861052int, 107132int, 2199023255552nat));
        assert(2199023255552 >= 4 && 2199023255552nat % 4 == 0 && 861052int % 2 == 0 && 107132int % 2 == 0) by (nonlinear_arith);
        assert(861052int / 2 == 430526 && 107132int / 2 == 53566 && 2199023255552nat / 4 == 549755813888) by (nonlinear_arith);
        assert(red(861052, 107132, 2199023255552) == red(430526, 53566, 549755813888));
        assert(549755813888 >= 4 && 549755813888nat % 4 == 0 && 430526int % 2 == 0 && 53566int % 2 == 0) by (nonlinear_arith);
        assert(430526int / 2 == 215263 && 53566int / 2 == 26783 && 549755813888nat / 4 == 137438953472) by (nonlinear_arith);
        assert(red(430526, 53566, 549755813888) == red(215263, 26783, 137438953472));
        assert(!(137438953472 >= 4 && 137438953472nat % 4 == 0 && 215263int % 2 == 0 && 26783int % 2 == 0)) by (nonlinear_arith);
        assert(red(215263, 26783, 137438953472) == (215263int, 26783int, 137438953472nat));
    }
    assert(grover_triple(7, 4) == (8481505int, 736033int, 140737488355328nat)) by {
        assert(2 * (-215263int + (128 - 1) * 26783int) + 128 * 215263int == 33926020) by (nonlinear_arith);
        assert(2 * (-215263int + (128 - 1) * 26783int) - 128 * 26783int == 2944132) by (nonlinear_arith);
        assert(137438953472int * (128int * 128int) == 2251799813685248) by (nonlinear_arith);
        assert(round_raw(7, 215263, 26783, 137438953472) == (33926020int, 2944132int, 2251799813685248nat));
        assert(2251799813685248 >= 4 && 2251799813685248nat % 4 == 0 && 33926020int % 2 == 0 && 2944132int % 2 == 0) by (nonlinear_arith);
        assert(33926020int / 2 == 16963010 && 2944132int / 2 == 1472066 && 2251799813685248nat / 4 == 562949953421312) by (nonlinear_arith);
        assert(red(33926020, 2944132, 2251799813685248) == red(16963010, 1472066, 562949953421312));
        assert(562949953421312 >= 4 && 562949953421312nat % 4 == 0 && 16963010int % 2 == 0 && 1472066int % 2 == 0) by (nonlinear_arith);
        assert(16963010int / 2 == 8481505 && 1472066int / 2 == 736033 && 562949953421312nat / 4 == 140737488355328) by (nonlinear_arith);
        assert(red(16963010, 1472066, 562949953421312) == red(8481505, 736033, 140737488355328));
        assert(!(140737488355328 >= 4 && 140737488355328nat % 4 == 0 && 8481505int % 2 == 0 && 736033int % 2 == 0)) by (nonlinear_arith);
        assert(red(8481505, 736033, 140737488355328) == (8481505int, 736033int, 140737488355328nat));
    }
    assert(grover_triple(7, 5) == (313905503int, 18944287int, 144115188075855872nat)) by {
        assert(2 * (-8481505int + (128 - 1) * 736033int) + 128 * 8481505int == 1255622012) by (nonlinear_arith);
        assert(2 * (-8481505int + (128 - 1) * 736033int) - 128 * 736033int == 75777148) by (nonlinear_arith);
        assert(140737488355328int * (128int * 128int) == 2305843009213693952) by (nonlinear_arith);
        assert(round_raw(7, 8481505, 736033, 140737488355328) == (1255622012int, 75777148int, 2305843009213693952nat));
        assert(2305843009213693952 >= 4 && 2305843009213693952nat % 4 == 0 && 1255622012int % 2 == 0 && 75777148int % 2 == 0) by (nonlinear_arith);
        assert(1255622012int / 2 == 627811006 && 75777148int / 2 == 37888574 && 2305843009213693952nat / 4 == 576460752303423488) by (nonlinear_arith);
        assert(red(1255622012, 75777148, 2305843009213693952) == red(627811006, 37888574, 576460752303423488));
        assert(576460752303423488 >= 4 && 576460752303423488nat % 4 == 0 && 627811006int % 2 == 0 && 37888574int % 2 == 0) by (nonlinear_arith);
        assert(627811006int / 2 == 313905503 && 37888574int / 2 == 18944287 && 576460752303423488nat / 4 == 144115188075855872) by (nonlinear_arith);
        assert(red(627811006, 37888574, 576460752303423488) == red(313905503, 18944287, 144115188075855872));
        assert(!(144115188075855872 >= 4 && 144115188075855872nat % 4 == 0 && 313905503int % 2 == 0 && 18944287int % 2 == 0)) by (nonlinear_arith);
        assert(red(313905503, 18944287, 144115188075855872) == (313905503int, 18944287int, 144115188075855872nat));
    }
    assert(grover_triple(7, 6) == (11090985569int, 439792289int, 147573952589676412928nat)) by {
        assert(2 * (-313905503int + (128 - 1) * 18944287int) + 128 * 313905503int == 44363942276) by (nonlinear_arith);
        assert(2 * (-313905503int + (128 - 1) * 18944287int) - 128 * 18944287int == 1759169156) by (nonlinear_arith);
        assert(144115188075855872int * (128int * 128int) == 2361183241434822606848) by (nonlinear_arith);
        assert(round_raw(7, 313905503, 18944287, 144115188075855872) == (44363942276int, 1759169156int, 2361183241434822606848nat));
        assert(2361183241434822606848 >= 4 && 2361183241434822606848nat % 4 == 0 && 44363942276int % 2 == 0 && 1759169156int % 2 == 0) by (nonlinear_arith);
        assert(44363942276int / 2 == 22181971138 && 1759169156int / 2 == 879584578 && 2361183241434822606848nat / 4 == 590295810358705651712) by (nonlinear_arith);
        assert(red(44363942276, 1759169156, 2361183241434822606848) == red(22181971138, 879584578, 590295810358705651712));
        assert(590295810358705651712 >= 4 && 590295810358705651712nat % 4 == 0 && 22181971138int % 2 == 0 && 879584578int % 2 == 0) by (nonlinear_arith);
        assert(22181971138int / 2 == 11090985569 && 879584578int / 2 == 439792289 && 590295810358705651712nat / 4 == 147573952589676412928) by (nonlinear_arith);
        assert(red(22181971138, 879584578, 590295810358705651712) == red(11090985569, 439792289, 147573952589676412928));
        assert(!(147573952589676412928 >= 4 && 147573952589676412928nat % 4 == 0 && 11090985569int % 2 == 0 && 439792289int % 2 == 0)) by (nonlinear_arith);
        assert(red(11090985569, 439792289, 147573952589676412928) == (11090985569int, 439792289int, 147573952589676412928nat));
    }
    assert(grover_triple(7, 7) == (377292855775int, 8307964319int, 151115727451828646838272nat)) by {
        assert(2 * (-11090985569int + (128 - 1) * 439792289int) + 128 * 11090985569int == 1509171423100) by (nonlinear_arith);
        assert(2 * (-11090985569int + (128 - 1) * 439792289int) - 128 * 439792289int == 33231857276) by (nonlinear_arith);
        assert(147573952589676412928int * (128int * 128int) == 2417851639229258349412352) by (nonlinear_arith);
        assert(round_raw(7, 11090985569, 439792289, 147573952589676412928) == (1509171423100int, 33231857276int, 2417851639229258349412352nat));
        assert(2417851639229258349412352 >= 4 && 2417851639229258349412352nat % 4 == 0 && 1509171423100int % 2 == 0 && 33231857276int % 2 == 0) by (nonlinear_arith);
        assert(1509171423100int / 2 == 754585711550 && 33231857276int / 2 == 16615928638 && 2417851639229258349412352nat / 4 == 604462909807314587353088) by (nonlinear_arith);
        assert(red(1509171423100, 33231857276, 2417851639229258349412352) == red(754585711550, 16615928638, 604462909807314587353088));
        assert(604462909807314587353088 >= 4 && 604462909807314587353088nat % 4 == 0 && 754585711550int % 2 == 0 && 16615928638int % 2 == 0) by (nonlinear_arith);
        assert(754585711550int / 2 == 377292855775 && 16615928638int / 2 == 8307964319 && 604462909807314587353088nat / 4 == 151115727451828646838272) by (nonlinear_arith);
        assert(red(754585711550, 16615928638, 604462909807314587353088) == red(377292855775, 8307964319, 151115727451828646838272));
        assert(!(151115727451828646838272 >= 4 && 151115727451828646838272nat % 4 == 0 && 377292855775int % 2 == 0 && 8307964319int % 2 == 0)) by (nonlinear_arith);
        assert(red(377292855775, 8307964319, 151115727451828646838272) == (377292855775int, 8307964319int, 151115727451828646838272nat));
    }
    assert(grover_triple(7, 8) == (12412280691169int, 73054448161int, 154742504910672534362390528nat)) by {
        assert(2 * (-377292855775int + (128 - 1) * 8307964319int) + 128 * 377292855775int == 49649122764676) by (nonlinear_arith);
        assert(2 * (-377292855775int + (128 - 1) * 8307964319int) - 128 * 8307964319int == 292217792644) by (nonlinear_arith);
        assert(151115727451828646838272int * (128int * 128int) == 2475880078570760549798248448) by (nonlinear_arith);
        assert(round_raw(7, 377292855775, 8307964319, 151115727451828646838272) == (49649122764676int, 292217792644int, 2475880078570760549798248448nat));
        assert(2475880078570760549798248448 >= 4 && 2475880078570760549798248448nat % 4 == 0 && 49649122764676int % 2 == 0 && 292217792644int % 2 == 0) by (nonlinear_arith);
        assert(49649122764676int / 2 == 24824561382338 && 292217792644int / 2 == 146108896322 && 2475880078570760549798248448nat / 4 == 618970019642690137449562112) by (nonlinear_arith);
        assert(red(49649122764676, 292217792644, 2475880078570760549798248448) == red(24824561382338, 146108896322, 618970019642690137449562112));
        assert(618970019642690137449562112 >= 4 && 618970019642690137449562112nat % 4 == 0 && 24824561382338int % 2 == 0 && 146108896322int % 2 == 0) by (nonlinear_arith);
        assert(24824561382338int / 2 == 12412280691169 && 146108896322int / 2 == 73054448161 && 618970019642690137449562112nat / 4 == 154742504910672534362390528) by (nonlinear_arith);
        assert(red(24824561382338, 146108896322, 618970019642690137449562112) == red(12412280691169, 73054448161, 154742504910672534362390528));
        assert(!(154742504910672534362390528 >= 4 && 154742504910672534362390528nat % 4 == 0 && 12412280691169int % 2 == 0 && 73054448161int % 2 == 0)) by (nonlinear_arith);
        assert(red(12412280691169, 73054448161, 154742504910672534362390528) == (12412280691169int, 73054448161int, 154742504910672534362390528nat));
    }
}

/// The `(b, a, norm)` Grover's search ends with for one to seven qubits.
proof fn lemma_final_triple(n: nat)
    requires
        1 <= n <= 7,
    ensures
        ({
            let k = crate::grover::grover_iterations(n);
            let p = grover_triple(n, k);
            p.0 * p.0 * pow2(n) >= (pow2(n) - 1) * p.2
        }),
{
    vstd::arithmetic::power2::lemma2_to64();
    crate::laws::lemma_iterations_small(n);
    if n == 1 {
        lemma_triple_1();
        assert(1int * 1int * 2int >= (2int - 1) * 2int) by (nonlinear_arith);
    } else if n == 2 {
        lemma_triple_2();
        assert(1int * 1int * 4int >= (4int - 1) * 1int) by (nonlinear_arith);
    } else if n == 3 {
        lemma_triple_3();
        assert(11int * 11int * 8int >= (8int - 1) * 128int) by (nonlinear_arith);
    } else if n == 4 {
        lemma_triple_4();
        assert(251int * 251int * 16int >= (16int - 1) * 65536int) by (nonlinear_arith);
    } else if n == 5 {
        lemma_triple_5();
        assert(23161int * 23161int * 32int >= (32int - 1) * 536870912int) by (nonlinear_arith);
    } else if n == 6 {
        lemma_triple_6();
        assert(133988401int * 133988401int * 64int >= (64int - 1) * 18014398509481984int) by (nonlinear_arith);
    } else {
        lemma_triple_7();
        assert(12412280691169int * 12412280691169int * 128int >= (128int - 1) * 154742504910672534362390528int) by (nonlinear_arith);
    }
}

/// Measuring `s` gives `target` with probability at least `1 - 1/2^n`:
/// `weights[target] * 2^n >= (2^n - 1) * norm`.
pub open spec fn finds_target(s: QState, target: int) -> bool {
    s.weights()[target] * dim(s.num_qubits) >= (dim(s.num_qubits) - 1) * s.norm
}

/// Law: Grover's search on up to seven qubits finds its target with
/// probability at least `1 - 1/2^n`: `weights[target] * 2^n >= (2^n - 1) *
/// norm` (for two qubits with probability 1, for three 121/128).
pub proof fn law_grover_success(n: nat, target: int)
    requires
        1 <= n <= crate::grover::GROVER_EXACT_QUBITS,
        0 <= target < dim(n),
    ensures
        grover_state(n, target) matches Ok(s) && finds_target(s, target),
{
    lemma_dim(n);
    lemma_hadamard_pattern(n, n);
    let s1 = sym(n, target, 1, 1, pow2(n));
    assert forall|i: int| 0 <= i < dim(n) implies #[trigger] hadamard_pattern(n, n).amps[i]
        == s1.amps[i] by {
        let iu = i as usize;
        assert(iu & 0usize == 0) by (bit_vector);
        assert(low_mask(n, n) == 0usize) by {
            assert(((1usize << 0usize) - 1) as usize == 0usize) by (bit_vector);
        }
    }
    assert(hadamard_pattern(n, n).amps =~= s1.amps);
    assert(hadamard_pattern(n, n) == s1);
    crate::laws::law_grover_fits(n, target);
    let k = crate::grover::grover_iterations(n);
    lemma_rounds_sym(n, target, k);
    lemma_final_triple(n);
    let p = grover_triple(n, k);
    let s = sym(n, target, p.0, p.1, p.2);
    assert(grover_state(n, target) == Ok::<QState, SimError>(s));
    assert(s.weights()[target] == p.0 * p.0 + 0int * 0int);
    assert(0int * 0int == 0) by (nonlinear_arith);
}

} // verus!
