use vstd::prelude::*;

use crate::circuit::initial_state;
use crate::grover_success::finds_target;
use crate::complex::{cx, cx_fits, cx_neg, Complex, Cx};
use crate::gate::{gate_h, Gate};
use crate::state::{
    dim, gate_step, lemma_dim, lemma_reduce_wf, reduce, sum, sum_prefix, QState, SimError,
    StateVector, pow2_u128,
};
use vstd::arithmetic::power2::pow2;

verus! {

/// `pi/4` in units of `2^-32`, rounded: `round(pi/4 * 2^32)`.
pub const PI_QUARTER_Q32: u128 = 3373259426;

/// Largest register for which `iteration_count` is computed (2^60 amplitudes).
pub const GROVER_MAX_QUBITS: usize = 60;

/// Largest register on which Grover's search always succeeds: the exact norm
/// grows by about `4^(n-1)` per round, and from 8 qubits on it outgrows 128
/// bits before the last round.
pub const GROVER_EXACT_QUBITS: usize = 7;

/// `k` is the number of Grover iterations for `n` qubits:
/// `k = floor(pi/4 * sqrt(2^n))`, with `pi/4` taken as `PI_QUARTER_Q32 / 2^32`
/// (for n <= 60 this agrees with computing the same floor in `f64`).
pub open spec fn iterations_ok(n: nat, k: nat) -> bool {
    let t = PI_QUARTER_Q32 * PI_QUARTER_Q32 * pow2(n);
    let u = pow2(32);
    &&& (k * u) * (k * u) <= t
    &&& t < ((k + 1) * u) * ((k + 1) * u)
}

pub open spec fn grover_iterations(n: nat) -> nat {
    choose|k: nat| iterations_ok(n, k)
}

pub proof fn lemma_iterations_unique(n: nat, j: nat, k: nat)
    requires
        iterations_ok(n, j),
        iterations_ok(n, k),
    ensures
        j == k,
{
    let u = pow2(32) as int;
    let t = (PI_QUARTER_Q32 * PI_QUARTER_Q32 * pow2(n)) as int;
    vstd::arithmetic::power2::lemma_pow2_pos(32);
    if j < k {
        assert((j + 1) * u <= k * u) by (nonlinear_arith)
            requires
                j < k,
                u > 0,
        ;
        assert(((j + 1) * u) * ((j + 1) * u) <= (k * u) * (k * u)) by (nonlinear_arith)
            requires
                0 <= (j + 1) * u <= k * u,
        ;
    } else if k < j {
        assert((k + 1) * u <= j * u) by (nonlinear_arith)
            requires
                k < j,
                u > 0,
        ;
        assert(((k + 1) * u) * ((k + 1) * u) <= (j * u) * (j * u)) by (nonlinear_arith)
            requires
                0 <= (k + 1) * u <= j * u,
        ;
    }
}

/// Number of Grover iterations for `num_qubits` qubits: floor(pi/4 * sqrt(2^n)).
/// Floor, not round: overshooting by one iteration undoes the amplitude buildup.
pub fn iteration_count(num_qubits: usize) -> (k: usize)
    requires
        num_qubits <= GROVER_MAX_QUBITS,
    ensures
        iterations_ok(num_qubits as nat, k as nat),
        k == grover_iterations(num_qubits as nat),
{
    proof {
        vstd::arithmetic::power2::lemma2_to64();
        vstd::arithmetic::power2::lemma_pow2_pos(num_qubits as nat);
        if num_qubits < 60 {
            vstd::arithmetic::power2::lemma_pow2_strictly_increases(num_qubits as nat, 60);
        }
        assert(pow2(60) == 0x1000_0000_0000_0000) by {
            vstd::arithmetic::power2::lemma2_to64_rest();
        }
    }
    let t = PI_QUARTER_Q32 * PI_QUARTER_Q32 * pow2_u128(num_qubits as u32);
    let u: u128 = 0x1_0000_0000;
    let ghost tt = (PI_QUARTER_Q32 * PI_QUARTER_Q32 * pow2(num_qubits as nat)) as int;
    proof {
        assert(pow2(32) == 0x1_0000_0000);
        assert(t < 0x1000_0000_0000_0000_0000_0000_0000_0000) by (nonlinear_arith)
            requires
                t == 3373259426 * 3373259426 * pow2(num_qubits as nat),
                pow2(num_qubits as nat) <= 0x1000_0000_0000_0000,
        ;
    }
    let mut k: u128 = 0;
    assert((k * u) * (k * u) == 0) by (nonlinear_arith)
        requires
            k == 0,
    ;
    loop
        invariant
            t as int == tt,
            tt == PI_QUARTER_Q32 * PI_QUARTER_Q32 * pow2(num_qubits as nat),
            u == pow2(32),
            u == 0x1_0000_0000,
            t < 0x1000_0000_0000_0000_0000_0000_0000_0000,
            (k * u) * (k * u) <= t,
        ensures
            iterations_ok(num_qubits as nat, k as nat),
            k <= 0x4000_0000,
        decreases 0x4000_0000 - k,
    {
        proof {
            assert(k < 0x4000_0000) by (nonlinear_arith)
                requires
                    (k * 0x1_0000_0000) * (k * 0x1_0000_0000) <= t,
                    t < 0x1000_0000_0000_0000_0000_0000_0000_0000,
                    k >= 0,
            ;
            assert(((k + 1) * u) * ((k + 1) * u) <= 0x1000_0000_0000_0000_0000_0000_0000_0000)
                by (nonlinear_arith)
                requires
                    0 <= k < 0x4000_0000,
                    u == 0x1_0000_0000,
            ;
        }
        let next = (k + 1) * u;
        if next * next <= t {
            k = k + 1;
        } else {
            assert(tt < ((k + 1) * pow2(32)) * ((k + 1) * pow2(32)));
            break;
        }
    }
    proof {
        let j = grover_iterations(num_qubits as nat);
        assert(iterations_ok(num_qubits as nat, k as nat));
        lemma_iterations_unique(num_qubits as nat, j, k as nat);
    }
    k as usize
}

/// Flip the phase of the target amplitude; every other amplitude is left untouched.
pub open spec fn oracle_step(s: QState, target: int) -> Result<QState, SimError> {
    let r = QState {
        num_qubits: s.num_qubits,
        amps: s.amps.update(target, cx_neg(s.amps[target])),
        norm: s.norm,
    };
    if r.fits() {
        Ok(r)
    } else {
        Err(SimError::Overflow)
    }
}

/// The sum of all entries.
pub open spec fn cx_total(amps: Seq<Cx>) -> Cx {
    (
        sum(Seq::new(amps.len(), |i: int| amps[i].0)),
        sum(Seq::new(amps.len(), |i: int| amps[i].1)),
    )
}

/// Invert every amplitude about the mean: amp[i] = 2*mean - amp[i].
/// With `D` entries and total `T`, that is `(2T - D*w[i]) / (D*sqrt(norm))`:
/// the entries become `2T - D*w[i]` and the norm `norm * D^2`.
pub open spec fn diffusion_raw(s: QState) -> QState {
    let t = cx_total(s.amps);
    let d = s.amps.len() as int;
    QState {
        num_qubits: s.num_qubits,
        amps: Seq::new(s.amps.len(), |i: int| (2 * t.0 - d * s.amps[i].0, 2 * t.1 - d * s.amps[i].1)),
        norm: s.norm * (d * d) as nat,
    }
}

pub open spec fn diffusion_step(s: QState) -> Result<QState, SimError> {
    let r = diffusion_raw(s);
    if r.fits() {
        Ok(reduce(r))
    } else {
        Err(SimError::Overflow)
    }
}

/// Hadamard on qubits `0..k`, in order.
pub open spec fn hadamard_all(s: QState, k: nat) -> Result<QState, SimError>
    decreases k,
{
    if k == 0 {
        Ok(s)
    } else {
        match hadamard_all(s, (k - 1) as nat) {
            Ok(t) => gate_step(t, (k - 1) as nat, gate_h()),
            Err(e) => Err(e),
        }
    }
}

/// `k` rounds of oracle then diffusion.
pub open spec fn grover_rounds(s: QState, target: int, k: nat) -> Result<QState, SimError>
    decreases k,
{
    if k == 0 {
        Ok(s)
    } else {
        match grover_rounds(s, target, (k - 1) as nat) {
            Ok(t) => match oracle_step(t, target) {
                Ok(u) => diffusion_step(u),
                Err(e) => Err(e),
            },
            Err(e) => Err(e),
        }
    }
}

/// Grover's search on `n` qubits for `target`: equal superposition, then
/// `grover_iterations(n)` rounds.
pub open spec fn grover_state(n: nat, target: int) -> Result<QState, SimError> {
    match hadamard_all(initial_state(n), n) {
        Ok(s) => grover_rounds(s, target, grover_iterations(n)),
        Err(e) => Err(e),
    }
}

/// Flip the phase of the target amplitude -- marks it as "the answer".
/// `Overflow` only when a part of the target's entry is `i64::MIN`, whose
/// negation does not fit; on the normalized states of Grover's search with
/// norm at most `2^124` this never happens (`lemma_small_normalized_fits`).
fn oracle(sv: &mut StateVector, target: usize) -> (res: Result<(), SimError>)
    requires
        old(sv).wf(),
        target < old(sv)@.amps.len(),
    ensures
        final(sv).wf(),
        final(sv).num_qubits == old(sv).num_qubits,
        match oracle_step(old(sv)@, target as int) {
            Ok(s) => res == Ok::<(), SimError>(()) && final(sv)@ == s,
            Err(e) => res == Err::<(), SimError>(e) && final(sv)@ == old(sv)@,
        },
{
    let a = sv.amplitudes[target];
    if a.re == i64::MIN || a.im == i64::MIN {
        let ghost s0 = sv@;
        assert(!cx_fits(cx_neg(s0.amps[target as int])));
        assert(!oracle_step(s0, target as int).unwrap().fits() || oracle_step(
            s0,
            target as int,
        ) is Err) by {
            let r = QState {
                num_qubits: s0.num_qubits,
                amps: s0.amps.update(target as int, cx_neg(s0.amps[target as int])),
                norm: s0.norm,
            };
            assert(!cx_fits(r.amps[target as int]));
        }
        return Err(SimError::Overflow);
    }
    let ghost s0 = sv@;
    sv.amplitudes.set(target, a.neg());
    assert(sv@.amps =~= s0.amps.update(target as int, cx_neg(s0.amps[target as int])));
    proof {
        let r = sv@;
        assert forall|i: int| 0 <= i < r.amps.len() implies #[trigger] cx_fits(r.amps[i]) by {
            assert(r.amps[i] == cx(sv.amplitudes@[i]));
        }
    }
    Ok(())
}

/// Invert every amplitude about the mean.  This amplifies whatever stands out
/// (the negated target) and suppresses the rest.
fn diffusion(sv: &mut StateVector) -> (res: Result<(), SimError>)
    requires
        old(sv).wf(),
        old(sv).num_qubits <= GROVER_MAX_QUBITS,
    ensures
        final(sv).wf(),
        final(sv).num_qubits == old(sv).num_qubits,
        match diffusion_step(old(sv)@) {
            Ok(s) => res == Ok::<(), SimError>(()) && final(sv)@ == s,
            Err(e) => res == Err::<(), SimError>(e) && final(sv)@ == old(sv)@,
        },
{
    let ghost s0 = sv@;
    let ghost re_s = Seq::new(s0.amps.len(), |i: int| s0.amps[i].0);
    let ghost im_s = Seq::new(s0.amps.len(), |i: int| s0.amps[i].1);
    let d = sv.amplitudes.len();
    proof {
        lemma_dim(s0.num_qubits);
        vstd::arithmetic::power2::lemma2_to64();
        if s0.num_qubits < 60 {
            vstd::arithmetic::power2::lemma_pow2_strictly_increases(s0.num_qubits, 60);
        }
        assert(pow2(60) == 0x1000_0000_0000_0000) by {
            vstd::arithmetic::power2::lemma2_to64_rest();
        }
    }
    let mut tr: i128 = 0;
    let mut ti: i128 = 0;
    let mut i: usize = 0;
    while i < d
        invariant
            sv@ == s0,
            d == s0.amps.len(),
            d <= 0x1000_0000_0000_0000,
            re_s == Seq::new(s0.amps.len(), |i: int| s0.amps[i].0),
            im_s == Seq::new(s0.amps.len(), |i: int| s0.amps[i].1),
            i <= d,
            tr == sum_prefix(re_s, i as int),
            ti == sum_prefix(im_s, i as int),
            -(i as int) * 0x8000_0000_0000_0000 <= tr <= (i as int) * 0x8000_0000_0000_0000,
            -(i as int) * 0x8000_0000_0000_0000 <= ti <= (i as int) * 0x8000_0000_0000_0000,
        decreases d - i,
    {
        assert(re_s[i as int] == sv.amplitudes@[i as int].re);
        assert(im_s[i as int] == sv.amplitudes@[i as int].im);
        tr = tr + sv.amplitudes[i].re as i128;
        ti = ti + sv.amplitudes[i].im as i128;
        i = i + 1;
    }
    let dd = d as u128;
    assert(dd * dd <= 0x100_0000_0000_0000_0000_0000_0000_0000) by (nonlinear_arith)
        requires
            dd <= 0x1000_0000_0000_0000,
    ;
    let new_norm = match sv.norm.checked_mul(dd * dd) {
        Some(v) => v,
        None => {
            return Err(SimError::Overflow);
        },
    };
    let ghost t = cx_total(s0.amps);
    let ghost raw = diffusion_raw(s0);
    let di = d as i128;
    let mut new_amps: Vec<Complex> = Vec::new();
    let mut i: usize = 0;
    while i < d
        invariant
            sv@ == s0,
            s0 == old(sv)@,
            s0.wf(),
            raw == diffusion_raw(s0),
            d == s0.amps.len(),
            d <= 0x1000_0000_0000_0000,
            di == d,
            t == cx_total(s0.amps),
            tr == t.0,
            ti == t.1,
            -0x1000_0000_0000_0000_0000_0000_0000_0000 <= tr <= 0x1000_0000_0000_0000_0000_0000_0000_0000,
            -0x1000_0000_0000_0000_0000_0000_0000_0000 <= ti <= 0x1000_0000_0000_0000_0000_0000_0000_0000,
            raw.amps.len() == d,
            forall|k: int|
                0 <= k < d ==> #[trigger] raw.amps[k] == (2 * t.0 - (d as int) * s0.amps[k].0, 2
                    * t.1 - (d as int) * s0.amps[k].1),
            i <= d,
            new_amps@.len() == i,
            forall|k: int| 0 <= k < i ==> #[trigger] cx(new_amps@[k]) == raw.amps[k],
        decreases d - i,
    {
        let a = sv.amplitudes[i];
        let ar = a.re as i128;
        let ai = a.im as i128;
        proof {
            assert(-0x0800_0000_0000_0000_0000_0000_0000_0000 <= di * ar <= 0x0800_0000_0000_0000_0000_0000_0000_0000)
                by (nonlinear_arith)
                requires
                    0 <= di <= 0x1000_0000_0000_0000,
                    -0x8000_0000_0000_0000 <= ar <= 0x8000_0000_0000_0000,
            ;
            assert(-0x0800_0000_0000_0000_0000_0000_0000_0000 <= di * ai <= 0x0800_0000_0000_0000_0000_0000_0000_0000)
                by (nonlinear_arith)
                requires
                    0 <= di <= 0x1000_0000_0000_0000,
                    -0x8000_0000_0000_0000 <= ai <= 0x8000_0000_0000_0000,
            ;
        }
        let x = 2 * tr - di * ar;
        let y = 2 * ti - di * ai;
        if i64::MIN as i128 <= x && x <= i64::MAX as i128 && i64::MIN as i128 <= y && y
            <= i64::MAX as i128 {
            new_amps.push(Complex { re: x as i64, im: y as i64 });
        } else {
            assert(!cx_fits(raw.amps[i as int]));
            return Err(SimError::Overflow);
        }
        i = i + 1;
    }
    sv.amplitudes = new_amps;
    sv.norm = new_norm;
    assert(sv@.amps =~= raw.amps);
    assert(sv@ == raw);
    proof {
        assert(s0.norm * (d * d) >= 1) by (nonlinear_arith)
            requires
                s0.norm >= 1,
                d >= 1,
        ;
        lemma_reduce_wf(raw);
    }
    sv.reduce_in_place();
    Ok(())
}

/// Run Grover's search on `num_qubits` qubits looking for `target`.
/// Returns the final state -- measure it to get the answer with high probability.
///
/// The state is exact.  Up to `GROVER_EXACT_QUBITS` (7) qubits the search
/// always succeeds, and measuring the result gives the target with
/// probability at least `1 - 1/2^n` (`finds_target`); on larger registers the exact norm outgrows 128 bits
/// (from 8 qubits on, before the last round) and the result is `Overflow`.
pub fn run(num_qubits: usize, target: usize) -> (res: Result<StateVector, SimError>)
    requires
        1 <= num_qubits <= GROVER_MAX_QUBITS,
        num_qubits < usize::BITS,
        target < dim(num_qubits as nat),
    ensures
        num_qubits <= GROVER_EXACT_QUBITS ==> (res matches Ok(sv) && finds_target(
            sv@,
            target as int,
        )),
        match grover_state(num_qubits as nat, target as int) {
            Ok(s) => match res {
                Ok(sv) => sv.wf() && sv@ == s,
                Err(_) => false,
            },
            Err(e) => res == Err::<StateVector, SimError>(e),
        },
{
    proof {
        if num_qubits <= GROVER_EXACT_QUBITS {
            crate::laws::law_grover_fits(num_qubits as nat, target as int);
            crate::grover_success::law_grover_success(num_qubits as nat, target as int);
        }
    }
    let iterations = iteration_count(num_qubits);
    let mut sv = StateVector::new(num_qubits);
    let ghost s0 = sv@;
    // Step 1: put all qubits into equal superposition
    let mut q: usize = 0;
    while q < num_qubits
        invariant
            s0 == initial_state(num_qubits as nat),
            num_qubits <= GROVER_EXACT_QUBITS ==> grover_state(num_qubits as nat, target as int) is Ok,
            num_qubits <= GROVER_EXACT_QUBITS ==> (grover_state(num_qubits as nat, target as int) matches Ok(
                s,
            ) && finds_target(s, target as int)),
            q <= num_qubits,
            sv.wf(),
            sv.num_qubits == num_qubits,
            hadamard_all(s0, q as nat) == Ok::<QState, SimError>(sv@),
        decreases num_qubits - q,
    {
        match sv.apply_gate(q, &Gate::h()) {
            Ok(()) => {},
            Err(e) => {
                proof {
                    lemma_hadamard_err(s0, (q + 1) as nat, num_qubits as nat);
                }
                return Err(e);
            },
        }
        q = q + 1;
    }
    let ghost s1 = sv@;
    // Step 2: alternate oracle and diffusion
    let mut k: usize = 0;
    while k < iterations
        invariant
            hadamard_all(s0, num_qubits as nat) == Ok::<QState, SimError>(s1),
            s0 == initial_state(num_qubits as nat),
            iterations == grover_iterations(num_qubits as nat),
            num_qubits <= GROVER_EXACT_QUBITS ==> grover_state(num_qubits as nat, target as int) is Ok,
            num_qubits <= GROVER_EXACT_QUBITS ==> (grover_state(num_qubits as nat, target as int) matches Ok(
                s,
            ) && finds_target(s, target as int)),
            k <= iterations,
            sv.wf(),
            sv.num_qubits == num_qubits,
            num_qubits <= GROVER_MAX_QUBITS,
            target < dim(num_qubits as nat),
            grover_rounds(s1, target as int, k as nat) == Ok::<QState, SimError>(sv@),
        decreases iterations - k,
    {
        match oracle(&mut sv, target) {
            Ok(()) => {},
            Err(e) => {
                proof {
                    lemma_rounds_err(s1, target as int, (k + 1) as nat, iterations as nat);
                }
                return Err(e);
            },
        }
        match diffusion(&mut sv) {
            Ok(()) => {},
            Err(e) => {
                proof {
                    lemma_rounds_err(s1, target as int, (k + 1) as nat, iterations as nat);
                }
                return Err(e);
            },
        }
        k = k + 1;
    }
    Ok(sv)
}

proof fn lemma_hadamard_err(s: QState, j: nat, k: nat)
    requires
        j <= k,
        hadamard_all(s, j) is Err,
    ensures
        hadamard_all(s, k) == hadamard_all(s, j),
    decreases k - j,
{
    if j < k {
        lemma_hadamard_err(s, j, (k - 1) as nat);
    }
}

proof fn lemma_rounds_err(s: QState, target: int, j: nat, k: nat)
    requires
        j <= k,
        grover_rounds(s, target, j) is Err,
    ensures
        grover_rounds(s, target, k) == grover_rounds(s, target, j),
    decreases k - j,
{
    if j < k {
        lemma_rounds_err(s, target, j, (k - 1) as nat);
    }
}

} // verus!
