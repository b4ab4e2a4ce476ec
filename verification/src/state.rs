use vstd::prelude::*;

use crate::bits::{lemma_bit_clear, lemma_bit_set, lemma_other_bit_add, lemma_other_bit_sub};
use crate::complex::{lemma_square_nonneg, cx, cx_add, cx_fits, cx_mul, cx_neg, cx_norm_sq, cx_scale, cx_zero, fits_i64, mul_wide, Complex, Cx};
use crate::gate::{entry_small, Gate};
use crate::random::{gen_below, thread_rng};
use vstd::arithmetic::power2::{pow2, lemma_pow2_pos, lemma_pow2_adds};

verus! {

/// Why an exact operation could not be carried out.
#[derive(Clone, Copy, Debug, PartialEq, Eq, Structural)]
pub enum SimError {
    /// An exact intermediate value does not fit in the machine integers.
    Overflow,
    /// The result has amplitudes at two different powers of `sqrt(2)`, which
    /// the representation `amplitudes / sqrt(norm)` cannot hold.
    Inexact,
}

/// Quantum state for n qubits stored as 2^n amplitudes.
/// Basis states are ordered in binary: |00>=0, |01>=1, |10>=2, |11>=3, etc.
///
/// The amplitude of basis state `i` is `amplitudes[i] / sqrt(norm)`: the
/// entries are Gaussian integers and `norm` is a positive integer, so every gate
/// of the library acts exactly.  The state is normalized when the squared
/// magnitudes of the entries add up to `norm`.
pub struct StateVector {
    pub num_qubits: usize,
    pub amplitudes: Vec<Complex>,
    pub norm: u128,
}

/// The mathematical content of a `StateVector`.
pub struct QState {
    pub num_qubits: nat,
    pub amps: Seq<Cx>,
    pub norm: nat,
}

impl View for StateVector {
    type V = QState;

    open spec fn view(&self) -> QState {
        QState {
            num_qubits: self.num_qubits as nat,
            amps: self.amplitudes@.map_values(|z: Complex| cx(z)),
            norm: self.norm as nat,
        }
    }
}

/// Number of amplitudes of an `n`-qubit state.
pub open spec fn dim(n: nat) -> nat {
    pow2(n)
}

/// The bit of a basis-state index that belongs to qubit `q` (0 = leftmost,
/// most significant) of an `n`-qubit register.
pub open spec fn qubit_shift(n: nat, q: nat) -> usize {
    (n - 1 - q) as usize
}

pub open spec fn qubit_mask(n: nat, q: nat) -> usize {
    1usize << qubit_shift(n, q)
}

/// Whether qubit `q` is |1> in basis state `i`.
pub open spec fn bit_of(n: nat, q: nat, i: int) -> bool {
    (i as usize) & qubit_mask(n, q) != 0
}

/// The basis state `|k>` of `n` qubits.
pub open spec fn basis_amps(n: nat, k: int) -> Seq<Cx> {
    Seq::new(dim(n), |i: int| if i == k { (1int, 0int) } else { cx_zero() })
}

impl QState {
    /// A well-formed state: 2^n amplitudes for n < usize::BITS qubits, and a
    /// positive norm.
    pub open spec fn wf(self) -> bool {
        &&& self.num_qubits < usize::BITS
        &&& self.amps.len() == dim(self.num_qubits)
        &&& self.norm >= 1
    }

    /// All parts fit in the machine representation.
    pub open spec fn fits(self) -> bool {
        &&& forall|i: int| 0 <= i < self.amps.len() ==> #[trigger] cx_fits(self.amps[i])
        &&& self.norm <= u128::MAX
    }

    /// `P(i) * norm`: the squared magnitude of each entry.
    pub open spec fn weights(self) -> Seq<int> {
        Seq::new(self.amps.len(), |i: int| cx_norm_sq(self.amps[i]))
    }
}

/// Sum of the first `k` elements.
pub open spec fn sum_prefix(s: Seq<int>, k: int) -> int
    decreases k,
{
    if k <= 0 {
        0
    } else {
        sum_prefix(s, k - 1) + s[k - 1]
    }
}

pub open spec fn sum(s: Seq<int>) -> int {
    sum_prefix(s, s.len() as int)
}

/// A valid quantum state must satisfy: sum of |amplitude|^2 == 1, that is,
/// the squared magnitudes of the entries add up to `norm`.
pub open spec fn normalized(s: QState) -> bool {
    sum(s.weights()) == s.norm
}

impl StateVector {
    pub open spec fn wf(&self) -> bool {
        self@.wf()
    }
}

pub proof fn lemma_dim(n: nat)
    requires
        n < usize::BITS,
    ensures
        (1usize << (n as usize)) == dim(n),
        dim(n) <= usize::MAX,
        dim(n) >= 1,
{
    vstd::bits::lemma_usize_pow2_no_overflow(n);
    vstd::bits::lemma_usize_shl_is_mul(1, n as usize);
}

pub proof fn lemma_qubit_mask(n: nat, q: nat)
    requires
        q < n,
        n < usize::BITS,
    ensures
        qubit_shift(n, q) < n,
        qubit_mask(n, q) == pow2(qubit_shift(n, q) as nat),
        qubit_mask(n, q) >= 1,
{
    vstd::bits::lemma_usize_pow2_no_overflow(qubit_shift(n, q) as nat);
    vstd::bits::lemma_usize_shl_is_mul(1, qubit_shift(n, q));
}

/// Exec `1 << n` for a state dimension.
fn shl1(n: usize) -> (r: usize)
    requires
        n < usize::BITS,
    ensures
        r == 1usize << n,
{
    1usize << n
}

impl StateVector {
    /// Initialize to the all-zero computational basis state |00...0>
    pub fn new(num_qubits: usize) -> (sv: StateVector)
        requires
            1 <= num_qubits < usize::BITS,
        ensures
            sv.wf(),
            sv@.num_qubits == num_qubits,
            sv@.amps == basis_amps(num_qubits as nat, 0),
            sv@.norm == 1,
    {
        proof {
            lemma_dim(num_qubits as nat);
        }
        let d = shl1(num_qubits);
        let mut amplitudes: Vec<Complex> = Vec::new();
        amplitudes.push(Complex::one());
        let mut i: usize = 1;
        while i < d
            invariant
                1 <= i <= d,
                d == dim(num_qubits as nat),
                amplitudes@.len() == i,
                forall|k: int|
                    0 <= k < i ==> #[trigger] cx(amplitudes@[k]) == basis_amps(
                        num_qubits as nat,
                        0,
                    )[k],
            decreases d - i,
        {
            amplitudes.push(Complex::zero());
            i = i + 1;
        }
        let sv = StateVector { num_qubits, amplitudes, norm: 1 };
        assert(sv@.amps =~= basis_amps(num_qubits as nat, 0));
        sv
    }
}

// ---------------------------------------------------------------------------
// Removing common factors of two
// ---------------------------------------------------------------------------

pub open spec fn cx_even(a: Cx) -> bool {
    a.0 % 2 == 0 && a.1 % 2 == 0
}

pub open spec fn all_even(amps: Seq<Cx>) -> bool {
    forall|i: int| 0 <= i < amps.len() ==> #[trigger] cx_even(amps[i])
}

pub open spec fn cx_half(a: Cx) -> Cx {
    (a.0 / 2, a.1 / 2)
}

pub open spec fn halve(amps: Seq<Cx>) -> Seq<Cx> {
    Seq::new(amps.len(), |i: int| cx_half(amps[i]))
}

/// Divides all entries by 2 and the norm by 4 while that stays exact: the
/// amplitudes `amplitudes / sqrt(norm)` are unchanged, the numbers get smaller.
pub open spec fn reduce(s: QState) -> QState
    decreases s.norm,
{
    if s.norm >= 4 && s.norm % 4 == 0 && all_even(s.amps) {
        reduce(QState { num_qubits: s.num_qubits, amps: halve(s.amps), norm: s.norm / 4 })
    } else {
        s
    }
}

pub proof fn lemma_reduce_wf(s: QState)
    ensures
        reduce(s).num_qubits == s.num_qubits,
        reduce(s).amps.len() == s.amps.len(),
        s.norm >= 1 ==> reduce(s).norm >= 1,
        reduce(s).norm <= s.norm,
        s.wf() ==> reduce(s).wf(),
    decreases s.norm,
{
    if s.norm >= 4 && s.norm % 4 == 0 && all_even(s.amps) {
        lemma_reduce_wf(QState { num_qubits: s.num_qubits, amps: halve(s.amps), norm: s.norm / 4 });
    }
}

fn all_even_exec(v: &Vec<Complex>) -> (b: bool)
    ensures
        b == all_even(v@.map_values(|z: Complex| cx(z))),
{
    let ghost amps = v@.map_values(|z: Complex| cx(z));
    let mut i: usize = 0;
    while i < v.len()
        invariant
            i <= v.len(),
            amps == v@.map_values(|z: Complex| cx(z)),
            forall|k: int| 0 <= k < i ==> #[trigger] cx_even(amps[k]),
        decreases v.len() - i,
    {
        if v[i].re % 2 != 0 || v[i].im % 2 != 0 {
            assert(!cx_even(amps[i as int]));
            return false;
        }
        i = i + 1;
    }
    true
}

fn halve_exec(v: &Vec<Complex>) -> (r: Vec<Complex>)
    requires
        all_even(v@.map_values(|z: Complex| cx(z))),
    ensures
        r@.map_values(|z: Complex| cx(z)) == halve(v@.map_values(|z: Complex| cx(z))),
{
    let ghost amps = v@.map_values(|z: Complex| cx(z));
    let mut r: Vec<Complex> = Vec::new();
    let mut i: usize = 0;
    while i < v.len()
        invariant
            i <= v.len(),
            amps == v@.map_values(|z: Complex| cx(z)),
            all_even(amps),
            r@.len() == i,
            forall|k: int| 0 <= k < i ==> #[trigger] cx(r@[k]) == cx_half(amps[k]),
        decreases v.len() - i,
    {
        assert(cx_even(amps[i as int]));
        r.push(Complex { re: v[i].re / 2, im: v[i].im / 2 });
        i = i + 1;
    }
    assert(r@.map_values(|z: Complex| cx(z)) =~= halve(amps));
    r
}

impl StateVector {
    /// Removes common factors of two (see `reduce`).
    pub(crate) fn reduce_in_place(&mut self)
        ensures
            final(self)@ == reduce(old(self)@),
    {
        loop
            invariant
                reduce(self@) == reduce(old(self)@),
            ensures
                self@ == reduce(old(self)@),
            decreases self.norm,
        {
            if self.norm >= 4 && self.norm % 4 == 0 && all_even_exec(&self.amplitudes) {
                let halved = halve_exec(&self.amplitudes);
                self.amplitudes = halved;
                self.norm = self.norm / 4;
            } else {
                return;
            }
        }
    }
}

// ---------------------------------------------------------------------------
// Single-qubit gates
// ---------------------------------------------------------------------------

/// New amplitude `i` after applying `g` to the qubit with mask `m`: only the
/// pair of indices that differ in that bit is mixed.
pub open spec fn gate_amp(amps: Seq<Cx>, m: usize, g: Gate, i: int) -> Cx {
    if (i as usize) & m == 0 {
        cx_add(cx_mul(g.entry(0, 0), amps[i]), cx_mul(g.entry(0, 1), amps[i + m]))
    } else {
        cx_add(cx_mul(g.entry(1, 0), amps[i - m]), cx_mul(g.entry(1, 1), amps[i]))
    }
}

/// The exact result of applying `g` to qubit `q`, before common factors are removed.
pub open spec fn raw_gate(s: QState, q: nat, g: Gate) -> QState {
    QState {
        num_qubits: s.num_qubits,
        amps: Seq::new(
            s.amps.len(),
            |i: int| gate_amp(s.amps, qubit_mask(s.num_qubits, q), g, i),
        ),
        norm: s.norm * pow2(g.sqrt2_exp as nat),
    }
}

/// Applying a single-qubit gate: the exact result, or `Overflow` when it does
/// not fit the machine representation.
pub open spec fn gate_step(s: QState, q: nat, g: Gate) -> Result<QState, SimError> {
    let r = raw_gate(s, q, g);
    if r.fits() {
        Ok(reduce(r))
    } else {
        Err(SimError::Overflow)
    }
}

/// `g0 * a0 + g1 * a1`, or `None` when it does not fit.
fn combine(g0: Complex, a0: Complex, g1: Complex, a1: Complex) -> (r: Option<Complex>)
    requires
        entry_small(g0),
        entry_small(g1),
    ensures
        match r {
            Some(c) => cx(c) == cx_add(cx_mul(cx(g0), cx(a0)), cx_mul(cx(g1), cx(a1))),
            None => !cx_fits(cx_add(cx_mul(cx(g0), cx(a0)), cx_mul(cx(g1), cx(a1)))),
        },
{
    let p = mul_wide(g0, a0);
    let q = mul_wide(g1, a1);
    let re = p.0 + q.0;
    let im = p.1 + q.1;
    if i64::MIN as i128 <= re && re <= i64::MAX as i128 && i64::MIN as i128 <= im && im
        <= i64::MAX as i128 {
        Some(Complex { re: re as i64, im: im as i64 })
    } else {
        None
    }
}

/// `2^e` for a gate's scale factor.
pub(crate) fn pow2_u128(e: u32) -> (r: u128)
    requires
        e < 128,
    ensures
        r == pow2(e as nat),
{
    let mut r: u128 = 1;
    let mut k: u32 = 0;
    proof {
        vstd::arithmetic::power2::lemma2_to64();
    }
    while k < e
        invariant
            k <= e < 128,
            r == pow2(k as nat),
        decreases e - k,
    {
        proof {
            vstd::arithmetic::power2::lemma_pow2_unfold((k + 1) as nat);
            vstd::arithmetic::power2::lemma_pow2_strictly_increases((k + 1) as nat, 128);
            vstd::arithmetic::power2::lemma2_to64_rest();
            assert(pow2(128) == 0x1_0000_0000_0000_0000_0000_0000_0000_0000) by {
                lemma_pow2_adds(64, 64);
            }
        }
        r = r * 2;
        k = k + 1;
    }
    r
}

/// A gate application that cannot overflow: one of the library's gates (X, Y,
/// Z, S, H) on a normalized state whose norm times `2^e` is at most `2^124`.
pub open spec fn gate_within_bounds(s: QState, g: Gate) -> bool {
    &&& crate::laws::standard_gate(g)
    &&& normalized(s)
    &&& s.norm * pow2(g.sqrt2_exp as nat) <= 0x1000_0000_0000_0000_0000_0000_0000_0000
}

impl StateVector {
    /// Apply a single-qubit gate to the qubit at `qubit` (0 = leftmost/most significant).
    ///
    /// Only pairs of amplitudes that differ in bit `qubit` are mixed; all others untouched.
    /// The result is exact; `Overflow` (with the state unchanged) when it does not
    /// fit the machine integers (64-bit entries, 128-bit norm).  A gate of the
    /// library on a normalized state never overflows while the norm stays
    /// within `2^123` (`gate_within_bounds`).
    pub fn apply_gate(&mut self, qubit: usize, gate: &Gate) -> (res: Result<(), SimError>)
        requires
            old(self).wf(),
            qubit < old(self).num_qubits,
            gate.wf(),
        ensures
            final(self).wf(),
            final(self).num_qubits == old(self).num_qubits,
            match gate_step(old(self)@, qubit as nat, *gate) {
                Ok(s) => res == Ok::<(), SimError>(()) && final(self)@ == s,
                Err(e) => res == Err::<(), SimError>(e) && final(self)@ == old(self)@,
            },
            gate_within_bounds(old(self)@, *gate) ==> res is Ok,
    {
        let ghost s0 = self@;
        let n = self.num_qubits;
        let sh = n - 1 - qubit;
        let m = shl1(sh);
        proof {
            lemma_dim(n as nat);
            lemma_qubit_mask(n as nat, qubit as nat);
            vstd::arithmetic::power2::lemma_pow2_pos(gate.sqrt2_exp as nat);
            if gate_within_bounds(s0, *gate) {
                crate::laws::law_gate_fits(s0, qubit as nat, *gate);
            }
        }
        let ghost raw = raw_gate(s0, qubit as nat, *gate);
        let factor = pow2_u128(gate.sqrt2_exp);
        let new_norm = match self.norm.checked_mul(factor) {
            Some(v) => v,
            None => {
                return Err(SimError::Overflow);
            },
        };
        let d = self.amplitudes.len();
        let mut new_amps: Vec<Complex> = Vec::new();
        let mut i: usize = 0;
        while i < d
            invariant
                self@ == s0,
                s0.wf(),
                n == s0.num_qubits,
                qubit < n,
                sh == qubit_shift(n as nat, qubit as nat),
                sh < n,
                m == qubit_mask(n as nat, qubit as nat),
                d == s0.amps.len(),
                d == (1usize << n),
                gate.wf(),
                raw == raw_gate(s0, qubit as nat, *gate),
                gate_within_bounds(s0, *gate) ==> raw.fits(),
                i <= d,
                new_amps@.len() == i,
                forall|k: int| 0 <= k < i ==> #[trigger] cx(new_amps@[k]) == raw.amps[k],
            decreases d - i,
        {
            let c = if i & m == 0 {
                proof {
                    lemma_bit_clear(i, sh, n);
                }
                combine(gate.matrix[0][0], self.amplitudes[i], gate.matrix[0][1], self.amplitudes[i + m])
            } else {
                proof {
                    lemma_bit_set(i, sh);
                }
                combine(gate.matrix[1][0], self.amplitudes[i - m], gate.matrix[1][1], self.amplitudes[i])
            };
            match c {
                Some(v) => {
                    new_amps.push(v);
                },
                None => {
                    assert(!cx_fits(raw.amps[i as int]));
                    return Err(SimError::Overflow);
                },
            }
            i = i + 1;
        }
        let ghost before = self@;
        self.amplitudes = new_amps;
        self.norm = new_norm;
        assert(self@.amps =~= raw.amps);
        assert(self@ == raw);
        proof {
            let p = pow2(gate.sqrt2_exp as nat);
            assert(s0.norm * p >= 1) by (nonlinear_arith)
                requires
                    s0.norm >= 1,
                    p >= 1,
            ;
            lemma_reduce_wf(raw);
        }
        self.reduce_in_place();
        Ok(())
    }
}

// ---------------------------------------------------------------------------
// Controlled gates and permutations
// ---------------------------------------------------------------------------

/// New amplitude `i` after applying `g` to the target (mask `tm`) where the
/// control (mask `cm`) is |1>; the other amplitudes are multiplied by `r`, the
/// multiplier that puts them at the same scale as the mixed pairs.
pub open spec fn controlled_amp(amps: Seq<Cx>, cm: usize, tm: usize, g: Gate, r: int, i: int) -> Cx {
    if (i as usize) & cm != 0 {
        gate_amp(amps, tm, g, i)
    } else {
        cx_scale(r, amps[i])
    }
}

pub open spec fn raw_controlled(s: QState, c: nat, t: nat, g: Gate) -> QState {
    QState {
        num_qubits: s.num_qubits,
        amps: Seq::new(
            s.amps.len(),
            |i: int|
                controlled_amp(
                    s.amps,
                    qubit_mask(s.num_qubits, c),
                    qubit_mask(s.num_qubits, t),
                    g,
                    pow2((g.sqrt2_exp / 2) as nat) as int,
                    i,
                ),
        ),
        norm: s.norm * pow2(g.sqrt2_exp as nat),
    }
}

/// Every amplitude of a basis state in which qubit `c` reads `one` is 0.
pub open spec fn branch_zero(s: QState, c: nat, one: bool) -> bool {
    forall|i: int|
        0 <= i < s.amps.len() && bit_of(s.num_qubits, c, i) == one ==> #[trigger] s.amps[i]
            == cx_zero()
}

/// Applying `g` to `t` controlled by `c`: the exact result, or `Overflow` when
/// it does not fit.  A gate with an odd power of `1/sqrt(2)` scales the mixed
/// pairs (control |1>) by an odd power of `1/sqrt(2)` and leaves the rest
/// (control |0>) as they are: when the control is |1> nowhere, nothing
/// changes; when it is |0> nowhere, the result is exact as for any gate; when
/// both parts are nonzero the amplitudes sit at two powers of `sqrt(2)`, which
/// `amplitudes / sqrt(norm)` cannot hold, and the result is `Inexact`.
pub open spec fn controlled_step(s: QState, c: nat, t: nat, g: Gate) -> Result<QState, SimError> {
    if g.sqrt2_exp % 2 == 1 && branch_zero(s, c, true) {
        Ok(s)
    } else if g.sqrt2_exp % 2 == 1 && !branch_zero(s, c, false) {
        Err(SimError::Inexact)
    } else {
        let r = raw_controlled(s, c, t, g);
        if r.fits() {
            Ok(reduce(r))
        } else {
            Err(SimError::Overflow)
        }
    }
}

/// Whether every amplitude in which the qubit with mask `cm` reads `one` is 0.
fn branch_is_zero(v: &Vec<Complex>, cm: usize, one: bool, Ghost(s): Ghost<QState>, Ghost(c): Ghost<
    nat,
>) -> (b: bool)
    requires
        s.amps == v@.map_values(|z: Complex| cx(z)),
        cm == qubit_mask(s.num_qubits, c),
    ensures
        b == branch_zero(s, c, one),
{
    let mut i: usize = 0;
    while i < v.len()
        invariant
            s.amps == v@.map_values(|z: Complex| cx(z)),
            cm == qubit_mask(s.num_qubits, c),
            i <= v.len(),
            forall|k: int|
                0 <= k < i && bit_of(s.num_qubits, c, k) == one ==> #[trigger] s.amps[k]
                    == cx_zero(),
        decreases v.len() - i,
    {
        if (i & cm != 0) == one && (v[i].re != 0 || v[i].im != 0) {
            assert(bit_of(s.num_qubits, c, i as int) == one);
            assert(s.amps[i as int] != cx_zero());
            return false;
        }
        i = i + 1;
    }
    true
}

/// `k * a`, or `None` when it does not fit.
fn scale_amp(k: u64, a: Complex) -> (r: Option<Complex>)
    requires
        k <= 0x1_0000_0000,
    ensures
        match r {
            Some(c) => cx(c) == cx_scale(k as int, cx(a)),
            None => !cx_fits(cx_scale(k as int, cx(a))),
        },
{
    let kk = k as i128;
    let re = a.re as i128;
    let im = a.im as i128;
    proof {
        assert(-0x1_0000_0000_0000_0000_0000_0000 <= kk * re <= 0x1_0000_0000_0000_0000_0000_0000)
            by (nonlinear_arith)
            requires
                0 <= kk <= 0x1_0000_0000,
                -0x8000_0000_0000_0000 <= re <= 0x8000_0000_0000_0000,
        ;
        assert(-0x1_0000_0000_0000_0000_0000_0000 <= kk * im <= 0x1_0000_0000_0000_0000_0000_0000)
            by (nonlinear_arith)
            requires
                0 <= kk <= 0x1_0000_0000,
                -0x8000_0000_0000_0000 <= im <= 0x8000_0000_0000_0000,
        ;
    }
    let x = kk * re;
    let y = kk * im;
    if i64::MIN as i128 <= x && x <= i64::MAX as i128 && i64::MIN as i128 <= y && y
        <= i64::MAX as i128 {
        Some(Complex { re: x as i64, im: y as i64 })
    } else {
        None
    }
}

impl StateVector {
    /// Apply gate U to `target` only when `control` qubit is |1>.
    /// Mixes the pairs (i, j) where control=1 and j is i with the target bit flipped.
    /// Exact (see `controlled_step`): a gate with an odd power of `1/sqrt(2)`,
    /// such as H, gives `Inexact` (state unchanged) when the control is |1> in
    /// some amplitudes and |0> in others, since the result would hold two
    /// different powers of `sqrt(2)`.
    pub fn apply_controlled(&mut self, control: usize, target: usize, gate: &Gate) -> (res: Result<
        (),
        SimError,
    >)
        requires
            old(self).wf(),
            control < old(self).num_qubits,
            target < old(self).num_qubits,
            control != target,
            gate.wf(),
        ensures
            final(self).wf(),
            final(self).num_qubits == old(self).num_qubits,
            match controlled_step(old(self)@, control as nat, target as nat, *gate) {
                Ok(s) => res == Ok::<(), SimError>(()) && final(self)@ == s,
                Err(e) => res == Err::<(), SimError>(e) && final(self)@ == old(self)@,
            },
    {
        let ghost s0 = self@;
        let n = self.num_qubits;
        let csh = n - 1 - control;
        let tsh = n - 1 - target;
        let cm = shl1(csh);
        let tm = shl1(tsh);
        proof {
            lemma_dim(n as nat);
            lemma_qubit_mask(n as nat, control as nat);
            lemma_qubit_mask(n as nat, target as nat);
        }
        if gate.sqrt2_exp % 2 == 1 {
            if branch_is_zero(&self.amplitudes, cm, true, Ghost(s0), Ghost(control as nat)) {
                return Ok(());
            }
            if !branch_is_zero(&self.amplitudes, cm, false, Ghost(s0), Ghost(control as nat)) {
                return Err(SimError::Inexact);
            }
        }
        proof {
            vstd::arithmetic::power2::lemma_pow2_pos(gate.sqrt2_exp as nat);
            vstd::arithmetic::power2::lemma_pow2_pos((gate.sqrt2_exp / 2) as nat);
            vstd::arithmetic::power2::lemma_pow2_strictly_increases((gate.sqrt2_exp / 2) as nat, 33);
            vstd::arithmetic::power2::lemma2_to64();
        }
        let ghost raw = raw_controlled(s0, control as nat, target as nat, *gate);
        let factor = pow2_u128(gate.sqrt2_exp);
        let new_norm = match self.norm.checked_mul(factor) {
            Some(v) => v,
            None => {
                return Err(SimError::Overflow);
            },
        };
        let r = pow2_u128(gate.sqrt2_exp / 2) as u64;
        let d = self.amplitudes.len();
        let mut new_amps: Vec<Complex> = Vec::new();
        let mut i: usize = 0;
        while i < d
            invariant
                self@ == s0,
                s0.wf(),
                n == s0.num_qubits,
                tsh == qubit_shift(n as nat, target as nat),
                tsh < n,
                cm == qubit_mask(n as nat, control as nat),
                tm == qubit_mask(n as nat, target as nat),
                r == pow2((gate.sqrt2_exp / 2) as nat),
                r <= 0x1_0000_0000,
                d == s0.amps.len(),
                d == (1usize << n),
                gate.wf(),
                raw == raw_controlled(s0, control as nat, target as nat, *gate),
                controlled_step(s0, control as nat, target as nat, *gate) == (if raw.fits() {
                    Ok::<QState, SimError>(reduce(raw))
                } else {
                    Err::<QState, SimError>(SimError::Overflow)
                }),
                i <= d,
                new_amps@.len() == i,
                forall|k: int| 0 <= k < i ==> #[trigger] cx(new_amps@[k]) == raw.amps[k],
            decreases d - i,
        {
            let c = if i & cm != 0 {
                if i & tm == 0 {
                    proof {
                        lemma_bit_clear(i, tsh, n);
                    }
                    combine(
                        gate.matrix[0][0],
                        self.amplitudes[i],
                        gate.matrix[0][1],
                        self.amplitudes[i + tm],
                    )
                } else {
                    proof {
                        lemma_bit_set(i, tsh);
                    }
                    combine(
                        gate.matrix[1][0],
                        self.amplitudes[i - tm],
                        gate.matrix[1][1],
                        self.amplitudes[i],
                    )
                }
            } else {
                scale_amp(r, self.amplitudes[i])
            };
            match c {
                Some(v) => {
                    new_amps.push(v);
                },
                None => {
                    assert(!cx_fits(raw.amps[i as int]));
                    return Err(SimError::Overflow);
                },
            }
            i = i + 1;
        }
        self.amplitudes = new_amps;
        self.norm = new_norm;
        assert(self@.amps =~= raw.amps);
        assert(self@ == raw);
        proof {
            let p = pow2(gate.sqrt2_exp as nat);
            assert(s0.norm * p >= 1) by (nonlinear_arith)
                requires
                    s0.norm >= 1,
                    p >= 1,
            ;
            lemma_reduce_wf(raw);
        }
        self.reduce_in_place();
        Ok(())
    }
}

/// The index whose amplitude lands at `k` under CNOT: the target bit of `k`
/// flipped when its control bit is set.
pub open spec fn cnot_index(n: nat, c: nat, t: nat, k: int) -> int {
    let tm = qubit_mask(n, t) as int;
    if bit_of(n, c, k) {
        if !bit_of(n, t, k) {
            k + tm
        } else {
            k - tm
        }
    } else {
        k
    }
}

/// The index whose amplitude lands at `k` under SWAP: the bits of qubits `a`
/// and `b` of `k` exchanged.
pub open spec fn swap_index(n: nat, a: nat, b: nat, k: int) -> int {
    let ma = qubit_mask(n, a) as int;
    let mb = qubit_mask(n, b) as int;
    if bit_of(n, a, k) && !bit_of(n, b, k) {
        k - ma + mb
    } else if !bit_of(n, a, k) && bit_of(n, b, k) {
        k + ma - mb
    } else {
        k
    }
}

/// The state with amplitude `k` taken from index `f(k)`.
pub open spec fn permuted(s: QState, f: spec_fn(int) -> int) -> QState {
    QState { num_qubits: s.num_qubits, amps: Seq::new(s.amps.len(), |k: int| s.amps[f(k)]), norm: s.norm }
}

pub open spec fn cnot_state(s: QState, c: nat, t: nat) -> QState {
    permuted(s, |k: int| cnot_index(s.num_qubits, c, t, k))
}

pub open spec fn swap_state(s: QState, a: nat, b: nat) -> QState {
    permuted(s, |k: int| swap_index(s.num_qubits, a, b, k))
}

pub proof fn lemma_cnot_index(n: nat, c: nat, t: nat, k: int)
    requires
        1 <= n < usize::BITS,
        c < n,
        t < n,
        c != t,
        0 <= k < dim(n),
    ensures
        0 <= cnot_index(n, c, t, k) < dim(n),
        bit_of(n, c, cnot_index(n, c, t, k)) == bit_of(n, c, k),
        cnot_index(n, c, t, cnot_index(n, c, t, k)) == k,
{
    lemma_dim(n);
    lemma_qubit_mask(n, c);
    lemma_qubit_mask(n, t);
    let i = k as usize;
    let cs = qubit_shift(n, c);
    let ts = qubit_shift(n, t);
    if bit_of(n, c, k) {
        if !bit_of(n, t, k) {
            lemma_bit_clear(i, ts, n as usize);
            lemma_other_bit_add(i, ts, cs);
            let j = (i + qubit_mask(n, t)) as usize;
            lemma_bit_set(j, ts);
        } else {
            lemma_bit_set(i, ts);
            lemma_other_bit_sub(i, ts, cs);
            let j = (i - qubit_mask(n, t)) as usize;
            lemma_bit_clear(j, ts, n as usize);
        }
    }
}

pub proof fn lemma_swap_index(n: nat, a: nat, b: nat, k: int)
    requires
        1 <= n < usize::BITS,
        a < n,
        b < n,
        a != b,
        0 <= k < dim(n),
    ensures
        0 <= swap_index(n, a, b, k) < dim(n),
        swap_index(n, a, b, swap_index(n, a, b, k)) == k,
        bit_of(n, a, k) ==> k >= qubit_mask(n, a),
        !bit_of(n, a, k) && bit_of(n, b, k) ==> k + qubit_mask(n, a) < dim(n),
{
    lemma_dim(n);
    lemma_qubit_mask(n, a);
    lemma_qubit_mask(n, b);
    let i = k as usize;
    let sa = qubit_shift(n, a);
    let sb = qubit_shift(n, b);
    let ma = qubit_mask(n, a);
    let mb = qubit_mask(n, b);
    if bit_of(n, a, k) && !bit_of(n, b, k) {
        lemma_bit_set(i, sa);
        lemma_other_bit_sub(i, sa, sb);
        let i1 = (i - ma) as usize;
        lemma_bit_clear(i1, sb, n as usize);
        lemma_other_bit_add(i1, sb, sa);
        let i2 = (i1 + mb) as usize;
        // i2 has bit a clear and bit b set; undoing gives back i
        lemma_bit_set(i2, sb);
        lemma_other_bit_sub(i2, sb, sa);
        let i3 = (i2 - mb) as usize;
        lemma_bit_clear(i3, sa, n as usize);
    } else if !bit_of(n, a, k) && bit_of(n, b, k) {
        lemma_bit_clear(i, sa, n as usize);
        lemma_other_bit_add(i, sa, sb);
        let i1 = (i + ma) as usize;
        lemma_bit_set(i1, sb);
        lemma_other_bit_sub(i1, sb, sa);
        let i2 = (i1 - mb) as usize;
        lemma_bit_set(i2, sa);
        lemma_other_bit_sub(i2, sa, sb);
        let i3 = (i2 - ma) as usize;
        lemma_bit_clear(i3, sb, n as usize);
    } else if bit_of(n, a, k) {
        lemma_bit_set(i, sa);
    }
}

impl StateVector {
    /// CNOT: flip target qubit when control qubit is |1>
    pub fn apply_cnot(&mut self, control: usize, target: usize)
        requires
            old(self).wf(),
            control < old(self).num_qubits,
            target < old(self).num_qubits,
            control != target,
        ensures
            final(self).wf(),
            final(self).num_qubits == old(self).num_qubits,
            final(self)@ == cnot_state(old(self)@, control as nat, target as nat),
    {
        let ghost s0 = self@;
        let n = self.num_qubits;
        let cm = shl1(n - 1 - control);
        let tm = shl1(n - 1 - target);
        proof {
            lemma_dim(n as nat);
        }
        let d = self.amplitudes.len();
        let mut new_amps: Vec<Complex> = Vec::new();
        let mut i: usize = 0;
        while i < d
            invariant
                self@ == s0,
                s0.wf(),
                n == s0.num_qubits,
                control < n,
                target < n,
                control != target,
                cm == qubit_mask(n as nat, control as nat),
                tm == qubit_mask(n as nat, target as nat),
                d == s0.amps.len(),
                i <= d,
                new_amps@.len() == i,
                forall|k: int|
                    0 <= k < i ==> #[trigger] cx(new_amps@[k]) == s0.amps[cnot_index(
                        n as nat,
                        control as nat,
                        target as nat,
                        k,
                    )],
            decreases d - i,
        {
            proof {
                lemma_cnot_index(n as nat, control as nat, target as nat, i as int);
            }
            let j = if i & cm != 0 {
                if i & tm == 0 {
                    i + tm
                } else {
                    i - tm
                }
            } else {
                i
            };
            new_amps.push(self.amplitudes[j]);
            i = i + 1;
        }
        self.amplitudes = new_amps;
        assert(self@.amps =~= cnot_state(s0, control as nat, target as nat).amps);
    }

    /// SWAP: exchange the quantum states of two qubits.
    /// Moves the amplitude of every index to the index with the two qubit bits exchanged.
    pub fn apply_swap(&mut self, qubit_a: usize, qubit_b: usize)
        requires
            old(self).wf(),
            qubit_a < old(self).num_qubits,
            qubit_b < old(self).num_qubits,
            qubit_a != qubit_b,
        ensures
            final(self).wf(),
            final(self).num_qubits == old(self).num_qubits,
            final(self)@ == swap_state(old(self)@, qubit_a as nat, qubit_b as nat),
    {
        let ghost s0 = self@;
        let n = self.num_qubits;
        let ma = shl1(n - 1 - qubit_a);
        let mb = shl1(n - 1 - qubit_b);
        proof {
            lemma_dim(n as nat);
        }
        let d = self.amplitudes.len();
        let mut new_amps: Vec<Complex> = Vec::new();
        let mut i: usize = 0;
        while i < d
            invariant
                self@ == s0,
                s0.wf(),
                n == s0.num_qubits,
                qubit_a < n,
                qubit_b < n,
                qubit_a != qubit_b,
                ma == qubit_mask(n as nat, qubit_a as nat),
                mb == qubit_mask(n as nat, qubit_b as nat),
                d == s0.amps.len(),
                i <= d,
                new_amps@.len() == i,
                forall|k: int|
                    0 <= k < i ==> #[trigger] cx(new_amps@[k]) == s0.amps[swap_index(
                        n as nat,
                        qubit_a as nat,
                        qubit_b as nat,
                        k,
                    )],
            decreases d - i,
        {
            proof {
                lemma_swap_index(n as nat, qubit_a as nat, qubit_b as nat, i as int);
            }
            let j = if i & ma != 0 && i & mb == 0 {
                i - ma + mb
            } else if i & ma == 0 && i & mb != 0 {
                i + ma - mb
            } else {
                i
            };
            new_amps.push(self.amplitudes[j]);
            i = i + 1;
        }
        self.amplitudes = new_amps;
        assert(self@.amps =~= swap_state(s0, qubit_a as nat, qubit_b as nat).amps);
    }
}

// ---------------------------------------------------------------------------
// Sums of weights
// ---------------------------------------------------------------------------

pub open spec fn nonneg(s: Seq<int>) -> bool {
    forall|i: int| 0 <= i < s.len() ==> #[trigger] s[i] >= 0
}

pub proof fn lemma_weights_nonneg(s: QState)
    ensures
        nonneg(s.weights()),
        s.weights().len() == s.amps.len(),
{
    assert forall|i: int| 0 <= i < s.weights().len() implies #[trigger] s.weights()[i] >= 0 by {
        lemma_square_nonneg(s.amps[i].0);
        lemma_square_nonneg(s.amps[i].1);
    }
}

/// Prefix sums of nonnegative numbers grow with the prefix.
pub proof fn lemma_sum_prefix_mono(w: Seq<int>, j: int, k: int)
    requires
        nonneg(w),
        0 <= j <= k <= w.len(),
    ensures
        sum_prefix(w, j) <= sum_prefix(w, k),
    decreases k - j,
{
    if j < k {
        lemma_sum_prefix_mono(w, j, k - 1);
        assert(w[k - 1] >= 0);
    }
}

/// A pointwise smaller sequence has smaller prefix sums.
pub proof fn lemma_sum_prefix_le(a: Seq<int>, b: Seq<int>, k: int)
    requires
        a.len() == b.len(),
        0 <= k <= a.len(),
        forall|i: int| 0 <= i < a.len() ==> #[trigger] a[i] <= b[i],
    ensures
        sum_prefix(a, k) <= sum_prefix(b, k),
    decreases k,
{
    if k > 0 {
        lemma_sum_prefix_le(a, b, k - 1);
        assert(a[k - 1] <= b[k - 1]);
    }
}

pub proof fn lemma_sum_prefix_nonneg(w: Seq<int>, k: int)
    requires
        nonneg(w),
        0 <= k <= w.len(),
    ensures
        sum_prefix(w, k) >= 0,
{
    lemma_sum_prefix_mono(w, 0, k);
}

/// Entries equal on a prefix give equal prefix sums.
pub proof fn lemma_sum_prefix_ext(a: Seq<int>, b: Seq<int>, k: int)
    requires
        0 <= k <= a.len(),
        k <= b.len(),
        forall|i: int| 0 <= i < k ==> #[trigger] a[i] == b[i],
    ensures
        sum_prefix(a, k) == sum_prefix(b, k),
    decreases k,
{
    if k > 0 {
        lemma_sum_prefix_ext(a, b, k - 1);
        assert(a[k - 1] == b[k - 1]);
    }
}

// ---------------------------------------------------------------------------
// Building states, probabilities, normalization
// ---------------------------------------------------------------------------

/// The length of a state with some number of qubits.
pub open spec fn is_dim(len: nat) -> bool {
    exists|k: nat| k < usize::BITS && #[trigger] dim(k) == len
}

impl StateVector {
    /// Build a state directly from amplitudes `amplitudes[i] / sqrt(norm)`
    /// (must be length 2^n and normalized).  Common factors of two are
    /// removed (`reduce`), so the state is held with the smallest entries that
    /// write it.
    pub fn from_amplitudes(amplitudes: Vec<Complex>, norm: u128) -> (sv: StateVector)
        requires
            is_dim(amplitudes@.len()),
            norm >= 1,
            sum(
                QState {
                    num_qubits: 0,
                    amps: amplitudes@.map_values(|z: Complex| cx(z)),
                    norm: norm as nat,
                }.weights(),
            ) == norm,
        ensures
            sv.wf(),
            dim(sv@.num_qubits) == amplitudes@.len(),
            sv@ == reduce(
                QState {
                    num_qubits: sv@.num_qubits,
                    amps: amplitudes@.map_values(|z: Complex| cx(z)),
                    norm: norm as nat,
                },
            ),
            normalized(sv@),
    {
        let ghost k0 = choose|k: nat| k < usize::BITS && #[trigger] dim(k) == amplitudes@.len();
        let d = amplitudes.len();
        let mut k: usize = 0;
        proof {
            lemma_dim(0);
            if k0 > 0 {
                vstd::arithmetic::power2::lemma_pow2_strictly_increases(0, k0);
            }
            if k0 == 0 {
                assert(dim(0) == 1) by {
                    vstd::arithmetic::power2::lemma2_to64();
                }
            }
        }
        while shl1(k) < d
            invariant
                k <= k0 < usize::BITS,
                dim(k0) == d,
                d == amplitudes@.len(),
            decreases k0 - k,
        {
            proof {
                lemma_dim(k as nat);
                if k == k0 {
                    assert(false);
                }
                assert(k < k0) by {
                    if k > k0 {
                        vstd::arithmetic::power2::lemma_pow2_strictly_increases(k0, k as nat);
                    }
                }
            }
            k = k + 1;
        }
        proof {
            lemma_dim(k as nat);
            if k < k0 {
                vstd::arithmetic::power2::lemma_pow2_strictly_increases(k as nat, k0);
            }
        }
        let mut sv = StateVector { num_qubits: k, amplitudes, norm };
        assert(sv@.weights() =~= QState {
            num_qubits: 0,
            amps: sv.amplitudes@.map_values(|z: Complex| cx(z)),
            norm: norm as nat,
        }.weights());
        let ghost before = sv@;
        proof {
            lemma_reduce_wf(before);
            lemma_reduce_normalized(before);
        }
        sv.reduce_in_place();
        sv
    }

    /// Probability of measuring each basis state: P(i) = result[i] / norm,
    /// where result[i] = |amplitudes[i]|^2.
    pub fn probabilities(&self) -> (p: Vec<u128>)
        requires
            self.wf(),
        ensures
            p@.len() == self@.amps.len(),
            forall|i: int| 0 <= i < p@.len() ==> #[trigger] p@[i] as int == self@.weights()[i],
    {
        let mut p: Vec<u128> = Vec::new();
        let mut i: usize = 0;
        while i < self.amplitudes.len()
            invariant
                i <= self.amplitudes.len(),
                p@.len() == i,
                forall|k: int| 0 <= k < i ==> #[trigger] p@[k] as int == self@.weights()[k],
            decreases self.amplitudes.len() - i,
        {
            p.push(self.amplitudes[i].norm_sq());
            i = i + 1;
        }
        p
    }

    /// A valid quantum state must satisfy: sum of |amplitude|^2 == 1,
    /// that is, the squared magnitudes of the entries add up to `norm`.
    pub fn is_normalized(&self) -> (b: bool)
        requires
            self.wf(),
        ensures
            b == normalized(self@),
    {
        let ghost w = self@.weights();
        proof {
            lemma_weights_nonneg(self@);
        }
        let mut total: u128 = 0;
        let mut i: usize = 0;
        while i < self.amplitudes.len()
            invariant
                w == self@.weights(),
                nonneg(w),
                w.len() == self.amplitudes.len(),
                i <= self.amplitudes.len(),
                total as int == sum_prefix(w, i as int),
            decreases self.amplitudes.len() - i,
        {
            match total.checked_add(self.amplitudes[i].norm_sq()) {
                Some(t) => {
                    total = t;
                },
                None => {
                    proof {
                        lemma_sum_prefix_mono(w, i + 1, w.len() as int);
                    }
                    return false;
                },
            }
            i = i + 1;
        }
        total == self.norm
    }
}

// ---------------------------------------------------------------------------
// Measurement
// ---------------------------------------------------------------------------

/// Walk the cumulative distribution from index `i`: the first index whose
/// running sum exceeds `r`, or the last index when none does.
pub open spec fn pick_from(w: Seq<int>, r: int, i: int) -> int
    decreases w.len() - i,
{
    if i >= w.len() {
        w.len() - 1
    } else if r < sum_prefix(w, i + 1) {
        i
    } else {
        pick_from(w, r, i + 1)
    }
}

/// The outcome of a measurement driven by `r`, a uniform draw from `[0, norm)`:
/// outcome `i` is drawn with probability `weights[i] / norm`.
pub open spec fn pick(w: Seq<int>, r: int) -> int {
    pick_from(w, r, 0)
}

/// When the weights sum to more than `r`, the picked index has positive
/// weight, and `r` falls in its slice of the cumulative distribution.
pub proof fn lemma_pick_from(w: Seq<int>, r: int, i: int)
    requires
        nonneg(w),
        0 <= i <= w.len(),
        sum_prefix(w, i) <= r < sum(w),
    ensures
        i <= pick_from(w, r, i) < w.len(),
        sum_prefix(w, pick_from(w, r, i)) <= r < sum_prefix(w, pick_from(w, r, i) + 1),
        w[pick_from(w, r, i)] > 0,
    decreases w.len() - i,
{
    if i >= w.len() {
        assert(false);
    } else if r < sum_prefix(w, i + 1) {
    } else {
        lemma_pick_from(w, r, i + 1);
    }
}

pub proof fn lemma_pick_in_range(w: Seq<int>, r: int, i: int)
    requires
        w.len() >= 1,
        0 <= i,
    ensures
        0 <= pick_from(w, r, i) < w.len(),
    decreases w.len() - i,
{
    if i < w.len() && !(r < sum_prefix(w, i + 1)) {
        lemma_pick_in_range(w, r, i + 1);
    }
}

/// Law: measuring a normalized state never yields an outcome of probability 0,
/// and the draw `r` lies in the outcome's slice of the cumulative distribution.
pub proof fn lemma_pick_positive(s: QState, r: int)
    requires
        s.wf(),
        normalized(s),
        0 <= r < s.norm,
    ensures
        0 <= pick(s.weights(), r) < s.amps.len(),
        s.weights()[pick(s.weights(), r)] > 0,
        cx_norm_sq(s.amps[pick(s.weights(), r)]) > 0,
        sum_prefix(s.weights(), pick(s.weights(), r)) <= r < sum_prefix(
            s.weights(),
            pick(s.weights(), r) + 1,
        ),
{
    lemma_weights_nonneg(s);
    lemma_pick_from(s.weights(), r, 0);
}

/// The state after a full measurement with outcome `k`: the basis state |k>.
pub open spec fn collapsed(s: QState, k: int) -> QState {
    QState { num_qubits: s.num_qubits, amps: basis_amps(s.num_qubits, k), norm: 1 }
}

/// Pick the outcome of a measurement driven by the draw `r`.
fn pick_exec(weights: &Vec<u128>, r: u128) -> (k: usize)
    requires
        weights@.len() >= 1,
    ensures
        k as int == pick(weights@.map_values(|x: u128| x as int), r as int),
{
    let ghost w = weights@.map_values(|x: u128| x as int);
    let mut cumulative: u128 = 0;
    let mut i: usize = 0;
    while i < weights.len()
        invariant
            w == weights@.map_values(|x: u128| x as int),
            w.len() == weights@.len(),
            w.len() >= 1,
            i <= w.len(),
            cumulative as int == sum_prefix(w, i as int),
            pick(w, r as int) == pick_from(w, r as int, i as int),
        decreases weights.len() - i,
    {
        match cumulative.checked_add(weights[i]) {
            Some(c) => {
                if r < c {
                    return i;
                }
                cumulative = c;
            },
            None => {
                return i;
            },
        }
        i = i + 1;
    }
    i - 1
}

impl StateVector {
    /// Measure all qubits with the draw `r` from `[0, norm)`: walks the
    /// cumulative distribution of the weights, collapses the state to that
    /// outcome, and returns the index.
    pub fn measure_with(&mut self, r: u128) -> (outcome: usize)
        requires
            old(self).wf(),
            r < old(self).norm,
        ensures
            final(self).wf(),
            final(self).num_qubits == old(self).num_qubits,
            outcome as int == pick(old(self)@.weights(), r as int),
            outcome < old(self)@.amps.len(),
            final(self)@ == collapsed(old(self)@, outcome as int),
    {
        let ghost s0 = self@;
        let probs = self.probabilities();
        assert(probs@.map_values(|x: u128| x as int) =~= s0.weights());
        proof {
            lemma_dim(s0.num_qubits);
            lemma_pick_in_range(s0.weights(), r as int, 0);
        }
        let outcome = pick_exec(&probs, r);
        let d = self.amplitudes.len();
        let mut amps: Vec<Complex> = Vec::new();
        let mut i: usize = 0;
        while i < d
            invariant
                s0.wf(),
                d == s0.amps.len(),
                i <= d,
                amps@.len() == i,
                forall|k: int|
                    0 <= k < i ==> #[trigger] cx(amps@[k]) == basis_amps(
                        s0.num_qubits,
                        outcome as int,
                    )[k],
            decreases d - i,
        {
            if i == outcome {
                amps.push(Complex::one());
            } else {
                amps.push(Complex::zero());
            }
            i = i + 1;
        }
        self.amplitudes = amps;
        self.norm = 1;
        assert(self@.amps =~= basis_amps(s0.num_qubits, outcome as int));
        outcome
    }

    /// Measure all qubits. Samples one basis state index from the probability
    /// distribution, collapses the state to that outcome, and returns the index.
    pub fn measure(&mut self) -> (outcome: usize)
        requires
            old(self).wf(),
        ensures
            final(self).wf(),
            final(self).num_qubits == old(self).num_qubits,
            exists|r: int|
                0 <= r < old(self).norm && outcome as int == pick(old(self)@.weights(), r),
            outcome < old(self)@.amps.len(),
            final(self)@ == collapsed(old(self)@, outcome as int),
            normalized(old(self)@) ==> cx_norm_sq(old(self)@.amps[outcome as int]) > 0,
    {
        let mut rng = thread_rng();
        let r = gen_below(&mut rng, self.norm);
        proof {
            if normalized(self@) {
                lemma_pick_positive(self@, r as int);
            }
        }
        self.measure_with(r)
    }
}

/// Pointwise sums give summed prefix sums.
pub proof fn lemma_sum_prefix_add(a: Seq<int>, b: Seq<int>, c: Seq<int>, k: int)
    requires
        a.len() == b.len(),
        b.len() == c.len(),
        0 <= k <= a.len(),
        forall|i: int| 0 <= i < a.len() ==> #[trigger] c[i] == a[i] + b[i],
    ensures
        sum_prefix(c, k) == sum_prefix(a, k) + sum_prefix(b, k),
    decreases k,
{
    if k > 0 {
        lemma_sum_prefix_add(a, b, c, k - 1);
        assert(c[k - 1] == a[k - 1] + b[k - 1]);
    }
}

/// Scaling every element by `f` scales the prefix sums by `f`.
pub proof fn lemma_sum_prefix_scale(a: Seq<int>, b: Seq<int>, f: int, k: int)
    requires
        a.len() == b.len(),
        0 <= k <= a.len(),
        forall|i: int| 0 <= i < a.len() ==> #[trigger] b[i] == f * a[i],
    ensures
        sum_prefix(b, k) == f * sum_prefix(a, k),
    decreases k,
{
    if k > 0 {
        lemma_sum_prefix_scale(a, b, f, k - 1);
        assert(b[k - 1] == f * a[k - 1]);
        assert(f * sum_prefix(a, k - 1) + f * a[k - 1] == f * (sum_prefix(a, k - 1) + a[k - 1]))
            by (nonlinear_arith);
    }
}

/// Law: removing common factors of two keeps a normalized state normalized.
pub proof fn lemma_reduce_normalized(s: QState)
    requires
        normalized(s),
    ensures
        normalized(reduce(s)),
    decreases s.norm,
{
    if s.norm >= 4 && s.norm % 4 == 0 && all_even(s.amps) {
        let t = QState { num_qubits: s.num_qubits, amps: halve(s.amps), norm: s.norm / 4 };
        assert forall|i: int| 0 <= i < s.weights().len() implies #[trigger] s.weights()[i] == 4
            * t.weights()[i] by {
            let a = s.amps[i];
            assert(cx_even(a));
            let x = a.0 / 2;
            let y = a.1 / 2;
            assert(a.0 == 2 * x && a.1 == 2 * y);
            assert(a.0 * a.0 + a.1 * a.1 == 4 * (x * x + y * y)) by (nonlinear_arith)
                requires
                    a.0 == 2 * x,
                    a.1 == 2 * y,
            ;
        }
        lemma_sum_prefix_scale(t.weights(), s.weights(), 4, s.weights().len() as int);
        lemma_reduce_normalized(t);
    }
}

/// Weights of the basis states in which qubit `q` reads `one` (others 0).
pub open spec fn branch_weights(s: QState, q: nat, one: bool) -> Seq<int> {
    Seq::new(
        s.amps.len(),
        |i: int|
            if bit_of(s.num_qubits, q, i) == one {
                cx_norm_sq(s.amps[i])
            } else {
                0
            },
    )
}

/// The amplitudes of the basis states in which qubit `q` reads `one` (others 0).
pub open spec fn branch_amps(s: QState, q: nat, one: bool) -> Seq<Cx> {
    Seq::new(
        s.amps.len(),
        |i: int|
            if bit_of(s.num_qubits, q, i) == one {
                s.amps[i]
            } else {
                cx_zero()
            },
    )
}

pub proof fn lemma_branch_nonneg(s: QState, q: nat, one: bool)
    ensures
        nonneg(branch_weights(s, q, one)),
{
    assert forall|i: int| 0 <= i < branch_weights(s, q, one).len() implies #[trigger] branch_weights(
        s,
        q,
        one,
    )[i] >= 0 by {
        lemma_square_nonneg(s.amps[i].0);
        lemma_square_nonneg(s.amps[i].1);
    }
}

/// Whether measuring qubit `q` with the draw `r` from `[0, norm)` gives |1>.
pub open spec fn qubit_reads_one(s: QState, q: nat, r: int) -> bool {
    r < sum(branch_weights(s, q, true))
}

/// The state after measuring qubit `q` and reading `one`: the contradicting
/// amplitudes are zero and the rest are renormalized (the norm becomes their
/// total weight; 1 when there is none left).
pub open spec fn after_qubit_measure(s: QState, q: nat, one: bool) -> QState {
    let w = sum(branch_weights(s, q, one));
    reduce(
        QState {
            num_qubits: s.num_qubits,
            amps: branch_amps(s, q, one),
            norm: if w > 0 {
                w as nat
            } else {
                1
            },
        },
    )
}

/// Law: measuring a qubit of a normalized state reads a value of positive
/// probability and leaves a normalized state.
pub proof fn lemma_measure_qubit_normalized(s: QState, q: nat, r: int)
    requires
        s.wf(),
        normalized(s),
        0 <= r < s.norm,
    ensures
        sum(branch_weights(s, q, qubit_reads_one(s, q, r))) > 0,
        normalized(after_qubit_measure(s, q, qubit_reads_one(s, q, r))),
{
    let one = qubit_reads_one(s, q, r);
    let w1 = branch_weights(s, q, true);
    let w0 = branch_weights(s, q, false);
    let len = s.amps.len() as int;
    lemma_weights_nonneg(s);
    lemma_sum_prefix_add(w1, w0, s.weights(), len);
    lemma_branch_nonneg(s, q, false);
    lemma_sum_prefix_nonneg(w0, len);
    let t = QState {
        num_qubits: s.num_qubits,
        amps: branch_amps(s, q, one),
        norm: sum(branch_weights(s, q, one)) as nat,
    };
    assert(t.weights() =~= branch_weights(s, q, one));
    lemma_reduce_normalized(t);
}

fn branch_weight_exec(v: &Vec<Complex>, mask: usize, one: bool, Ghost(s): Ghost<QState>, Ghost(
    q,
): Ghost<nat>) -> (w: u128)
    requires
        s.amps == v@.map_values(|z: Complex| cx(z)),
        s.wf(),
        q < s.num_qubits,
        mask == qubit_mask(s.num_qubits, q),
        sum(s.weights()) <= u128::MAX,
    ensures
        w as int == sum(branch_weights(s, q, one)),
{
    let ghost bw = branch_weights(s, q, one);
    proof {
        lemma_weights_nonneg(s);
        lemma_branch_nonneg(s, q, one);
        lemma_sum_prefix_le(bw, s.weights(), s.amps.len() as int);
    }
    let mut total: u128 = 0;
    let mut i: usize = 0;
    while i < v.len()
        invariant
            s.amps == v@.map_values(|z: Complex| cx(z)),
            bw == branch_weights(s, q, one),
            mask == qubit_mask(s.num_qubits, q),
            nonneg(s.weights()),
            nonneg(bw),
            bw.len() == v.len(),
            sum_prefix(bw, v.len() as int) <= u128::MAX,
            i <= v.len(),
            total as int == sum_prefix(bw, i as int),
        decreases v.len() - i,
    {
        proof {
            lemma_sum_prefix_mono(bw, i + 1, v.len() as int);
        }
        if (i & mask != 0) == one {
            total = total + v[i].norm_sq();
        }
        i = i + 1;
    }
    total
}

impl StateVector {
    /// Measure qubit `qubit` with the draw `r` from `[0, norm)`: reads |1> when
    /// `r` is below the weight of the |1> branch, zeroes the amplitudes that
    /// contradict the reading and renormalizes the rest.
    pub fn measure_qubit_with(&mut self, qubit: usize, r: u128) -> (outcome: u8)
        requires
            old(self).wf(),
            qubit < old(self).num_qubits,
            r < old(self).norm,
            sum(old(self)@.weights()) <= u128::MAX,
        ensures
            final(self).wf(),
            final(self).num_qubits == old(self).num_qubits,
            outcome == (if qubit_reads_one(old(self)@, qubit as nat, r as int) {
                1u8
            } else {
                0u8
            }),
            final(self)@ == after_qubit_measure(old(self)@, qubit as nat, outcome == 1),
    {
        let ghost s0 = self@;
        let n = self.num_qubits;
        let mask = shl1(n - 1 - qubit);
        proof {
            lemma_dim(n as nat);
        }
        let prob_one = branch_weight_exec(&self.amplitudes, mask, true, Ghost(s0), Ghost(qubit as nat));
        let one = r < prob_one;
        let outcome: u8 = if one {
            1
        } else {
            0
        };
        let w = branch_weight_exec(&self.amplitudes, mask, one, Ghost(s0), Ghost(qubit as nat));
        let d = self.amplitudes.len();
        let mut amps: Vec<Complex> = Vec::new();
        let mut i: usize = 0;
        while i < d
            invariant
                self@ == s0,
                s0.wf(),
                d == s0.amps.len(),
                mask == qubit_mask(s0.num_qubits, qubit as nat),
                i <= d,
                amps@.len() == i,
                forall|k: int|
                    0 <= k < i ==> #[trigger] cx(amps@[k]) == branch_amps(s0, qubit as nat, one)[k],
            decreases d - i,
        {
            if (i & mask != 0) == one {
                amps.push(self.amplitudes[i]);
            } else {
                amps.push(Complex::zero());
            }
            i = i + 1;
        }
        self.amplitudes = amps;
        self.norm = if w > 0 {
            w
        } else {
            1
        };
        assert(self@.amps =~= branch_amps(s0, qubit as nat, one));
        proof {
            lemma_reduce_wf(self@);
        }
        self.reduce_in_place();
        outcome
    }

    /// Measure a single qubit without disturbing the others.
    /// Collapses only that qubit's state and renormalizes the remaining amplitudes.
    pub fn measure_qubit(&mut self, qubit: usize) -> (outcome: u8)
        requires
            old(self).wf(),
            qubit < old(self).num_qubits,
            sum(old(self)@.weights()) <= u128::MAX,
        ensures
            final(self).wf(),
            final(self).num_qubits == old(self).num_qubits,
            exists|r: int|
                0 <= r < old(self).norm && outcome == (if qubit_reads_one(
                    old(self)@,
                    qubit as nat,
                    r,
                ) {
                    1u8
                } else {
                    0u8
                }),
            final(self)@ == after_qubit_measure(old(self)@, qubit as nat, outcome == 1),
            normalized(old(self)@) ==> normalized(final(self)@),
    {
        let mut rng = thread_rng();
        let r = gen_below(&mut rng, self.norm);
        proof {
            if normalized(self@) {
                lemma_measure_qubit_normalized(self@, qubit as nat, r as int);
            }
        }
        self.measure_qubit_with(qubit, r)
    }
}

impl StateVector {
    /// A copy of the state.
    pub fn copy(&self) -> (r: StateVector)
        ensures
            r@ == self@,
            r.num_qubits == self.num_qubits,
    {
        let mut amps: Vec<Complex> = Vec::new();
        let mut i: usize = 0;
        while i < self.amplitudes.len()
            invariant
                i <= self.amplitudes.len(),
                amps@ == self.amplitudes@.take(i as int),
            decreases self.amplitudes.len() - i,
        {
            amps.push(self.amplitudes[i]);
            i = i + 1;
            assert(amps@ =~= self.amplitudes@.take(i as int));
        }
        assert(self.amplitudes@.take(i as int) =~= self.amplitudes@);
        StateVector { num_qubits: self.num_qubits, amplitudes: amps, norm: self.norm }
    }
}

/// Changing one element changes the sum by the difference.
pub proof fn lemma_sum_prefix_update(s: Seq<int>, k: int, v: int, m: int)
    requires
        0 <= k < s.len(),
        0 <= m <= s.len(),
    ensures
        sum_prefix(s.update(k, v), m) == sum_prefix(s, m) + (if k < m {
            v - s[k]
        } else {
            0
        }),
    decreases m,
{
    if m > 0 {
        lemma_sum_prefix_update(s, k, v, m - 1);
    }
}

/// An element of a nonnegative sequence is at most its sum.
pub proof fn lemma_elem_le_sum(s: Seq<int>, k: int)
    requires
        nonneg(s),
        0 <= k < s.len(),
    ensures
        s[k] <= sum(s),
{
    lemma_sum_prefix_nonneg(s, k);
    lemma_sum_prefix_mono(s, k + 1, s.len() as int);
}

/// Outcome `i` can come out of measuring `s`: some draw picks it.
pub open spec fn outcome_possible(s: QState, i: int) -> bool {
    exists|r: int| 0 <= r < s.norm && pick(s.weights(), r) == i
}

/// Law: an outcome that can come out of measuring a normalized state has
/// positive probability.
pub proof fn lemma_possible_outcome_positive(s: QState, i: int)
    requires
        s.wf(),
        normalized(s),
        outcome_possible(s, i),
    ensures
        0 <= i < s.amps.len(),
        s.weights()[i] > 0,
{
    let r = choose|r: int| 0 <= r < s.norm && pick(s.weights(), r) == i;
    lemma_pick_positive(s, r);
}

} // verus!
