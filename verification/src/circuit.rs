use vstd::prelude::*;
use vstd::arithmetic::power2::pow2;

use crate::gate::{gate_h, gate_s, gate_x, gate_y, gate_z, Gate};
use crate::counts::{as_ints, Counts};
use crate::state::{
    basis_amps, cnot_state, dim, gate_step, lemma_dim, lemma_elem_le_sum, lemma_sum_prefix_update,
    normalized, outcome_possible, sum, swap_state, QState, SimError, StateVector,
};

verus! {

/// One operation of a circuit: a gate and the qubits it acts on.
/// `H(0)` means "H gate on qubit 0".
#[derive(Clone, Copy, Debug, PartialEq, Eq, Structural)]
pub enum Op {
    H(usize),
    X(usize),
    Y(usize),
    Z(usize),
    S(usize),
    Cnot { control: usize, target: usize },
    Swap(usize, usize),
}

/// The qubits of `op` exist in an `n`-qubit register, and the two qubits of a
/// CNOT or SWAP differ.
pub open spec fn op_valid(op: Op, n: nat) -> bool {
    match op {
        Op::H(q) => q < n,
        Op::X(q) => q < n,
        Op::Y(q) => q < n,
        Op::Z(q) => q < n,
        Op::S(q) => q < n,
        Op::Cnot { control, target } => control < n && target < n && control != target,
        Op::Swap(a, b) => a < n && b < n && a != b,
    }
}

/// A sequence of operations on `num_qubits` qubits, applied in order.
pub struct Circuit {
    pub num_qubits: usize,
    ops: Vec<Op>,
}

/// The mathematical content of a `Circuit`.
pub struct CircuitSpec {
    pub num_qubits: nat,
    pub ops: Seq<Op>,
}

impl View for Circuit {
    type V = CircuitSpec;

    closed spec fn view(&self) -> CircuitSpec {
        CircuitSpec { num_qubits: self.num_qubits as nat, ops: self.ops@ }
    }
}

/// The effect of one operation on a state.
pub open spec fn op_step(s: QState, op: Op) -> Result<QState, SimError> {
    match op {
        Op::H(q) => gate_step(s, q as nat, gate_h()),
        Op::X(q) => gate_step(s, q as nat, gate_x()),
        Op::Y(q) => gate_step(s, q as nat, gate_y()),
        Op::Z(q) => gate_step(s, q as nat, gate_z()),
        Op::S(q) => gate_step(s, q as nat, gate_s()),
        Op::Cnot { control, target } => Ok(cnot_state(s, control as nat, target as nat)),
        Op::Swap(a, b) => Ok(swap_state(s, a as nat, b as nat)),
    }
}

/// The effect of running `ops` in order on `s`: the first error stops the run.
pub open spec fn run_ops(s: QState, ops: Seq<Op>) -> Result<QState, SimError>
    decreases ops.len(),
{
    if ops.len() == 0 {
        Ok(s)
    } else {
        match run_ops(s, ops.drop_last()) {
            Ok(t) => op_step(t, ops.last()),
            Err(e) => Err(e),
        }
    }
}

/// Once a prefix of the operations fails, the whole run fails the same way.
pub proof fn lemma_run_ops_err(s: QState, ops: Seq<Op>, k: int)
    requires
        0 <= k <= ops.len(),
        run_ops(s, ops.take(k)) is Err,
    ensures
        run_ops(s, ops) == run_ops(s, ops.take(k)),
    decreases ops.len() - k,
{
    if k < ops.len() {
        assert(ops.take(k + 1).drop_last() =~= ops.take(k));
        lemma_run_ops_err(s, ops, k + 1);
    } else {
        assert(ops.take(k) =~= ops);
    }
}

impl Circuit {
    /// Every operation acts on qubits of the circuit.
    pub open spec fn wf(&self) -> bool {
        forall|i: int|
            0 <= i < self@.ops.len() ==> op_valid(#[trigger] self@.ops[i], self@.num_qubits)
    }

    pub fn new(num_qubits: usize) -> (c: Circuit)
        ensures
            c@.num_qubits == num_qubits,
            c@.ops == Seq::<Op>::empty(),
            c.wf(),
    {
        Circuit { num_qubits, ops: Vec::new() }
    }

    /// Appends `op`; returns the circuit so calls can be chained:
    /// circuit.h(0).cnot(0, 1).h(1)
    fn push_op(&mut self, op: Op) -> (r: &mut Self)
        requires
            old(self).wf(),
            op_valid(op, old(self)@.num_qubits),
        ensures
            r@.num_qubits == old(self)@.num_qubits,
            r@.ops == old(self)@.ops.push(op),
            r.wf(),
            *final(self) == *final(r),
    {
        self.ops.push(op);
        assert forall|i: int| 0 <= i < self@.ops.len() implies op_valid(
            #[trigger] self@.ops[i],
            self@.num_qubits,
        ) by {
            if i < self@.ops.len() - 1 {
                assert(self@.ops[i] == old(self)@.ops[i]);
            }
        }
        self
    }

    pub fn h(&mut self, qubit: usize) -> (r: &mut Self)
        requires
            old(self).wf(),
            qubit < old(self)@.num_qubits,
        ensures
            r@.num_qubits == old(self)@.num_qubits,
            r@.ops == old(self)@.ops.push(Op::H(qubit)),
            r.wf(),
            *final(self) == *final(r),
    {
        self.push_op(Op::H(qubit))
    }

    pub fn x(&mut self, qubit: usize) -> (r: &mut Self)
        requires
            old(self).wf(),
            qubit < old(self)@.num_qubits,
        ensures
            r@.num_qubits == old(self)@.num_qubits,
            r@.ops == old(self)@.ops.push(Op::X(qubit)),
            r.wf(),
            *final(self) == *final(r),
    {
        self.push_op(Op::X(qubit))
    }

    pub fn y(&mut self, qubit: usize) -> (r: &mut Self)
        requires
            old(self).wf(),
            qubit < old(self)@.num_qubits,
        ensures
            r@.num_qubits == old(self)@.num_qubits,
            r@.ops == old(self)@.ops.push(Op::Y(qubit)),
            r.wf(),
            *final(self) == *final(r),
    {
        self.push_op(Op::Y(qubit))
    }

    pub fn z(&mut self, qubit: usize) -> (r: &mut Self)
        requires
            old(self).wf(),
            qubit < old(self)@.num_qubits,
        ensures
            r@.num_qubits == old(self)@.num_qubits,
            r@.ops == old(self)@.ops.push(Op::Z(qubit)),
            r.wf(),
            *final(self) == *final(r),
    {
        self.push_op(Op::Z(qubit))
    }

    pub fn s(&mut self, qubit: usize) -> (r: &mut Self)
        requires
            old(self).wf(),
            qubit < old(self)@.num_qubits,
        ensures
            r@.num_qubits == old(self)@.num_qubits,
            r@.ops == old(self)@.ops.push(Op::S(qubit)),
            r.wf(),
            *final(self) == *final(r),
    {
        self.push_op(Op::S(qubit))
    }

    pub fn cnot(&mut self, control: usize, target: usize) -> (r: &mut Self)
        requires
            old(self).wf(),
            control < old(self)@.num_qubits,
            target < old(self)@.num_qubits,
            control != target,
        ensures
            r@.num_qubits == old(self)@.num_qubits,
            r@.ops == old(self)@.ops.push(Op::Cnot { control, target }),
            r.wf(),
            *final(self) == *final(r),
    {
        self.push_op(Op::Cnot { control, target })
    }

    pub fn swap(&mut self, qubit_a: usize, qubit_b: usize) -> (r: &mut Self)
        requires
            old(self).wf(),
            qubit_a < old(self)@.num_qubits,
            qubit_b < old(self)@.num_qubits,
            qubit_a != qubit_b,
        ensures
            r@.num_qubits == old(self)@.num_qubits,
            r@.ops == old(self)@.ops.push(Op::Swap(qubit_a, qubit_b)),
            r.wf(),
            *final(self) == *final(r),
    {
        self.push_op(Op::Swap(qubit_a, qubit_b))
    }

    /// The number of qubits.
    pub fn qubits(&self) -> (r: usize)
        ensures
            r == self@.num_qubits,
    {
        self.num_qubits
    }

    /// The number of operations.
    pub fn len(&self) -> (r: usize)
        ensures
            r == self@.ops.len(),
    {
        self.ops.len()
    }

    /// The operation at position `i`.
    pub fn op(&self, i: usize) -> (r: Op)
        requires
            i < self@.ops.len(),
        ensures
            r == self@.ops[i as int],
    {
        self.ops[i]
    }

    /// Execute every operation in order on the given state.
    /// On success the state is the exact result; on an error (see
    /// `SimError`) the state is left unchanged.  On a normalized state the run
    /// never overflows while the norm times `2^(number of operations)` stays
    /// within `2^124` (see `law_run_fits`).
    pub fn run(&self, state: &mut StateVector) -> (res: Result<(), SimError>)
        requires
            self.wf(),
            old(state).wf(),
            old(state).num_qubits == self@.num_qubits,
        ensures
            final(state).wf(),
            final(state).num_qubits == old(state).num_qubits,
            match run_ops(old(state)@, self@.ops) {
                Ok(s) => res == Ok::<(), SimError>(()) && final(state)@ == s,
                Err(e) => res == Err::<(), SimError>(e) && final(state)@ == old(state)@,
            },
            normalized(old(state)@) && old(state)@.norm * pow2(self@.ops.len())
                <= 0x1000_0000_0000_0000_0000_0000_0000_0000 ==> res is Ok,
    {
        let ghost s0 = state@;
        let ghost ops = self@.ops;
        proof {
            if normalized(s0) && s0.norm * pow2(ops.len()) <= 0x1000_0000_0000_0000_0000_0000_0000_0000 {
                crate::laws::law_run_fits(s0, ops);
            }
        }
        let mut work = state.copy();
        let mut i: usize = 0;
        assert(ops.take(0) =~= Seq::<Op>::empty());
        while i < self.ops.len()
            invariant
                self.wf(),
                ops == self@.ops,
                s0 == old(state)@,
                state@ == s0,
                state.wf(),
                i <= ops.len(),
                work.wf(),
                work.num_qubits == self@.num_qubits,
                run_ops(s0, ops.take(i as int)) == Ok::<QState, SimError>(work@),
                normalized(s0) && s0.norm * pow2(ops.len()) <= 0x1000_0000_0000_0000_0000_0000_0000_0000
                    ==> run_ops(s0, ops) is Ok,
            decreases ops.len() - i,
        {
            assert(ops.take(i + 1).drop_last() =~= ops.take(i as int));
            assert(ops.take(i + 1).last() == ops[i as int]);
            assert(op_valid(ops[i as int], self@.num_qubits));
            let step = match self.ops[i] {
                Op::H(q) => work.apply_gate(q, &Gate::h()),
                Op::X(q) => work.apply_gate(q, &Gate::x()),
                Op::Y(q) => work.apply_gate(q, &Gate::y()),
                Op::Z(q) => work.apply_gate(q, &Gate::z()),
                Op::S(q) => work.apply_gate(q, &Gate::s()),
                Op::Cnot { control, target } => {
                    work.apply_cnot(control, target);
                    Ok(())
                },
                Op::Swap(a, b) => {
                    work.apply_swap(a, b);
                    Ok(())
                },
            };
            match step {
                Ok(()) => {},
                Err(e) => {
                    proof {
                        lemma_run_ops_err(s0, ops, (i + 1) as int);
                    }
                    return Err(e);
                },
            }
            i = i + 1;
        }
        assert(ops.take(ops.len() as int) =~= ops);
        *state = work;
        Ok(())
    }
}

/// The state a circuit starts from: |00...0>.
pub open spec fn initial_state(n: nat) -> QState {
    QState { num_qubits: n, amps: basis_amps(n, 0), norm: 1 }
}

/// Outcome `i` can be observed after running `ops` from `s0`.
pub open spec fn observable(s0: QState, ops: Seq<Op>, i: int) -> bool {
    match run_ops(s0, ops) {
        Ok(s) => outcome_possible(s, i),
        Err(_) => false,
    }
}

/// How many entries of `s` equal `x`.
pub open spec fn count_of(s: Seq<int>, x: int) -> nat
    decreases s.len(),
{
    if s.len() == 0 {
        0
    } else {
        count_of(s.drop_last(), x) + if s.last() == x {
            1nat
        } else {
            0nat
        }
    }
}

/// `tallies` counts the outcomes `outs`, each one that measuring the result of
/// running `ops` from `s0` can give.
pub open spec fn tallies_of_runs(tallies: Seq<usize>, outs: Seq<int>, s0: QState, ops: Seq<Op>) -> bool {
    &&& forall|k: int| 0 <= k < outs.len() ==> observable(s0, ops, #[trigger] outs[k])
    &&& forall|i: int| 0 <= i < tallies.len() ==> #[trigger] tallies[i] == count_of(outs, i)
}

impl Circuit {
    /// Run the circuit `shots` times from |0...0>, measure each run, and tally
    /// the results.  Counts are looked up by the binary string of the outcome
    /// (e.g. "01", "11").  This is how you observe a quantum circuit statistically.
    pub fn sample(&self, shots: usize) -> (res: Result<Counts, SimError>)
        requires
            self.wf(),
            self@.num_qubits < usize::BITS,
            1 <= self@.num_qubits || shots == 0,
        ensures
            match res {
                Ok(c) => {
                    &&& c.wf()
                    &&& c.num_qubits == self@.num_qubits
                    &&& c.total() == shots
                    &&& forall|i: int|
                        0 <= i < c.tallies@.len() && #[trigger] c.tallies@[i] > 0 ==> observable(
                            initial_state(self@.num_qubits),
                            self@.ops,
                            i,
                        )
                    &&& shots > 0 ==> run_ops(initial_state(self@.num_qubits), self@.ops) is Ok
                    &&& exists|outs: Seq<int>|
                        outs.len() == shots && #[trigger] tallies_of_runs(
                            c.tallies@,
                            outs,
                            initial_state(self@.num_qubits),
                            self@.ops,
                        )
                },
                Err(e) => shots > 0 && run_ops(initial_state(self@.num_qubits), self@.ops) == Err::<
                    QState,
                    SimError,
                >(e),
            },
            self@.ops.len() <= 124 ==> res is Ok,
    {
        let n = self.num_qubits;
        let ghost s0 = initial_state(n as nat);
        let ghost ops = self@.ops;
        proof {
            lemma_dim(n as nat);
        }
        let d = 1usize << n;
        let mut tallies: Vec<usize> = Vec::new();
        let mut i: usize = 0;
        while i < d
            invariant
                i <= d,
                tallies@.len() == i,
                forall|k: int| 0 <= k < i ==> #[trigger] tallies@[k] == 0,
            decreases d - i,
        {
            tallies.push(0);
            i = i + 1;
        }
        proof {
            assert(as_ints(tallies@) =~= Seq::new(d as nat, |k: int| 0int));
            crate::state::lemma_sum_prefix_ext(as_ints(tallies@), Seq::new(d as nat, |k: int| 0int), 0);
            lemma_sum_zero(d as int);
        }
        proof {
            if ops.len() <= 124 && 1 <= n {
                crate::laws::law_basis_normalized(n as nat, 0);
                crate::laws::lemma_pow2_le(ops.len(), 124);
                crate::laws::lemma_pow2_124();
                assert(s0.norm * pow2(ops.len()) == pow2(ops.len()));
                crate::laws::law_run_fits(s0, ops);
            }
        }
        let ghost mut outs: Seq<int> = Seq::empty();
        assert(tallies_of_runs(tallies@, outs, s0, ops));
        let mut shot: usize = 0;
        while shot < shots
            invariant
                outs.len() == shot,
                tallies_of_runs(tallies@, outs, s0, ops),
                self.wf(),
                n == self@.num_qubits,
                n < usize::BITS,
                1 <= n || shots == 0,
                s0 == initial_state(n as nat),
                ops == self@.ops,
                d == dim(n as nat),
                shot <= shots,
                tallies@.len() == d,
                sum(as_ints(tallies@)) == shot,
                shot > 0 ==> run_ops(s0, ops) is Ok,
                ops.len() <= 124 && 1 <= n ==> run_ops(s0, ops) is Ok,
                forall|k: int|
                    0 <= k < tallies@.len() && #[trigger] tallies@[k] > 0 ==> observable(s0, ops, k),
            decreases shots - shot,
        {
            let mut sv = StateVector::new(n);
            assert(sv@ == s0);
            match self.run(&mut sv) {
                Ok(()) => {},
                Err(e) => {
                    return Err(e);
                },
            }
            let outcome = sv.measure();
            proof {
                crate::state::lemma_dim(n as nat);
                assert(crate::state::nonneg(as_ints(tallies@)));
                lemma_elem_le_sum(as_ints(tallies@), outcome as int);
            }
            let t = tallies[outcome];
            let ghost before = tallies@;
            tallies.set(outcome, t + 1);
            proof {
                assert(as_ints(tallies@) =~= as_ints(before).update(outcome as int, t + 1));
                lemma_sum_prefix_update(as_ints(before), outcome as int, t + 1, d as int);
                assert(observable(s0, ops, outcome as int));
                assert forall|k: int|
                    0 <= k < tallies@.len() && #[trigger] tallies@[k] > 0 implies observable(s0, ops, k) by {
                    if k != outcome {
                        assert(tallies@[k] == before[k]);
                    }
                }
                let old_outs = outs;
                outs = outs.push(outcome as int);
                assert(outs.drop_last() =~= old_outs);
                assert forall|k: int| 0 <= k < outs.len() implies observable(
                    s0,
                    ops,
                    #[trigger] outs[k],
                ) by {
                    if k < old_outs.len() {
                        assert(outs[k] == old_outs[k]);
                    }
                }
                assert forall|i: int| 0 <= i < tallies@.len() implies #[trigger] tallies@[i]
                    == count_of(outs, i) by {
                    assert(before[i] == count_of(old_outs, i));
                }
            }
            shot = shot + 1;
        }
        assert(outs.len() == shots && tallies_of_runs(tallies@, outs, s0, ops));
        let c = Counts { num_qubits: n, tallies };
        assert(c.wf());
        assert(c.total() == shots);
        assert(shots > 0 ==> run_ops(s0, ops) is Ok);
        assert(exists|o: Seq<int>| o.len() == shots && #[trigger] tallies_of_runs(c.tallies@, o, s0, ops));
        Ok(c)
    }
}

/// The sum of zeros is zero.
pub proof fn lemma_sum_zero(len: int)
    requires
        len >= 0,
    ensures
        sum(Seq::new(len as nat, |k: int| 0int)) == 0,
{
    let z = Seq::new(len as nat, |k: int| 0int);
    assert forall|m: int| 0 <= m <= len implies crate::state::sum_prefix(z, m) == 0 by {
        lemma_sum_prefix_zero(z, m);
    }
}

proof fn lemma_sum_prefix_zero(z: Seq<int>, m: int)
    requires
        0 <= m <= z.len(),
        forall|k: int| 0 <= k < z.len() ==> #[trigger] z[k] == 0,
    ensures
        crate::state::sum_prefix(z, m) == 0,
    decreases m,
{
    if m > 0 {
        lemma_sum_prefix_zero(z, m - 1);
    }
}

} // verus!
