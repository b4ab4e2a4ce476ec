use eigenflow::complex::Complex;
use eigenflow::gate::Gate;
use eigenflow::state::{SimError, StateVector};

/// Real part of the amplitude of basis state `i`: `amplitudes[i].re / sqrt(norm)`.
fn re(sv: &StateVector, i: usize) -> f64 {
    sv.amplitudes[i].re as f64 / (sv.norm as f64).sqrt()
}

fn im(sv: &StateVector, i: usize) -> f64 {
    sv.amplitudes[i].im as f64 / (sv.norm as f64).sqrt()
}

fn prob(sv: &StateVector, i: usize) -> f64 {
    sv.amplitudes[i].norm_sq() as f64 / sv.norm as f64
}

#[test]
fn test_initial_state_is_zero() {
    let sv = StateVector::new(1);
    assert_eq!(sv.amplitudes[0], Complex::one());
    assert_eq!(sv.amplitudes[1], Complex::zero());
    assert_eq!(sv.norm, 1);
}

#[test]
fn test_dimension() {
    // n qubits => 2^n amplitudes
    assert_eq!(StateVector::new(1).amplitudes.len(), 2);
    assert_eq!(StateVector::new(3).amplitudes.len(), 8);
}

#[test]
fn test_initial_state_is_normalized() {
    assert!(StateVector::new(2).is_normalized());
}

#[test]
fn test_probabilities_sum_to_one() {
    let sv = StateVector::new(3);
    let total: f64 = sv.probabilities().iter().map(|w| *w as f64 / sv.norm as f64).sum();
    assert!((total - 1.0).abs() < 1e-9);
}

#[test]
fn test_superposition_state() {
    // |+> = (|0> + |1>) / sqrt(2) -- equal probability of 0 and 1
    let sv = StateVector::from_amplitudes(vec![Complex::new(1, 0), Complex::new(1, 0)], 2);
    assert!(sv.is_normalized());
    let probs = sv.probabilities();
    assert!((probs[0] as f64 / sv.norm as f64 - 0.5).abs() < 1e-9);
    assert!((probs[1] as f64 / sv.norm as f64 - 0.5).abs() < 1e-9);
    assert_eq!(sv.num_qubits, 1);
}

// --- Gate tests ---

#[test]
fn test_x_gate_flips_zero_to_one() {
    // X|0> = |1>: amplitude moves from index 0 to index 1
    let mut sv = StateVector::new(1);
    sv.apply_gate(0, &Gate::x()).unwrap();
    assert!(re(&sv, 0).abs() < 1e-10);
    assert!((re(&sv, 1) - 1.0).abs() < 1e-10);
}

#[test]
fn test_x_gate_is_its_own_inverse() {
    // XX|0> = |0>
    let mut sv = StateVector::new(1);
    sv.apply_gate(0, &Gate::x()).unwrap();
    sv.apply_gate(0, &Gate::x()).unwrap();
    assert!((re(&sv, 0) - 1.0).abs() < 1e-10);
    assert!(re(&sv, 1).abs() < 1e-10);
}

#[test]
fn test_h_gate_creates_superposition() {
    // H|0> = (|0> + |1>)/sqrt(2): both amplitudes become 1/sqrt(2)
    let mut sv = StateVector::new(1);
    sv.apply_gate(0, &Gate::h()).unwrap();
    let s = 1.0 / 2.0_f64.sqrt();
    assert!((re(&sv, 0) - s).abs() < 1e-10);
    assert!((re(&sv, 1) - s).abs() < 1e-10);
    assert!(sv.is_normalized());
}

#[test]
fn test_h_gate_is_its_own_inverse() {
    // HH|0> = |0> -- Hadamard is self-inverse
    let mut sv = StateVector::new(1);
    sv.apply_gate(0, &Gate::h()).unwrap();
    sv.apply_gate(0, &Gate::h()).unwrap();
    assert!((re(&sv, 0) - 1.0).abs() < 1e-10);
    assert!(re(&sv, 1).abs() < 1e-10);
}

#[test]
fn test_z_gate_flips_phase_of_one() {
    // Z|1> = -|1>
    let mut sv = StateVector::new(1);
    sv.apply_gate(0, &Gate::x()).unwrap(); // now |1>
    sv.apply_gate(0, &Gate::z()).unwrap(); // Z|1> = -|1>
    assert!((re(&sv, 1) + 1.0).abs() < 1e-10); // amplitude is -1
}

#[test]
fn test_gate_on_second_qubit_of_two() {
    // H on qubit 1 (rightmost) of |00>: (|00> + |01>)/sqrt(2)
    let mut sv = StateVector::new(2);
    sv.apply_gate(1, &Gate::h()).unwrap();
    let s = 1.0 / 2.0_f64.sqrt();
    assert!((re(&sv, 0) - s).abs() < 1e-10); // |00>
    assert!((re(&sv, 1) - s).abs() < 1e-10); // |01>
    assert!(re(&sv, 2).abs() < 1e-10); // |10> untouched
    assert!(re(&sv, 3).abs() < 1e-10); // |11> untouched
    assert!(sv.is_normalized());
}

#[test]
fn test_gate_on_first_qubit_of_two() {
    // H on qubit 0 (leftmost) of |00>: (|00> + |10>)/sqrt(2)
    let mut sv = StateVector::new(2);
    sv.apply_gate(0, &Gate::h()).unwrap();
    let s = 1.0 / 2.0_f64.sqrt();
    assert!((re(&sv, 0) - s).abs() < 1e-10); // |00>
    assert!(re(&sv, 1).abs() < 1e-10); // |01> untouched
    assert!((re(&sv, 2) - s).abs() < 1e-10); // |10>
    assert!(re(&sv, 3).abs() < 1e-10); // |11> untouched
    assert!(sv.is_normalized());
}

// --- Multi-qubit gate tests ---

#[test]
fn test_cnot_flips_target_when_control_is_one() {
    // |10> --CNOT--> |11>
    let mut sv = StateVector::new(2);
    sv.apply_gate(0, &Gate::x()).unwrap(); // |00> -> |10>
    sv.apply_cnot(0, 1);
    assert!((re(&sv, 3) - 1.0).abs() < 1e-10); // |11> = index 3
    assert!(sv.is_normalized());
}

#[test]
fn test_cnot_does_nothing_when_control_is_zero() {
    let mut sv = StateVector::new(2); // |00>
    sv.apply_cnot(0, 1);
    assert!((re(&sv, 0) - 1.0).abs() < 1e-10); // still |00>
}

#[test]
fn test_cnot_is_its_own_inverse() {
    let mut sv = StateVector::new(2);
    sv.apply_gate(0, &Gate::x()).unwrap(); // |10>
    sv.apply_cnot(0, 1); // |11>
    sv.apply_cnot(0, 1); // back to |10>
    assert!((re(&sv, 2) - 1.0).abs() < 1e-10);
}

#[test]
fn test_bell_state() {
    // H on qubit 0 then CNOT(0,1) produces (|00> + |11>)/sqrt(2)
    let mut sv = StateVector::new(2);
    sv.apply_gate(0, &Gate::h()).unwrap();
    sv.apply_cnot(0, 1);
    let s = 1.0 / 2.0_f64.sqrt();
    assert!((re(&sv, 0) - s).abs() < 1e-10); // |00>
    assert!(re(&sv, 1).abs() < 1e-10); // |01> = 0
    assert!(re(&sv, 2).abs() < 1e-10); // |10> = 0
    assert!((re(&sv, 3) - s).abs() < 1e-10); // |11>
    assert!(sv.is_normalized());
}

#[test]
fn test_swap_exchanges_qubits() {
    // |01> --SWAP--> |10>
    let mut sv = StateVector::new(2);
    sv.apply_gate(1, &Gate::x()).unwrap(); // |00> -> |01>
    sv.apply_swap(0, 1);
    assert!(re(&sv, 1).abs() < 1e-10); // |01> = 0
    assert!((re(&sv, 2) - 1.0).abs() < 1e-10); // |10> = 1
    assert!(sv.is_normalized());
}

#[test]
fn test_swap_is_its_own_inverse() {
    let mut sv = StateVector::new(2);
    sv.apply_gate(1, &Gate::x()).unwrap(); // |01>
    sv.apply_swap(0, 1); // |10>
    sv.apply_swap(0, 1); // back to |01>
    assert!((re(&sv, 1) - 1.0).abs() < 1e-10);
}

// --- Further checks of the exact representation ---

#[test]
fn h_gate_exact_entries() {
    // H|0> is (1, 1) / sqrt(2); HH|0> reduces back to (1, 0) / sqrt(1)
    let mut sv = StateVector::new(1);
    sv.apply_gate(0, &Gate::h()).unwrap();
    assert_eq!(sv.amplitudes, vec![Complex::new(1, 0), Complex::new(1, 0)]);
    assert_eq!(sv.norm, 2);
    sv.apply_gate(0, &Gate::h()).unwrap();
    assert_eq!(sv.amplitudes, vec![Complex::new(1, 0), Complex::new(0, 0)]);
    assert_eq!(sv.norm, 1);
}

#[test]
fn y_and_s_gates() {
    // Y|0> = i|1>; S(i|1>) = -|1>
    let mut sv = StateVector::new(1);
    sv.apply_gate(0, &Gate::y()).unwrap();
    assert!((im(&sv, 1) - 1.0).abs() < 1e-10);
    sv.apply_gate(0, &Gate::s()).unwrap();
    assert!((re(&sv, 1) + 1.0).abs() < 1e-10);
    assert!(im(&sv, 1).abs() < 1e-10);
}

#[test]
fn controlled_h_with_control_zero_does_nothing() {
    let mut sv = StateVector::new(2);
    sv.apply_controlled(0, 1, &Gate::h()).unwrap();
    assert!((re(&sv, 0) - 1.0).abs() < 1e-12);
    assert!(sv.is_normalized());
}

#[test]
fn controlled_h_with_control_one_mixes_target() {
    // |10> -> (|10> + |11>)/sqrt(2)
    let mut sv = StateVector::new(2);
    sv.apply_gate(0, &Gate::x()).unwrap();
    sv.apply_controlled(0, 1, &Gate::h()).unwrap();
    let s = 1.0 / 2.0_f64.sqrt();
    assert!(re(&sv, 0).abs() < 1e-12);
    assert!(re(&sv, 1).abs() < 1e-12);
    assert!((re(&sv, 2) - s).abs() < 1e-12);
    assert!((re(&sv, 3) - s).abs() < 1e-12);
    assert!(sv.is_normalized());
}

#[test]
fn controlled_h_on_both_branches_is_inexact() {
    // control in superposition: the amplitudes would sit at two powers of sqrt(2)
    let mut sv = StateVector::new(2);
    sv.apply_gate(0, &Gate::h()).unwrap();
    let before = sv.amplitudes.clone();
    assert_eq!(sv.apply_controlled(0, 1, &Gate::h()), Err(SimError::Inexact));
    assert_eq!(sv.amplitudes, before);
}

#[test]
fn controlled_x_matches_cnot() {
    let mut a = StateVector::new(2);
    a.apply_gate(0, &Gate::h()).unwrap();
    let mut b = StateVector::new(2);
    b.apply_gate(0, &Gate::h()).unwrap();
    a.apply_controlled(0, 1, &Gate::x()).unwrap();
    b.apply_cnot(0, 1);
    for i in 0..4 {
        assert!((re(&a, i) - re(&b, i)).abs() < 1e-12);
    }
}

#[test]
fn overflow_is_reported_and_state_kept() {
    let big = Complex::new(i64::MAX, 0);
    let mut sv = StateVector { num_qubits: 1, amplitudes: vec![big, big], norm: 1 };
    assert_eq!(sv.apply_gate(0, &Gate::h()), Err(SimError::Overflow));
    assert_eq!(sv.amplitudes, vec![big, big]);
    assert_eq!(sv.norm, 1);
}

#[test]
fn measure_with_walks_cumulative_distribution() {
    // weights (1, 0, 2, 1) over norm 4: draw 0 -> |00>, 1..2 -> |10>, 3 -> |11>
    let amps = vec![Complex::new(1, 0), Complex::new(0, 0), Complex::new(1, 1), Complex::new(0, 1)];
    let mut a = StateVector::from_amplitudes(amps.clone(), 4);
    assert_eq!(a.measure_with(0), 0);
    let mut b = StateVector::from_amplitudes(amps.clone(), 4);
    assert_eq!(b.measure_with(1), 2);
    assert_eq!(b.amplitudes[2], Complex::one());
    assert_eq!(b.norm, 1);
    let mut c = StateVector::from_amplitudes(amps, 4);
    assert_eq!(c.measure_with(3), 3);
}

#[test]
fn measure_qubit_with_renormalizes() {
    // Bell state; reading qubit 0 as |1> keeps only |11>
    let mut sv = StateVector::new(2);
    sv.apply_gate(0, &Gate::h()).unwrap();
    sv.apply_cnot(0, 1);
    let mut other = StateVector::new(2);
    other.apply_gate(0, &Gate::h()).unwrap();
    other.apply_cnot(0, 1);
    // draws below the |1> branch's weight (1 of norm 2) read |1>
    let outcome = sv.measure_qubit_with(0, 0);
    assert_eq!(outcome, 1);
    assert!((re(&sv, 3) - 1.0).abs() < 1e-12);
    assert!(sv.is_normalized());
    assert_eq!(other.measure_qubit_with(0, 1), 0);
    assert!((re(&other, 0) - 1.0).abs() < 1e-12);
}

#[test]
fn measuring_again_repeats_the_outcome() {
    let mut sv = StateVector::new(3);
    sv.apply_gate(0, &Gate::h()).unwrap();
    sv.apply_gate(2, &Gate::h()).unwrap();
    let first = sv.measure();
    assert!(first == 0 || first == 1 || first == 4 || first == 5);
    for _ in 0..5 {
        assert_eq!(sv.measure(), first);
    }
    assert_eq!(sv.measure_with(0), first);
}

#[test]
fn from_amplitudes_removes_common_factors() {
    // the uniform two-qubit state written with entries 2^62 over norm 2^126
    let big = Complex::new(1i64 << 62, 0);
    let mut sv = StateVector::from_amplitudes(vec![big, big, big, big], 1u128 << 126);
    assert_eq!(sv.norm, 4);
    assert_eq!(sv.amplitudes[0], Complex::new(1, 0));
    sv.apply_gate(0, &Gate::h()).unwrap();
    assert!((re(&sv, 0) - 1.0 / 2.0_f64.sqrt()).abs() < 1e-12);
    assert!(re(&sv, 2).abs() < 1e-12);
    assert!(sv.is_normalized());
}

#[test]
fn gate_entries_up_to_two_to_the_32() {
    // a scaled identity 2^32 * I / sqrt(2)^64 is a valid gate and leaves the state as it is
    let e = Complex::new(1i64 << 32, 0);
    let z = Complex::new(0, 0);
    let g = Gate::scaled([[e, z], [z, e]], 64);
    let mut sv = StateVector::new(1);
    sv.apply_gate(0, &g).unwrap();
    assert_eq!(sv.amplitudes[0], Complex::new(1, 0));
    assert_eq!(sv.norm, 1);
}
