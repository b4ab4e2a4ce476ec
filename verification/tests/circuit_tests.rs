use eigenflow::circuit::Circuit;
use eigenflow::gate::Gate;
use eigenflow::state::StateVector;

fn re(sv: &StateVector, i: usize) -> f64 {
    sv.amplitudes[i].re as f64 / (sv.norm as f64).sqrt()
}

fn im(sv: &StateVector, i: usize) -> f64 {
    sv.amplitudes[i].im as f64 / (sv.norm as f64).sqrt()
}

fn prob(sv: &StateVector, i: usize) -> f64 {
    sv.amplitudes[i].norm_sq() as f64 / sv.norm as f64
}

#[test]
fn test_empty_circuit_leaves_state_unchanged() {
    let mut sv = StateVector::new(2);
    let c = Circuit::new(2);
    c.run(&mut sv).unwrap();
    assert!((re(&sv, 0) - 1.0).abs() < 1e-10);
}

#[test]
fn test_bell_state_via_circuit() {
    let mut c = Circuit::new(2);
    c.h(0).cnot(0, 1);

    let mut sv = StateVector::new(2);
    c.run(&mut sv).unwrap();

    let s = 1.0 / 2.0_f64.sqrt();
    assert!((re(&sv, 0) - s).abs() < 1e-10); // |00>
    assert!(re(&sv, 1).abs() < 1e-10); // |01> = 0
    assert!(re(&sv, 2).abs() < 1e-10); // |10> = 0
    assert!((re(&sv, 3) - s).abs() < 1e-10); // |11>
}

#[test]
fn test_double_x_is_identity() {
    let mut c = Circuit::new(1);
    c.x(0).x(0);

    let mut sv = StateVector::new(1);
    c.run(&mut sv).unwrap();
    assert!((re(&sv, 0) - 1.0).abs() < 1e-10);
}

#[test]
fn test_double_h_is_identity() {
    let mut c = Circuit::new(1);
    c.h(0).h(0);

    let mut sv = StateVector::new(1);
    c.run(&mut sv).unwrap();
    assert!((re(&sv, 0) - 1.0).abs() < 1e-10);
}

#[test]
fn test_ghz_state() {
    // GHZ state: H(0), CNOT(0,1), CNOT(0,2) -> (|000> + |111>)/sqrt(2)
    let mut c = Circuit::new(3);
    c.h(0).cnot(0, 1).cnot(0, 2);

    let mut sv = StateVector::new(3);
    c.run(&mut sv).unwrap();

    let s = 1.0 / 2.0_f64.sqrt();
    assert!((re(&sv, 0) - s).abs() < 1e-10); // |000>
    assert!((re(&sv, 7) - s).abs() < 1e-10); // |111> = index 7
    for i in 1..7 {
        assert!(re(&sv, i).abs() < 1e-10);
    }
}

#[test]
fn test_circuit_matches_manual_application() {
    let mut c = Circuit::new(2);
    c.h(0).x(1).cnot(0, 1);

    let mut sv_circuit = StateVector::new(2);
    c.run(&mut sv_circuit).unwrap();

    let mut sv_manual = StateVector::new(2);
    sv_manual.apply_gate(0, &Gate::h()).unwrap();
    sv_manual.apply_gate(1, &Gate::x()).unwrap();
    sv_manual.apply_cnot(0, 1);

    for i in 0..4 {
        assert!((re(&sv_circuit, i) - re(&sv_manual, i)).abs() < 1e-10);
        assert!((im(&sv_circuit, i) - im(&sv_manual, i)).abs() < 1e-10);
    }
}

// --- Measurement tests ---

#[test]
fn test_measure_zero_state_always_gives_zero() {
    let mut sv = StateVector::new(1);
    let outcome = sv.measure();
    assert_eq!(outcome, 0);
    assert!((re(&sv, 0) - 1.0).abs() < 1e-10); // collapsed to |0>
}

#[test]
fn test_measure_one_state_always_gives_one() {
    let mut sv = StateVector::new(1);
    sv.apply_gate(0, &Gate::x()).unwrap(); // |1>
    let outcome = sv.measure();
    assert_eq!(outcome, 1);
    assert!((re(&sv, 1) - 1.0).abs() < 1e-10); // collapsed to |1>
}

#[test]
fn test_measure_collapses_superposition() {
    let mut sv = StateVector::new(1);
    sv.apply_gate(0, &Gate::h()).unwrap(); // |+>
    sv.measure();
    let total_prob: f64 = (0..sv.amplitudes.len()).map(|i| prob(&sv, i)).sum();
    assert!((total_prob - 1.0).abs() < 1e-10);
    // one amplitude is 1, the other is 0
    let nonzero = (0..sv.amplitudes.len()).filter(|&i| prob(&sv, i) > 0.5).count();
    assert_eq!(nonzero, 1);
}

#[test]
fn test_bell_state_sample_only_gives_correlated_outcomes() {
    // Bell state can only produce |00> or |11>, never |01> or |10>
    let mut c = Circuit::new(2);
    c.h(0).cnot(0, 1);
    let counts = c.sample(200).unwrap();
    assert!(!counts.contains_key("01"), "got |01⟩ from Bell state");
    assert!(!counts.contains_key("10"), "got |10⟩ from Bell state");
}

#[test]
fn test_sample_plus_state_is_roughly_half_half() {
    let mut c = Circuit::new(1);
    c.h(0);
    let counts = c.sample(1000).unwrap();
    let zeros = *counts.get("0").unwrap_or(&0);
    let ones = *counts.get("1").unwrap_or(&0);
    // allow wide margin -- just checking it's not wildly skewed
    assert!(zeros > 350 && zeros < 650, "expected ~500 zeros, got {}", zeros);
    assert!(ones > 350 && ones < 650, "expected ~500 ones, got {}", ones);
}

#[test]
fn test_measure_qubit_collapses_and_renormalizes() {
    let mut sv = StateVector::new(2);
    sv.apply_gate(0, &Gate::h()).unwrap();
    sv.apply_cnot(0, 1);
    let outcome = sv.measure_qubit(0);
    let total_prob: f64 = (0..sv.amplitudes.len()).map(|i| prob(&sv, i)).sum();
    assert!((total_prob - 1.0).abs() < 1e-9, "state not normalized after partial measure");
    if outcome == 0 {
        assert!((re(&sv, 0) - 1.0).abs() < 1e-9);
    } else {
        assert!((re(&sv, 3) - 1.0).abs() < 1e-9);
    }
}

// --- Further checks ---

#[test]
fn sample_counts_total_and_keys() {
    let mut c = Circuit::new(2);
    c.x(1);
    let counts = c.sample(10).unwrap();
    assert_eq!(counts.get("01"), Some(&10));
    assert!(counts.contains_key("01"));
    assert!(!counts.contains_key("1"));
    assert!(!counts.contains_key("0a"));
    assert!(!counts.contains_key("001"));
    assert_eq!(counts.tallies.iter().sum::<usize>(), 10);
    let entries = counts.entries();
    assert_eq!(entries, vec![("01".to_string(), 10)]);
}

#[test]
fn sample_zero_shots_is_empty() {
    let mut c = Circuit::new(1);
    c.h(0);
    let counts = c.sample(0).unwrap();
    assert!(!counts.contains_key("0"));
    assert!(!counts.contains_key("1"));
}

#[test]
fn swap_in_circuit() {
    let mut c = Circuit::new(3);
    c.x(0).swap(0, 2);
    let mut sv = StateVector::new(3);
    c.run(&mut sv).unwrap();
    assert!((re(&sv, 1) - 1.0).abs() < 1e-12); // |001>
}

#[test]
fn y_s_z_in_circuit() {
    let mut c = Circuit::new(1);
    c.y(0).s(0).z(0);
    let mut sv = StateVector::new(1);
    c.run(&mut sv).unwrap();
    // Y|0> = i|1>, S -> -|1>, Z -> |1>
    assert!((re(&sv, 1) - 1.0).abs() < 1e-12);
}

#[test]
fn describe_lists_operations() {
    let mut c = Circuit::new(2);
    c.h(0).cnot(0, 1).swap(1, 0);
    let lines = c.describe();
    assert_eq!(
        lines,
        vec![
            "Circuit (2 qubits, 3 ops):".to_string(),
            "  H(0)".to_string(),
            "  CNOT(control=0, target=1)".to_string(),
            "  SWAP(1, 0)".to_string(),
        ]
    );
    let one = Circuit::new(1);
    assert_eq!(one.describe(), vec!["Circuit (1 qubit, 0 ops):".to_string()]);
}

#[test]
fn diagram_of_bell_circuit() {
    let mut c = Circuit::new(2);
    c.h(0).cnot(0, 1);
    let lines = c.diagram_lines();
    assert_eq!(
        lines,
        vec![
            "q0: ───H──●──".to_string(),
            "          │  ".to_string(),
            "q1: ──────⊕──".to_string(),
        ]
    );
}

#[test]
fn diagram_of_swap_circuit() {
    let mut c = Circuit::new(3);
    c.h(0).h(1).swap(0, 2);
    let lines = c.diagram_lines();
    assert_eq!(
        lines,
        vec![
            "q0: ───H─────×──".to_string(),
            "             │  ".to_string(),
            "q1: ──────H─────".to_string(),
            "             │  ".to_string(),
            "q2: ─────────×──".to_string(),
        ]
    );
}

#[test]
fn diagram_pads_labels_to_widest() {
    let mut c = Circuit::new(12);
    c.h(0).cnot(0, 11);
    let lines = c.diagram_lines();
    assert_eq!(lines.len(), 23);
    assert_eq!(lines[0], "q0: ────H──●──");
    assert_eq!(lines[1], "           │  ");
    assert_eq!(lines[20], "q10: ─────────");
    assert_eq!(lines[22], "q11: ──────⊕──");
    assert_eq!(lines[21], "           │  ");
}

#[test]
fn diagram_rows_have_equal_width() {
    let mut c = Circuit::new(11);
    c.h(3).swap(10, 0).cnot(9, 2).s(10).y(1);
    let lines = c.diagram_lines();
    assert_eq!(lines.len(), 21);
    // label column: "q10: ─" is 8 bytes wide, then 3 characters per operation
    for line in &lines {
        assert_eq!(line.chars().count(), 8 + 3 * 5);
    }
}

#[test]
fn sample_of_zero_qubits_and_no_shots_is_empty() {
    let c = Circuit::new(0);
    let counts = c.sample(0).unwrap();
    assert!(counts.entries().is_empty());
}
