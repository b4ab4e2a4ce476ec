use eigenflow::grover::{iteration_count, run};
use eigenflow::state::StateVector;

fn prob(sv: &StateVector, i: usize) -> f64 {
    sv.amplitudes[i].norm_sq() as f64 / sv.norm as f64
}

#[test]
fn test_grover_2qubits_finds_target_0() {
    let sv = run(2, 0).unwrap();
    assert!((prob(&sv, 0) - 1.0).abs() < 1e-9);
}

#[test]
fn test_grover_2qubits_finds_target_1() {
    let sv = run(2, 1).unwrap();
    assert!((prob(&sv, 1) - 1.0).abs() < 1e-9);
}

#[test]
fn test_grover_2qubits_finds_target_3() {
    let sv = run(2, 3).unwrap();
    assert!((prob(&sv, 3) - 1.0).abs() < 1e-9);
}

#[test]
fn test_grover_3qubits_finds_target() {
    // 3 qubits, N=8: 2 iterations give ~97% probability
    let target = 5;
    let sv = run(3, target).unwrap();
    assert!(prob(&sv, target) > 0.9);
}

#[test]
fn test_grover_state_is_normalized() {
    let sv = run(3, 2).unwrap();
    let total: f64 = (0..sv.amplitudes.len()).map(|i| prob(&sv, i)).sum();
    assert!((total - 1.0).abs() < 1e-9);
    assert!(sv.is_normalized());
}

#[test]
fn test_grover_2qubits_all_other_amplitudes_zero() {
    let target = 2;
    let sv = run(2, target).unwrap();
    for i in 0..sv.amplitudes.len() {
        if i != target {
            assert!(prob(&sv, i) < 1e-9, "index {} should be zero", i);
        }
    }
}

#[test]
fn grover_iteration_counts() {
    // floor(pi/4 * sqrt(2^n))
    assert_eq!(iteration_count(0), 0);
    assert_eq!(iteration_count(1), 1);
    assert_eq!(iteration_count(2), 1);
    assert_eq!(iteration_count(3), 2);
    assert_eq!(iteration_count(4), 3);
    assert_eq!(iteration_count(10), 25);
    assert_eq!(iteration_count(20), 804);
}

#[test]
fn grover_exact_two_qubit_result() {
    // For 2 qubits one iteration lands exactly on the target
    let sv = run(2, 2).unwrap();
    assert_eq!(sv.norm, 1);
    assert_eq!(sv.amplitudes[2].re, 1);
    assert!(sv.is_normalized());
}

#[test]
fn grover_four_qubits() {
    let sv = run(4, 9).unwrap();
    assert!(prob(&sv, 9) > 0.9);
    assert!(sv.is_normalized());
}

#[test]
fn grover_seven_qubits_succeeds() {
    let sv = run(7, 100).unwrap();
    assert!(prob(&sv, 100) > 0.99);
    let total: f64 = (0..sv.amplitudes.len()).map(|i| prob(&sv, i)).sum();
    assert!((total - 1.0).abs() < 1e-9);
}

#[test]
fn grover_eight_qubits_outgrows_the_exact_norm() {
    assert_eq!(run(8, 3).err(), Some(eigenflow::state::SimError::Overflow));
}
