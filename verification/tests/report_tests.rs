use eigenflow::complex::Complex;
use eigenflow::gate::Gate;
use eigenflow::grover::run;
use eigenflow::state::StateVector;

#[test]
fn basis_state_ranks_itself_first() {
    let sv = StateVector::new(3);
    assert_eq!(sv.ranked_outcomes(), vec![0, 1, 2, 3, 4, 5, 6, 7]);
    let mut one = StateVector::new(2);
    one.apply_gate(1, &Gate::x()).unwrap();
    assert_eq!(one.ranked_outcomes(), vec![1, 0, 2, 3]);
}

#[test]
fn equal_probabilities_rank_by_index() {
    let mut sv = StateVector::new(2);
    sv.apply_gate(0, &Gate::h()).unwrap();
    sv.apply_gate(1, &Gate::h()).unwrap();
    assert_eq!(sv.ranked_outcomes(), vec![0, 1, 2, 3]);
}

#[test]
fn grover_result_lists_target_first() {
    // 3 qubits, target 5: the target has 121/128, every other state 1/128
    let sv = run(3, 5).unwrap();
    assert_eq!(sv.ranked_outcomes(), vec![5, 0, 1, 2, 3, 4, 6, 7]);
}

#[test]
fn grover_two_qubits_lists_target_then_zeros() {
    let sv = run(2, 2).unwrap();
    assert_eq!(sv.ranked_outcomes(), vec![2, 0, 1, 3]);
}

#[test]
fn ranking_orders_by_weight_then_index() {
    // weights 1, 2, 1, 0 out of norm 4
    let sv = StateVector::from_amplitudes(
        vec![Complex::new(1, 0), Complex::new(1, 1), Complex::new(1, 0), Complex::new(0, 0)],
        4,
    );
    assert_eq!(sv.ranked_outcomes(), vec![1, 0, 2, 3]);
}
