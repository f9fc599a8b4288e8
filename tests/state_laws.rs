use quantum_forge::quantum_core::QuantumCore;
use quantum_forge::{QuantumGate, QuantumOperation, QuantumState};
use rand::rngs::StdRng;
use rand::SeedableRng;

#[test]
fn gates_other_than_hadamard_keep_the_norm() {
    let mut state = QuantumState::new("n".to_string(), 3);
    state.apply_gate(QuantumGate::Hadamard, &[0]).unwrap();
    let sequence: Vec<(QuantumGate, Vec<u32>)> = vec![
        (QuantumGate::PauliX, vec![2]),
        (QuantumGate::CNOT, vec![0, 1]),
        (QuantumGate::PauliY, vec![1]),
        (QuantumGate::PauliZ, vec![0]),
        (QuantumGate::Phase, vec![2]),
        (QuantumGate::TGate, vec![1]),
        (QuantumGate::SGate, vec![0]),
        (QuantumGate::Hadamard, vec![2]),
    ];
    for (gate, qubits) in sequence {
        state.apply_gate(gate, &qubits).unwrap();
        assert!(state.is_normalized());
        assert_eq!(state.fidelity_ppb(), 1_000_000_000);
    }
}

#[test]
fn hadamard_on_a_superposed_qubit_doubles_the_norm() {
    let mut state = QuantumState::new("h".to_string(), 1);
    state.apply_gate(QuantumGate::Hadamard, &[0]).unwrap();
    assert_eq!(state.amplitudes, vec![1, 1]);
    assert_eq!(state.scale, 1);
    state.apply_gate(QuantumGate::Hadamard, &[0]).unwrap();
    assert_eq!(state.amplitudes, vec![2, 2]);
    assert_eq!(state.scale, 2);
    assert!(!state.is_normalized());
    assert_eq!(state.norm_weight(), 8);
    assert_eq!(state.fidelity_ppb(), 2_000_000_000);
}

#[test]
fn hadamard_takes_the_phase_of_the_upper_index() {
    let mut state = QuantumState::new("p".to_string(), 1);
    state.apply_gate(QuantumGate::PauliZ, &[0]).unwrap();
    assert_eq!(state.phases, vec![0, 4000]);
    state.apply_gate(QuantumGate::Hadamard, &[0]).unwrap();
    assert_eq!(state.phases, vec![4000, 4000]);
}

#[test]
fn measuring_twice_gives_the_same_outcome() {
    let mut rng = StdRng::seed_from_u64(21);
    for seed in 0..20u64 {
        let mut state = QuantumState::new("m".to_string(), 3);
        let mut draws = StdRng::seed_from_u64(seed);
        state.create_superposition(&mut draws).unwrap();
        let first = state.measure("a".to_string(), &mut rng).unwrap();
        let second = state.measure("b".to_string(), &mut rng).unwrap();
        assert_eq!(first, second);
    }
    let mut state = QuantumState::new("m".to_string(), 2);
    state.prepare_superposition(&vec![0, 0, 0, 0]);
    assert_eq!(state.measure_with("x".to_string(), 0xFFFF_FFFF_FFFF_FFFF), vec![1, 1]);
    assert_eq!(state.measure_with("y".to_string(), 0), vec![1, 1]);
}

#[test]
fn measurement_selects_by_cumulative_probability() {
    let mut state = QuantumState::new("c".to_string(), 1);
    state.apply_gate(QuantumGate::Hadamard, &[0]).unwrap();
    let mut copy = QuantumState::new("c".to_string(), 1);
    copy.apply_gate(QuantumGate::Hadamard, &[0]).unwrap();
    assert_eq!(state.measure_with("low".to_string(), 0x7FFF_FFFF_FFFF_FFFF), vec![0]);
    assert_eq!(copy.measure_with("high".to_string(), 0x8000_0000_0000_0000), vec![1]);
    assert_eq!(state.amplitudes, vec![1, 0]);
    assert_eq!(copy.amplitudes, vec![0, 1]);
    assert_eq!(copy.scale, 0);
    assert_eq!(copy.phases, vec![0, 0]);
}

#[test]
fn outcome_bits_are_most_significant_first() {
    let mut state = QuantumState::new("b".to_string(), 3);
    state.apply_gate(QuantumGate::PauliX, &[2]).unwrap();
    assert_eq!(state.amplitudes[4], 1);
    assert_eq!(state.measure_with("k".to_string(), 5), vec![1, 0, 0]);
    assert_eq!(state.get_measurement("k"), Some(vec![1, 0, 0]));
    assert_eq!(state.get_measurement("other"), None);
}

#[test]
fn measurement_cache_keeps_the_latest_outcome_per_id() {
    let mut state = QuantumState::new("cache".to_string(), 1);
    state.measure_with("same".to_string(), 9);
    assert_eq!(state.get_measurement("same"), Some(vec![0]));
    state.apply_gate(QuantumGate::PauliX, &[0]).unwrap();
    state.measure_with("same".to_string(), 9);
    assert_eq!(state.get_measurement("same"), Some(vec![1]));
    assert_eq!(state.measurements.len(), 1);
}

#[test]
fn pauli_gates_undo_themselves() {
    let mut rng = StdRng::seed_from_u64(31);
    for gate in [QuantumGate::PauliX, QuantumGate::PauliY, QuantumGate::PauliZ] {
        for q in 0..3u32 {
            let mut state = QuantumState::new("s".to_string(), 3);
            state.create_superposition(&mut rng).unwrap();
            state.apply_gate(QuantumGate::PauliX, &[1]).unwrap();
            state.apply_gate(QuantumGate::Hadamard, &[0]).unwrap();
            let amplitudes = state.amplitudes.clone();
            let phases = state.phases.clone();
            state.apply_gate(gate, &[q]).unwrap();
            state.apply_gate(gate, &[q]).unwrap();
            assert_eq!(state.amplitudes, amplitudes);
            assert_eq!(state.phases, phases);
        }
    }
}

#[test]
fn pauli_y_turns_the_phases() {
    let mut state = QuantumState::new("y".to_string(), 1);
    state.apply_gate(QuantumGate::PauliY, &[0]).unwrap();
    assert_eq!(state.amplitudes, vec![0, 1]);
    assert_eq!(state.phases, vec![2000, 6000]);
}

#[test]
fn phase_gates_add_their_turns() {
    let mut state = QuantumState::new("t".to_string(), 1);
    state.apply_gate(QuantumGate::TGate, &[0]).unwrap();
    state.apply_gate(QuantumGate::SGate, &[0]).unwrap();
    state.apply_gate(QuantumGate::Phase, &[0]).unwrap();
    assert_eq!(state.phases, vec![0, 7000]);
    state.apply_gate(QuantumGate::TGate, &[0]).unwrap();
    assert_eq!(state.phases, vec![0, 0]);
}

#[test]
fn pauli_x_swaps_only_pairs_in_the_lower_half() {
    let mut state = QuantumState::new("x".to_string(), 2);
    state.apply_gate(QuantumGate::PauliX, &[1]).unwrap();
    assert_eq!(state.amplitudes, vec![0, 0, 1, 0]);
    state.apply_gate(QuantumGate::PauliX, &[0]).unwrap();
    assert_eq!(state.amplitudes, vec![0, 0, 1, 0]);
}

#[test]
fn cnot_with_equal_control_and_target_changes_nothing() {
    let mut state = QuantumState::new("c".to_string(), 2);
    state.apply_gate(QuantumGate::PauliX, &[0]).unwrap();
    state.apply_gate(QuantumGate::CNOT, &[0, 0]).unwrap();
    assert_eq!(state.amplitudes, vec![0, 1, 0, 0]);
    state.apply_gate(QuantumGate::CNOT, &[0, 1]).unwrap();
    assert_eq!(state.amplitudes, vec![0, 0, 0, 1]);
}

#[test]
fn bell_pairs_measure_equal_bits() {
    for seed in 0..40u64 {
        let mut core = QuantumCore::new(2, seed);
        let id = core.create_comm_state("bell".to_string(), 2).unwrap();
        core.create_entangled_state(&id).unwrap();
        assert_eq!(core.get_state_info(&id).unwrap().amplitudes, vec![1, 0, 0, 1]);
        let bits = core
            .perform_operation(&id, QuantumOperation::MeasureRandom { qubits: vec![0, 1] })
            .unwrap();
        assert!(bits == vec![0, 0] || bits == vec![1, 1]);
    }
    let mut low = QuantumState::new("l".to_string(), 2);
    low.apply_gate(QuantumGate::Hadamard, &[0]).unwrap();
    low.apply_gate(QuantumGate::CNOT, &[0, 1]).unwrap();
    assert_eq!(low.measure_with("d".to_string(), 0), vec![0, 0]);
    let mut high = QuantumState::new("h".to_string(), 2);
    high.apply_gate(QuantumGate::Hadamard, &[0]).unwrap();
    high.apply_gate(QuantumGate::CNOT, &[0, 1]).unwrap();
    assert_eq!(high.measure_with("d".to_string(), 0xFFFF_FFFF_FFFF_FFFF), vec![1, 1]);
}

#[test]
fn out_of_range_gates_fail_and_change_nothing() {
    let mut state = QuantumState::new("r".to_string(), 2);
    state.apply_gate(QuantumGate::Hadamard, &[0]).unwrap();
    let amplitudes = state.amplitudes.clone();
    let phases = state.phases.clone();
    let scale = state.scale;
    let error = state.apply_gate(QuantumGate::PauliX, &[2]).unwrap_err();
    assert!(error.is_quantum_operation());
    assert!(state.apply_gate(QuantumGate::CNOT, &[0, 5]).is_err());
    assert!(state.apply_gate(QuantumGate::CNOT, &[0]).is_err());
    assert!(state.apply_gate(QuantumGate::Hadamard, &[]).is_err());
    assert_eq!(state.amplitudes, amplitudes);
    assert_eq!(state.phases, phases);
    assert_eq!(state.scale, scale);
}

#[test]
fn hadamard_fails_past_the_amplitude_limit() {
    let mut state = QuantumState::new("o".to_string(), 1);
    let mut applied = 0;
    while state.apply_gate(QuantumGate::Hadamard, &[0]).is_ok() {
        applied += 1;
    }
    assert_eq!(applied, 33);
    assert_eq!(state.amplitudes, vec![4294967296, 4294967296]);
    assert_eq!(state.scale, 33);
}

#[test]
fn superposition_is_uniform_and_normalized() {
    let mut state = QuantumState::new("u".to_string(), 3);
    state.prepare_superposition(&vec![0, 1, 2, 3, 4, 5, 6, 999]);
    assert_eq!(state.amplitudes, vec![1; 8]);
    assert_eq!(state.scale, 3);
    assert_eq!(state.phases, vec![0, 8, 16, 24, 32, 40, 48, 7992]);
    assert!(state.is_normalized());
    let mut rng = StdRng::seed_from_u64(41);
    state.create_superposition(&mut rng).unwrap();
    assert!(state.is_normalized());
    assert!(state.phases.iter().all(|p| p % 8 == 0 && *p < 8000));
}
