use quantum_forge::quantum_core::QuantumCore;
use quantum_forge::{PoolStats, QuantumCircuit, QuantumGate, QuantumHardwareInterface, QuantumOperation, QuantumState};

#[test]
fn comm_state_beyond_the_limit_is_refused() {
    let mut core = QuantumCore::new(4, 1);
    let error = core.create_comm_state("big".to_string(), 5).unwrap_err();
    assert!(error.is_quantum_operation());
    assert!(core.get_state_info("big").is_none());
    assert_eq!(core.create_comm_state("ok".to_string(), 4).unwrap(), "ok");
    assert!(core.create_circuit("c".to_string(), 5).is_err());
}

#[test]
fn creating_under_a_used_id_replaces_the_state() {
    let mut core = QuantumCore::new(4, 2);
    core.create_comm_state("dup".to_string(), 2).unwrap();
    core.create_entangled_state("dup").unwrap();
    core.create_comm_state("dup".to_string(), 3).unwrap();
    let state = core.get_state_info("dup").unwrap();
    assert_eq!(state.qubit_count, 3);
    assert_eq!(state.amplitudes[0], 1);
    assert_eq!(core.active_state_count(), 1);
}

#[test]
fn random_bits_are_clamped_to_the_qubit_count() {
    let mut core = QuantumCore::new(4, 3);
    let id = core.create_comm_state("r".to_string(), 2).unwrap();
    assert_eq!(core.generate_quantum_random(&id, 8).unwrap().len(), 2);
    assert_eq!(core.generate_quantum_random(&id, 1).unwrap().len(), 1);
    assert_eq!(core.generate_quantum_random(&id, 0).unwrap().len(), 0);
    assert!(core.generate_quantum_random("missing", 8).is_err());
    let state = core.get_state_info(&id).unwrap();
    assert_eq!(state.amplitudes.iter().filter(|a| **a == 1).count(), 1);
    assert!(!state.measurements.is_empty());
}

#[test]
fn cleanup_removes_exactly_the_old_states() {
    let mut core = QuantumCore::new(4, 4);
    core.create_comm_state_at("old".to_string(), 1, 100).unwrap();
    core.create_comm_state_at("edge".to_string(), 1, 150).unwrap();
    core.create_comm_state_at("young".to_string(), 1, 190).unwrap();
    core.create_comm_state_at("future".to_string(), 1, u64::MAX).unwrap();
    core.cleanup_states_older_than(50, 200);
    assert!(core.get_state_info("old").is_none());
    assert!(core.get_state_info("edge").is_none());
    assert!(core.get_state_info("young").is_some());
    assert!(core.get_state_info("future").is_some());
    assert_eq!(core.active_state_count(), 2);
    core.cleanup_old_states(u64::MAX);
    assert_eq!(core.active_state_count(), 2);
    core.cleanup_old_states(0);
    assert_eq!(core.active_state_count(), 1);
    assert!(core.get_state_info("future").is_some());
}

fn ops_of(circuit: &QuantumCircuit) -> Vec<(QuantumGate, Vec<u32>)> {
    circuit.operations.clone()
}

#[test]
fn optimizer_cancels_adjacent_paulis() {
    let mut circuit = QuantumCircuit::new("o".to_string(), 1);
    circuit.add_gate(QuantumGate::PauliX, vec![0]).unwrap();
    circuit.add_gate(QuantumGate::PauliX, vec![0]).unwrap();
    circuit.add_gate(QuantumGate::Hadamard, vec![0]).unwrap();
    circuit.optimize().unwrap();
    assert_eq!(ops_of(&circuit), vec![(QuantumGate::Hadamard, vec![0])]);
    assert_eq!(circuit.depth, 1);
}

#[test]
fn optimizer_keeps_separated_paulis() {
    let mut circuit = QuantumCircuit::new("o".to_string(), 1);
    circuit.add_gate(QuantumGate::PauliX, vec![0]).unwrap();
    circuit.add_gate(QuantumGate::Hadamard, vec![0]).unwrap();
    circuit.add_gate(QuantumGate::PauliX, vec![0]).unwrap();
    circuit.optimize().unwrap();
    assert_eq!(
        ops_of(&circuit),
        vec![
            (QuantumGate::PauliX, vec![0]),
            (QuantumGate::Hadamard, vec![0]),
            (QuantumGate::PauliX, vec![0]),
        ]
    );
    assert_eq!(circuit.depth, 3);
}

#[test]
fn optimizer_pairs_from_the_left_and_keeps_other_gates() {
    let mut circuit = QuantumCircuit::new("o".to_string(), 2);
    circuit.add_gate(QuantumGate::PauliZ, vec![1]).unwrap();
    circuit.add_gate(QuantumGate::PauliZ, vec![1]).unwrap();
    circuit.add_gate(QuantumGate::PauliZ, vec![1]).unwrap();
    circuit.add_gate(QuantumGate::PauliY, vec![0]).unwrap();
    circuit.add_gate(QuantumGate::PauliY, vec![1]).unwrap();
    circuit.add_gate(QuantumGate::CNOT, vec![0, 1]).unwrap();
    circuit.add_gate(QuantumGate::CNOT, vec![0, 1]).unwrap();
    circuit.optimize().unwrap();
    assert_eq!(
        ops_of(&circuit),
        vec![
            (QuantumGate::PauliZ, vec![1]),
            (QuantumGate::PauliY, vec![0]),
            (QuantumGate::PauliY, vec![1]),
            (QuantumGate::CNOT, vec![0, 1]),
            (QuantumGate::CNOT, vec![0, 1]),
        ]
    );
}

#[test]
fn circuit_refuses_out_of_range_operands() {
    let mut circuit = QuantumCircuit::new("c".to_string(), 2);
    assert!(circuit.add_gate(QuantumGate::CNOT, vec![0, 2]).is_err());
    assert_eq!(circuit.depth, 0);
    assert_eq!(circuit.expected_fidelity_ppb, 1_000_000_000);
}

#[test]
fn circuit_execution_stops_at_the_first_refused_gate() {
    let mut core = QuantumCore::new(4, 5);
    core.create_circuit("wide".to_string(), 3).unwrap();
    core.add_gate_to_circuit("wide", QuantumGate::PauliX, vec![0]).unwrap();
    core.add_gate_to_circuit("wide", QuantumGate::PauliX, vec![2]).unwrap();
    core.add_gate_to_circuit("wide", QuantumGate::PauliZ, vec![0]).unwrap();
    core.create_comm_state("narrow".to_string(), 2).unwrap();
    assert!(core.execute_circuit("wide", "narrow").is_err());
    let state = core.get_state_info("narrow").unwrap();
    assert_eq!(state.amplitudes, vec![0, 1, 0, 0]);
    assert_eq!(state.phases, vec![0, 0, 0, 0]);
    assert!(core.execute_circuit("missing", "narrow").is_err());
    assert!(core.execute_circuit("wide", "missing").is_err());
    assert!(core.add_gate_to_circuit("missing", QuantumGate::PauliX, vec![0]).is_err());
}

#[test]
fn missing_states_and_small_states_are_refused() {
    let mut core = QuantumCore::new(4, 6);
    assert!(core.create_entangled_state("none").is_err());
    assert!(core
        .perform_operation("none", QuantumOperation::MeasureRandom { qubits: vec![] })
        .is_err());
    core.create_comm_state("one".to_string(), 1).unwrap();
    assert!(core.create_entangled_state("one").is_err());
    assert_eq!(core.get_state_info("one").unwrap().amplitudes, vec![1, 0]);
}

#[test]
fn encoding_flips_the_marked_qubits() {
    let mut core = QuantumCore::new(4, 7);
    core.create_comm_state("e".to_string(), 2).unwrap();
    let echo = core
        .perform_operation("e", QuantumOperation::PrepareCommState { encoding: vec![1, 0, 1] })
        .unwrap();
    assert_eq!(echo, vec![1, 0, 1]);
    assert_eq!(core.get_state_info("e").unwrap().amplitudes, vec![0, 1, 0, 0]);
    let bits = core
        .perform_operation("e", QuantumOperation::MeasureRandom { qubits: vec![0] })
        .unwrap();
    assert_eq!(bits, vec![0, 1]);
}

#[test]
fn entanglement_spreads_from_the_first_qubit() {
    let mut core = QuantumCore::new(4, 8);
    core.create_comm_state("g".to_string(), 3).unwrap();
    let reply = core
        .perform_operation("g", QuantumOperation::CreateEntanglement { qubits: vec![0, 1, 2] })
        .unwrap();
    assert_eq!(reply, vec![1]);
    let state = core.get_state_info("g").unwrap();
    assert_eq!(state.amplitudes, vec![1, 0, 0, 0, 0, 0, 0, 1]);
    assert_eq!(state.scale, 1);
    assert!(core
        .perform_operation("g", QuantumOperation::CreateEntanglement { qubits: vec![0, 7] })
        .is_err());
}

#[test]
fn error_correction_measures_after_the_cnots() {
    let mut core = QuantumCore::new(4, 9);
    core.create_comm_state("s".to_string(), 4).unwrap();
    core.perform_operation("s", QuantumOperation::PrepareCommState { encoding: vec![1] })
        .unwrap();
    let syndrome = core
        .perform_operation(
            "s",
            QuantumOperation::ErrorCorrection { data_qubits: vec![0, 9], ancilla_qubits: vec![2, 3] },
        )
        .unwrap();
    assert_eq!(syndrome, vec![1, 1, 0, 1]);
}

#[test]
fn teleport_corrects_the_auxiliary_qubit() {
    for seed in 0..10u64 {
        let mut core = QuantumCore::new(3, seed);
        core.create_comm_state("t".to_string(), 3).unwrap();
        let bits = core
            .perform_operation("t", QuantumOperation::Teleport { source: 0, target: 1 })
            .unwrap();
        assert_eq!(bits.len(), 3);
        let state = core.get_state_info("t").unwrap();
        assert_eq!(state.amplitudes.iter().sum::<u64>(), 1);
    }
    let mut core = QuantumCore::new(3, 10);
    core.create_comm_state("z".to_string(), 0).unwrap();
    assert!(core
        .perform_operation("z", QuantumOperation::Teleport { source: 0, target: 1 })
        .is_err());
}

#[test]
fn bell_pair_diagnostics_validate_and_average() {
    let mut core = QuantumCore::new(4, 11);
    let pair = core.create_bell_pair(0, 1).unwrap();
    assert_eq!(pair.qubit1, 0);
    assert_eq!(pair.qubit2, 1);
    assert_eq!(pair.fidelity_ppb, 1_000_000_000);
    assert_eq!(pair.entanglement_strength_ppb, 950_000_000);
    assert!(core.create_bell_pair(2, 2).unwrap_err().is_quantum_operation());
    assert!(core.create_bell_pair(0, 4).is_err());
    core.create_comm_state("a".to_string(), 1).unwrap();
    core.create_comm_state("b".to_string(), 1).unwrap();
    core.execute_circuit("none", "b").unwrap_err();
    core.create_circuit("hh".to_string(), 1).unwrap();
    core.add_gate_to_circuit("hh", QuantumGate::Hadamard, vec![0]).unwrap();
    core.add_gate_to_circuit("hh", QuantumGate::Hadamard, vec![0]).unwrap();
    core.execute_circuit("hh", "b").unwrap();
    assert_eq!(core.create_bell_pair(3, 0).unwrap().fidelity_ppb, 1_500_000_000);
    assert_eq!(core.get_fidelity(), 1_500_000_000);
    assert_eq!(core.get_system_status().average_fidelity_ppb, 1_500_000_000);
}

#[test]
fn diagnostic_measurements_draw_one_bit_per_index() {
    let mut core = QuantumCore::new(4, 12);
    assert_eq!(core.measure_qubits(&[0, 1, 2, 3, 3]).unwrap().len(), 5);
    assert_eq!(core.get_metrics().total_measurements, 5);
    assert_eq!(core.get_metrics().total_quantum_operations, 1);
    assert!(core.measure_qubits(&[0, 4]).is_err());
    assert_eq!(core.get_metrics().total_measurements, 5);
    assert_eq!(core.get_metrics().total_quantum_operations, 1);
    assert!(quantum_forge::quantum_core::reads_one(499));
    assert!(!quantum_forge::quantum_core::reads_one(500));
}

#[test]
fn first_state_operations() {
    let mut core = QuantumCore::new(4, 13);
    assert!(core.measure_state("m".to_string()).is_err());
    assert!(core.create_entanglement(&[0, 1]).is_ok());
    core.create_comm_state("only".to_string(), 2).unwrap();
    core.create_entanglement(&[0, 1]).unwrap();
    assert_eq!(core.get_state_info("only").unwrap().amplitudes, vec![1, 0, 0, 1]);
    let bits = core.measure_state("m".to_string()).unwrap();
    assert!(bits == vec![0, 0] || bits == vec![1, 1]);
    assert_eq!(core.get_state_info("only").unwrap().get_measurement("m"), Some(bits));
}

#[test]
fn status_reports_counts_and_backend() {
    let mut core = QuantumCore::new(3, 14);
    core.create_comm_state("a".to_string(), 2).unwrap();
    core.create_circuit("c".to_string(), 2).unwrap();
    let status = core.get_system_status();
    assert_eq!(status.active_states, 1);
    assert_eq!(status.total_circuits, 1);
    assert_eq!(status.max_qubits, 3);
    assert!(!status.hardware_enabled);
    assert_eq!(status.hardware_interface.operations.len(), 8);
    assert_eq!(core.get_hardware_status().qubits, 16);
    assert_eq!(QuantumCore::get_available_operations().len(), 6);
}

#[test]
fn error_rates_can_be_read_and_updated() {
    let mut interface = QuantumHardwareInterface::new();
    assert_eq!(interface.get_error_rate("two_qubit"), 0);
    assert_eq!(interface.get_error_rate("unknown"), 0);
    interface.update_error_rate("two_qubit", 1_500);
    interface.update_error_rate("readout", 7);
    assert_eq!(interface.get_error_rate("two_qubit"), 1_500);
    assert_eq!(interface.get_error_rate("readout"), 7);
    assert_eq!(interface.get_status().error_rates.len(), 4);
}

#[test]
fn pool_hit_ratio_in_parts_per_billion() {
    let stats = PoolStats {
        total_allocations: 4,
        cache_hits: 3,
        cache_misses: 1,
        current_pool_size: 2,
        peak_pool_size: 3,
        memory_usage_bytes: 4096,
    };
    assert_eq!(stats.cache_hit_ratio(), 750_000_000);
    let empty = PoolStats { total_allocations: 0, ..stats };
    assert_eq!(empty.cache_hit_ratio(), 0);
}

#[test]
fn fresh_state_reports_its_identity() {
    let state = QuantumState::new_at("id".to_string(), 2, 77);
    assert_eq!(state.id, "id");
    assert_eq!(state.created_at, 77);
    assert_eq!(state.get_amplitudes(), &[1, 0, 0, 0]);
    assert_eq!(state.get_phases(), &[0, 0, 0, 0]);
}

#[test]
fn fresh_backend_reports_its_error_table() {
    let interface = QuantumHardwareInterface::new();
    let status = interface.get_status();
    assert_eq!(
        status.error_rates,
        vec![
            ("single_qubit".to_string(), 0),
            ("two_qubit".to_string(), 0),
            ("measurement".to_string(), 0),
        ]
    );
    assert_eq!(status.operations, vec!["h", "x", "y", "z", "cnot", "t", "s", "phase"]);
    assert_eq!(status.architecture, "Physics-Based Quantum Simulation");
}

#[test]
fn fresh_core_detects_no_backend() {
    let core = QuantumCore::new(4, 15);
    let status = core.get_system_status();
    assert!(!status.hardware_enabled);
    assert_eq!(status.hardware_interface.architecture, "Perfect Fidelity Simulation");
    assert_eq!(status.hardware_interface.error_rates.len(), 3);
    assert_eq!(core.get_metrics().total_quantum_operations, 0);
}

#[test]
fn bell_pair_records_two_operations() {
    let mut core = QuantumCore::new(4, 16);
    core.create_bell_pair(0, 1).unwrap();
    assert_eq!(core.get_metrics().total_quantum_operations, 2);
    assert!(core.create_bell_pair(1, 1).is_err());
    assert_eq!(core.get_metrics().total_quantum_operations, 2);
}

#[test]
fn operations_cache_measurements_under_their_prefix() {
    let mut core = QuantumCore::new(4, 17);
    core.create_comm_state("k".to_string(), 2).unwrap();
    core.perform_operation("k", QuantumOperation::PrepareCommState { encoding: vec![1] })
        .unwrap();
    assert!(core.get_state_info("k").unwrap().measurements.is_empty());
    let bits = core
        .perform_operation("k", QuantumOperation::MeasureRandom { qubits: vec![] })
        .unwrap();
    let state = core.get_state_info("k").unwrap();
    assert_eq!(state.measurements.len(), 1);
    assert!(state.measurements[0].0.starts_with("op_measure_"));
    assert_eq!(state.measurements[0].1, bits);
    core.generate_quantum_random("k", 2).unwrap();
    let state = core.get_state_info("k").unwrap();
    assert!(state.measurements.iter().any(|(key, _)| key.starts_with("random_k_")));
}

#[test]
fn well_formedness_is_checked() {
    let mut state = QuantumState::new("w".to_string(), 2);
    assert!(state.is_well_formed());
    state.phases[1] = 8000;
    assert!(!state.is_well_formed());
    state.phases[1] = 0;
    state.amplitudes.push(0);
    assert!(!state.is_well_formed());
}
