use quantum_forge::quantum_core::QuantumCore;
use quantum_forge::{HealthStatus, QuantumGate, QuantumHardwareInterface, QuantumOperation, QuantumState};
use rand::rngs::StdRng;
use rand::SeedableRng;

#[test]
fn test_quantum_state_creation() {
    let state = QuantumState::new("test_state".to_string(), 2);
    assert_eq!(state.qubit_count, 2);
    assert_eq!(state.amplitudes.len(), 4);
    assert_eq!(state.amplitudes[0], 1);
    assert_eq!(state.fidelity_ppb(), 1_000_000_000);
    assert_eq!(state.phases.len(), 4);
}

#[test]
fn test_quantum_core_creation() {
    let core = QuantumCore::new(4, 11);
    assert_eq!(core.max_qubits(), 4);
    assert_eq!(core.active_state_count(), 0);
}

#[test]
fn test_quantum_operations() {
    let mut core = QuantumCore::new(4, 12);
    let state_id = core.create_comm_state("test".to_string(), 2).unwrap();
    core.create_entangled_state(&state_id).unwrap();
    let random_bits = core.generate_quantum_random(&state_id, 8).unwrap();
    assert!(random_bits.len() >= 2);
    let state_info = core.get_state_info(&state_id).unwrap();
    assert!(state_info.fidelity_ppb() > 900_000_000);
}

#[test]
fn test_quantum_circuit() {
    let mut core = QuantumCore::new(4, 13);
    let circuit_id = core.create_circuit("test_circuit".to_string(), 3).unwrap();
    core.add_gate_to_circuit(&circuit_id, QuantumGate::Hadamard, vec![0]).unwrap();
    core.add_gate_to_circuit(&circuit_id, QuantumGate::CNOT, vec![0, 1]).unwrap();
    core.add_gate_to_circuit(&circuit_id, QuantumGate::CNOT, vec![0, 2]).unwrap();
    let state_id = core.create_comm_state("circuit_test".to_string(), 3).unwrap();
    core.execute_circuit(&circuit_id, &state_id).unwrap();
    let state_info = core.get_state_info(&state_id).unwrap();
    assert!(state_info.fidelity_ppb() > 990_000_000);
}

#[test]
fn test_born_rule_measurement() {
    let mut rng = StdRng::seed_from_u64(14);
    let mut state = QuantumState::new("born_test".to_string(), 2);
    state.create_superposition(&mut rng).unwrap();
    let mut measurements = Vec::new();
    for i in 0..10 {
        state.create_superposition(&mut rng).unwrap();
        let measurement_id = format!("measurement_{}", i);
        let result = state.measure(measurement_id, &mut rng).unwrap();
        measurements.push(result);
    }
    assert_eq!(measurements.len(), 10);
    for measurement in measurements {
        assert_eq!(measurement.len(), 2);
        for bit in measurement {
            assert!(bit == 0 || bit == 1);
        }
    }
}

#[test]
fn test_quantum_teleportation() {
    let mut core = QuantumCore::new(3, 15);
    let state_id = core.create_comm_state("teleport_test".to_string(), 3).unwrap();
    let teleport_op = QuantumOperation::Teleport { source: 0, target: 1 };
    let result = core.perform_operation(&state_id, teleport_op).unwrap();
    assert!(!result.is_empty());
    for bit in result {
        assert!(bit == 0 || bit == 1);
    }
}

#[test]
fn test_enhanced_gates() {
    let mut state = QuantumState::new("gate_test".to_string(), 2);
    state.apply_gate(QuantumGate::PauliY, &[0]).unwrap();
    state.apply_gate(QuantumGate::TGate, &[0]).unwrap();
    state.apply_gate(QuantumGate::SGate, &[1]).unwrap();
    assert!(state.fidelity_ppb() > 990_000_000);
    assert_eq!(state.phases.len(), state.amplitudes.len());
}

#[test]
fn test_bell_state_creation() {
    let mut core = QuantumCore::new(2, 16);
    let state_id = core.create_comm_state("bell_test".to_string(), 2).unwrap();
    let bell_op = QuantumOperation::CreateBellState { qubit1: 0, qubit2: 1 };
    let result = core.perform_operation(&state_id, bell_op).unwrap();
    assert_eq!(result, vec![1]);
    let state_info = core.get_state_info(&state_id).unwrap();
    assert!(state_info.fidelity_ppb() > 990_000_000);
}

#[test]
fn test_hardware_interface() {
    let mut interface = QuantumHardwareInterface::new();
    let detected = interface.detect_hardware().unwrap();
    assert!(!detected);
    let status = interface.get_status();
    assert!(!status.available);
    assert_eq!(status.architecture, "Perfect Fidelity Simulation");
    assert_eq!(status.qubits, 16);
}

#[test]
fn test_health_status_display() {
    assert_eq!(HealthStatus::Healthy.to_string(), "HEALTHY");
    assert_eq!(HealthStatus::Warning.to_string(), "WARNING");
    assert_eq!(HealthStatus::Critical.to_string(), "CRITICAL");
}
