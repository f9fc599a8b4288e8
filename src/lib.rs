//! Exact simulation of a small multi-qubit register, the gates and
//! measurements applied to it, circuits over those gates, and the
//! orchestration layer that owns named states and circuits.
//!
//! Amplitudes are held exactly: every amplitude of a state is an integer
//! numerator over the common denominator `sqrt(2)^scale`, so the
//! normalization of a state is the integer identity
//! `sum of squared numerators == 2^scale`. Phases are whole units of
//! `1/8000` of a turn, which represents every phase the gates and the
//! superposition step produce without rounding, and are kept modulo a full
//! turn. Fidelities and rates are reported in parts per billion.
//!
//! Exactness has one price: numerators are bounded by `2^32` and the scale
//! by `64`. The Hadamard, the one gate that grows them, is refused with a
//! `QuantumOperation` error when it would pass either bound, which takes
//! some 33 Hadamards on a qubit without a measurement in between. A
//! measurement or a fresh superposition resets the scale.
//!
//! A measurement draw `d` stands for the point `u = (d + 1) / 2^64` of
//! `(0, 1]`; the outcome is the lowest index whose cumulative probability
//! reaches `u`, which gives every outcome exactly its Born probability.

mod bits;
mod outside;
mod sums;

pub mod error;
pub mod hardware;
pub mod laws;
pub mod monitor;
pub mod quantum_circuit;
pub mod quantum_core;
pub mod quantum_state;
pub mod table;

pub use error::SecureCommsError;
pub use hardware::{HardwareStatus, QuantumHardwareInterface};
pub use monitor::{HealthStatus, PoolStats};
pub use quantum_circuit::QuantumCircuit;
pub use quantum_core::{
    BellPairResult, CoreMetrics, QuantumConfig, QuantumCore, QuantumOperation,
    SystemStatus,
};
pub use quantum_state::{QuantumGate, QuantumState};
