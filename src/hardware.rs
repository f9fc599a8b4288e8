use vstd::prelude::*;
use crate::table::{latest, position, put, stored, table_view};

verus! {

/// Label of the simulated backend before detection.
pub const SIMULATION_LABEL: &'static str = "Physics-Based Quantum Simulation";

/// Label of the simulated backend once detection found no hardware.
pub const FALLBACK_LABEL: &'static str = "Perfect Fidelity Simulation";

/// Label once detection found hardware.
pub const HARDWARE_LABEL: &'static str = "Quantum Hardware Detected";

/// Qubits the simulated backend offers.
pub const SIMULATED_QUBITS: u32 = 16;

/// A snapshot of what the backend offers, for status reports.
#[derive(Debug)]
pub struct HardwareStatus {
    pub available: bool,
    pub architecture: String,
    pub qubits: u32,
    pub operations: Vec<String>,
    /// Error rate of each operation class, in parts per billion.
    pub error_rates: Vec<(String, u64)>,
}

/// Reports whether a physical backend is present, and what it offers. It
/// never enters the simulation's arithmetic.
pub struct QuantumHardwareInterface {
    hardware_available: bool,
    architecture: String,
    available_qubits: u32,
    supported_operations: Vec<String>,
    error_rates: Vec<(String, u64)>,
}

/// The names of the supported gates, as the backend reports them.
pub open spec fn supported_names() -> Seq<Seq<char>> {
    seq!["h"@, "x"@, "y"@, "z"@, "cnot"@, "t"@, "s"@, "phase"@]
}

/// The error-rate table of the simulated backend: every class error free.
pub open spec fn simulated_rates() -> Seq<(Seq<char>, u64)> {
    seq![("single_qubit"@, 0u64), ("two_qubit"@, 0u64), ("measurement"@, 0u64)]
}

/// Strings as mathematical values.
pub open spec fn names_view(v: Seq<String>) -> Seq<Seq<char>> {
    Seq::new(v.len(), |i: int| v[i]@)
}

fn supported_operation_names() -> (r: Vec<String>)
    ensures
        names_view(r@) == supported_names(),
{
    let r = vec![
        "h".to_string(),
        "x".to_string(),
        "y".to_string(),
        "z".to_string(),
        "cnot".to_string(),
        "t".to_string(),
        "s".to_string(),
        "phase".to_string(),
    ];
    assert(names_view(r@) =~= supported_names()) by {
        reveal_strlit("h");
        reveal_strlit("x");
        reveal_strlit("y");
        reveal_strlit("z");
        reveal_strlit("cnot");
        reveal_strlit("t");
        reveal_strlit("s");
        reveal_strlit("phase");
    }
    r
}

impl QuantumHardwareInterface {
    pub closed spec fn available(&self) -> bool {
        self.hardware_available
    }

    pub closed spec fn architecture_label(&self) -> Seq<char> {
        self.architecture@
    }

    pub closed spec fn qubit_capacity(&self) -> u32 {
        self.available_qubits
    }

    pub closed spec fn operation_names(&self) -> Seq<Seq<char>> {
        names_view(self.supported_operations@)
    }

    pub closed spec fn rate_table(&self) -> Seq<(Seq<char>, u64)> {
        table_view(self.error_rates@)
    }

    /// The error rate of an operation class in parts per billion; unknown
    /// classes have none.
    pub closed spec fn rate_of(&self, operation: Seq<char>) -> u64 {
        match latest(table_view(self.error_rates@), operation) {
            Some(v) => v,
            None => 0,
        }
    }

    /// The simulated backend: no hardware, every gate supported, no errors.
    pub fn new() -> (r: QuantumHardwareInterface)
        ensures
            !r.available(),
            r.architecture_label() == SIMULATION_LABEL@,
            r.qubit_capacity() == SIMULATED_QUBITS,
            r.operation_names() == supported_names(),
            r.rate_table() == simulated_rates(),
            forall|op: Seq<char>| #[trigger] r.rate_of(op) == 0,
    {
        let error_rates: Vec<(String, u64)> = vec![
            ("single_qubit".to_string(), 0),
            ("two_qubit".to_string(), 0),
            ("measurement".to_string(), 0),
        ];
        proof {
            reveal_strlit("single_qubit");
            reveal_strlit("two_qubit");
            reveal_strlit("measurement");
            assert(table_view(error_rates@) =~= simulated_rates());
        }
        let r = QuantumHardwareInterface {
            hardware_available: false,
            architecture: SIMULATION_LABEL.to_string(),
            available_qubits: SIMULATED_QUBITS,
            supported_operations: supported_operation_names(),
            error_rates,
        };
        proof {
            assert forall|op: Seq<char>| #[trigger] r.rate_of(op) == 0 by {
                let t = table_view(r.error_rates@);
                let t2 = t.drop_last();
                let t1 = t2.drop_last();
                assert(t1.drop_last() =~= Seq::<(Seq<char>, u64)>::empty());
                assert(latest(t1.drop_last(), op) is None);
                assert(latest(t1, op) is None || latest(t1, op) == Some(0u64));
                assert(latest(t2, op) is None || latest(t2, op) == Some(0u64));
                assert(latest(t, op) is None || latest(t, op) == Some(0u64));
            }
        }
        r
    }

    /// Whether a physical backend answers. No driver is wired in, so none does.
    fn detect_actual_quantum_hardware(&self) -> (r: bool)
        ensures
            !r,
    {
        false
    }

    /// Looks for a physical backend and records the answer and the label
    /// that goes with it.
    pub fn detect_hardware(&mut self) -> (r: Result<bool, crate::error::SecureCommsError>)
        ensures
            r == Ok::<bool, crate::error::SecureCommsError>(final(self).available()),
            !final(self).available(),
            final(self).architecture_label() == FALLBACK_LABEL@,
            final(self).qubit_capacity() == old(self).qubit_capacity(),
            final(self).operation_names() == old(self).operation_names(),
            final(self).rate_table() == old(self).rate_table(),
            forall|op: Seq<char>| #[trigger] final(self).rate_of(op) == old(self).rate_of(op),
    {
        self.hardware_available = self.detect_actual_quantum_hardware();
        self.architecture = if self.hardware_available {
            HARDWARE_LABEL.to_string()
        } else {
            FALLBACK_LABEL.to_string()
        };
        Ok(self.hardware_available)
    }

    /// A snapshot of availability, label, capacity, gates and error rates.
    pub fn get_status(&self) -> (r: HardwareStatus)
        ensures
            r.available == self.available(),
            r.architecture@ == self.architecture_label(),
            r.qubits == self.qubit_capacity(),
            table_view(r.error_rates@) == self.rate_table(),
            names_view(r.operations@) == self.operation_names(),
    {
        let mut operations: Vec<String> = Vec::new();
        for i in 0..self.supported_operations.len()
            invariant
                names_view(operations@) == names_view(self.supported_operations@).take(i as int),
        {
            let ghost before = operations@;
            let name = self.supported_operations[i].clone();
            assert(name@ == self.supported_operations@[i as int]@);
            operations.push(name);
            assert(names_view(operations@) =~= names_view(before).push(name@));
            assert(names_view(operations@) =~= names_view(self.supported_operations@).take(i + 1));
        }
        assert(names_view(self.supported_operations@).take(self.supported_operations@.len() as int)
            =~= names_view(self.supported_operations@));
        let mut error_rates: Vec<(String, u64)> = Vec::new();
        for i in 0..self.error_rates.len()
            invariant
                table_view(error_rates@) == table_view(self.error_rates@).take(i as int),
        {
            let ghost before = error_rates@;
            let name = self.error_rates[i].0.clone();
            assert(name@ == self.error_rates@[i as int].0@);
            error_rates.push((name, self.error_rates[i].1));
            assert(table_view(error_rates@) =~= table_view(before).push((name@, self.error_rates@[i as int].1)));
            assert(table_view(error_rates@) =~= table_view(self.error_rates@).take(i + 1));
        }
        assert(table_view(self.error_rates@).take(self.error_rates@.len() as int) =~= table_view(
            self.error_rates@,
        ));
        HardwareStatus {
            available: self.hardware_available,
            architecture: self.architecture.clone(),
            qubits: self.available_qubits,
            operations,
            error_rates,
        }
    }

    /// The error rate of an operation class, in parts per billion.
    pub fn get_error_rate(&self, operation: &str) -> (r: u64)
        ensures
            r == self.rate_of(operation@),
    {
        let key = operation.to_owned();
        match position(&self.error_rates, &key) {
            Some(i) => self.error_rates[i].1,
            None => 0,
        }
    }

    /// Sets the error rate of an operation class, in parts per billion.
    pub fn update_error_rate(&mut self, operation: &str, error_rate_ppb: u64)
        ensures
            final(self).rate_of(operation@) == error_rate_ppb,
            forall|op: Seq<char>| op != operation@ ==> #[trigger] final(self).rate_of(op) == old(self).rate_of(op),
            final(self).available() == old(self).available(),
            final(self).architecture_label() == old(self).architecture_label(),
            final(self).qubit_capacity() == old(self).qubit_capacity(),
    {
        put(&mut self.error_rates, operation.to_owned(), error_rate_ppb);
        assert(stored(self.error_rates@, old(self).error_rates@, operation@, error_rate_ppb));
    }
}

impl Default for QuantumHardwareInterface {
    fn default() -> (r: QuantumHardwareInterface)
        ensures
            !r.available(),
            r.qubit_capacity() == SIMULATED_QUBITS,
    {
        QuantumHardwareInterface::new()
    }
}

} // verus!
