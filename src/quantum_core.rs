use vstd::prelude::*;
use rand::rngs::StdRng;
use crate::bits::dim;
use crate::error::SecureCommsError;
use crate::hardware::{names_view, HardwareStatus, QuantumHardwareInterface};
use crate::quantum_circuit::{lemma_run_succeeds, step_in_range, apply_steps, lemma_run_wf, ops_view, run, GateOp, QuantumCircuit};
use crate::quantum_state::{
    basis, fidelity_ppb_of, gate_model, hadamard_fits, outcome, outcome_bits, superposition, QuantumGate,
    QuantumState, Register, MAX_STATE_QUBITS,
};
use crate::table::{stored, table_view, entries, find_entry, latest, lemma_latest_at, lemma_latest_some, put_entry, unique_keys};

verus! {

/// Settings of a core. Fidelities are in parts per billion.
#[derive(Debug, Clone)]
pub struct QuantumConfig {
    pub max_qubits: u32,
    pub enable_hardware: bool,
    pub fidelity_threshold_ppb: u64,
    pub enable_error_correction: bool,
    pub max_circuit_depth: u32,
    pub cleanup_interval_seconds: u64,
}

impl Default for QuantumConfig {
    fn default() -> (r: QuantumConfig)
        ensures
            r.max_qubits == 4,
            r.enable_hardware,
            r.fidelity_threshold_ppb == 1_000_000_000,
            !r.enable_error_correction,
            r.max_circuit_depth == 100,
            r.cleanup_interval_seconds == 300,
    {
        QuantumConfig {
            max_qubits: 4,
            enable_hardware: true,
            fidelity_threshold_ppb: 1_000_000_000,
            enable_error_correction: false,
            max_circuit_depth: 100,
            cleanup_interval_seconds: 300,
        }
    }
}

/// Owns the named states and circuits, the random source, and the backend
/// report. States and circuits are keyed by caller-chosen ids; creating one
/// under an id in use replaces the earlier one.
pub struct QuantumCore {
    states: Vec<(String, QuantumState)>,
    circuits: Vec<(String, QuantumCircuit)>,
    rng: StdRng,
    max_qubits: u32,
    hardware_interface: QuantumHardwareInterface,
    hardware_enabled: bool,
    total_measurements: u64,
    total_quantum_operations: u64,
}

proof fn lemma_replace_value<V>(t: Seq<(String, V)>, i: int, v: V)
    requires
        unique_keys(t),
        0 <= i < t.len(),
    ensures
        unique_keys(t.update(i, (t[i].0, v))),
        forall|k: Seq<char>|
            #[trigger] latest(entries(t.update(i, (t[i].0, v))), k) == if k == t[i].0@ {
                Some(v)
            } else {
                latest(entries(t), k)
            },
{
    let u = t.update(i, (t[i].0, v));
    assert forall|k: Seq<char>| #[trigger] latest(entries(u), k) == if k == t[i].0@ {
        Some(v)
    } else {
        latest(entries(t), k)
    } by {
        if k == t[i].0@ {
            lemma_latest_at(u, i);
        } else {
            lemma_other_key(t, i, v, k);
        }
    }
}

proof fn lemma_other_key<V>(t: Seq<(String, V)>, i: int, v: V, k: Seq<char>)
    requires
        0 <= i < t.len(),
        k != t[i].0@,
    ensures
        latest(entries(t.update(i, (t[i].0, v))), k) == latest(entries(t), k),
    decreases t.len(),
{
    let u = t.update(i, (t[i].0, v));
    if t.len() > 0 {
        assert(entries(u).drop_last() =~= entries(u.drop_last()));
        assert(entries(t).drop_last() =~= entries(t.drop_last()));
        if i < t.len() - 1 {
            assert(u.drop_last() =~= t.drop_last().update(i, (t[i].0, v)));
            lemma_other_key(t.drop_last(), i, v, k);
        } else {
            assert(u.drop_last() =~= t.drop_last());
        }
    }
}

impl QuantumCore {
    /// The state under an id.
    pub closed spec fn state(&self, id: Seq<char>) -> Option<QuantumState> {
        latest(entries(self.states@), id)
    }

    /// The circuit under an id.
    pub closed spec fn circuit(&self, id: Seq<char>) -> Option<QuantumCircuit> {
        latest(entries(self.circuits@), id)
    }

    /// The largest qubit count a state or circuit may have.
    pub closed spec fn qubit_limit(&self) -> u32 {
        self.max_qubits
    }

    pub closed spec fn state_count(&self) -> nat {
        self.states@.len()
    }

    pub closed spec fn circuit_count(&self) -> nat {
        self.circuits@.len()
    }

    pub closed spec fn wf(&self) -> bool {
        &&& self.max_qubits <= MAX_STATE_QUBITS
        &&& unique_keys(self.states@)
        &&& unique_keys(self.circuits@)
        &&& forall|i: int| 0 <= i < self.states@.len() ==> (#[trigger] self.states@[i]).1.wf()
        &&& forall|i: int| 0 <= i < self.circuits@.len() ==> (#[trigger] self.circuits@[i]).1.wf()
    }

    /// A core for registers of at most `max_qubits` qubits, with its random
    /// source seeded from `seed`.
    pub fn new(max_qubits: u32, seed: u64) -> (r: QuantumCore)
        requires
            max_qubits <= MAX_STATE_QUBITS,
        ensures
            r.wf(),
            r.qubit_limit() == max_qubits,
            forall|id: Seq<char>| #[trigger] r.state(id) is None,
            forall|id: Seq<char>| #[trigger] r.circuit(id) is None,
            r.state_count() == 0,
            r.circuit_count() == 0,
            !r.hardware_detected(),
            !r.backend().available(),
            r.backend().architecture_label() == crate::hardware::FALLBACK_LABEL@,
            r.backend().qubit_capacity() == crate::hardware::SIMULATED_QUBITS,
            r.backend().operation_names() == crate::hardware::supported_names(),
            r.backend().rate_table() == crate::hardware::simulated_rates(),
            r.measurement_count() == 0,
            r.operation_count() == 0,
    {
        let mut hardware_interface = QuantumHardwareInterface::new();
        let hardware_enabled = match hardware_interface.detect_hardware() {
            Ok(found) => found,
            Err(_) => false,
        };
        let r = QuantumCore {
            states: Vec::new(),
            circuits: Vec::new(),
            rng: crate::outside::seeded_rng(seed),
            max_qubits,
            hardware_interface,
            hardware_enabled,
            total_measurements: 0,
            total_quantum_operations: 0,
        };
        r
    }

    /// The position of the state under `id`, or the error for a missing one.
    fn state_slot(&self, id: &str) -> (r: Result<usize, SecureCommsError>)
        requires
            self.wf(),
        ensures
            r is Err <==> self.state(id@) is None,
            r is Err ==> r->Err_0 is QuantumOperation,
            r is Ok ==> r->Ok_0 < self.states@.len() && self.states@[r->Ok_0 as int].0@ == id@
                && self.state(id@) == Some(self.states@[r->Ok_0 as int].1),
    {
        let key = id.to_owned();
        match find_entry(&self.states, &key) {
            Some(i) => Ok(i),
            None => Err(SecureCommsError::quantum("State not found")),
        }
    }

    /// Creates the fresh state `|0...0>` under `state_id`, stamped
    /// `created_at`; it fails when `qubit_count` exceeds the limit.
    pub fn create_comm_state_at(
        &mut self,
        state_id: String,
        qubit_count: u32,
        created_at: u64,
    ) -> (r: Result<String, SecureCommsError>)
        requires
            old(self).wf(),
        ensures
            final(self).wf(),
            r is Err <==> qubit_count > old(self).qubit_limit(),
            r is Err ==> r->Err_0 is QuantumOperation && *final(self) == *old(self),
            r is Ok ==> ({
                let s = final(self).state(state_id@)->Some_0;
                &&& r->Ok_0@ == state_id@
                &&& final(self).state(state_id@) is Some
                &&& s@ == basis(dim(qubit_count) as nat, 0)
                &&& s.id@ == state_id@
                &&& s.qubit_count == qubit_count
                &&& s.created_at == created_at
                &&& s.measurements@.len() == 0
            }),
            forall|k: Seq<char>| k != state_id@ ==> #[trigger] final(self).state(k) == old(self).state(k),
            forall|k: Seq<char>| #[trigger] final(self).circuit(k) == old(self).circuit(k),
            final(self).qubit_limit() == old(self).qubit_limit(),
    {
        if qubit_count > self.max_qubits {
            return Err(SecureCommsError::quantum("Requested qubits exceeds maximum"));
        }
        let state = QuantumState::new_at(state_id.clone(), qubit_count, created_at);
        let ghost before = self.states@;
        put_entry(&mut self.states, state_id.clone(), state);
        proof {
            assert forall|i: int| 0 <= i < self.states@.len() implies (#[trigger] self.states@[i]).1.wf() by {
                lemma_latest_at(self.states@, i);
                let k = self.states@[i].0@;
                if k != state_id@ {
                    lemma_latest_some(before, k);
                }
            }
        }
        Ok(state_id)
    }

    /// Creates the fresh state `|0...0>` under `state_id`, stamped with the
    /// current time; it fails when `qubit_count` exceeds the limit.
    pub fn create_comm_state(
        &mut self,
        state_id: String,
        qubit_count: u32,
    ) -> (r: Result<String, SecureCommsError>)
        requires
            old(self).wf(),
        ensures
            final(self).wf(),
            r is Err <==> qubit_count > old(self).qubit_limit(),
            r is Err ==> r->Err_0 is QuantumOperation && *final(self) == *old(self),
            r is Ok ==> ({
                let s = final(self).state(state_id@)->Some_0;
                &&& r->Ok_0@ == state_id@
                &&& final(self).state(state_id@) is Some
                &&& s@ == basis(dim(qubit_count) as nat, 0)
                &&& s.id@ == state_id@
                &&& s.qubit_count == qubit_count
                &&& s.measurements@.len() == 0
            }),
            forall|k: Seq<char>| k != state_id@ ==> #[trigger] final(self).state(k) == old(self).state(k),
            forall|k: Seq<char>| #[trigger] final(self).circuit(k) == old(self).circuit(k),
            final(self).qubit_limit() == old(self).qubit_limit(),
    {
        let now = crate::outside::now_seconds();
        self.create_comm_state_at(state_id, qubit_count, now)
    }
}

/// The states held after the one at `i` became `s`.
proof fn lemma_state_replaced(
    before: Seq<(String, QuantumState)>,
    after: Seq<(String, QuantumState)>,
    i: int,
    s: QuantumState,
)
    requires
        unique_keys(before),
        forall|j: int| 0 <= j < before.len() ==> (#[trigger] before[j]).1.wf(),
        0 <= i < before.len(),
        after == before.update(i, (before[i].0, s)),
        s.wf(),
    ensures
        unique_keys(after),
        forall|j: int| 0 <= j < after.len() ==> (#[trigger] after[j]).1.wf(),
        latest(entries(after), before[i].0@) == Some(s),
        forall|k: Seq<char>| k != before[i].0@ ==> #[trigger] latest(entries(after), k) == latest(entries(before), k),
{
    lemma_replace_value(before, i, s);
    assert forall|j: int| 0 <= j < after.len() implies (#[trigger] after[j]).1.wf() by {
        if j != i {
            assert(after[j] == before[j]);
        }
    }
}

/// The plan of a Bell pair on two qubits: a Hadamard on the first, then a
/// CNOT from the first to the second.
pub open spec fn bell_plan(q1: u32, q2: u32) -> Seq<GateOp> {
    seq![(QuantumGate::Hadamard, seq![q1]), (QuantumGate::CNOT, seq![q1, q2])]
}

fn bell_steps(q1: u32, q2: u32) -> (r: Vec<(QuantumGate, Vec<u32>)>)
    ensures
        ops_view(r@) == bell_plan(q1, q2),
{
    let r = vec![(QuantumGate::Hadamard, vec![q1]), (QuantumGate::CNOT, vec![q1, q2])];
    assert(ops_view(r@)[0].1 =~= seq![q1]);
    assert(ops_view(r@)[1].1 =~= seq![q1, q2]);
    assert(ops_view(r@) =~= bell_plan(q1, q2));
    r
}

impl QuantumCore {
    /// Applies the steps of a plan to the state at position `i`.
    fn apply_plan_at(
        &mut self,
        i: usize,
        plan: &Vec<(QuantumGate, Vec<u32>)>,
    ) -> (r: Result<(), SecureCommsError>)
        requires
            old(self).wf(),
            i < old(self).states@.len(),
        ensures
            final(self).wf(),
            ({
                let key = old(self).states@[i as int].0@;
                let s = old(self).states@[i as int].1;
                let t = final(self).state(key)->Some_0;
                &&& final(self).state(key) is Some
                &&& t.same_identity(&s)
                &&& t@ == run(s.qubit_count, s@, ops_view(plan@)).0
                &&& (r is Ok <==> run(s.qubit_count, s@, ops_view(plan@)).1)
                &&& final(self).states@.len() == old(self).states@.len()
                &&& final(self).states@[i as int].0@ == key
                &&& forall|k: Seq<char>| k != key ==> #[trigger] final(self).state(k) == old(self).state(k)
            }),
            r is Err ==> r->Err_0 is QuantumOperation,
            forall|k: Seq<char>| #[trigger] final(self).circuit(k) == old(self).circuit(k),
            final(self).qubit_limit() == old(self).qubit_limit(),
            final(self).rest_kept(old(self)),
    {
        let ghost before = self.states@;
        assert(before[i as int].1.wf());
        let r = apply_steps(plan, &mut self.states[i].1);
        proof {
            lemma_state_replaced(before, self.states@, i as int, self.states@[i as int].1);
        }
        r
    }

    /// Everything but the states and circuits is as in `other`.
    closed spec fn rest_kept(&self, other: &QuantumCore) -> bool {
        &&& self.max_qubits == other.max_qubits
        &&& self.hardware_enabled == other.hardware_enabled
        &&& self.total_measurements == other.total_measurements
        &&& self.total_quantum_operations == other.total_quantum_operations
    }

    /// Prepares a Bell pair on qubits 0 and 1 of the state under `state_id`.
    /// It fails when the state is missing or has fewer than two qubits, or
    /// when a gate of the plan fails.
    pub fn create_entangled_state(&mut self, state_id: &str) -> (r: Result<(), SecureCommsError>)
        requires
            old(self).wf(),
        ensures
            final(self).wf(),
            r is Err ==> r->Err_0 is QuantumOperation,
            match old(self).state(state_id@) {
                None => r is Err && final(self).state(state_id@) is None,
                Some(s) => {
                    let t = final(self).state(state_id@)->Some_0;
                    &&& final(self).state(state_id@) is Some
                    &&& t.same_identity(&s)
                    &&& (s.qubit_count < 2 ==> r is Err && t == s)
                    &&& (s.qubit_count >= 2 ==> {
                        &&& t@ == run(s.qubit_count, s@, bell_plan(0, 1)).0
                        &&& (r is Ok <==> run(s.qubit_count, s@, bell_plan(0, 1)).1)
                    })
                    &&& (s.qubit_count >= 2 && hadamard_fits(s@, 0) ==> r is Ok)
                },
            },
            forall|k: Seq<char>| k != state_id@ ==> #[trigger] final(self).state(k) == old(self).state(k),
            forall|k: Seq<char>| #[trigger] final(self).circuit(k) == old(self).circuit(k),
            final(self).qubit_limit() == old(self).qubit_limit(),
    {
        let i = match self.state_slot(state_id) {
            Ok(i) => i,
            Err(e) => return Err(e),
        };
        if self.states[i].1.qubit_count < 2 {
            return Err(SecureCommsError::quantum("Need at least 2 qubits for entanglement"));
        }
        proof {
            let st = self.states@[i as int].1;
            if hadamard_fits(st@, 0) {
                lemma_bell_succeeds(st.qubit_count, st@, 0, 1);
            }
        }
        let plan = bell_steps(0, 1);
        self.apply_plan_at(i, &plan)
    }

    /// Creates an empty circuit under `circuit_id`, replacing one there; it
    /// fails when `qubit_count` exceeds the limit.
    pub fn create_circuit(
        &mut self,
        circuit_id: String,
        qubit_count: u32,
    ) -> (r: Result<String, SecureCommsError>)
        requires
            old(self).wf(),
        ensures
            final(self).wf(),
            r is Err <==> qubit_count > old(self).qubit_limit(),
            r is Err ==> r->Err_0 is QuantumOperation && *final(self) == *old(self),
            r is Ok ==> ({
                let c = final(self).circuit(circuit_id@)->Some_0;
                &&& r->Ok_0@ == circuit_id@
                &&& final(self).circuit(circuit_id@) is Some
                &&& c.id@ == circuit_id@
                &&& c.qubit_count == qubit_count
                &&& c.ops().len() == 0
                &&& c.wf()
                &&& c.depth == 0
                &&& c.expected_fidelity_ppb == crate::quantum_circuit::PERFECT_FIDELITY_PPB
            }),
            forall|k: Seq<char>| k != circuit_id@ ==> #[trigger] final(self).circuit(k) == old(self).circuit(k),
            forall|k: Seq<char>| #[trigger] final(self).state(k) == old(self).state(k),
            final(self).qubit_limit() == old(self).qubit_limit(),
    {
        if qubit_count > self.max_qubits {
            return Err(SecureCommsError::quantum("Requested qubits exceeds maximum"));
        }
        let circuit = QuantumCircuit::new(circuit_id.clone(), qubit_count);
        let ghost before = self.circuits@;
        put_entry(&mut self.circuits, circuit_id.clone(), circuit);
        proof {
            assert forall|i: int| 0 <= i < self.circuits@.len() implies (#[trigger] self.circuits@[i]).1.wf() by {
                lemma_latest_at(self.circuits@, i);
                let k = self.circuits@[i].0@;
                if k != circuit_id@ {
                    lemma_latest_some(before, k);
                }
            }
        }
        Ok(circuit_id)
    }

    /// Appends a gate to the circuit under `circuit_id`. It fails when the
    /// circuit is missing, when an operand is out of the circuit's range, or
    /// when the circuit's depth is at its largest value.
    pub fn add_gate_to_circuit(
        &mut self,
        circuit_id: &str,
        gate: QuantumGate,
        qubits: Vec<u32>,
    ) -> (r: Result<(), SecureCommsError>)
        requires
            old(self).wf(),
        ensures
            final(self).wf(),
            r is Err ==> r->Err_0 is QuantumOperation,
            match old(self).circuit(circuit_id@) {
                None => r is Err && final(self).circuit(circuit_id@) is None,
                Some(c) => {
                    let d = final(self).circuit(circuit_id@)->Some_0;
                    let accepted = c.ops().len() < u32::MAX && forall|i: int|
                        0 <= i < qubits@.len() ==> #[trigger] qubits@[i] < c.qubit_count;
                    &&& final(self).circuit(circuit_id@) is Some
                    &&& d.id@ == c.id@
                    &&& d.qubit_count == c.qubit_count
                    &&& (r is Ok <==> accepted)
                    &&& (r is Ok ==> d.ops() == c.ops().push((gate, qubits@)))
                    &&& (r is Err ==> d.ops() == c.ops())
                },
            },
            forall|k: Seq<char>| k != circuit_id@ ==> #[trigger] final(self).circuit(k) == old(self).circuit(k),
            forall|k: Seq<char>| #[trigger] final(self).state(k) == old(self).state(k),
            final(self).qubit_limit() == old(self).qubit_limit(),
    {
        let key = circuit_id.to_owned();
        let i = match find_entry(&self.circuits, &key) {
            Some(i) => i,
            None => return Err(SecureCommsError::quantum("Circuit not found")),
        };
        if self.circuits[i].1.operations.len() >= 0xFFFF_FFFF {
            return Err(SecureCommsError::quantum("Circuit depth limit reached"));
        }
        let ghost before = self.circuits@;
        assert(before[i as int].1.wf());
        let r = self.circuits[i].1.add_gate(gate, qubits);
        proof {
            let c = self.circuits@[i as int].1;
            lemma_replace_value(before, i as int, c);
            assert(self.circuits@ == before.update(i as int, (before[i as int].0, c)));
            assert forall|j: int| 0 <= j < self.circuits@.len() implies (#[trigger] self.circuits@[j]).1.wf() by {
                if j != i {
                    assert(self.circuits@[j] == before[j]);
                }
            }
        }
        r
    }

    /// Runs the circuit under `circuit_id` on the state under `state_id`,
    /// stopping at the first step the state refuses. It fails when either
    /// is missing, or when a step fails; the steps before it stay applied.
    pub fn execute_circuit(
        &mut self,
        circuit_id: &str,
        state_id: &str,
    ) -> (r: Result<(), SecureCommsError>)
        requires
            old(self).wf(),
        ensures
            final(self).wf(),
            r is Err ==> r->Err_0 is QuantumOperation,
            old(self).circuit(circuit_id@) is None ==> r is Err && *final(self) == *old(self),
            old(self).state(state_id@) is None ==> r is Err && *final(self) == *old(self),
            old(self).circuit(circuit_id@) is Some && old(self).state(state_id@) is Some ==> ({
                let c = old(self).circuit(circuit_id@)->Some_0;
                let s = old(self).state(state_id@)->Some_0;
                let t = final(self).state(state_id@)->Some_0;
                &&& final(self).state(state_id@) is Some
                &&& t.same_identity(&s)
                &&& t@ == run(s.qubit_count, s@, c.ops()).0
                &&& (r is Ok <==> run(s.qubit_count, s@, c.ops()).1)
            }),
            forall|k: Seq<char>| k != state_id@ ==> #[trigger] final(self).state(k) == old(self).state(k),
            forall|k: Seq<char>| #[trigger] final(self).circuit(k) == old(self).circuit(k),
            final(self).qubit_limit() == old(self).qubit_limit(),
    {
        let key = circuit_id.to_owned();
        let c = match find_entry(&self.circuits, &key) {
            Some(c) => c,
            None => return Err(SecureCommsError::quantum("Circuit not found")),
        };
        let i = match self.state_slot(state_id) {
            Ok(i) => i,
            Err(e) => return Err(e),
        };
        let ghost before = self.states@;
        assert(before[i as int].1.wf());
        let r = apply_steps(&self.circuits[c].1.operations, &mut self.states[i].1);
        proof {
            lemma_state_replaced(before, self.states@, i as int, self.states@[i as int].1);
        }
        r
    }

    /// The state under `state_id`.
    pub fn get_state_info(&self, state_id: &str) -> (r: Option<&QuantumState>)
        requires
            self.wf(),
        ensures
            match self.state(state_id@) {
                None => r is None,
                Some(s) => r is Some && *r->Some_0 == s,
            },
    {
        let key = state_id.to_owned();
        match find_entry(&self.states, &key) {
            Some(i) => Some(&self.states[i].1),
            None => None,
        }
    }
}

/// A state created at `created_at` is at least `max_age` seconds old at `now`.
pub open spec fn expired(created_at: u64, now: u64, max_age: u64) -> bool {
    created_at <= now && now - created_at >= max_age
}

/// What the state under an id is after the sweep.
pub open spec fn after_sweep(
    before: Option<QuantumState>,
    now: u64,
    max_age: u64,
) -> Option<QuantumState> {
    match before {
        Some(s) => if expired(s.created_at, now, max_age) {
            None
        } else {
            before
        },
        None => None,
    }
}

proof fn lemma_sweep_result(
    orig: Seq<(String, QuantumState)>,
    kept: Seq<(String, QuantumState)>,
    src: Seq<int>,
    now: u64,
    max_age: u64,
)
    requires
        unique_keys(orig),
        forall|j: int| 0 <= j < orig.len() ==> (#[trigger] orig[j]).1.wf(),
        kept.len() == src.len(),
        forall|m: int| 0 <= m < src.len() ==> 0 <= #[trigger] src[m] < orig.len() && kept[m] == orig[src[m]]
            && !expired(orig[src[m]].1.created_at, now, max_age),
        forall|m1: int, m2: int| 0 <= m1 < m2 < src.len() ==> #[trigger] src[m1] > #[trigger] src[m2],
        forall|j: int| 0 <= j < orig.len() && !expired(#[trigger] orig[j].1.created_at, now, max_age)
            ==> exists|m: int| 0 <= m < src.len() && src[m] == j,
    ensures
        unique_keys(kept),
        forall|m: int| 0 <= m < kept.len() ==> (#[trigger] kept[m]).1.wf(),
        forall|k: Seq<char>| #[trigger] latest(entries(kept), k) == after_sweep(latest(entries(orig), k), now, max_age),
{
    assert forall|m1: int, m2: int| 0 <= m1 < m2 < kept.len() implies #[trigger] kept[m1].0@ != #[trigger] kept[m2].0@ by {
        assert(src[m1] > src[m2]);
        assert(orig[src[m2]].0@ != orig[src[m1]].0@);
    }
    assert forall|m: int| 0 <= m < kept.len() implies (#[trigger] kept[m]).1.wf() by {
        assert(0 <= src[m] < orig.len());
        assert(orig[src[m]].1.wf());
    }
    assert forall|k: Seq<char>| #[trigger] latest(entries(kept), k) == after_sweep(latest(entries(orig), k), now, max_age) by {
        if latest(entries(orig), k) is Some {
            lemma_latest_some(orig, k);
            let j = choose|j: int| 0 <= j < orig.len() && #[trigger] orig[j].0@ == k && latest(entries(orig), k) == Some(orig[j].1);
            if expired(orig[j].1.created_at, now, max_age) {
                assert forall|m: int| 0 <= m < kept.len() implies #[trigger] kept[m].0@ != k by {
                    assert(0 <= src[m] < orig.len());
                    if src[m] != j {
                        assert(orig[src[m]].0@ != orig[j].0@);
                    }
                }
                crate::table::lemma_latest_absent(kept, k);
            } else {
                let m = choose|m: int| 0 <= m < src.len() && src[m] == j;
                lemma_latest_at(kept, m);
            }
        } else {
            assert forall|m: int| 0 <= m < kept.len() implies #[trigger] kept[m].0@ != k by {
                assert(0 <= src[m] < orig.len());
                if kept[m].0@ == k {
                    lemma_latest_at(orig, src[m]);
                }
            }
            crate::table::lemma_latest_absent(kept, k);
        }
    }
}

impl QuantumCore {
    /// Each state is as the age sweep at `now` leaves it.
    pub open spec fn swept_from(&self, before: &QuantumCore, now: u64, max_age: u64) -> bool {
        forall|k: Seq<char>| #[trigger] self.state(k) == after_sweep(before.state(k), now, max_age)
    }

    /// Removes every state that is at least `max_age_seconds` old at `now`,
    /// and keeps all others.
    pub fn cleanup_states_older_than(&mut self, max_age_seconds: u64, now: u64)
        requires
            old(self).wf(),
        ensures
            final(self).wf(),
            final(self).swept_from(old(self), now, max_age_seconds),
            forall|k: Seq<char>| #[trigger] final(self).circuit(k) == old(self).circuit(k),
            final(self).qubit_limit() == old(self).qubit_limit(),
    {
        let mut rest: Vec<(String, QuantumState)> = Vec::new();
        std::mem::swap(&mut self.states, &mut rest);
        let ghost orig = rest@;
        let mut kept: Vec<(String, QuantumState)> = Vec::new();
        let ghost mut src: Seq<int> = Seq::empty();
        while rest.len() > 0
            invariant
                rest@ == orig.take(rest@.len() as int),
                rest@.len() <= orig.len(),
                kept@.len() == src.len(),
                forall|m: int| 0 <= m < src.len() ==> rest@.len() <= #[trigger] src[m] < orig.len()
                    && kept@[m] == orig[src[m]] && !expired(orig[src[m]].1.created_at, now, max_age_seconds),
                forall|m1: int, m2: int| 0 <= m1 < m2 < src.len() ==> #[trigger] src[m1] > #[trigger] src[m2],
                forall|j: int| rest@.len() <= j < orig.len() && !expired(#[trigger] orig[j].1.created_at, now, max_age_seconds)
                    ==> exists|m: int| 0 <= m < src.len() && src[m] == j,
            decreases rest@.len(),
        {
            let ghost at = rest@.len() - 1;
            let entry = match rest.pop() {
                Some(e) => e,
                None => return,
            };
            assert(entry == orig[at]);
            assert(rest@ =~= orig.take(at));
            let created = entry.1.created_at;
            if !(created <= now && now - created >= max_age_seconds) {
                kept.push(entry);
                proof {
                    let old_src = src;
                    src = src.push(at);
                    assert forall|j: int| rest@.len() <= j < orig.len() && !expired(#[trigger] orig[j].1.created_at, now, max_age_seconds)
                        implies exists|m: int| 0 <= m < src.len() && src[m] == j by {
                        if j == at {
                            assert(src[src.len() - 1] == j);
                        } else {
                            let m = choose|m: int| 0 <= m < old_src.len() && old_src[m] == j;
                            assert(src[m] == j);
                        }
                    }
                }
            }
        }
        assert(orig.take(0) =~= Seq::<(String, QuantumState)>::empty());
        proof {
            lemma_sweep_result(orig, kept@, src, now, max_age_seconds);
        }
        self.states = kept;
    }

    /// Removes every state that is at least `max_age_seconds` old now.
    pub fn cleanup_old_states(&mut self, max_age_seconds: u64)
        requires
            old(self).wf(),
        ensures
            final(self).wf(),
            exists|now: u64| #[trigger] final(self).swept_from(old(self), now, max_age_seconds),
            forall|k: Seq<char>| #[trigger] final(self).circuit(k) == old(self).circuit(k),
            final(self).qubit_limit() == old(self).qubit_limit(),
    {
        let now = crate::outside::now_seconds();
        self.cleanup_states_older_than(max_age_seconds, now);
    }
}

/// A measurement key: `prefix` followed by the current time in seconds.
fn stamped_key(prefix: String) -> (r: String)
    ensures
        r@.len() >= prefix@.len(),
        r@.subrange(0, prefix@.len() as int) == prefix@,
{
    let now = crate::outside::now_seconds();
    let mut key = prefix;
    let ghost start = key@;
    key.append(now.to_string().as_str());
    assert(key@.subrange(0, start.len() as int) =~= start);
    key
}

/// `after` is `before` with `bits` cached under a key that starts with
/// `prefix`.
pub open spec fn cached_under_prefix(
    after: Seq<(String, Vec<u8>)>,
    before: Seq<(String, Vec<u8>)>,
    prefix: Seq<char>,
    bits: Seq<u8>,
) -> bool {
    exists|key: Seq<char>|
        key.len() >= prefix.len() && key.subrange(0, prefix.len() as int) == prefix
            && #[trigger] stored(after, before, key, bits)
}

impl QuantumCore {
    /// Measures the state at position `i` with a draw from the random source.
    fn measure_at(&mut self, i: usize, measurement_id: String) -> (bits: Vec<u8>)
        requires
            old(self).wf(),
            i < old(self).states@.len(),
        ensures
            final(self).wf(),
            ({
                let key = old(self).states@[i as int].0@;
                let s = old(self).states@[i as int].1;
                let t = final(self).state(key)->Some_0;
                &&& final(self).state(key) is Some
                &&& t.id@ == s.id@
                &&& t.qubit_count == s.qubit_count
                &&& t.created_at == s.created_at
                &&& exists|draw: u64|
                    #![trigger outcome(s@, draw)]
                    {
                        &&& t@ == basis(s.amplitudes@.len(), outcome(s@, draw))
                        &&& bits@ == outcome_bits(outcome(s@, draw) as usize, s.qubit_count)
                    }
                &&& crate::table::stored(t.measurements@, s.measurements@, measurement_id@, bits@)
                &&& final(self).states@.len() == old(self).states@.len()
                &&& final(self).states@[i as int].0@ == key
                &&& forall|k: Seq<char>| k != key ==> #[trigger] final(self).state(k) == old(self).state(k)
            }),
            forall|k: Seq<char>| #[trigger] final(self).circuit(k) == old(self).circuit(k),
            final(self).qubit_limit() == old(self).qubit_limit(),
    {
        let ghost before = self.states@;
        assert(before[i as int].1.wf());
        let draw = crate::outside::draw_u64(&mut self.rng);
        let bits = self.states[i].1.measure_with(measurement_id, draw);
        proof {
            lemma_state_replaced(before, self.states@, i as int, self.states@[i as int].1);
        }
        bits
    }

    /// Prepares the state under `state_id` in a uniform superposition with
    /// random phases, measures it, and returns the first `bit_count` bits of
    /// the outcome, or all of them when there are fewer. It fails when the
    /// state is missing.
    pub fn generate_quantum_random(
        &mut self,
        state_id: &str,
        bit_count: u32,
    ) -> (r: Result<Vec<u8>, SecureCommsError>)
        requires
            old(self).wf(),
        ensures
            final(self).wf(),
            r is Err ==> r->Err_0 is QuantumOperation,
            match old(self).state(state_id@) {
                None => r is Err && *final(self) == *old(self),
                Some(s) => {
                    let n = s.qubit_count;
                    let t = final(self).state(state_id@)->Some_0;
                    let wanted = if bit_count < n { bit_count } else { n };
                    &&& r is Ok
                    &&& r->Ok_0@.len() == wanted
                    &&& final(self).state(state_id@) is Some
                    &&& t.id@ == s.id@
                    &&& t.qubit_count == n
                    &&& t.created_at == s.created_at
                    &&& exists|steps: Seq<u32>, draw: u64|
                        #![trigger outcome(superposition(n, steps), draw)]
                        {
                            let k = outcome(superposition(n, steps), draw);
                            &&& t@ == basis(dim(n) as nat, k)
                            &&& r->Ok_0@ == outcome_bits(k as usize, n).take(wanted as int)
                            &&& cached_under_prefix(
                                t.measurements@,
                                s.measurements@,
                                "random_"@ + state_id@ + "_"@,
                                outcome_bits(k as usize, n),
                            )
                        }
                },
            },
            forall|k: Seq<char>| k != state_id@ ==> #[trigger] final(self).state(k) == old(self).state(k),
            forall|k: Seq<char>| #[trigger] final(self).circuit(k) == old(self).circuit(k),
            final(self).qubit_limit() == old(self).qubit_limit(),
    {
        let i = match self.state_slot(state_id) {
            Ok(i) => i,
            Err(e) => return Err(e),
        };
        proof {
            broadcast use vstd::string::to_string_from_display_ensures_for_str;
            reveal_strlit("random_");
            reveal_strlit("_");
        }
        let mut prefix = "random_".to_string();
        prefix.append(state_id);
        prefix.append("_");
        assert(prefix@ == "random_"@ + state_id@ + "_"@);
        let key = stamped_key(prefix);
        let ghost key_view = key@;
        let ghost before = self.states@;
        let ghost s = before[i as int].1;
        assert(s.wf());
        let len = self.states[i].1.amplitudes.len();
        let mut steps: Vec<u32> = Vec::new();
        for k in 0..len
            invariant
                self.states@ == before,
                self.wf(),
                self.circuits@ == old(self).circuits@,
                self.max_qubits == old(self).max_qubits,
                i < before.len(),
                len == s.amplitudes@.len(),
                before[i as int].1 == s,
                steps@.len() == k,
                forall|j: int| 0 <= j < k ==> #[trigger] steps@[j] < 1000,
        {
            steps.push(crate::outside::draw_below(&mut self.rng, 1000));
        }
        self.states[i].1.prepare_superposition(&steps);
        let ghost prepared = self.states@[i as int].1@;
        let draw = crate::outside::draw_u64(&mut self.rng);
        let ghost measured_from = self.states@[i as int].1.measurements@;
        let bits = self.states[i].1.measure_with(key, draw);
        assert(measured_from == s.measurements@);
        assert(stored(self.states@[i as int].1.measurements@, s.measurements@, key_view, bits@));
        assert(prepared == superposition(s.qubit_count, steps@));
        assert(self.states@[i as int].1@ == basis(dim(s.qubit_count) as nat, outcome(superposition(s.qubit_count, steps@), draw)));
        proof {
            assert(self.states@ =~= before.update(i as int, (before[i as int].0, self.states@[i as int].1)));
            lemma_state_replaced(before, self.states@, i as int, self.states@[i as int].1);
        }
        let n = self.states[i].1.qubit_count;
        let wanted = if bit_count < n { bit_count } else { n };
        let mut out: Vec<u8> = Vec::new();
        for t in 0..wanted
            invariant
                wanted <= n,
                bits@.len() == n,
                out@ == bits@.take(t as int),
        {
            out.push(bits[t as usize]);
            assert(out@ =~= bits@.take(t + 1));
        }
        assert(out@ == outcome_bits(outcome(superposition(n, steps@), draw) as usize, n).take(wanted as int));
        Ok(out)
    }
}

/// The protocol operations a core performs on one state.
#[derive(Debug, Clone)]
pub enum QuantumOperation {
    /// A Hadamard on the first qubit, then a CNOT from it to each other one.
    CreateEntanglement { qubits: Vec<u32> },
    /// One measurement of the whole state.
    MeasureRandom { qubits: Vec<u32> },
    /// The teleportation gate sequence, a measurement, and the corrections.
    Teleport { source: u32, target: u32 },
    /// A PauliX on every qubit whose encoding bit is one.
    PrepareCommState { encoding: Vec<u8> },
    /// A Bell pair on two qubits.
    CreateBellState { qubit1: u32, qubit2: u32 },
    /// A CNOT from every data qubit to every ancilla qubit, then a measurement.
    ErrorCorrection { data_qubits: Vec<u32>, ancilla_qubits: Vec<u32> },
}

/// The entangling plan: a Hadamard on the first qubit, then a CNOT from it
/// to each later one; nothing for fewer than two qubits.
pub open spec fn entangle_plan(qs: Seq<u32>) -> Seq<GateOp> {
    if qs.len() >= 2 {
        seq![(QuantumGate::Hadamard, seq![qs[0]])] + Seq::new(
            (qs.len() - 1) as nat,
            |i: int| (QuantumGate::CNOT, seq![qs[0], qs[i + 1]]),
        )
    } else {
        Seq::empty()
    }
}

/// A PauliX on qubit `i` for every `i < n` whose encoding bit is one.
pub open spec fn encode_plan(enc: Seq<u8>, n: u32) -> Seq<GateOp>
    decreases enc.len(),
{
    if enc.len() == 0 {
        Seq::empty()
    } else {
        let i = enc.len() - 1;
        let before = encode_plan(enc.drop_last(), n);
        if i < n && enc.last() == 1 {
            before.push((QuantumGate::PauliX, seq![i as u32]))
        } else {
            before
        }
    }
}

/// CNOTs from data qubit `d` to each ancilla, both in range.
pub open spec fn syndrome_row(d: u32, anc: Seq<u32>, n: u32) -> Seq<GateOp>
    decreases anc.len(),
{
    if anc.len() == 0 {
        Seq::empty()
    } else {
        let before = syndrome_row(d, anc.drop_last(), n);
        if d < n && anc.last() < n {
            before.push((QuantumGate::CNOT, seq![d, anc.last()]))
        } else {
            before
        }
    }
}

/// CNOTs from every data qubit to every ancilla, data qubit by data qubit.
pub open spec fn syndrome_plan(data: Seq<u32>, anc: Seq<u32>, n: u32) -> Seq<GateOp>
    decreases data.len(),
{
    if data.len() == 0 {
        Seq::empty()
    } else {
        syndrome_plan(data.drop_last(), anc, n) + syndrome_row(data.last(), anc, n)
    }
}

/// The auxiliary qubit of a teleport: the one after the source, or the
/// last qubit when there is none after it.
pub open spec fn teleport_aux(n: u32, source: u32) -> u32 {
    if n == 0 {
        0
    } else if source < n - 1 {
        (source + 1) as u32
    } else {
        (n - 1) as u32
    }
}

/// The teleport's gates before its measurement.
pub open spec fn teleport_plan(aux: u32, source: u32, target: u32) -> Seq<GateOp> {
    seq![
        (QuantumGate::Hadamard, seq![aux]),
        (QuantumGate::CNOT, seq![aux, source]),
        (QuantumGate::CNOT, seq![source, target]),
        (QuantumGate::Hadamard, seq![source]),
    ]
}

/// The teleport's corrections on the auxiliary qubit: PauliZ when the first
/// measured bit is one, then PauliX when the second is.
pub open spec fn correction_plan(bits: Seq<u8>, aux: u32) -> Seq<GateOp> {
    if bits.len() >= 2 {
        let z: Seq<GateOp> = if bits[0] == 1 { seq![(QuantumGate::PauliZ, seq![aux])] } else { Seq::empty() };
        let x: Seq<GateOp> = if bits[1] == 1 { seq![(QuantumGate::PauliX, seq![aux])] } else { Seq::empty() };
        z + x
    } else {
        Seq::empty()
    }
}

/// The gates an operation applies before it measures, if it does.
pub open spec fn op_plan(op: QuantumOperation, n: u32) -> Seq<GateOp> {
    match op {
        QuantumOperation::CreateEntanglement { qubits } => entangle_plan(qubits@),
        QuantumOperation::MeasureRandom { .. } => Seq::empty(),
        QuantumOperation::Teleport { source, target } => teleport_plan(teleport_aux(n, source), source, target),
        QuantumOperation::PrepareCommState { encoding } => encode_plan(encoding@, n),
        QuantumOperation::CreateBellState { qubit1, qubit2 } => bell_plan(qubit1, qubit2),
        QuantumOperation::ErrorCorrection { data_qubits, ancilla_qubits } => syndrome_plan(data_qubits@, ancilla_qubits@, n),
    }
}

/// Whether an operation ends with a measurement.
pub open spec fn op_measures(op: QuantumOperation) -> bool {
    op is MeasureRandom || op is Teleport || op is ErrorCorrection
}

/// The reply of an operation that does not measure.
pub open spec fn op_reply(op: QuantumOperation) -> Seq<u8> {
    match op {
        QuantumOperation::PrepareCommState { encoding } => encoding@,
        _ => seq![1u8],
    }
}

/// The prefix of the key under which a measuring operation caches its bits.
pub open spec fn measurement_prefix(op: QuantumOperation) -> Seq<char> {
    match op {
        QuantumOperation::MeasureRandom { .. } => "op_measure_"@,
        QuantumOperation::Teleport { .. } => "teleport_bell_"@,
        QuantumOperation::ErrorCorrection { .. } => "error_correction_"@,
        _ => Seq::empty(),
    }
}

/// The register after the measurement of a measuring operation, which
/// collapsed to `k` and read `bits`.
pub open spec fn after_measurement(
    op: QuantumOperation,
    n: u32,
    k: int,
    bits: Seq<u8>,
) -> Register {
    let b = basis(dim(n) as nat, k);
    match op {
        QuantumOperation::Teleport { source, .. } => run(n, b, correction_plan(bits, teleport_aux(n, source))).0,
        _ => b,
    }
}

/// Qubits the entangling plan can use: all in range, and the first one
/// takes a Hadamard within range when there is a CNOT to follow.
pub open spec fn entangle_fits(n: u32, r: Register, qs: Seq<u32>) -> bool {
    &&& forall|i: int| 0 <= i < qs.len() ==> #[trigger] qs[i] < n
    &&& (qs.len() >= 2 ==> hadamard_fits(r, qs[0]))
}

proof fn lemma_entangle_succeeds(n: u32, r: Register, qs: Seq<u32>)
    requires
        entangle_fits(n, r, qs),
    ensures
        run(n, r, entangle_plan(qs)).1,
{
    let plan = entangle_plan(qs);
    if qs.len() >= 2 {
        assert(qs[0] < n);
        assert forall|i: int| 0 <= i < plan.len() implies step_in_range(n, #[trigger] plan[i]) by {
            if i > 0 {
                assert(qs[i] < n);
                assert(plan[i] == (QuantumGate::CNOT, seq![qs[0], qs[i]]));
            }
        }
    }
    lemma_run_succeeds(n, r, plan);
}

proof fn lemma_bell_succeeds(n: u32, r: Register, q1: u32, q2: u32)
    requires
        q1 < n,
        q2 < n,
        hadamard_fits(r, q1),
    ensures
        run(n, r, bell_plan(q1, q2)).1,
{
    let plan = bell_plan(q1, q2);
    assert(step_in_range(n, plan[0]));
    assert(step_in_range(n, plan[1]));
    lemma_run_succeeds(n, r, plan);
}

proof fn lemma_encode_in_range(enc: Seq<u8>, n: u32)
    requires
        n <= MAX_STATE_QUBITS,
    ensures
        forall|i: int| 0 <= i < encode_plan(enc, n).len() ==> step_in_range(n, #[trigger] encode_plan(enc, n)[i])
            && !(encode_plan(enc, n)[i].0 is Hadamard),
    decreases enc.len(),
{
    if enc.len() > 0 {
        lemma_encode_in_range(enc.drop_last(), n);
    }
}

proof fn lemma_row_in_range(d: u32, anc: Seq<u32>, n: u32)
    ensures
        forall|i: int| 0 <= i < syndrome_row(d, anc, n).len() ==> step_in_range(n, #[trigger] syndrome_row(d, anc, n)[i])
            && !(syndrome_row(d, anc, n)[i].0 is Hadamard),
    decreases anc.len(),
{
    if anc.len() > 0 {
        lemma_row_in_range(d, anc.drop_last(), n);
    }
}

proof fn lemma_syndrome_in_range(data: Seq<u32>, anc: Seq<u32>, n: u32)
    ensures
        forall|i: int| 0 <= i < syndrome_plan(data, anc, n).len() ==> step_in_range(n, #[trigger] syndrome_plan(data, anc, n)[i])
            && !(syndrome_plan(data, anc, n)[i].0 is Hadamard),
    decreases data.len(),
{
    if data.len() > 0 {
        lemma_syndrome_in_range(data.drop_last(), anc, n);
        lemma_row_in_range(data.last(), anc, n);
        let a = syndrome_plan(data.drop_last(), anc, n);
        let b = syndrome_row(data.last(), anc, n);
        assert forall|i: int| 0 <= i < (a + b).len() implies step_in_range(n, #[trigger] (a + b)[i])
            && !((a + b)[i].0 is Hadamard) by {
            if i >= a.len() {
                assert((a + b)[i] == b[i - a.len()]);
            }
        }
    }
}

/// The operations that succeed on any held state.
proof fn lemma_plain_operations_succeed(op: QuantumOperation, n: u32, r: Register)
    requires
        n <= MAX_STATE_QUBITS,
        op is PrepareCommState || op is ErrorCorrection || op is MeasureRandom,
    ensures
        run(n, r, op_plan(op, n)).1,
{
    match op {
        QuantumOperation::PrepareCommState { encoding } => {
            lemma_encode_in_range(encoding@, n);
        },
        QuantumOperation::ErrorCorrection { data_qubits, ancilla_qubits } => {
            lemma_syndrome_in_range(data_qubits@, ancilla_qubits@, n);
        },
        _ => {},
    }
    lemma_run_succeeds(n, r, op_plan(op, n));
}

fn entangle_steps(qs: &Vec<u32>) -> (r: Vec<(QuantumGate, Vec<u32>)>)
    ensures
        ops_view(r@) == entangle_plan(qs@),
{
    let mut r: Vec<(QuantumGate, Vec<u32>)> = Vec::new();
    if qs.len() >= 2 {
        r.push((QuantumGate::Hadamard, vec![qs[0]]));
        assert(ops_view(r@)[0].1 =~= seq![qs@[0]]);
        for i in 1..qs.len()
            invariant
                qs@.len() >= 2,
                r@.len() == i,
                forall|j: int| 0 <= j < i ==> #[trigger] ops_view(r@)[j] == entangle_plan(qs@)[j],
        {
            let ghost before = r@;
            r.push((QuantumGate::CNOT, vec![qs[0], qs[i]]));
            assert(ops_view(r@)[i as int].1 =~= seq![qs@[0], qs@[i as int]]);
            assert forall|j: int| 0 <= j < i + 1 implies #[trigger] ops_view(r@)[j] == entangle_plan(qs@)[j] by {
                if j < i {
                    assert(ops_view(r@)[j] == ops_view(before)[j]);
                }
            }
        }
    }
    assert(ops_view(r@) =~= entangle_plan(qs@));
    r
}

fn encode_steps(enc: &Vec<u8>, n: u32) -> (r: Vec<(QuantumGate, Vec<u32>)>)
    requires
        n <= MAX_STATE_QUBITS,
    ensures
        ops_view(r@) == encode_plan(enc@, n),
{
    let mut r: Vec<(QuantumGate, Vec<u32>)> = Vec::new();
    for i in 0..enc.len()
        invariant
            n <= MAX_STATE_QUBITS,
            ops_view(r@) == encode_plan(enc@.take(i as int), n),
    {
        assert(enc@.take(i + 1).drop_last() =~= enc@.take(i as int));
        let ghost before = r@;
        if i < n as usize && enc[i] == 1 {
            let v = vec![i as u32];
            assert(v@ =~= seq![i as u32]);
            r.push((QuantumGate::PauliX, v));
            assert(ops_view(r@) =~= ops_view(before).push((QuantumGate::PauliX, seq![i as u32])));
        }
    }
    assert(enc@.take(enc@.len() as int) =~= enc@);
    r
}

fn syndrome_steps(data: &Vec<u32>, anc: &Vec<u32>, n: u32) -> (r: Vec<(QuantumGate, Vec<u32>)>)
    ensures
        ops_view(r@) == syndrome_plan(data@, anc@, n),
{
    let mut r: Vec<(QuantumGate, Vec<u32>)> = Vec::new();
    for i in 0..data.len()
        invariant
            ops_view(r@) == syndrome_plan(data@.take(i as int), anc@, n),
    {
        assert(data@.take(i + 1).drop_last() =~= data@.take(i as int));
        let d = data[i];
        let ghost row_start = ops_view(r@);
        for j in 0..anc.len()
            invariant
                d == data@[i as int],
                ops_view(r@) == row_start + syndrome_row(d, anc@.take(j as int), n),
        {
            assert(anc@.take(j + 1).drop_last() =~= anc@.take(j as int));
            let ghost before = r@;
            if d < n && anc[j] < n {
                r.push((QuantumGate::CNOT, vec![d, anc[j]]));
                assert(ops_view(r@) =~= ops_view(before).push((QuantumGate::CNOT, seq![d, anc@[j as int]])));
            }
            assert(ops_view(r@) =~= row_start + syndrome_row(d, anc@.take(j + 1), n));
        }
        assert(anc@.take(anc@.len() as int) =~= anc@);
    }
    assert(data@.take(data@.len() as int) =~= data@);
    r
}

fn teleport_steps(aux: u32, source: u32, target: u32) -> (r: Vec<(QuantumGate, Vec<u32>)>)
    ensures
        ops_view(r@) == teleport_plan(aux, source, target),
{
    let r = vec![
        (QuantumGate::Hadamard, vec![aux]),
        (QuantumGate::CNOT, vec![aux, source]),
        (QuantumGate::CNOT, vec![source, target]),
        (QuantumGate::Hadamard, vec![source]),
    ];
    assert(ops_view(r@)[0].1 =~= seq![aux]);
    assert(ops_view(r@)[1].1 =~= seq![aux, source]);
    assert(ops_view(r@)[2].1 =~= seq![source, target]);
    assert(ops_view(r@)[3].1 =~= seq![source]);
    assert(ops_view(r@) =~= teleport_plan(aux, source, target));
    r
}

fn correction_steps(bits: &Vec<u8>, aux: u32) -> (r: Vec<(QuantumGate, Vec<u32>)>)
    ensures
        ops_view(r@) == correction_plan(bits@, aux),
{
    let mut r: Vec<(QuantumGate, Vec<u32>)> = Vec::new();
    if bits.len() >= 2 {
        if bits[0] == 1 {
            let v = vec![aux];
            assert(v@ =~= seq![aux]);
            r.push((QuantumGate::PauliZ, v));
            assert(ops_view(r@) =~= seq![(QuantumGate::PauliZ, seq![aux])]);
        }
        let ghost mid = ops_view(r@);
        if bits[1] == 1 {
            let v = vec![aux];
            assert(v@ =~= seq![aux]);
            r.push((QuantumGate::PauliX, v));
            assert(ops_view(r@) =~= mid.push((QuantumGate::PauliX, seq![aux])));
        }
    }
    assert(ops_view(r@) =~= correction_plan(bits@, aux));
    r
}

/// The plan of an operation on an `n`-qubit state.
fn operation_steps(op: &QuantumOperation, n: u32) -> (r: Vec<(QuantumGate, Vec<u32>)>)
    requires
        n <= MAX_STATE_QUBITS,
    ensures
        ops_view(r@) == op_plan(*op, n),
{
    match op {
        QuantumOperation::CreateEntanglement { qubits } => entangle_steps(qubits),
        QuantumOperation::MeasureRandom { .. } => {
            let r: Vec<(QuantumGate, Vec<u32>)> = Vec::new();
            assert(ops_view(r@) =~= Seq::<GateOp>::empty());
            r
        },
        QuantumOperation::Teleport { source, target } => {
            let aux = if n == 0 {
                0
            } else if *source < n - 1 {
                *source + 1
            } else {
                n - 1
            };
            teleport_steps(aux, *source, *target)
        },
        QuantumOperation::PrepareCommState { encoding } => encode_steps(encoding, n),
        QuantumOperation::CreateBellState { qubit1, qubit2 } => bell_steps(*qubit1, *qubit2),
        QuantumOperation::ErrorCorrection { data_qubits, ancilla_qubits } => syndrome_steps(data_qubits, ancilla_qubits, n),
    }
}

impl QuantumCore {
    /// Performs a protocol operation on the state under `state_id`: the
    /// operation's gates in order, then, for a measuring operation, one
    /// measurement (and, for a teleport, the corrections it calls for). It
    /// fails when the state is missing or a gate fails; the gates before
    /// the failing one stay applied.
    pub fn perform_operation(
        &mut self,
        state_id: &str,
        operation: QuantumOperation,
    ) -> (r: Result<Vec<u8>, SecureCommsError>)
        requires
            old(self).wf(),
        ensures
            final(self).wf(),
            r is Err ==> r->Err_0 is QuantumOperation,
            match old(self).state(state_id@) {
                None => r is Err && *final(self) == *old(self),
                Some(s) => {
                    let n = s.qubit_count;
                    let (mid, ok) = run(n, s@, op_plan(operation, n));
                    let t = final(self).state(state_id@)->Some_0;
                    &&& final(self).state(state_id@) is Some
                    &&& t.id@ == s.id@
                    &&& t.qubit_count == n
                    &&& t.created_at == s.created_at
                    &&& (operation is PrepareCommState || operation is ErrorCorrection
                        || operation is MeasureRandom ==> r is Ok)
                    &&& (operation is CreateEntanglement && entangle_fits(
                        n,
                        s@,
                        operation->CreateEntanglement_qubits@,
                    ) ==> r is Ok)
                    &&& (operation is CreateBellState && operation->CreateBellState_qubit1 < n
                        && operation->CreateBellState_qubit2 < n && hadamard_fits(
                        s@,
                        operation->CreateBellState_qubit1,
                    ) ==> r is Ok)
                    &&& (!ok ==> r is Err && t@ == mid && t.measurements@ == s.measurements@)
                    &&& (ok && !op_measures(operation) ==> r is Ok && t@ == mid && r->Ok_0@ == op_reply(
                        operation,
                    ) && t.measurements@ == s.measurements@)
                    &&& (ok && op_measures(operation) ==> r is Ok && cached_under_prefix(
                        t.measurements@,
                        s.measurements@,
                        measurement_prefix(operation),
                        r->Ok_0@,
                    ))
                    &&& (ok && op_measures(operation) ==> r is Ok && exists|draw: u64|
                        #![trigger outcome(mid, draw)]
                        {
                            let bits = outcome_bits(outcome(mid, draw) as usize, n);
                            &&& r->Ok_0@ == bits
                            &&& t@ == after_measurement(operation, n, outcome(mid, draw), bits)
                        })
                },
            },
            forall|k: Seq<char>| k != state_id@ ==> #[trigger] final(self).state(k) == old(self).state(k),
            forall|k: Seq<char>| #[trigger] final(self).circuit(k) == old(self).circuit(k),
            final(self).qubit_limit() == old(self).qubit_limit(),
    {
        let i = match self.state_slot(state_id) {
            Ok(i) => i,
            Err(e) => return Err(e),
        };
        let ghost s = self.states@[i as int].1;
        let ghost key = self.states@[i as int].0@;
        assert(s.wf());
        let n = self.states[i].1.qubit_count;
        proof {
            if operation is CreateEntanglement {
                let qs = operation->CreateEntanglement_qubits@;
                if entangle_fits(n, s@, qs) {
                    lemma_entangle_succeeds(n, s@, qs);
                }
            } else if operation is CreateBellState {
                let q1 = operation->CreateBellState_qubit1;
                let q2 = operation->CreateBellState_qubit2;
                if q1 < n && q2 < n && hadamard_fits(s@, q1) {
                    lemma_bell_succeeds(n, s@, q1, q2);
                }
            } else if !(operation is Teleport) {
                lemma_plain_operations_succeed(operation, n, s@);
            }
        }
        let plan = operation_steps(&operation, n);
        let applied = self.apply_plan_at(i, &plan);
        if applied.is_err() {
            return Err(SecureCommsError::quantum("Gate of the operation failed"));
        }
        let ghost mid = run(n, s@, op_plan(operation, n)).0;
        proof {
            lemma_run_wf(n, s@, op_plan(operation, n));
            lemma_latest_at(self.states@, i as int);
        }
        let ghost pre = self.states@[i as int].1;
        assert(pre@ == mid);
        assert(pre.amplitudes@.len() == s.amplitudes@.len());
        proof {
            broadcast use vstd::string::to_string_from_display_ensures_for_str;
            reveal_strlit("op_measure_");
            reveal_strlit("error_correction_");
            reveal_strlit("teleport_bell_");
        }
        match operation {
            QuantumOperation::CreateEntanglement { .. } => Ok(vec![1]),
            QuantumOperation::CreateBellState { .. } => Ok(vec![1]),
            QuantumOperation::PrepareCommState { encoding } => Ok(encoding),
            QuantumOperation::MeasureRandom { .. } => {
                let key_id = stamped_key("op_measure_".to_string());
                let ghost k = key_id@;
                let bits = self.measure_at(i, key_id);
                assert(stored(self.state(key)->Some_0.measurements@, s.measurements@, k, bits@));
                Ok(bits)
            },
            QuantumOperation::ErrorCorrection { .. } => {
                let key_id = stamped_key("error_correction_".to_string());
                let ghost k = key_id@;
                let bits = self.measure_at(i, key_id);
                assert(stored(self.state(key)->Some_0.measurements@, s.measurements@, k, bits@));
                Ok(bits)
            },
            QuantumOperation::Teleport { source, .. } => {
                let key_id = stamped_key("teleport_bell_".to_string());
                let ghost k = key_id@;
                let bits = self.measure_at(i, key_id);
                let aux = if n == 0 {
                    0
                } else if source < n - 1 {
                    source + 1
                } else {
                    n - 1
                };
                let fix = correction_steps(&bits, aux);
                let ghost measured = self.states@[i as int].1;
                proof {
                    lemma_latest_at(self.states@, i as int);
                    assert(measured == self.state(key)->Some_0);
                }
                let _ = self.apply_plan_at(i, &fix);
                proof {
                    let d = choose|d: u64|
                        #![trigger outcome(mid, d)]
                        {
                            &&& measured@ == basis(pre.amplitudes@.len(), outcome(mid, d))
                            &&& bits@ == outcome_bits(outcome(mid, d) as usize, n)
                        };
                    assert(aux == teleport_aux(n, source));
                    assert(self.state(key)->Some_0@ == after_measurement(operation, n, outcome(mid, d), bits@));
                    assert(stored(self.state(key)->Some_0.measurements@, s.measurements@, k, bits@));
                }
                Ok(bits)
            },
        }
    }
}

/// Strength of the entanglement a Bell pair is credited with, in parts per
/// billion.
pub const BELL_ENTANGLEMENT_PPB: u64 = 950_000_000;

/// Out of a thousand, the draws below which a diagnostic measurement reads one.
pub const HALF_BIAS_PER_THOUSAND: u32 = 500;

/// A Bell pair recorded by the diagnostic surface.
#[derive(Debug)]
pub struct BellPairResult {
    pub qubit1: usize,
    pub qubit2: usize,
    /// The mean norm of the held states, in parts per billion.
    pub fidelity_ppb: u64,
    pub entanglement_strength_ppb: u64,
    pub creation_time_ns: u64,
}

/// Counters of the work a core has done.
#[derive(Debug)]
pub struct CoreMetrics {
    pub total_measurements: u64,
    pub total_quantum_operations: u64,
}

/// A snapshot of the core for status reports.
#[derive(Debug)]
pub struct SystemStatus {
    pub active_states: usize,
    pub max_qubits: u32,
    pub total_circuits: usize,
    pub average_fidelity_ppb: u64,
    pub born_rule_measurements: bool,
    pub real_teleportation: bool,
    pub proper_phase_gates: bool,
    pub hardware_enabled: bool,
    pub enhanced_gates: bool,
    pub circuit_optimization: bool,
    pub hardware_interface: HardwareStatus,
}

/// Sum of the norms, in parts per billion, of the first `i` states.
pub open spec fn fidelity_total(t: Seq<(String, QuantumState)>, i: int) -> int {
    crate::sums::total(i, |j: int| fidelity_ppb_of(t[j].1@))
}

/// The mean norm of the states, in parts per billion, rounded down; a
/// perfect one when there are none.
pub open spec fn mean_fidelity(t: Seq<(String, QuantumState)>) -> int {
    if t.len() == 0 {
        1_000_000_000
    } else {
        fidelity_total(t, t.len() as int) / (t.len() as int)
    }
}

/// What a diagnostic measurement reads from a draw out of a thousand.
pub open spec fn reading(draw: u32) -> bool {
    draw < HALF_BIAS_PER_THOUSAND
}

/// A diagnostic measurement reads one when its draw, out of a thousand,
/// falls below the one-half bias.
pub fn reads_one(draw: u32) -> (r: bool)
    ensures
        r == reading(draw),
{
    draw < HALF_BIAS_PER_THOUSAND
}

/// A counter after one more event; it stays at its largest value.
pub open spec fn bumped(x: u64) -> u64 {
    if x < u64::MAX {
        (x + 1) as u64
    } else {
        x
    }
}

/// A counter after `k` more events; it stays at its largest value.
pub open spec fn saturating_count(x: u64, k: nat) -> u64 {
    if x + k <= u64::MAX {
        (x + k) as u64
    } else {
        u64::MAX
    }
}

fn bump(x: u64) -> (r: u64)
    ensures
        r == bumped(x),
{
    if x < u64::MAX {
        x + 1
    } else {
        x
    }
}

impl QuantumCore {
    /// The mean norm of the held states in parts per billion.
    pub closed spec fn mean_state_fidelity(&self) -> int {
        mean_fidelity(self.states@)
    }

    pub closed spec fn measurement_count(&self) -> u64 {
        self.total_measurements
    }

    pub closed spec fn operation_count(&self) -> u64 {
        self.total_quantum_operations
    }

    pub closed spec fn hardware_detected(&self) -> bool {
        self.hardware_enabled
    }

    pub closed spec fn backend(&self) -> QuantumHardwareInterface {
        self.hardware_interface
    }

    pub closed spec fn first_state_id(&self) -> Option<Seq<char>> {
        if self.states@.len() > 0 {
            Some(self.states@[0].0@)
        } else {
            None
        }
    }

    /// The mean norm of the held states, in parts per billion.
    fn calculate_gate_fidelity(&self) -> (r: u64)
        requires
            self.wf(),
        ensures
            r == self.mean_state_fidelity(),
    {
        let len = self.states.len();
        if len == 0 {
            return 1_000_000_000;
        }
        let mut sum: u128 = 0;
        for i in 0..len
            invariant
                len == self.states@.len(),
                self.wf(),
                sum == fidelity_total(self.states@, i as int),
                sum <= i * 0xFFFF_FFFF_FFFF_FFFFu128,
        {
            assert(self.states@[i as int].1.wf());
            let f = self.states[i].1.fidelity_ppb();
            assert(sum + f <= (i + 1) * 0xFFFF_FFFF_FFFF_FFFFu128) by (nonlinear_arith)
                requires sum <= i * 0xFFFF_FFFF_FFFF_FFFFu128, f <= 0xFFFF_FFFF_FFFF_FFFFu64;
            assert((i + 1) * 0xFFFF_FFFF_FFFF_FFFFu128 <= 0xFFFF_FFFF_FFFF_FFFFu128 * 0xFFFF_FFFF_FFFF_FFFFu128) by (nonlinear_arith)
                requires i + 1 <= 0xFFFF_FFFF_FFFF_FFFFu128;
            sum = sum + f as u128;
        }
        assert(sum / (len as u128) <= 0xFFFF_FFFF_FFFF_FFFFu128) by (nonlinear_arith)
            requires sum <= len * 0xFFFF_FFFF_FFFF_FFFFu128, len > 0;
        (sum / (len as u128)) as u64
    }

    /// Records one diagnostic operation.
    fn record_quantum_operation(&mut self)
        ensures
            *final(self) == (QuantumCore { total_quantum_operations: bumped(old(self).total_quantum_operations), ..*old(self) }),
    {
        self.total_quantum_operations = bump(self.total_quantum_operations);
    }

    /// Records a Hadamard on the diagnostic surface; it touches no state.
    fn apply_hadamard(&mut self, qubit: u32) -> (r: Result<(), SecureCommsError>)
        ensures
            r is Ok <==> qubit < old(self).max_qubits,
            r is Err ==> r->Err_0 is QuantumOperation && *final(self) == *old(self),
            r is Ok ==> *final(self) == (QuantumCore {
                total_quantum_operations: bumped(old(self).total_quantum_operations),
                ..*old(self)
            }),
            r is Ok ==> final(self).operation_count() == bumped(old(self).operation_count()),
            r is Err ==> final(self).operation_count() == old(self).operation_count(),
    {
        if qubit >= self.max_qubits {
            return Err(SecureCommsError::quantum("Qubit index out of range for Hadamard gate"));
        }
        self.record_quantum_operation();
        Ok(())
    }

    /// Records a CNOT on the diagnostic surface; it touches no state.
    fn apply_cnot(&mut self, control: u32, target: u32) -> (r: Result<(), SecureCommsError>)
        ensures
            r is Ok <==> control < old(self).max_qubits && target < old(self).max_qubits && control
                != target,
            r is Err ==> r->Err_0 is QuantumOperation && *final(self) == *old(self),
            r is Ok ==> *final(self) == (QuantumCore {
                total_quantum_operations: bumped(old(self).total_quantum_operations),
                ..*old(self)
            }),
            r is Ok ==> final(self).operation_count() == bumped(old(self).operation_count()),
            r is Err ==> final(self).operation_count() == old(self).operation_count(),
    {
        if control >= self.max_qubits || target >= self.max_qubits {
            return Err(SecureCommsError::quantum("Qubit index out of range for CNOT gate"));
        }
        if control == target {
            return Err(SecureCommsError::quantum("Control and target qubits cannot be the same"));
        }
        self.record_quantum_operation();
        Ok(())
    }

    /// Records a Bell pair on two distinct qubits below the limit. It
    /// changes no state; its fidelity is the mean norm of the held states.
    pub fn create_bell_pair(
        &mut self,
        qubit1: usize,
        qubit2: usize,
    ) -> (r: Result<BellPairResult, SecureCommsError>)
        requires
            old(self).wf(),
        ensures
            final(self).wf(),
            r is Ok <==> qubit1 < old(self).qubit_limit() && qubit2 < old(self).qubit_limit() && qubit1 != qubit2,
            r is Err ==> r->Err_0 is QuantumOperation,
            r is Ok ==> ({
                let b = r->Ok_0;
                &&& b.qubit1 == qubit1
                &&& b.qubit2 == qubit2
                &&& b.fidelity_ppb == old(self).mean_state_fidelity()
                &&& b.entanglement_strength_ppb == BELL_ENTANGLEMENT_PPB
            }),
            forall|k: Seq<char>| #[trigger] final(self).state(k) == old(self).state(k),
            forall|k: Seq<char>| #[trigger] final(self).circuit(k) == old(self).circuit(k),
            final(self).qubit_limit() == old(self).qubit_limit(),
            final(self).mean_state_fidelity() == old(self).mean_state_fidelity(),
            final(self).measurement_count() == old(self).measurement_count(),
            r is Ok ==> final(self).operation_count() == bumped(bumped(old(self).operation_count())),
            r is Err ==> *final(self) == *old(self),
    {
        let start = crate::outside::start_clock();
        if qubit1 >= self.max_qubits as usize || qubit2 >= self.max_qubits as usize {
            return Err(SecureCommsError::quantum("Qubit index out of range for Bell pair creation"));
        }
        if qubit1 == qubit2 {
            return Err(SecureCommsError::quantum("Cannot create Bell pair with the same qubit"));
        }
        let h = self.apply_hadamard(qubit1 as u32);
        let c = self.apply_cnot(qubit1 as u32, qubit2 as u32);
        if h.is_err() || c.is_err() {
            return Err(SecureCommsError::quantum("Qubit index out of range for Bell pair creation"));
        }
        let fidelity_ppb = self.calculate_gate_fidelity();
        let creation_time_ns = crate::outside::elapsed_nanos(&start);
        Ok(BellPairResult {
            qubit1,
            qubit2,
            fidelity_ppb,
            entanglement_strength_ppb: BELL_ENTANGLEMENT_PPB,
            creation_time_ns,
        })
    }

    /// One diagnostic measurement: a fair draw, independent of every state.
    fn perform_single_qubit_measurement(&mut self) -> (r: bool)
        ensures
            *final(self) == (QuantumCore {
                total_measurements: bumped(old(self).total_measurements),
                rng: final(self).rng,
                ..*old(self)
            }),
            exists|draw: u32| draw < 1000 && r == #[trigger] reading(draw),
    {
        let draw = crate::outside::draw_below(&mut self.rng, 1000);
        self.total_measurements = bump(self.total_measurements);
        reads_one(draw)
    }

    /// One fair draw per index, independent of every state. Every index is
    /// checked first: when one is not below the limit it fails and changes
    /// nothing.
    pub fn measure_qubits(
        &mut self,
        qubit_indices: &[usize],
    ) -> (r: Result<Vec<bool>, SecureCommsError>)
        requires
            old(self).wf(),
        ensures
            final(self).wf(),
            r is Ok <==> forall|i: int|
                0 <= i < qubit_indices@.len() ==> #[trigger] qubit_indices@[i] < old(self).qubit_limit(),
            r is Err ==> r->Err_0 is QuantumOperation && *final(self) == *old(self),
            r is Ok ==> r->Ok_0@.len() == qubit_indices@.len(),
            r is Ok ==> final(self).measurement_count() == saturating_count(
                old(self).measurement_count(),
                qubit_indices@.len(),
            ),
            r is Ok ==> final(self).operation_count() == bumped(old(self).operation_count()),
            forall|k: Seq<char>| #[trigger] final(self).state(k) == old(self).state(k),
            forall|k: Seq<char>| #[trigger] final(self).circuit(k) == old(self).circuit(k),
            final(self).qubit_limit() == old(self).qubit_limit(),
    {
        for i in 0..qubit_indices.len()
            invariant
                *self == *old(self),
                self.wf(),
                forall|j: int| 0 <= j < i ==> #[trigger] qubit_indices@[j] < self.max_qubits,
        {
            if qubit_indices[i] >= self.max_qubits as usize {
                return Err(SecureCommsError::quantum("Qubit index out of range"));
            }
        }
        let mut results: Vec<bool> = Vec::new();
        for i in 0..qubit_indices.len()
            invariant
                self.wf(),
                self.states == old(self).states,
                self.circuits == old(self).circuits,
                self.max_qubits == old(self).max_qubits,
                self.total_quantum_operations == old(self).total_quantum_operations,
                self.total_measurements == saturating_count(old(self).total_measurements, i as nat),
                results@.len() == i,
        {
            let bit = self.perform_single_qubit_measurement();
            results.push(bit);
        }
        self.record_quantum_operation();
        Ok(results)
    }

    /// A status snapshot: counts, limit, mean fidelity, capability flags and
    /// the backend report.
    pub fn get_system_status(&self) -> (r: SystemStatus)
        requires
            self.wf(),
        ensures
            r.active_states == self.state_count(),
            r.total_circuits == self.circuit_count(),
            r.max_qubits == self.qubit_limit(),
            r.average_fidelity_ppb == self.mean_state_fidelity(),
            r.hardware_enabled == self.hardware_detected(),
            r.hardware_interface.available == self.backend().available(),
            r.hardware_interface.architecture@ == self.backend().architecture_label(),
            r.hardware_interface.qubits == self.backend().qubit_capacity(),
            names_view(r.hardware_interface.operations@) == self.backend().operation_names(),
            table_view(r.hardware_interface.error_rates@) == self.backend().rate_table(),
            r.born_rule_measurements && r.real_teleportation && r.proper_phase_gates,
            r.enhanced_gates && r.circuit_optimization,
    {
        SystemStatus {
            active_states: self.states.len(),
            max_qubits: self.max_qubits,
            total_circuits: self.circuits.len(),
            average_fidelity_ppb: self.calculate_gate_fidelity(),
            born_rule_measurements: true,
            real_teleportation: true,
            proper_phase_gates: true,
            hardware_enabled: self.hardware_enabled,
            enhanced_gates: true,
            circuit_optimization: true,
            hardware_interface: self.hardware_interface.get_status(),
        }
    }

    /// The backend report.
    pub fn get_hardware_status(&self) -> (r: HardwareStatus)
        ensures
            r.available == self.backend().available(),
            r.architecture@ == self.backend().architecture_label(),
            r.qubits == self.backend().qubit_capacity(),
            names_view(r.operations@) == self.backend().operation_names(),
            table_view(r.error_rates@) == self.backend().rate_table(),
    {
        self.hardware_interface.get_status()
    }

    /// The largest qubit count a state or circuit may have.
    pub fn max_qubits(&self) -> (r: u32)
        ensures
            r == self.qubit_limit(),
    {
        self.max_qubits
    }

    /// The number of held states.
    pub fn active_state_count(&self) -> (r: usize)
        ensures
            r == self.state_count(),
    {
        self.states.len()
    }

    /// The counters of measurements and operations.
    pub fn get_metrics(&self) -> (r: CoreMetrics)
        ensures
            r.total_measurements == self.measurement_count(),
            r.total_quantum_operations == self.operation_count(),
    {
        CoreMetrics {
            total_measurements: self.total_measurements,
            total_quantum_operations: self.total_quantum_operations,
        }
    }

    /// The mean norm of the held states, in parts per billion; a perfect one
    /// when none is held.
    pub fn get_fidelity(&self) -> (r: u64)
        requires
            self.wf(),
        ensures
            r == self.mean_state_fidelity(),
    {
        self.calculate_gate_fidelity()
    }

    /// Entangles the given qubits of the first held state: a Hadamard on the
    /// first qubit, then a CNOT from it to each other one. Without a state
    /// nothing happens.
    pub fn create_entanglement(&mut self, qubits: &[u32]) -> (r: Result<(), SecureCommsError>)
        requires
            old(self).wf(),
        ensures
            final(self).wf(),
            r is Err ==> r->Err_0 is QuantumOperation,
            match old(self).first_state_id() {
                None => r is Ok && *final(self) == *old(self),
                Some(id) => {
                    let s = old(self).state(id)->Some_0;
                    let t = final(self).state(id)->Some_0;
                    &&& final(self).state(id) is Some
                    &&& t.same_identity(&s)
                    &&& t@ == run(s.qubit_count, s@, entangle_plan(qubits@)).0
                    &&& (r is Ok <==> run(s.qubit_count, s@, entangle_plan(qubits@)).1)
                    &&& forall|k: Seq<char>| k != id ==> #[trigger] final(self).state(k) == old(self).state(k)
                },
            },
            forall|k: Seq<char>| #[trigger] final(self).circuit(k) == old(self).circuit(k),
            final(self).qubit_limit() == old(self).qubit_limit(),
    {
        if self.states.len() == 0 {
            return Ok(());
        }
        proof {
            lemma_latest_at(self.states@, 0);
        }
        let mut list: Vec<u32> = Vec::new();
        for i in 0..qubits.len()
            invariant
                list@ == qubits@.take(i as int),
        {
            list.push(qubits[i]);
            assert(list@ =~= qubits@.take(i + 1));
        }
        assert(list@ =~= qubits@);
        let plan = entangle_steps(&list);
        self.apply_plan_at(0, &plan)
    }

    /// Measures the first held state; it fails when none is held.
    pub fn measure_state(
        &mut self,
        measurement_id: String,
    ) -> (r: Result<Vec<u8>, SecureCommsError>)
        requires
            old(self).wf(),
        ensures
            final(self).wf(),
            match old(self).first_state_id() {
                None => r is Err && r->Err_0 is QuantumOperation && *final(self) == *old(self),
                Some(id) => {
                    let s = old(self).state(id)->Some_0;
                    let t = final(self).state(id)->Some_0;
                    &&& r is Ok
                    &&& final(self).state(id) is Some
                    &&& exists|draw: u64|
                        #![trigger outcome(s@, draw)]
                        {
                            &&& t@ == basis(s.amplitudes@.len(), outcome(s@, draw))
                            &&& r->Ok_0@ == outcome_bits(outcome(s@, draw) as usize, s.qubit_count)
                        }
                    &&& crate::table::stored(t.measurements@, s.measurements@, measurement_id@, r->Ok_0@)
                    &&& forall|k: Seq<char>| k != id ==> #[trigger] final(self).state(k) == old(self).state(k)
                },
            },
            forall|k: Seq<char>| #[trigger] final(self).circuit(k) == old(self).circuit(k),
            final(self).qubit_limit() == old(self).qubit_limit(),
    {
        if self.states.len() == 0 {
            return Err(SecureCommsError::quantum("No active state"));
        }
        proof {
            lemma_latest_at(self.states@, 0);
        }
        let ghost s = self.states@[0].1;
        let bits = self.measure_at(0, measurement_id);
        proof {
            let d = choose|d: u64|
                #![trigger outcome(s@, d)]
                {
                    &&& self.state(self.states@[0].0@)->Some_0@ == basis(s.amplitudes@.len(), outcome(s@, d))
                    &&& bits@ == outcome_bits(outcome(s@, d) as usize, s.qubit_count)
                };
            let id = self.states@[0].0@;
            assert(old(self).first_state_id() == Some(id));
            assert(old(self).state(id)->Some_0 == s);
            assert(self.state(id) is Some);
            assert(crate::table::stored(self.state(id)->Some_0.measurements@, s.measurements@, measurement_id@, bits@));
            assert(forall|k: Seq<char>| k != id ==> #[trigger] self.state(k) == old(self).state(k));
        }
        Ok(bits)
    }

    /// One example of each protocol operation.
    pub fn get_available_operations() -> (r: Vec<QuantumOperation>)
        ensures
            r@.len() == 6,
            r@[0] is CreateEntanglement && r@[0]->CreateEntanglement_qubits@ == seq![0u32, 1],
            r@[1] is MeasureRandom && r@[1]->MeasureRandom_qubits@ == seq![0u32],
            r@[2] == (QuantumOperation::Teleport { source: 0, target: 1 }),
            r@[3] is PrepareCommState && r@[3]->PrepareCommState_encoding@ == seq![0u8, 1],
            r@[4] == (QuantumOperation::CreateBellState { qubit1: 0, qubit2: 1 }),
            r@[5] is ErrorCorrection && r@[5]->ErrorCorrection_data_qubits@ == seq![0u32, 1]
                && r@[5]->ErrorCorrection_ancilla_qubits@ == seq![2u32, 3],
    {
        let r = vec![
            QuantumOperation::CreateEntanglement { qubits: vec![0, 1] },
            QuantumOperation::MeasureRandom { qubits: vec![0] },
            QuantumOperation::Teleport { source: 0, target: 1 },
            QuantumOperation::PrepareCommState { encoding: vec![0, 1] },
            QuantumOperation::CreateBellState { qubit1: 0, qubit2: 1 },
            QuantumOperation::ErrorCorrection { data_qubits: vec![0, 1], ancilla_qubits: vec![2, 3] },
        ];
        assert(r@[0]->CreateEntanglement_qubits@ =~= seq![0u32, 1]);
        assert(r@[1]->MeasureRandom_qubits@ =~= seq![0u32]);
        assert(r@[3]->PrepareCommState_encoding@ =~= seq![0u8, 1]);
        assert(r@[5]->ErrorCorrection_data_qubits@ =~= seq![0u32, 1]);
        assert(r@[5]->ErrorCorrection_ancilla_qubits@ =~= seq![2u32, 3]);
        r
    }
}

} // verus!
