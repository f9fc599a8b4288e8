use vstd::prelude::*;
use crate::error::SecureCommsError;
use crate::quantum_state::{accepts, gate_model, hadamard_fits, operand_count, lemma_gate_wf, register_wf, QuantumGate, QuantumState, Register};

verus! {

/// One step of a circuit: a gate and its qubit operands.
pub type GateOp = (QuantumGate, Seq<u32>);

/// Fidelity of a circuit of lossless gates, in parts per billion.
pub const PERFECT_FIDELITY_PPB: u64 = 1_000_000_000;

/// The steps of a circuit as mathematical values.
pub open spec fn ops_view(ops: Seq<(QuantumGate, Vec<u32>)>) -> Seq<GateOp> {
    Seq::new(ops.len(), |i: int| (ops[i].0, ops[i].1@))
}

/// Runs the steps in order on an `n`-qubit register, stopping at the first
/// step the register does not accept; the flag says whether all ran.
pub open spec fn run(n: u32, r: Register, ops: Seq<GateOp>) -> (Register, bool)
    decreases ops.len(),
{
    if ops.len() == 0 {
        (r, true)
    } else {
        let (before, ok) = run(n, r, ops.drop_last());
        let op = ops.last();
        if ok && accepts(n, before, op.0, op.1) {
            (gate_model(before, op.0, op.1), true)
        } else {
            (before, false)
        }
    }
}

/// Whether a gate is one of the self-inverse Paulis the optimizer cancels.
pub open spec fn is_pauli(g: QuantumGate) -> bool {
    g is PauliX || g is PauliY || g is PauliZ
}

/// The optimizer's pass over a prefix: the steps kept so far, and the step
/// still waiting to see whether the next one cancels it.
pub open spec fn optimize_pass(ops: Seq<GateOp>) -> (Seq<GateOp>, Option<GateOp>)
    decreases ops.len(),
{
    if ops.len() == 0 {
        (Seq::empty(), None)
    } else {
        let (kept, pending) = optimize_pass(ops.drop_last());
        let op = ops.last();
        match pending {
            None => (kept, Some(op)),
            Some(last) => if op == last && is_pauli(op.0) {
                (kept, None)
            } else {
                (kept.push(last), Some(op))
            },
        }
    }
}

/// The optimized steps: a Pauli step directly following the same Pauli on
/// the same operands cancels with it; nothing else changes.
pub open spec fn optimized(ops: Seq<GateOp>) -> Seq<GateOp> {
    let (kept, pending) = optimize_pass(ops);
    match pending {
        None => kept,
        Some(last) => kept.push(last),
    }
}

/// A step whose operands are all below `n` and numerous enough for its gate.
pub open spec fn step_in_range(n: u32, op: GateOp) -> bool {
    &&& op.1.len() >= operand_count(op.0)
    &&& forall|j: int| 0 <= j < op.1.len() ==> #[trigger] op.1[j] < n
}

/// Every step of a run is accepted when all operands are in range and the
/// only Hadamard, if any, opens the run and stays within range.
pub proof fn lemma_run_succeeds(n: u32, r: Register, ops: Seq<GateOp>)
    requires
        forall|i: int| 0 <= i < ops.len() ==> step_in_range(n, #[trigger] ops[i]),
        forall|i: int|
            0 <= i < ops.len() && (#[trigger] ops[i]).0 is Hadamard ==> i == 0 && hadamard_fits(
                r,
                ops[0].1[0],
            ),
    ensures
        run(n, r, ops).1,
    decreases ops.len(),
{
    if ops.len() > 0 {
        let prefix = ops.drop_last();
        assert forall|i: int| 0 <= i < prefix.len() implies step_in_range(n, #[trigger] prefix[i]) by {
            assert(prefix[i] == ops[i]);
        }
        assert forall|i: int|
            0 <= i < prefix.len() && (#[trigger] prefix[i]).0 is Hadamard implies i == 0
                && hadamard_fits(r, prefix[0].1[0]) by {
            assert(prefix[i] == ops[i]);
        }
        lemma_run_succeeds(n, r, prefix);
        let last = ops.last();
        assert(step_in_range(n, ops[ops.len() - 1]));
        if last.0 is Hadamard {
            assert(prefix.len() == 0);
        }
    }
}

pub proof fn lemma_run_wf(n: u32, r: Register, ops: Seq<GateOp>)
    requires
        register_wf(n, r),
    ensures
        register_wf(n, run(n, r, ops).0),
    decreases ops.len(),
{
    if ops.len() > 0 {
        lemma_run_wf(n, r, ops.drop_last());
        let before = run(n, r, ops.drop_last()).0;
        let op = ops.last();
        if run(n, r, ops.drop_last()).1 && accepts(n, before, op.0, op.1) {
            lemma_gate_wf(n, before, op.0, op.1);
        }
    }
}

proof fn lemma_optimize_len(ops: Seq<GateOp>)
    ensures
        optimize_pass(ops).0.len() + (if optimize_pass(ops).1 is Some { 1int } else { 0int })
            <= ops.len(),
    decreases ops.len(),
{
    if ops.len() > 0 {
        lemma_optimize_len(ops.drop_last());
    }
}

fn same_qubits(a: &Vec<u32>, b: &Vec<u32>) -> (r: bool)
    ensures
        r == (a@ == b@),
{
    if a.len() != b.len() {
        return false;
    }
    for i in 0..a.len()
        invariant
            a@.len() == b@.len(),
            forall|j: int| 0 <= j < i ==> #[trigger] a@[j] == b@[j],
    {
        if a[i] != b[i] {
            return false;
        }
    }
    assert(a@ =~= b@);
    true
}

/// An ordered list of gates over a fixed number of qubits.
#[derive(Debug)]
pub struct QuantumCircuit {
    pub id: String,
    pub qubit_count: u32,
    pub operations: Vec<(QuantumGate, Vec<u32>)>,
    pub depth: u32,
    pub expected_fidelity_ppb: u64,
}

impl QuantumCircuit {
    /// The depth counts the steps, and every step is lossless.
    pub open spec fn wf(&self) -> bool {
        &&& self.depth == self.operations@.len()
        &&& self.expected_fidelity_ppb == PERFECT_FIDELITY_PPB
    }

    pub open spec fn ops(&self) -> Seq<GateOp> {
        ops_view(self.operations@)
    }

    /// An empty circuit.
    pub fn new(id: String, qubit_count: u32) -> (r: QuantumCircuit)
        ensures
            r.wf(),
            r.id@ == id@,
            r.qubit_count == qubit_count,
            r.ops().len() == 0,
    {
        QuantumCircuit {
            id,
            qubit_count,
            operations: Vec::new(),
            depth: 0,
            expected_fidelity_ppb: PERFECT_FIDELITY_PPB,
        }
    }

    /// The fidelity a circuit of the modeled gates is expected to keep: every
    /// one of them is lossless, so it is perfect whatever the steps.
    fn calculate_circuit_fidelity(&self) -> (r: u64)
        ensures
            r == PERFECT_FIDELITY_PPB,
    {
        PERFECT_FIDELITY_PPB
    }

    /// Appends a gate; it fails, and changes nothing, when an operand is out
    /// of the circuit's range.
    pub fn add_gate(
        &mut self,
        gate: QuantumGate,
        qubits: Vec<u32>,
    ) -> (r: Result<(), SecureCommsError>)
        requires
            old(self).wf(),
            old(self).operations@.len() < u32::MAX,
        ensures
            final(self).wf(),
            final(self).id@ == old(self).id@,
            final(self).qubit_count == old(self).qubit_count,
            r is Ok <==> forall|i: int| 0 <= i < qubits@.len() ==> #[trigger] qubits@[i] < old(self).qubit_count,
            r is Ok ==> final(self).ops() == old(self).ops().push((gate, qubits@)),
            r is Err ==> final(self).ops() == old(self).ops() && r->Err_0 is QuantumOperation,
    {
        for i in 0..qubits.len()
            invariant
                self.wf(),
                self.ops() == old(self).ops(),
                self.id@ == old(self).id@,
                self.qubit_count == old(self).qubit_count,
                forall|j: int| 0 <= j < i ==> #[trigger] qubits@[j] < self.qubit_count,
        {
            if qubits[i] >= self.qubit_count {
                return Err(SecureCommsError::quantum("Qubit index out of range"));
            }
        }
        let ghost before = self.operations@;
        let ghost q = qubits@;
        self.operations.push((gate, qubits));
        self.depth = self.depth + 1;
        self.expected_fidelity_ppb = self.calculate_circuit_fidelity();
        assert(ops_view(self.operations@) =~= ops_view(before).push((gate, q)));
        Ok(())
    }

    /// Applies every step in order to `state`, stopping at the first step
    /// the state refuses; the steps before it stay applied.
    pub fn execute(&self, state: &mut QuantumState) -> (r: Result<(), SecureCommsError>)
        requires
            old(state).wf(),
        ensures
            final(state).wf(),
            final(state).same_identity(old(state)),
            final(state)@ == run(old(state).qubit_count, old(state)@, self.ops()).0,
            r is Ok <==> run(old(state).qubit_count, old(state)@, self.ops()).1,
    {
        apply_steps(&self.operations, state)
    }

    /// Cancels each Pauli step that directly follows the same Pauli on the
    /// same operands.
    pub fn optimize(&mut self) -> (r: Result<(), SecureCommsError>)
        requires
            old(self).wf(),
        ensures
            r is Ok,
            final(self).wf(),
            final(self).id@ == old(self).id@,
            final(self).qubit_count == old(self).qubit_count,
            final(self).ops() == optimized(old(self).ops()),
    {
        let ghost ops = self.ops();
        let mut kept: Vec<(QuantumGate, Vec<u32>)> = Vec::new();
        let mut pending: Option<(QuantumGate, Vec<u32>)> = None;
        for i in 0..self.operations.len()
            invariant
                ops == self.ops(),
                ops_view(kept@) == optimize_pass(ops.take(i as int)).0,
                match optimize_pass(ops.take(i as int)).1 {
                    None => pending is None,
                    Some(last) => pending is Some && pending->Some_0.0 == last.0
                        && pending->Some_0.1@ == last.1,
                },
        {
            assert(ops.take(i + 1).drop_last() =~= ops.take(i as int));
            let gate = self.operations[i].0;
            let qubits = self.operations[i].1.clone();
            assert(qubits@ =~= ops[i as int].1);
            let ghost kept_before = kept@;
            match pending {
                None => {
                    pending = Some((gate, qubits));
                },
                Some(last) => {
                    let pauli = match gate {
                        QuantumGate::PauliX | QuantumGate::PauliY | QuantumGate::PauliZ => true,
                        _ => false,
                    };
                    if gate == last.0 && same_qubits(&qubits, &last.1) && pauli {
                        pending = None;
                    } else {
                        let ghost lv = (last.0, last.1@);
                        kept.push(last);
                        assert(ops_view(kept@) =~= ops_view(kept_before).push(lv));
                        pending = Some((gate, qubits));
                    }
                },
            }
        }
        assert(ops.take(ops.len() as int) =~= ops);
        let ghost kept_before = kept@;
        match pending {
            None => {},
            Some(last) => {
                let ghost lv = (last.0, last.1@);
                kept.push(last);
                assert(ops_view(kept@) =~= ops_view(kept_before).push(lv));
            },
        }
        proof {
            lemma_optimize_len(ops);
        }
        self.depth = kept.len() as u32;
        self.operations = kept;
        Ok(())
    }
}

/// Applies the steps in order to `state`, stopping at the first step the
/// state refuses; the steps before it stay applied.
pub fn apply_steps(
    steps: &Vec<(QuantumGate, Vec<u32>)>,
    state: &mut QuantumState,
) -> (r: Result<(), SecureCommsError>)
    requires
        old(state).wf(),
    ensures
        final(state).wf(),
        final(state).same_identity(old(state)),
        final(state)@ == run(old(state).qubit_count, old(state)@, ops_view(steps@)).0,
        r is Ok <==> run(old(state).qubit_count, old(state)@, ops_view(steps@)).1,
        r is Err ==> r->Err_0 is QuantumOperation,
{
    let ghost r0 = state@;
    let ghost n = state.qubit_count;
    let ghost ops = ops_view(steps@);
    for i in 0..steps.len()
        invariant
            ops == ops_view(steps@),
            n == state.qubit_count,
            state.wf(),
            state.same_identity(old(state)),
            r0 == old(state)@,
            state@ == run(n, r0, ops.take(i as int)).0,
            run(n, r0, ops.take(i as int)).1,
    {
        assert(ops.take(i + 1).drop_last() =~= ops.take(i as int));
        let res = state.apply_gate(steps[i].0, steps[i].1.as_slice());
        if res.is_err() {
            proof {
                lemma_run_stops(n, r0, ops, i + 1);
            }
            assert(ops.take(ops.len() as int) =~= ops);
            return res;
        }
    }
    assert(ops.take(ops.len() as int) =~= ops);
    Ok(())
}

proof fn lemma_run_stops(n: u32, r: Register, ops: Seq<GateOp>, i: int)
    requires
        0 <= i <= ops.len(),
        !run(n, r, ops.take(i)).1,
    ensures
        !run(n, r, ops).1,
        run(n, r, ops).0 == run(n, r, ops.take(i)).0,
    decreases ops.len() - i,
{
    if i < ops.len() {
        assert(ops.take(i + 1).drop_last() =~= ops.take(i));
        lemma_run_stops(n, r, ops, i + 1);
    } else {
        assert(ops.take(i) =~= ops);
    }
}

} // verus!
