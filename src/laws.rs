//! Properties that hold across the operations of the library.
use vstd::prelude::*;
use vstd::arithmetic::power2::pow2;
use crate::bits::{bit_set, dim, flip, lemma_flip};
use crate::quantum_circuit::{lemma_run_wf, run, GateOp};
use crate::quantum_core::bell_plan;
use crate::quantum_state::{
    accepts, basis, cross, first_selected, gate_model, lemma_dim, lemma_hadamard_weight,
    lemma_permute_weight, lemma_source, normalized, permute_model, rotate, turn, outcome, prefix_weight, register_wf, selects, source,
    hadamard_model, outcome_bits, QuantumGate, Register, AMPLITUDE_LIMIT, MAX_STATE_QUBITS,
    PHASE_TURN,
};

verus! {

/// Every gate but the Hadamard keeps a normalized register normalized; the
/// Hadamard on `q` does so exactly when the products of the amplitudes
/// paired by `q` sum to zero (each pair holds a zero), since it sums the two
/// amplitudes of each pair.
pub proof fn gate_keeps_normalization(n: u32, r: Register, g: QuantumGate, qs: Seq<u32>)
    requires
        register_wf(n, r),
        normalized(r),
        accepts(n, r, g, qs),
    ensures
        normalized(gate_model(r, g, qs)) <==> (!(g is Hadamard) || cross(r.amplitudes, qs[0]) == 0),
{
    assert(qs[0] < n);
    if g is Hadamard {
        lemma_hadamard_weight(n, r, qs[0]);
        vstd::arithmetic::power2::lemma_pow2_unfold(r.scale + 1);
    } else {
        let q1 = if g is CNOT { qs[1] } else { 0 };
        if g is CNOT {
            assert(qs[1] < n);
        }
        lemma_permute_weight(n, r, g, qs[0], q1);
    }
}

/// Every Hadamard a run executes meets a qubit whose paired amplitudes have
/// products summing to zero.
pub open spec fn hadamards_meet_basis_qubits(n: u32, r: Register, ops: Seq<GateOp>) -> bool
    decreases ops.len(),
{
    if ops.len() == 0 {
        true
    } else {
        let (before, ok) = run(n, r, ops.drop_last());
        let op = ops.last();
        &&& hadamards_meet_basis_qubits(n, r, ops.drop_last())
        &&& (ok && accepts(n, before, op.0, op.1) && op.0 is Hadamard ==> cross(before.amplitudes, op.1[0]) == 0)
    }
}

/// A run of gates keeps a normalized register normalized when each of its
/// Hadamards meets a qubit whose paired amplitudes have products summing to
/// zero; refused gates change nothing.
pub proof fn run_keeps_normalization(n: u32, r: Register, ops: Seq<GateOp>)
    requires
        register_wf(n, r),
        normalized(r),
        hadamards_meet_basis_qubits(n, r, ops),
    ensures
        normalized(run(n, r, ops).0),
    decreases ops.len(),
{
    if ops.len() > 0 {
        run_keeps_normalization(n, r, ops.drop_last());
        lemma_run_wf(n, r, ops.drop_last());
        let (before, ok) = run(n, r, ops.drop_last());
        let op = ops.last();
        if ok && accepts(n, before, op.0, op.1) {
            gate_keeps_normalization(n, before, op.0, op.1);
        }
    }
}

/// A fresh register `|0...0>` is normalized.
pub proof fn fresh_register_normalized(n: u32)
    requires
        n <= MAX_STATE_QUBITS,
    ensures
        normalized(basis(dim(n) as nat, 0)),
{
    lemma_dim(n);
    lemma_basis_prefix(dim(n) as nat, 0, dim(n) as int);
    vstd::arithmetic::power2::lemma2_to64();
}

proof fn lemma_basis_prefix(len: nat, k: int, i: int)
    requires
        0 <= k < len,
        0 <= i <= len,
    ensures
        prefix_weight(basis(len, k).amplitudes, i) == (if i > k { 1int } else { 0int }),
    decreases i,
{
    if i > 0 {
        lemma_basis_prefix(len, k, i - 1);
    }
}

proof fn lemma_basis_first(len: nat, k: int, draw: u64, i: int)
    requires
        0 <= i <= k < len,
    ensures
        first_selected(basis(len, k).amplitudes, 0, draw, i) == k,
    decreases k - i,
{
    let a = basis(len, k).amplitudes;
    vstd::arithmetic::power2::lemma2_to64();
    lemma_basis_prefix(len, k, i + 1);
    if i < k {
        lemma_basis_first(len, k, draw, i + 1);
    }
}

/// A measurement leaves a basis state, and measuring a basis state gives its
/// own index whatever the draw: measuring twice without preparing the state
/// again gives the same outcome both times.
pub proof fn measurement_repeats(n: u32, r: Register, draw1: u64, draw2: u64)
    requires
        register_wf(n, r),
    ensures
        ({
            let collapsed = basis(r.amplitudes.len(), outcome(r, draw1));
            outcome(collapsed, draw2) == outcome(r, draw1)
        }),
{
    lemma_dim(n);
    lemma_outcome_range(r, draw1);
    lemma_basis_first(r.amplitudes.len(), outcome(r, draw1), draw2, 0);
}

proof fn lemma_outcome_range(r: Register, draw: u64)
    requires
        r.amplitudes.len() > 0,
    ensures
        0 <= outcome(r, draw) < r.amplitudes.len(),
{
    lemma_first_range(r.amplitudes, r.scale, draw, 0);
}

proof fn lemma_first_range(a: Seq<u64>, scale: nat, draw: u64, i: int)
    requires
        0 <= i,
        a.len() > 0,
    ensures
        0 <= first_selected(a, scale, draw, i) < a.len(),
    decreases a.len() - i,
{
    if i < a.len() && !selects(a, scale, draw, i) {
        lemma_first_range(a, scale, draw, i + 1);
    }
}

proof fn lemma_pauli_twice_at(n: u32, r: Register, g: QuantumGate, q: u32, k: int)
    requires
        register_wf(n, r),
        q < n,
        g is PauliX || g is PauliY || g is PauliZ,
        0 <= k < dim(n),
    ensures
        permute_model(permute_model(r, g, q, 0), g, q, 0).amplitudes[k] == r.amplitudes[k],
        permute_model(permute_model(r, g, q, 0), g, q, 0).phases[k] == r.phases[k],
{
    let len = dim(n);
    let kk = k as usize;
    lemma_source(g, kk, q, 0, n);
    lemma_flip(kk, q, n);
    let s = source(g, kk, q, 0, len);
    let once = permute_model(r, g, q, 0);
    let p = r.phases[k];
    assert(p < PHASE_TURN);
    assert(once.phases[s as int] == rotate(r.phases[source(g, s, q, 0, len) as int], turn(g, s, q)));
    assert(source(g, s, q, 0, len) == kk);
    if g is PauliY {
        assert(s == flip(kk, q));
        assert(turn(g, s, q) + turn(g, kk, q) == 8000);
    }
    assert((((p + turn(g, s, q)) % 8000) + turn(g, kk, q)) % 8000 == p) by {
        let a = turn(g, s, q);
        let b = turn(g, kk, q);
        assert(a + b == 0 || a + b == 8000);
        assert(0 <= a <= 6000 && 0 <= b <= 6000);
    }
}

/// PauliX, PauliY and PauliZ undo themselves: applying one twice to the
/// same qubit restores the amplitudes, and the phases modulo a full turn.
pub proof fn pauli_self_inverse(n: u32, r: Register, g: QuantumGate, q: u32)
    requires
        register_wf(n, r),
        q < n,
        g is PauliX || g is PauliY || g is PauliZ,
    ensures
        gate_model(gate_model(r, g, seq![q]), g, seq![q]) == r,
{
    assert(seq![q][0] == q);
    let once = gate_model(r, g, seq![q]);
    assert(once == permute_model(r, g, q, 0));
    let twice = gate_model(once, g, seq![q]);
    assert(twice == permute_model(once, g, q, 0));
    let len = dim(n);
    assert forall|k: int| 0 <= k < len implies #[trigger] twice.amplitudes[k] == r.amplitudes[k]
        by {
        lemma_pauli_twice_at(n, r, g, q, k);
    }
    assert forall|k: int| 0 <= k < len implies #[trigger] twice.phases[k] == r.phases[k] by {
        lemma_pauli_twice_at(n, r, g, q, k);
    }
    assert(twice.amplitudes =~= r.amplitudes);
    assert(twice.phases =~= r.phases);
}

/// A Bell pair prepared on a fresh two-qubit state (Hadamard on qubit 0,
/// then CNOT from 0 to 1) is accepted gate by gate, and measuring it yields
/// `00` or `11` whatever the draw, never `01` or `10`.
pub proof fn bell_pair_correlated(draw: u64)
    ensures
        run(2, basis(4, 0), bell_plan(0, 1)).1,
        ({
            let bits = outcome_bits(outcome(run(2, basis(4, 0), bell_plan(0, 1)).0, draw) as usize, 2);
            bits == seq![0u8, 0u8] || bits == seq![1u8, 1u8]
        }),
{
    let plan = bell_plan(0, 1);
    let b = basis(4, 0);
    assert(plan.drop_last() =~= seq![(QuantumGate::Hadamard, seq![0u32])]);
    assert(plan.drop_last().drop_last() =~= Seq::<GateOp>::empty());
    assert(dim(2) == 4 && flip(0, 0) == 1 && flip(1, 0) == 0 && flip(2, 0) == 3 && flip(3, 0) == 2
        && flip(1, 1) == 3 && flip(3, 1) == 1 && bit_set(0, 0) == false && bit_set(1, 0) && bit_set(2, 0) == false
        && bit_set(3, 0) && (0usize >> 1usize) & 1usize == 0 && (0usize >> 0usize) & 1usize == 0
        && (3usize >> 1usize) & 1usize == 1 && (3usize >> 0usize) & 1usize == 1) by (bit_vector);
    let h = hadamard_model(b, 0);
    assert forall|k: int| 0 <= k < 4 implies b.amplitudes[k] + b.amplitudes[#[trigger] flip(k as usize, 0) as int]
        <= AMPLITUDE_LIMIT by {
        lemma_flip(k as usize, 0, 2);
    }
    assert(accepts(2, b, QuantumGate::Hadamard, seq![0u32]));
    assert(h.amplitudes =~= seq![1u64, 1, 0, 0]);
    assert(h.scale == 1);
    let c = permute_model(h, QuantumGate::CNOT, 0, 1);
    assert(accepts(2, h, QuantumGate::CNOT, seq![0u32, 1]));
    assert(c.amplitudes =~= seq![1u64, 0, 0, 1]);
    assert(run(2, b, plan.drop_last().drop_last()) == (b, true));
    assert(plan.drop_last().last() == (QuantumGate::Hadamard, seq![0u32]));
    assert(seq![0u32][0] == 0);
    assert(gate_model(b, QuantumGate::Hadamard, seq![0u32]) == h);
    assert(run(2, b, plan.drop_last()) == (h, true));
    assert(plan.last() == (QuantumGate::CNOT, seq![0u32, 1]));
    assert(seq![0u32, 1][0] == 0 && seq![0u32, 1][1] == 1);
    assert(gate_model(h, QuantumGate::CNOT, seq![0u32, 1]) == c);
    let m = run(2, b, plan).0;
    assert(m == c);
    let a = c.amplitudes;
    vstd::arithmetic::power2::lemma2_to64();
    vstd::arithmetic::power2::lemma2_to64_rest();
    reveal_with_fuel(crate::sums::total, 5);
    assert(prefix_weight(a, 1) == 1);
    assert(prefix_weight(a, 2) == 1);
    assert(prefix_weight(a, 3) == 1);
    assert(prefix_weight(a, 4) == 2);
    if selects(a, 1, draw, 0) {
        assert(outcome(c, draw) == 0);
        assert(outcome_bits(0, 2) =~= seq![0u8, 0u8]);
    } else {
        assert(!selects(a, 1, draw, 1));
        assert(!selects(a, 1, draw, 2));
        assert(selects(a, 1, draw, 3));
        assert(first_selected(a, 1, draw, 4) == 0);
        assert(first_selected(a, 1, draw, 3) == 3);
        assert(first_selected(a, 1, draw, 2) == 3);
        assert(first_selected(a, 1, draw, 1) == 3);
        assert(first_selected(a, 1, draw, 0) == 3);
        assert(outcome(c, draw) == 3);
        assert(outcome_bits(3, 2) =~= seq![1u8, 1u8]);
    }
}

} // verus!
