use vstd::prelude::*;
use vstd::arithmetic::power2::pow2;
use crate::bits::{bit_mask, bit_set, dim, flip, lemma_flip, lemma_flip_other};
use crate::error::SecureCommsError;
use crate::table::{latest, position, put, stored, table_view};
use crate::sums::{is_involution, lemma_total_add, lemma_total_ext, lemma_total_involution, total};

verus! {

/// Phase units in one full turn: a phase unit is `2*pi / 8000`.
pub const PHASE_TURN: u32 = 8000;

/// Largest amplitude numerator a state holds. A Hadamard sums the two
/// amplitudes of each pair and adds one to the scale, so one that would take
/// a numerator past this bound, or the scale past `MAX_SCALE`, is refused:
/// about 33 Hadamards on one qubit without a measurement in between.
pub const AMPLITUDE_LIMIT: u64 = 4294967296;

/// Largest exponent of the common amplitude denominator `sqrt(2)^scale`.
pub const MAX_SCALE: u32 = 64;

/// Largest register a state can hold.
pub const MAX_STATE_QUBITS: u32 = 30;

/// The unitary gates of the model.
#[derive(Debug, Clone, Copy, PartialEq, Eq, Structural)]
pub enum QuantumGate {
    Hadamard,
    PauliX,
    PauliY,
    PauliZ,
    CNOT,
    Phase,
    TGate,
    SGate,
}

/// What a state holds, as mathematical values: amplitude `k` is
/// `amplitudes[k] / sqrt(2)^scale`, phase `k` is `phases[k]` units of
/// `1/8000` of a turn.
pub struct Register {
    pub amplitudes: Seq<u64>,
    pub phases: Seq<u32>,
    pub scale: nat,
}

/// Sum of the squared numerators: the state's norm is `weight / 2^scale`.
pub open spec fn weight(a: Seq<u64>) -> int {
    total(a.len() as int, |k: int| a[k] * a[k])
}

/// Sum of the products of the numerators paired by qubit `q`.
pub open spec fn cross(a: Seq<u64>, q: u32) -> int {
    total(a.len() as int, |k: int| a[k] * a[flip(k as usize, q) as int])
}

/// Whether a register's norm is exactly one.
pub open spec fn normalized(r: Register) -> bool {
    weight(r.amplitudes) == pow2(r.scale)
}

/// A phase turned by `d` units, modulo a full turn.
pub open spec fn rotate(p: u32, d: int) -> u32 {
    ((p + d) % (PHASE_TURN as int)) as u32
}

/// Number of qubit operands a gate reads.
pub open spec fn operand_count(g: QuantumGate) -> int {
    if g is CNOT {
        2
    } else {
        1
    }
}

/// The index whose amplitude moves to `k` under a permuting gate.
/// PauliX swaps only the pairs whose lower index lies in the lower half of
/// the register; PauliY swaps every pair; CNOT swaps the target pair of
/// every index with the control set, and nothing when control equals target.
pub open spec fn source(g: QuantumGate, k: usize, q0: u32, q1: u32, len: usize) -> usize {
    match g {
        QuantumGate::PauliX => if k & !bit_mask(q0) < len / 2 {
            flip(k, q0)
        } else {
            k
        },
        QuantumGate::PauliY => flip(k, q0),
        QuantumGate::CNOT => if q0 != q1 && bit_set(k, q0) {
            flip(k, q1)
        } else {
            k
        },
        _ => k,
    }
}

/// The phase turn a non-Hadamard gate adds at index `k`, in phase units.
pub open spec fn turn(g: QuantumGate, k: usize, q0: u32) -> int {
    match g {
        QuantumGate::PauliY => if bit_set(k, q0) {
            6000
        } else {
            2000
        },
        QuantumGate::PauliZ => if bit_set(k, q0) {
            4000
        } else {
            0
        },
        QuantumGate::Phase => if bit_set(k, q0) {
            4000
        } else {
            0
        },
        QuantumGate::TGate => if bit_set(k, q0) {
            1000
        } else {
            0
        },
        QuantumGate::SGate => if bit_set(k, q0) {
            2000
        } else {
            0
        },
        _ => 0,
    }
}

/// A non-Hadamard gate: every amplitude and phase moves from its source
/// index, and the phase turns.
pub open spec fn permute_model(r: Register, g: QuantumGate, q0: u32, q1: u32) -> Register {
    let len = r.amplitudes.len() as usize;
    Register {
        amplitudes: Seq::new(
            r.amplitudes.len(),
            |k: int| r.amplitudes[source(g, k as usize, q0, q1, len) as int],
        ),
        phases: Seq::new(
            r.phases.len(),
            |k: int| rotate(r.phases[source(g, k as usize, q0, q1, len) as int], turn(g, k as usize, q0)),
        ),
        scale: r.scale,
    }
}

/// The Hadamard of the model: both indices of a pair receive the sum of the
/// pair's amplitudes over `sqrt(2)`, and the phase of the pair's upper index.
pub open spec fn hadamard_model(r: Register, q: u32) -> Register {
    Register {
        amplitudes: Seq::new(
            r.amplitudes.len(),
            |k: int| (r.amplitudes[k] + r.amplitudes[flip(k as usize, q) as int]) as u64,
        ),
        phases: Seq::new(r.phases.len(), |k: int| r.phases[((k as usize) | bit_mask(q)) as int]),
        scale: r.scale + 1,
    }
}

/// Whether the Hadamard on `q` stays within the representable range.
pub open spec fn hadamard_fits(r: Register, q: u32) -> bool {
    &&& r.scale < MAX_SCALE
    &&& forall|k: int|
        0 <= k < r.amplitudes.len() ==> r.amplitudes[k] + r.amplitudes[#[trigger] flip(
            k as usize,
            q,
        ) as int] <= AMPLITUDE_LIMIT
}

/// Whether a gate with these operands is accepted by an `n`-qubit state.
pub open spec fn accepts(n: u32, r: Register, g: QuantumGate, qs: Seq<u32>) -> bool {
    &&& qs.len() >= operand_count(g)
    &&& forall|i: int| 0 <= i < qs.len() ==> #[trigger] qs[i] < n
    &&& (g is Hadamard ==> hadamard_fits(r, qs[0]))
}

/// The register after an accepted gate.
pub open spec fn gate_model(r: Register, g: QuantumGate, qs: Seq<u32>) -> Register {
    if g is Hadamard {
        hadamard_model(r, qs[0])
    } else {
        permute_model(r, g, qs[0], if g is CNOT { qs[1] } else { 0 })
    }
}

/// Whether a register is a valid `n`-qubit register.
pub open spec fn register_wf(n: u32, r: Register) -> bool {
    &&& n <= MAX_STATE_QUBITS
    &&& r.amplitudes.len() == dim(n)
    &&& r.phases.len() == dim(n)
    &&& r.scale <= MAX_SCALE
    &&& forall|k: int| 0 <= k < r.amplitudes.len() ==> #[trigger] r.amplitudes[k] <= AMPLITUDE_LIMIT
    &&& forall|k: int| 0 <= k < r.phases.len() ==> #[trigger] r.phases[k] < PHASE_TURN
}

pub proof fn lemma_source(g: QuantumGate, k: usize, q0: u32, q1: u32, n: u32)
    requires
        n <= MAX_STATE_QUBITS,
        q0 < n,
        q1 < n,
        k < dim(n),
    ensures
        source(g, k, q0, q1, dim(n)) < dim(n),
        source(g, source(g, k, q0, q1, dim(n)), q0, q1, dim(n)) == k,
{
    lemma_flip(k, q0, n);
    lemma_flip(k, q1, n);
    if g is CNOT && q0 != q1 && bit_set(k, q0) {
        lemma_flip_other(k, q1, q0);
    }
}

/// A gate keeps a register valid.
pub proof fn lemma_gate_wf(n: u32, r: Register, g: QuantumGate, qs: Seq<u32>)
    requires
        register_wf(n, r),
        accepts(n, r, g, qs),
    ensures
        register_wf(n, gate_model(r, g, qs)),
{
    let q0 = qs[0];
    assert(qs[0] < n);
    let q1 = if g is CNOT { qs[1] } else { 0 };
    if g is CNOT {
        assert(qs[1] < n);
    }
    let out = gate_model(r, g, qs);
    if g is Hadamard {
        assert forall|k: int| 0 <= k < out.amplitudes.len() implies #[trigger] out.amplitudes[k]
            <= AMPLITUDE_LIMIT by {
            lemma_flip(k as usize, q0, n);
        }
        assert forall|k: int| 0 <= k < out.phases.len() implies #[trigger] out.phases[k]
            < PHASE_TURN by {
            lemma_flip(k as usize, q0, n);
        }
    } else {
        assert forall|k: int| 0 <= k < out.amplitudes.len() implies #[trigger] out.amplitudes[k]
            <= AMPLITUDE_LIMIT by {
            lemma_source(g, k as usize, q0, q1, n);
        }
        assert forall|k: int| 0 <= k < out.phases.len() implies #[trigger] out.phases[k]
            < PHASE_TURN by {
            lemma_source(g, k as usize, q0, q1, n);
        }
    }
}

/// A permuting gate keeps the weight and the scale.
pub proof fn lemma_permute_weight(n: u32, r: Register, g: QuantumGate, q0: u32, q1: u32)
    requires
        register_wf(n, r),
        q0 < n,
        q1 < n,
    ensures
        weight(permute_model(r, g, q0, q1).amplitudes) == weight(r.amplitudes),
        permute_model(r, g, q0, q1).scale == r.scale,
{
    let a = r.amplitudes;
    let len = dim(n);
    let sigma = |k: int| source(g, k as usize, q0, q1, len) as int;
    let f = |k: int| a[k] * a[k];
    assert forall|k: int| 0 <= k < len implies 0 <= #[trigger] sigma(k) < len && sigma(sigma(k))
        == k by {
        lemma_source(g, k as usize, q0, q1, n);
    }
    assert(is_involution(len as int, sigma));
    lemma_total_involution(len as int, f, sigma);
    let b = permute_model(r, g, q0, q1).amplitudes;
    lemma_total_ext(len as int, |k: int| f(sigma(k)), |k: int| b[k] * b[k]);
}

/// The Hadamard on `q` turns the weight `w` into `2 * w + 2 * cross`.
pub proof fn lemma_hadamard_weight(n: u32, r: Register, q: u32)
    requires
        register_wf(n, r),
        q < n,
    ensures
        weight(hadamard_model(r, q).amplitudes) == 2 * weight(r.amplitudes) + 2 * cross(
            r.amplitudes,
            q,
        ),
        hadamard_model(r, q).scale == r.scale + 1,
{
    let a = r.amplitudes;
    let len = dim(n) as int;
    let b = hadamard_model(r, q).amplitudes;
    let sigma = |k: int| flip(k as usize, q) as int;
    let sq = |k: int| a[k] * a[k];
    let sq_flip = |k: int| sq(sigma(k));
    let cr = |k: int| a[k] * a[flip(k as usize, q) as int];
    assert forall|k: int| 0 <= k < len implies 0 <= #[trigger] sigma(k) < len && sigma(sigma(k))
        == k by {
        lemma_flip(k as usize, q, n);
    }
    lemma_total_involution(len, sq, sigma);
    let two_cr = |k: int| cr(k) + cr(k);
    lemma_total_add(len, cr, cr);
    let sq2 = |k: int| sq(k) + sq_flip(k);
    lemma_total_add(len, sq, sq_flip);
    lemma_total_add(len, sq2, two_cr);
    assert forall|k: int| 0 <= k < len implies #[trigger] (b[k] * b[k]) == sq2(k) + two_cr(k) by {
        lemma_flip(k as usize, q, n);
        let x = a[k] as int;
        let y = a[flip(k as usize, q) as int] as int;
        assert(b[k] == x + y);
        assert((x + y) * (x + y) == x * x + y * y + 2 * (x * y)) by (nonlinear_arith);
    }
    lemma_total_ext(len, |k: int| b[k] * b[k], |k: int| sq2(k) + two_cr(k));
}


/// One multi-qubit state with its cache of measurement outcomes.
#[derive(Debug)]
pub struct QuantumState {
    pub id: String,
    pub qubit_count: u32,
    /// Numerators of the amplitudes over `sqrt(2)^scale`.
    pub amplitudes: Vec<u64>,
    pub scale: u32,
    /// Phases in units of `1/8000` of a turn, each below a full turn.
    pub phases: Vec<u32>,
    /// Measurement outcomes, oldest first; a later entry under the same id
    /// replaces an earlier one.
    pub measurements: Vec<(String, Vec<u8>)>,
    pub created_at: u64,
}

impl View for QuantumState {
    type V = Register;

    open spec fn view(&self) -> Register {
        Register { amplitudes: self.amplitudes@, phases: self.phases@, scale: self.scale as nat }
    }
}

/// The index an amplitude moves from under a permuting gate.
fn source_index(g: QuantumGate, k: usize, q0: u32, q1: u32, len: usize) -> (r: usize)
    requires
        q0 < 32,
        q1 < 32,
    ensures
        r == source(g, k, q0, q1, len),
{
    let m0: usize = 1usize << (q0 as usize);
    match g {
        QuantumGate::PauliX => if k & !m0 < len / 2 {
            k ^ m0
        } else {
            k
        },
        QuantumGate::PauliY => k ^ m0,
        QuantumGate::CNOT => if q0 != q1 && k & m0 != 0 {
            k ^ (1usize << (q1 as usize))
        } else {
            k
        },
        _ => k,
    }
}

/// The phase turn of a non-Hadamard gate at index `k`.
fn turn_at(g: QuantumGate, k: usize, q0: u32) -> (r: u32)
    requires
        q0 < 32,
    ensures
        r == turn(g, k, q0),
        r <= 6000,
{
    let set = k & (1usize << (q0 as usize)) != 0;
    match g {
        QuantumGate::PauliY => if set {
            6000
        } else {
            2000
        },
        QuantumGate::PauliZ => if set {
            4000
        } else {
            0
        },
        QuantumGate::Phase => if set {
            4000
        } else {
            0
        },
        QuantumGate::TGate => if set {
            1000
        } else {
            0
        },
        QuantumGate::SGate => if set {
            2000
        } else {
            0
        },
        _ => 0,
    }
}

impl QuantumState {
    /// Whether the state holds a valid register of its qubit count.
    pub open spec fn wf(&self) -> bool {
        register_wf(self.qubit_count, self@)
    }

    /// Everything but the register is as in `other`.
    pub open spec fn same_identity(&self, other: &QuantumState) -> bool {
        &&& self.id@ == other.id@
        &&& self.qubit_count == other.qubit_count
        &&& self.measurements@ == other.measurements@
        &&& self.created_at == other.created_at
    }

    fn apply_permutation(&mut self, g: QuantumGate, q0: u32, q1: u32)
        requires
            old(self).wf(),
            q0 < old(self).qubit_count,
            q1 < old(self).qubit_count,
        ensures
            final(self)@ == permute_model(old(self)@, g, q0, q1),
            final(self).same_identity(old(self)),
    {
        let len = self.amplitudes.len();
        let ghost r = self@;
        let mut amps: Vec<u64> = Vec::new();
        let mut phases: Vec<u32> = Vec::new();
        for k in 0..len
            invariant
                len == self.amplitudes.len(),
                self.wf(),
                self@ == r,
                q0 < self.qubit_count,
                q1 < self.qubit_count,
                amps@.len() == k,
                phases@.len() == k,
                forall|j: int| 0 <= j < k ==> #[trigger] amps@[j] == permute_model(r, g, q0, q1).amplitudes[j],
                forall|j: int| 0 <= j < k ==> #[trigger] phases@[j] == permute_model(r, g, q0, q1).phases[j],
        {
            let s = source_index(g, k, q0, q1, len);
            proof {
                lemma_source(g, k, q0, q1, self.qubit_count);
            }
            amps.push(self.amplitudes[s]);
            let t = turn_at(g, k, q0);
            phases.push((self.phases[s] + t) % PHASE_TURN);
        }
        assert(amps@ =~= permute_model(r, g, q0, q1).amplitudes);
        assert(phases@ =~= permute_model(r, g, q0, q1).phases);
        self.amplitudes = amps;
        self.phases = phases;
    }

    fn apply_hadamard(&mut self, q: u32)
        requires
            old(self).wf(),
            q < old(self).qubit_count,
            hadamard_fits(old(self)@, q),
        ensures
            final(self)@ == hadamard_model(old(self)@, q),
            final(self).same_identity(old(self)),
    {
        let len = self.amplitudes.len();
        let m: usize = 1usize << (q as usize);
        let ghost r = self@;
        let mut amps: Vec<u64> = Vec::new();
        let mut phases: Vec<u32> = Vec::new();
        for k in 0..len
            invariant
                len == self.amplitudes.len(),
                m == bit_mask(q),
                self.wf(),
                self@ == r,
                q < self.qubit_count,
                hadamard_fits(r, q),
                amps@.len() == k,
                phases@.len() == k,
                forall|j: int| 0 <= j < k ==> #[trigger] amps@[j] == hadamard_model(r, q).amplitudes[j],
                forall|j: int| 0 <= j < k ==> #[trigger] phases@[j] == hadamard_model(r, q).phases[j],
        {
            proof {
                lemma_flip(k, q, self.qubit_count);
            }
            let f = k ^ m;
            assert(r.amplitudes[k as int] + r.amplitudes[flip(k, q) as int] <= AMPLITUDE_LIMIT);
            amps.push(self.amplitudes[k] + self.amplitudes[f]);
            phases.push(self.phases[k | m]);
        }
        assert(amps@ =~= hadamard_model(r, q).amplitudes);
        assert(phases@ =~= hadamard_model(r, q).phases);
        self.amplitudes = amps;
        self.phases = phases;
        self.scale = self.scale + 1;
    }

    fn hadamard_in_range(&self, q: u32) -> (r: bool)
        requires
            self.wf(),
            q < self.qubit_count,
        ensures
            r == hadamard_fits(self@, q),
    {
        if self.scale >= MAX_SCALE {
            return false;
        }
        let len = self.amplitudes.len();
        let m: usize = 1usize << (q as usize);
        for k in 0..len
            invariant
                len == self.amplitudes.len(),
                m == bit_mask(q),
                self.wf(),
                q < self.qubit_count,
                forall|j: int|
                    0 <= j < k ==> self@.amplitudes[j] + self@.amplitudes[#[trigger] flip(
                        j as usize,
                        q,
                    ) as int] <= AMPLITUDE_LIMIT,
        {
            proof {
                lemma_flip(k, q, self.qubit_count);
            }
            if self.amplitudes[k] > AMPLITUDE_LIMIT - self.amplitudes[k ^ m] {
                return false;
            }
        }
        true
    }

    /// Applies a gate to the given qubits. It fails, and changes nothing,
    /// when an operand is missing or out of range, or when a Hadamard would
    /// leave the representable range.
    pub fn apply_gate(
        &mut self,
        gate: QuantumGate,
        qubits: &[u32],
    ) -> (r: Result<(), SecureCommsError>)
        requires
            old(self).wf(),
        ensures
            final(self).wf(),
            final(self).same_identity(old(self)),
            r is Ok <==> accepts(old(self).qubit_count, old(self)@, gate, qubits@),
            r is Ok ==> final(self)@ == gate_model(old(self)@, gate, qubits@),
            r is Err ==> final(self)@ == old(self)@ && r->Err_0 is QuantumOperation,
    {
        let needed: usize = if gate == QuantumGate::CNOT { 2 } else { 1 };
        if qubits.len() < needed {
            return Err(SecureCommsError::quantum("Missing qubit operand"));
        }
        for i in 0..qubits.len()
            invariant
                self.wf(),
                self@ == old(self)@,
                self.same_identity(old(self)),
                forall|j: int| 0 <= j < i ==> #[trigger] qubits@[j] < self.qubit_count,
        {
            if qubits[i] >= self.qubit_count {
                return Err(SecureCommsError::quantum("Qubit index out of range"));
            }
        }
        let q0 = qubits[0];
        if gate == QuantumGate::Hadamard {
            if !self.hadamard_in_range(q0) {
                return Err(SecureCommsError::quantum("Amplitude outside the representable range"));
            }
            proof {
                lemma_gate_wf(self.qubit_count, self@, gate, qubits@);
            }
            self.apply_hadamard(q0);
        } else {
            let q1 = if gate == QuantumGate::CNOT { qubits[1] } else { 0 };
            proof {
                lemma_gate_wf(self.qubit_count, self@, gate, qubits@);
            }
            self.apply_permutation(gate, q0, q1);
        }
        Ok(())
    }
}


/// Sum of the squared numerators of the first `i` amplitudes.
pub open spec fn prefix_weight(a: Seq<u64>, i: int) -> int {
    total(i, |k: int| a[k] * a[k])
}

/// A draw `d` stands for the point `u = (d + 1) / 2^64` of `(0, 1]`; index `i`
/// is selected when the cumulative probability through `i` reaches `u`.
pub open spec fn selects(a: Seq<u64>, scale: nat, draw: u64, i: int) -> bool {
    (draw + 1) * pow2(scale) <= prefix_weight(a, i + 1) * pow2(64)
}

/// The lowest selected index at or after `i`, or `0` when none is.
pub open spec fn first_selected(a: Seq<u64>, scale: nat, draw: u64, i: int) -> int
    decreases a.len() - i,
{
    if i >= a.len() {
        0
    } else if selects(a, scale, draw, i) {
        i
    } else {
        first_selected(a, scale, draw, i + 1)
    }
}

/// The outcome of measuring a register with a given draw.
pub open spec fn outcome(r: Register, draw: u64) -> int {
    first_selected(r.amplitudes, r.scale, draw, 0)
}

/// The basis state `k` of a register of `len` indices.
pub open spec fn basis(len: nat, k: int) -> Register {
    Register {
        amplitudes: Seq::new(len, |j: int| if j == k { 1u64 } else { 0u64 }),
        phases: Seq::new(len, |j: int| 0u32),
        scale: 0,
    }
}

/// The `n` bits of basis index `k`, most significant first.
pub open spec fn outcome_bits(k: usize, n: u32) -> Seq<u8> {
    Seq::new(n as nat, |t: int| ((k >> ((n - 1 - t) as usize)) & 1usize) as u8)
}

/// `2^e` as a machine integer.
fn power_of_two(e: u32) -> (r: u128)
    requires
        e <= 127,
    ensures
        r == pow2(e as nat),
{
    let mut r: u128 = 1;
    let mut i: u32 = 0;
    proof {
        vstd::arithmetic::power2::lemma2_to64();
    }
    while i < e
        invariant
            i <= e <= 127,
            r == pow2(i as nat),
        decreases e - i,
    {
        proof {
            vstd::arithmetic::power2::lemma_pow2_unfold((i + 1) as nat);
            vstd::arithmetic::power2::lemma_pow2_strictly_increases((i + 1) as nat, 128);
            vstd::arithmetic::power2::lemma2_to64();
            vstd::arithmetic::power2::lemma2_to64_rest();
            vstd::arithmetic::power2::lemma_pow2_adds(64, 64);
        }
        r = r * 2;
        i = i + 1;
    }
    r
}

proof fn lemma_select_cases(d: int, c: int, ps: int, p64s: int)
    requires
        0 <= d < 0x1_0000_0000_0000_0000,
        0 <= c,
        ps > 0,
        p64s > 0,
    ensures
        c >= ps ==> (d + 1) * ps <= c * (p64s * ps) || p64s * ps != 0x1_0000_0000_0000_0000,
        c < ps ==> ((d + 1) * ps <= c * (p64s * ps) <==> d + 1 <= c * p64s),
{
    if c >= ps && p64s * ps == 0x1_0000_0000_0000_0000 {
        assert((d + 1) * ps <= 0x1_0000_0000_0000_0000 * ps) by (nonlinear_arith)
            requires d + 1 <= 0x1_0000_0000_0000_0000, ps > 0;
        assert(0x1_0000_0000_0000_0000 * ps <= c * (p64s * ps)) by (nonlinear_arith)
            requires p64s * ps == 0x1_0000_0000_0000_0000, c >= ps, ps > 0;
    }
    assert((d + 1) * ps <= c * (p64s * ps) <==> d + 1 <= c * p64s) by (nonlinear_arith)
        requires ps > 0;
}

impl QuantumState {
    /// A fresh state `|0...0>` of `qubit_count` qubits created at `created_at`.
    pub fn new_at(id: String, qubit_count: u32, created_at: u64) -> (r: QuantumState)
        requires
            qubit_count <= MAX_STATE_QUBITS,
        ensures
            r.wf(),
            r@ == basis(dim(qubit_count) as nat, 0),
            r.id@ == id@,
            r.qubit_count == qubit_count,
            r.measurements@.len() == 0,
            r.created_at == created_at,
    {
        let len: usize = 1usize << (qubit_count as usize);
        let mut amplitudes: Vec<u64> = Vec::new();
        let mut phases: Vec<u32> = Vec::new();
        for k in 0..len
            invariant
                amplitudes@.len() == k,
                phases@.len() == k,
                forall|j: int| 0 <= j < k ==> #[trigger] amplitudes@[j] == (if j == 0 { 1u64 } else { 0u64 }),
                forall|j: int| 0 <= j < k ==> #[trigger] phases@[j] == 0u32,
        {
            amplitudes.push(if k == 0 { 1 } else { 0 });
            phases.push(0);
        }
        let r = QuantumState {
            id,
            qubit_count,
            amplitudes,
            scale: 0,
            phases,
            measurements: Vec::new(),
            created_at,
        };
        assert(r@.amplitudes =~= basis(dim(qubit_count) as nat, 0).amplitudes);
        assert(r@.phases =~= basis(dim(qubit_count) as nat, 0).phases);
        r
    }

    /// A fresh state `|0...0>` stamped with the current time.
    pub fn new(id: String, qubit_count: u32) -> (r: QuantumState)
        requires
            qubit_count <= MAX_STATE_QUBITS,
        ensures
            r.wf(),
            r@ == basis(dim(qubit_count) as nat, 0),
            r.id@ == id@,
            r.qubit_count == qubit_count,
            r.measurements@.len() == 0,
    {
        let now = crate::outside::now_seconds();
        QuantumState::new_at(id, qubit_count, now)
    }

    /// The index a draw selects.
    fn outcome_index(&self, draw: u64) -> (k: usize)
        requires
            self.wf(),
        ensures
            k == outcome(self@, draw),
            k < self.amplitudes@.len(),
    {
        let len = self.amplitudes.len();
        let s = self.scale;
        let ghost a = self@.amplitudes;
        proof {
            if s < 64 {
                vstd::arithmetic::power2::lemma_pow2_strictly_increases(s as nat, 64);
            }
            vstd::arithmetic::power2::lemma_pow2_adds((64 - s) as nat, s as nat);
            vstd::arithmetic::power2::lemma_pow2_pos(s as nat);
            vstd::arithmetic::power2::lemma_pow2_pos((64 - s) as nat);
            vstd::arithmetic::power2::lemma2_to64_rest();
            vstd::arithmetic::power2::lemma_pow2_strictly_increases(s as nat, 65);
            vstd::arithmetic::power2::lemma_pow2_strictly_increases((64 - s) as nat, 65);
        }
        assert(len > 0) by {
            assert(self.qubit_count <= 30);
            assert(dim(self.qubit_count) > 0) by {
                let n = self.qubit_count as usize;
                assert(n <= 30 ==> (1usize << n) > 0) by (bit_vector);
            }
        }
        let ps = power_of_two(s);
        let p64s = power_of_two(64 - s);
        let mut c: u128 = 0;
        for i in 0..len
            invariant
                len == a.len(),
                a == self@.amplitudes,
                self.wf(),
                s == self.scale,
                ps == pow2(s as nat),
                p64s == pow2((64 - s) as nat),
                p64s * ps == pow2(64),
                pow2(64) == 0x1_0000_0000_0000_0000,
                ps <= 0x1_0000_0000_0000_0000,
                ps > 0,
                p64s > 0,
                c == prefix_weight(a, i as int),
                c < ps,
                first_selected(a, s as nat, draw, 0) == first_selected(a, s as nat, draw, i as int),
        {
            let x = self.amplitudes[i];
            assert(x <= AMPLITUDE_LIMIT);
            assert(x * x <= 0x1_0000_0000_0000_0000) by (nonlinear_arith)
                requires x <= 0x1_0000_0000;
            c = c + (x as u128) * (x as u128);
            assert(c == prefix_weight(a, i + 1));
            proof {
                lemma_select_cases(draw as int, c as int, ps as int, p64s as int);
            }
            if c >= ps {
                return i;
            }
            assert(c * p64s < 0x1_0000_0000_0000_0000) by (nonlinear_arith)
                requires c < ps, p64s * ps == 0x1_0000_0000_0000_0000, p64s > 0;
            if (draw as u128) + 1 <= c * p64s {
                return i;
            }
        }
        0
    }

    /// The `n` bits of basis index `k`, most significant first.
    fn index_bits(k: usize, n: u32) -> (r: Vec<u8>)
        requires
            n <= MAX_STATE_QUBITS,
        ensures
            r@ == outcome_bits(k, n),
    {
        let mut bits: Vec<u8> = Vec::new();
        for t in 0..n
            invariant
                n <= MAX_STATE_QUBITS,
                bits@.len() == t,
                forall|j: int| 0 <= j < t ==> #[trigger] bits@[j] == outcome_bits(k, n)[j],
        {
            bits.push(((k >> ((n - 1 - t) as usize)) & 1usize) as u8);
        }
        assert(bits@ =~= outcome_bits(k, n));
        bits
    }

    /// Measures the state with a given draw: the state collapses to the
    /// selected basis state and the outcome is cached under `measurement_id`.
    pub fn measure_with(&mut self, measurement_id: String, draw: u64) -> (r: Vec<u8>)
        requires
            old(self).wf(),
        ensures
            final(self).wf(),
            0 <= outcome(old(self)@, draw) < old(self).amplitudes@.len(),
            final(self)@ == basis(old(self).amplitudes@.len(), outcome(old(self)@, draw)),
            r@ == outcome_bits(outcome(old(self)@, draw) as usize, old(self).qubit_count),
            stored(final(self).measurements@, old(self).measurements@, measurement_id@, r@),
            final(self).id@ == old(self).id@,
            final(self).qubit_count == old(self).qubit_count,
            final(self).created_at == old(self).created_at,
    {
        let k = self.outcome_index(draw);
        let len = self.amplitudes.len();
        let mut amplitudes: Vec<u64> = Vec::new();
        let mut phases: Vec<u32> = Vec::new();
        for j in 0..len
            invariant
                amplitudes@.len() == j,
                phases@.len() == j,
                forall|i: int| 0 <= i < j ==> #[trigger] amplitudes@[i] == (if i == k { 1u64 } else { 0u64 }),
                forall|i: int| 0 <= i < j ==> #[trigger] phases@[i] == 0u32,
        {
            amplitudes.push(if j == k { 1 } else { 0 });
            phases.push(0);
        }
        self.amplitudes = amplitudes;
        self.phases = phases;
        self.scale = 0;
        assert(self@.amplitudes =~= basis(len as nat, k as int).amplitudes);
        assert(self@.phases =~= basis(len as nat, k as int).phases);
        let bits = QuantumState::index_bits(k, self.qubit_count);
        let copy = bits.clone();
        assert(copy@ =~= bits@);
        put(&mut self.measurements, measurement_id, copy);
        bits
    }
}


/// The uniform superposition of an `n`-qubit register: every amplitude is
/// `1 / sqrt(2)^n`, and phase `k` is `steps[k]` thousandths of a turn.
pub open spec fn superposition(n: u32, steps: Seq<u32>) -> Register {
    Register {
        amplitudes: Seq::new(dim(n) as nat, |k: int| 1u64),
        phases: Seq::new(dim(n) as nat, |k: int| (8 * steps[k]) as u32),
        scale: n as nat,
    }
}

/// `dim(n)` is `2^n`.
pub proof fn lemma_dim(n: u32)
    requires
        n <= MAX_STATE_QUBITS,
    ensures
        dim(n) == pow2(n as nat),
        dim(n) > 0,
{
    vstd::arithmetic::power2::lemma2_to64();
    vstd::arithmetic::power2::lemma_pow2_strictly_increases(n as nat, 31);
    vstd::bits::lemma_usize_shl_is_mul(1, n as usize);
}

proof fn lemma_total_ones(n: int)
    requires
        0 <= n,
    ensures
        total(n, |k: int| 1int) == n,
    decreases n,
{
    if n > 0 {
        lemma_total_ones(n - 1);
    }
}

/// The uniform superposition has norm one.
pub proof fn lemma_superposition_normalized(n: u32, steps: Seq<u32>)
    requires
        n <= MAX_STATE_QUBITS,
    ensures
        normalized(superposition(n, steps)),
{
    let a = superposition(n, steps).amplitudes;
    lemma_dim(n);
    lemma_total_ones(dim(n) as int);
    lemma_total_ext(dim(n) as int, |k: int| a[k] * a[k], |k: int| 1int);
}

impl QuantumState {
    /// Puts the state in the uniform superposition, with phase `k` set to
    /// `steps[k]` thousandths of a turn. The result has norm one, so the
    /// normalization step leaves it as it is.
    pub fn prepare_superposition(&mut self, steps: &Vec<u32>)
        requires
            old(self).wf(),
            steps@.len() == old(self).amplitudes@.len(),
            forall|k: int| 0 <= k < steps@.len() ==> #[trigger] steps@[k] < 1000,
        ensures
            final(self).wf(),
            final(self).same_identity(old(self)),
            final(self)@ == superposition(old(self).qubit_count, steps@),
            normalized(final(self)@),
    {
        let len = self.amplitudes.len();
        let mut amplitudes: Vec<u64> = Vec::new();
        let mut phases: Vec<u32> = Vec::new();
        for k in 0..len
            invariant
                len == steps@.len(),
                forall|j: int| 0 <= j < steps@.len() ==> #[trigger] steps@[j] < 1000,
                amplitudes@.len() == k,
                phases@.len() == k,
                forall|j: int| 0 <= j < k ==> #[trigger] amplitudes@[j] == 1u64,
                forall|j: int| 0 <= j < k ==> #[trigger] phases@[j] == (8 * steps@[j]) as u32,
        {
            amplitudes.push(1);
            phases.push(8 * steps[k]);
        }
        self.amplitudes = amplitudes;
        self.phases = phases;
        self.scale = self.qubit_count;
        assert(self@.amplitudes =~= superposition(self.qubit_count, steps@).amplitudes);
        assert(self@.phases =~= superposition(self.qubit_count, steps@).phases);
        proof {
            lemma_superposition_normalized(self.qubit_count, steps@);
        }
    }

    /// Puts the state in the uniform superposition with phases drawn from
    /// `rng`.
    pub fn create_superposition(
        &mut self,
        rng: &mut rand::rngs::StdRng,
    ) -> (r: Result<(), SecureCommsError>)
        requires
            old(self).wf(),
        ensures
            r is Ok,
            final(self).wf(),
            final(self).same_identity(old(self)),
            normalized(final(self)@),
            exists|steps: Seq<u32>| final(self)@ == superposition(old(self).qubit_count, steps),
    {
        let len = self.amplitudes.len();
        let mut steps: Vec<u32> = Vec::new();
        for k in 0..len
            invariant
                steps@.len() == k,
                forall|j: int| 0 <= j < k ==> #[trigger] steps@[j] < 1000,
        {
            steps.push(crate::outside::draw_below(rng, 1000));
        }
        self.prepare_superposition(&steps);
        Ok(())
    }

    /// Measures the state with a draw from `rng`.
    pub fn measure(
        &mut self,
        measurement_id: String,
        rng: &mut rand::rngs::StdRng,
    ) -> (r: Result<Vec<u8>, SecureCommsError>)
        requires
            old(self).wf(),
        ensures
            final(self).wf(),
            r is Ok,
            exists|draw: u64|
                #![trigger outcome(old(self)@, draw)]
                {
                    &&& final(self)@ == basis(old(self).amplitudes@.len(), outcome(old(self)@, draw))
                    &&& r->Ok_0@ == outcome_bits(outcome(old(self)@, draw) as usize, old(self).qubit_count)
                },
            stored(final(self).measurements@, old(self).measurements@, measurement_id@, r->Ok_0@),
            final(self).id@ == old(self).id@,
            final(self).qubit_count == old(self).qubit_count,
            final(self).created_at == old(self).created_at,
    {
        let draw = crate::outside::draw_u64(rng);
        Ok(self.measure_with(measurement_id, draw))
    }

    /// The latest outcome cached under `measurement_id`.
    pub fn get_measurement(&self, measurement_id: &str) -> (r: Option<Vec<u8>>)
        ensures
            match latest(table_view(self.measurements@), measurement_id@) {
                None => r is None,
                Some(v) => r is Some && r->Some_0@ == v,
            },
    {
        let key = measurement_id.to_owned();
        match position(&self.measurements, &key) {
            None => None,
            Some(i) => {
                let found = self.measurements[i].1.clone();
                assert(found@ =~= self.measurements@[i as int].1@);
                Some(found)
            },
        }
    }

    /// The sum of the squared numerators: the norm is this over `2^scale`.
    pub fn norm_weight(&self) -> (r: u128)
        requires
            self.wf(),
        ensures
            r == weight(self@.amplitudes),
    {
        let len = self.amplitudes.len();
        let ghost a = self@.amplitudes;
        let mut c: u128 = 0;
        proof {
            lemma_dim(self.qubit_count);
            vstd::arithmetic::power2::lemma_pow2_strictly_increases(self.qubit_count as nat, 31);
            vstd::arithmetic::power2::lemma2_to64();
        }
        for i in 0..len
            invariant
                len == a.len(),
                len <= 0x8000_0000,
                a == self@.amplitudes,
                self.wf(),
                c == prefix_weight(a, i as int),
                c <= i * 0x1_0000_0000_0000_0000,
        {
            let x = self.amplitudes[i];
            assert(x * x <= 0x1_0000_0000_0000_0000) by (nonlinear_arith)
                requires x <= 0x1_0000_0000;
            c = c + (x as u128) * (x as u128);
        }
        c
    }

    /// Whether the state has norm exactly one.
    pub fn is_normalized(&self) -> (r: bool)
        requires
            self.wf(),
        ensures
            r == normalized(self@),
    {
        let w = self.norm_weight();
        w == power_of_two(self.scale)
    }

    /// The norm in parts per billion, rounded down, and capped at `u64::MAX`.
    pub fn fidelity_ppb(&self) -> (r: u64)
        requires
            self.wf(),
        ensures
            r == fidelity_ppb_of(self@),
    {
        let w = self.norm_weight();
        proof {
            lemma_weight_bound(self.qubit_count, self@);
            vstd::arithmetic::power2::lemma_pow2_pos(self.scale as nat);
        }
        let scaled = w * 1_000_000_000 / power_of_two(self.scale);
        if scaled > 0xFFFF_FFFF_FFFF_FFFF {
            0xFFFF_FFFF_FFFF_FFFF
        } else {
            scaled as u64
        }
    }

    /// The numerators of the amplitudes over `sqrt(2)^scale`.
    pub fn get_amplitudes(&self) -> (r: &[u64])
        ensures
            r@ == self.amplitudes@,
    {
        self.amplitudes.as_slice()
    }

    /// Whether the state holds a valid register of its qubit count: the
    /// check that callers outside verified code make before relying on it.
    pub fn is_well_formed(&self) -> (r: bool)
        ensures
            r == self.wf(),
    {
        if self.qubit_count > MAX_STATE_QUBITS || self.scale > MAX_SCALE {
            return false;
        }
        let len: usize = 1usize << (self.qubit_count as usize);
        if self.amplitudes.len() != len || self.phases.len() != len {
            return false;
        }
        for k in 0..len
            invariant
                len == self.amplitudes@.len(),
                forall|j: int| 0 <= j < k ==> #[trigger] self.amplitudes@[j] <= AMPLITUDE_LIMIT,
        {
            if self.amplitudes[k] > AMPLITUDE_LIMIT {
                return false;
            }
        }
        for k in 0..len
            invariant
                len == self.phases@.len(),
                forall|j: int| 0 <= j < k ==> #[trigger] self.phases@[j] < PHASE_TURN,
        {
            if self.phases[k] >= PHASE_TURN {
                return false;
            }
        }
        true
    }

    /// The phases, in units of `1/8000` of a turn. Phases are kept modulo a
    /// full turn: a gate that turns a phase past it wraps around to zero.
    pub fn get_phases(&self) -> (r: &[u32])
        ensures
            r@ == self.phases@,
    {
        self.phases.as_slice()
    }
}

/// The norm of a register in parts per billion, rounded down and capped.
pub open spec fn fidelity_ppb_of(r: Register) -> int {
    let v = weight(r.amplitudes) * 1_000_000_000 / (pow2(r.scale) as int);
    if v > 0xFFFF_FFFF_FFFF_FFFF {
        0xFFFF_FFFF_FFFF_FFFF
    } else {
        v
    }
}

proof fn lemma_weight_bound(n: u32, r: Register)
    requires
        register_wf(n, r),
    ensures
        0 <= weight(r.amplitudes) <= 0x8000_0000 * 0x1_0000_0000_0000_0000,
{
    let a = r.amplitudes;
    lemma_dim(n);
    vstd::arithmetic::power2::lemma_pow2_strictly_increases(n as nat, 31);
    vstd::arithmetic::power2::lemma2_to64();
    lemma_prefix_bound(a, a.len() as int);
}

proof fn lemma_prefix_bound(a: Seq<u64>, i: int)
    requires
        0 <= i <= a.len(),
        forall|k: int| 0 <= k < a.len() ==> #[trigger] a[k] <= AMPLITUDE_LIMIT,
    ensures
        0 <= prefix_weight(a, i) <= i * 0x1_0000_0000_0000_0000,
    decreases i,
{
    if i > 0 {
        lemma_prefix_bound(a, i - 1);
        let x = a[i - 1];
        assert(0 <= x * x <= 0x1_0000_0000_0000_0000) by (nonlinear_arith)
            requires x <= 0x1_0000_0000;
    }
}

} // verus!
