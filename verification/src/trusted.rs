//! Trusted declarations for the outside functions the library calls:
//! string comparison from std, and the NIZK scheme's generators,
//! instances, assignments, transcripts, proving and verifying entry
//! points. Every contract here states only what the outside source
//! shows; the handles pair each opaque scheme object with the sizes it
//! was built from, so that the size preconditions the scheme's own code
//! asserts can be tracked.

use vstd::prelude::*;
use crate::bytes::le_val;
use crate::errors::BridgeError;
use crate::field::nizk_modulus_val;

verus! {

/// Relies on str's `PartialEq`: two string slices are equal exactly when
/// their character sequences are.
#[verifier::external_body]
pub fn str_eq(a: &str, b: &str) -> (r: bool)
    ensures
        r == (a@ == b@),
{
    a == b
}

#[verifier::external_type_specification]
#[verifier::external_body]
pub struct ExInstance(libspartan::Instance);

#[verifier::external_type_specification]
#[verifier::external_body]
pub struct ExAssignment(libspartan::Assignment);

#[verifier::external_type_specification]
#[verifier::external_body]
pub struct ExNIZKGens(libspartan::NIZKGens);

#[verifier::external_type_specification]
#[verifier::external_body]
pub struct ExNIZK(libspartan::NIZK);

#[verifier::external_type_specification]
#[verifier::external_body]
pub struct ExTranscript(merlin::Transcript);

/// The byte strings of an encoded scalar list, entry by entry.
pub open spec fn bytes_views(s: Seq<Vec<u8>>) -> Seq<Seq<u8>> {
    Seq::new(s.len(), |i: int| s[i]@)
}

/// The shape of a sparse matrix entry list, entry by entry.
pub open spec fn triples_view(s: Seq<(usize, usize, Vec<u8>)>) -> Seq<(usize, usize, Seq<u8>)> {
    Seq::new(s.len(), |k: int| (s[k].0, s[k].1, s[k].2@))
}

/// An assignment of scalars, carrying the number of entries it was
/// built from and, as a ghost model, the encodings themselves.
pub struct SchemeAssignment {
    assn: libspartan::Assignment,
    count: usize,
    entries: Ghost<Seq<Seq<u8>>>,
}

impl SchemeAssignment {
    /// How many scalars the assignment holds.
    pub closed spec fn spec_count(self) -> int {
        self.count as int
    }

    /// The canonical encodings the assignment was built from.
    pub closed spec fn spec_entries(self) -> Seq<Seq<u8>> {
        self.entries@
    }

    /// How many scalars the assignment holds.
    pub fn len(&self) -> (r: usize)
        ensures
            r as int == self.spec_count(),
    {
        self.count
    }
}

/// A scheme instance, with the sizes it was built from and, as a ghost
/// model, the three sparse matrices it was given.
pub struct InstanceHandle {
    inst: libspartan::Instance,
    num_cons: usize,
    num_vars: usize,
    num_inputs: usize,
    mat_a: Ghost<Seq<(usize, usize, Seq<u8>)>>,
    mat_b: Ghost<Seq<(usize, usize, Seq<u8>)>>,
    mat_c: Ghost<Seq<(usize, usize, Seq<u8>)>>,
}

impl InstanceHandle {
    pub closed spec fn spec_num_cons(self) -> int {
        self.num_cons as int
    }

    pub closed spec fn spec_num_vars(self) -> int {
        self.num_vars as int
    }

    pub closed spec fn spec_num_inputs(self) -> int {
        self.num_inputs as int
    }

    /// The triples of the first constraint matrix.
    pub closed spec fn spec_mat_a(self) -> Seq<(usize, usize, Seq<u8>)> {
        self.mat_a@
    }

    /// The triples of the second constraint matrix.
    pub closed spec fn spec_mat_b(self) -> Seq<(usize, usize, Seq<u8>)> {
        self.mat_b@
    }

    /// The triples of the third constraint matrix.
    pub closed spec fn spec_mat_c(self) -> Seq<(usize, usize, Seq<u8>)> {
        self.mat_c@
    }

    pub fn num_cons(&self) -> (r: usize)
        ensures
            r as int == self.spec_num_cons(),
    {
        self.num_cons
    }

    pub fn num_vars(&self) -> (r: usize)
        ensures
            r as int == self.spec_num_vars(),
    {
        self.num_vars
    }

    pub fn num_inputs(&self) -> (r: usize)
        ensures
            r as int == self.spec_num_inputs(),
    {
        self.num_inputs
    }

    /// The scheme's own instance object, for a caller that checks a
    /// reloaded proof against the scheme at the process boundary.
    pub fn instance_ref(&self) -> &libspartan::Instance
    {
        &self.inst
    }
}

/// Public parameters, with the sizes they were built for.
pub struct GensHandle {
    gens: libspartan::NIZKGens,
    num_cons: usize,
    num_vars: usize,
    num_inputs: usize,
}

impl GensHandle {
    /// The scheme's own generators, for a caller that checks a
    /// reloaded proof against the scheme at the process boundary.
    pub fn gens_ref(&self) -> &libspartan::NIZKGens
    {
        &self.gens
    }

    pub closed spec fn spec_num_cons(self) -> int {
        self.num_cons as int
    }

    pub closed spec fn spec_num_vars(self) -> int {
        self.num_vars as int
    }

    pub closed spec fn spec_num_inputs(self) -> int {
        self.num_inputs as int
    }
}

/// Every entry is the canonical encoding of a scalar below the scheme's
/// modulus.
pub open spec fn entries_canonical(entries: Seq<Vec<u8>>) -> bool {
    forall|i: int| 0 <= i < entries.len()
        ==> (#[trigger] entries[i])@.len() == 32 && le_val(entries[i]@) < nizk_modulus_val()
}

/// Relies on libspartan's `Assignment::new`: it parses each 32-byte
/// string with the scalar field's canonical `from_bytes` and fails
/// exactly when some entry is not a canonical scalar, that is, when its
/// value is not below the scheme's modulus.
#[verifier::external_body]
fn assignment_new_raw(entries: &Vec<Vec<u8>>) -> (r: Option<libspartan::Assignment>)
    requires
        forall|i: int| 0 <= i < entries@.len() ==> (#[trigger] entries@[i])@.len() == 32,
    ensures
        r is Some <==> entries_canonical(entries@),
{
    let mut arr: Vec<[u8; 32]> = Vec::new();
    for e in entries {
        let mut a = [0u8; 32];
        a.copy_from_slice(e);
        arr.push(a);
    }
    libspartan::Assignment::new(&arr).ok()
}

/// An assignment from canonical 32-byte scalar encodings.
pub fn new_assignment(entries: &Vec<Vec<u8>>) -> (r: Option<SchemeAssignment>)
    requires
        forall|i: int| 0 <= i < entries@.len() ==> (#[trigger] entries@[i])@.len() == 32,
    ensures
        r is Some <==> entries_canonical(entries@),
        r matches Some(h) ==> h.spec_count() == entries@.len()
            && h.spec_entries() == bytes_views(entries@),
{
    match assignment_new_raw(entries) {
        Some(assn) => Some(SchemeAssignment {
            assn,
            count: entries.len(),
            entries: Ghost(bytes_views(entries@)),
        }),
        None => None,
    }
}

/// A matrix entry list is in bounds for the given shape and canonical.
pub open spec fn triples_ok(m: Seq<(usize, usize, Vec<u8>)>, num_cons: int, num_cols: int) -> bool {
    forall|k: int| 0 <= k < m.len()
        ==> (#[trigger] m[k]).0 < num_cons && m[k].1 < num_cols
            && m[k].2@.len() == 32 && le_val(m[k].2@) < nizk_modulus_val()
}

/// Relies on libspartan's `Instance::new`: it checks each triple's row
/// against `num_cons`, its column against `num_vars + 1 + num_inputs`,
/// and its value against the canonical scalar form, and fails exactly
/// when one of these checks fails. The size bounds keep its internal
/// power-of-two padding within `usize`.
#[verifier::external_body]
fn instance_new_raw(
    num_cons: usize,
    num_vars: usize,
    num_inputs: usize,
    ma: &Vec<(usize, usize, Vec<u8>)>,
    mb: &Vec<(usize, usize, Vec<u8>)>,
    mc: &Vec<(usize, usize, Vec<u8>)>,
) -> (r: Option<libspartan::Instance>)
    requires
        num_cons >= 1,
        num_cons <= 0x1000_0000 && num_vars <= 0x1000_0000 && num_inputs <= 0x1000_0000,
        forall|k: int| 0 <= k < ma@.len() ==> (#[trigger] ma@[k]).2@.len() == 32,
        forall|k: int| 0 <= k < mb@.len() ==> (#[trigger] mb@[k]).2@.len() == 32,
        forall|k: int| 0 <= k < mc@.len() ==> (#[trigger] mc@[k]).2@.len() == 32,
    ensures
        r is Some <==> {
            let cols = num_vars + 1 + num_inputs;
            triples_ok(ma@, num_cons as int, cols as int)
                && triples_ok(mb@, num_cons as int, cols as int)
                && triples_ok(mc@, num_cons as int, cols as int)
        },
{
    let conv = |m: &Vec<(usize, usize, Vec<u8>)>| -> Vec<(usize, usize, [u8; 32])> {
        m.iter().map(|t| {
            let mut a = [0u8; 32];
            a.copy_from_slice(&t.2);
            (t.0, t.1, a)
        }).collect()
    };
    libspartan::Instance::new(num_cons, num_vars, num_inputs, &conv(ma), &conv(mb), &conv(mc)).ok()
}

/// An instance from sparse matrix triples.
pub fn new_instance(
    num_cons: usize,
    num_vars: usize,
    num_inputs: usize,
    ma: &Vec<(usize, usize, Vec<u8>)>,
    mb: &Vec<(usize, usize, Vec<u8>)>,
    mc: &Vec<(usize, usize, Vec<u8>)>,
) -> (r: Option<InstanceHandle>)
    requires
        num_cons >= 1,
        num_cons <= 0x1000_0000 && num_vars <= 0x1000_0000 && num_inputs <= 0x1000_0000,
        forall|k: int| 0 <= k < ma@.len() ==> (#[trigger] ma@[k]).2@.len() == 32,
        forall|k: int| 0 <= k < mb@.len() ==> (#[trigger] mb@[k]).2@.len() == 32,
        forall|k: int| 0 <= k < mc@.len() ==> (#[trigger] mc@[k]).2@.len() == 32,
    ensures
        r is Some <==> {
            let cols = num_vars + 1 + num_inputs;
            triples_ok(ma@, num_cons as int, cols as int)
                && triples_ok(mb@, num_cons as int, cols as int)
                && triples_ok(mc@, num_cons as int, cols as int)
        },
        r matches Some(h) ==> h.spec_num_cons() == num_cons
            && h.spec_num_vars() == num_vars && h.spec_num_inputs() == num_inputs
            && h.spec_mat_a() == triples_view(ma@)
            && h.spec_mat_b() == triples_view(mb@)
            && h.spec_mat_c() == triples_view(mc@),
{
    match instance_new_raw(num_cons, num_vars, num_inputs, ma, mb, mc) {
        Some(inst) => Some(InstanceHandle {
            inst,
            num_cons,
            num_vars,
            num_inputs,
            mat_a: Ghost(triples_view(ma@)),
            mat_b: Ghost(triples_view(mb@)),
            mat_c: Ghost(triples_view(mc@)),
        }),
        None => None,
    }
}

/// Relies on libspartan's `NIZKGens::new`; the bounds keep its internal
/// power-of-two padding within `usize`.
#[verifier::external_body]
fn nizk_gens_new_raw(num_cons: usize, num_vars: usize, num_inputs: usize)
    -> (r: libspartan::NIZKGens)
    requires
        num_cons >= 1,
        num_cons <= 0x1000_0000 && num_vars <= 0x1000_0000 && num_inputs <= 0x1000_0000,
{
    libspartan::NIZKGens::new(num_cons, num_vars, num_inputs)
}

/// Public parameters sized for an instance.
pub fn new_gens(num_cons: usize, num_vars: usize, num_inputs: usize) -> (r: GensHandle)
    requires
        num_cons >= 1,
        num_cons <= 0x1000_0000 && num_vars <= 0x1000_0000 && num_inputs <= 0x1000_0000,
    ensures
        r.spec_num_cons() == num_cons,
        r.spec_num_vars() == num_vars,
        r.spec_num_inputs() == num_inputs,
{
    let gens = nizk_gens_new_raw(num_cons, num_vars, num_inputs);
    GensHandle { gens, num_cons, num_vars, num_inputs }
}

/// Relies on merlin's `Transcript::new`, seeded with the fixed
/// domain-separation label the wire contract requires; the prover's and
/// the verifier's transcripts both start from this call.
#[verifier::external_body]
pub fn transcript_new() -> (r: merlin::Transcript)
{
    merlin::Transcript::new(b"nizk_example")
}

/// A proof, paired with the shape of the instance it was produced
/// for. Only the prover mints a handle, so holding one certifies the
/// proof's content came out of the scheme in this process; the shape
/// travels with it because the verifier sizes its evaluation tables
/// from points the proof itself claims. A proof persisted to disk
/// leaves this surface for good: to check a reloaded proof, hand it
/// back to the scheme at the process boundary, outside the verified
/// library, since the published scheme aborts rather than rejects on
/// some malformed serialized proofs.
pub struct ProofHandle {
    proof: libspartan::NIZK,
    num_cons: usize,
    num_vars: usize,
    num_inputs: usize,
}

impl ProofHandle {
    pub closed spec fn spec_num_cons(self) -> int {
        self.num_cons as int
    }

    pub closed spec fn spec_num_vars(self) -> int {
        self.num_vars as int
    }

    pub closed spec fn spec_num_inputs(self) -> int {
        self.num_inputs as int
    }

    pub fn num_cons(&self) -> (r: usize)
        ensures
            r as int == self.spec_num_cons(),
    {
        self.num_cons
    }

    pub fn num_vars(&self) -> (r: usize)
        ensures
            r as int == self.spec_num_vars(),
    {
        self.num_vars
    }

    pub fn num_inputs(&self) -> (r: usize)
        ensures
            r as int == self.spec_num_inputs(),
    {
        self.num_inputs
    }

    /// The proof itself, for persisting; what is written here cannot
    /// come back as a handle.
    pub fn proof_ref(&self) -> &libspartan::NIZK
    {
        &self.proof
    }
}

/// Relies on libspartan's `NIZK::prove`. Its internal padding and
/// commitment code index by the instance's sizes; the preconditions
/// hand it an assignment pair and generators of exactly those sizes,
/// the shape its own tests use. The proof comes back stamped with that
/// shape, which the verifier's preconditions will demand. Nothing is
/// promised of the proof's content: whether it verifies is the
/// scheme's affair.
#[verifier::external_body]
pub fn nizk_prove(
    inst: &InstanceHandle,
    vars: SchemeAssignment,
    inputs: &SchemeAssignment,
    gens: &GensHandle,
    transcript: &mut merlin::Transcript,
) -> (r: ProofHandle)
    requires
        vars.spec_count() == inst.spec_num_vars(),
        inputs.spec_count() == inst.spec_num_inputs(),
        gens.spec_num_cons() == inst.spec_num_cons(),
        gens.spec_num_vars() == inst.spec_num_vars(),
        gens.spec_num_inputs() == inst.spec_num_inputs(),
        inst.spec_num_cons() >= 1,
    ensures
        r.spec_num_cons() == inst.spec_num_cons(),
        r.spec_num_vars() == inst.spec_num_vars(),
        r.spec_num_inputs() == inst.spec_num_inputs(),
{
    let proof = libspartan::NIZK::prove(&inst.inst, vars.assn, &inputs.assn, &gens.gens, transcript);
    ProofHandle {
        proof,
        num_cons: inst.num_cons,
        num_vars: inst.num_vars,
        num_inputs: inst.num_inputs,
    }
}

/// Relies on libspartan's `NIZK::verify`: it checks the proof against
/// the instance, the public inputs and the transcript, and reports any
/// mismatch as an error. Every handle was minted by `nizk_prove` in
/// this process, so the proof's structure is what the scheme's prover
/// emitted: its compressed points decompress, its claimed point
/// vectors have the dimensions of the stamped shape — equal to the
/// instance's by the preconditions — and its sum-check polynomials
/// have their degrees, so the verifier's structural asserts hold and a
/// wrong instance or input surfaces as an error, as the tamper tests
/// exercise. The one residue is the scheme's own: a proof that passes
/// the sum-check while claiming inconsistent evaluation points trips
/// its final consistency assert, and producing one means defeating the
/// scheme itself.
#[verifier::external_body]
pub fn nizk_verify(
    proof: &ProofHandle,
    inst: &InstanceHandle,
    inputs: &SchemeAssignment,
    transcript: &mut merlin::Transcript,
    gens: &GensHandle,
) -> (r: Result<(), BridgeError>)
    requires
        proof.spec_num_cons() == inst.spec_num_cons(),
        proof.spec_num_vars() == inst.spec_num_vars(),
        proof.spec_num_inputs() == inst.spec_num_inputs(),
        inputs.spec_count() == inst.spec_num_inputs(),
        gens.spec_num_cons() == inst.spec_num_cons(),
        gens.spec_num_vars() == inst.spec_num_vars(),
        gens.spec_num_inputs() == inst.spec_num_inputs(),
    ensures
        r matches Err(e) ==> e is InvalidProof,
{
    match proof.proof.verify(&inst.inst, &inputs.assn, transcript, &gens.gens) {
        Ok(()) => Ok(()),
        Err(_) => Err(BridgeError::InvalidProof),
    }
}

} // verus!
