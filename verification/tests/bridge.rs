//! End-to-end prove and verify runs over the real scheme, the modulus
//! guard, the satisfiability gate, and tamper detection.

use nizk_bridge::driver::{prove, verify, ProverData, VerifierData};
use nizk_bridge::errors::BridgeError;
use nizk_bridge::field::{nizk_modulus, FieldElem};
use nizk_bridge::op::Op;
use nizk_bridge::r1cs::{Lc, R1cs, Var, VarType};
use nizk_bridge::swc::{SwcProgram, Term};
use nizk_bridge::value::{Sort, Value};

fn q() -> Vec<u8> {
    nizk_modulus()
}

fn feq(x: u64) -> FieldElem {
    FieldElem::from_u64(&q(), x)
}

fn var(name: &str) -> Term {
    Term::leaf(Op::Var(name.to_string(), Sort::Field(q())))
}

fn lc_const(c: u64) -> Lc {
    Lc { constant: feq(c), monomials: Vec::new() }
}

fn lc_var(v: Var, coeff: u64) -> Lc {
    Lc { constant: feq(0), monomials: vec![(v, feq(coeff))] }
}

/// The trivial circuit `w * 1 = x` with one witness `w` and one public
/// input `x`, both carrying the same wire value.
fn trivial_prover_data(coeff: u64) -> ProverData {
    let w = Var { ty: VarType::FinalWit, number: 0 };
    let x = Var { ty: VarType::Inst, number: 1 };
    let r1cs = R1cs {
        modulus: q(),
        vars: vec![w, x],
        constraints: vec![(lc_var(w, coeff), lc_const(1), lc_var(x, 1))],
    };
    let mut swc = SwcProgram::new();
    swc.add_stage(
        vec![("x".to_string(), Sort::Field(q()))],
        vec![var("x"), var("x")],
    )
    .unwrap();
    ProverData { r1cs, swc }
}

fn trivial_verifier_data() -> VerifierData {
    let x = Var { ty: VarType::Inst, number: 1 };
    let mut public_swc = SwcProgram::new();
    public_swc
        .add_stage(
            vec![("x".to_string(), Sort::Field(q()))],
            vec![var("x")],
        )
        .unwrap();
    VerifierData { modulus: q(), vars: vec![x], public_swc }
}

fn x_inputs(x: u64) -> Vec<(String, Value)> {
    vec![("x".to_string(), Value::Field(feq(x)))]
}

#[test]
fn prove_verify_roundtrip() {
    let pd = trivial_prover_data(1);
    let vd = trivial_verifier_data();
    let (gens, inst, pf) = prove(&pd, &x_inputs(3)).unwrap();
    verify(&vd, &x_inputs(3), &gens, &inst, &pf).unwrap();
}

/// The raw scheme objects mirroring the trivial circuit, for checking
/// reloaded proofs at the process boundary: a persisted proof leaves
/// the library's verified surface, so its bytes go back to the scheme
/// directly.
fn raw_scheme_mirror(pd: &ProverData) -> (libspartan::Instance, libspartan::NIZKGens, libspartan::InputsAssignment) {
    let (ids, w, icount) = pd.r1cs.renumber();
    let (ma, mb, mc) = pd.r1cs.to_matrices(&ids, w);
    let conv = |m: &Vec<(usize, usize, Vec<u8>)>| -> Vec<(usize, usize, [u8; 32])> {
        m.iter()
            .map(|t| {
                let mut a = [0u8; 32];
                a.copy_from_slice(&t.2);
                (t.0, t.1, a)
            })
            .collect()
    };
    let inst = libspartan::Instance::new(
        pd.r1cs.constraints.len(),
        w,
        icount,
        &conv(&ma),
        &conv(&mb),
        &conv(&mc),
    )
    .unwrap();
    let gens = libspartan::NIZKGens::new(pd.r1cs.constraints.len(), w, icount);
    let mut x_bytes = [0u8; 32];
    x_bytes.copy_from_slice(&feq(3).value);
    let inputs = libspartan::InputsAssignment::new(&[x_bytes]).unwrap();
    (inst, gens, inputs)
}

#[test]
fn tampered_proof_is_rejected() {
    let pd = trivial_prover_data(1);
    let (_gens, _inst, pf) = prove(&pd, &x_inputs(3)).unwrap();
    let bytes = bincode::serialize(pf.proof_ref()).unwrap();
    let (raw_inst, raw_gens, raw_inputs) = raw_scheme_mirror(&pd);

    // The untampered bytes round-trip and verify against the mirror,
    // so the rejections below are not vacuous.
    let reloaded: libspartan::NIZK = bincode::deserialize(&bytes).unwrap();
    let mut t0 = merlin::Transcript::new(b"nizk_example");
    assert!(reloaded.verify(&raw_inst, &raw_inputs, &mut t0, &raw_gens).is_ok());

    let mut detections: usize = 0;
    let mut trials: usize = 0;
    // Ten positions spread over the proof's leading commitments. The
    // scheme's verifier reports corruption there as an error; byte
    // flips deeper inside some sub-proofs stop the process inside the
    // outside library instead of returning, so those stay out of an
    // automated suite.
    for pos in [3usize, 11, 22, 33, 44, 55, 63, 66, 71, 79] {
        let mut tampered = bytes.clone();
        tampered[pos] ^= 0x01;
        trials += 1;
        match bincode::deserialize::<libspartan::NIZK>(&tampered) {
            Ok(bad) => {
                let mut transcript = merlin::Transcript::new(b"nizk_example");
                let r = bad.verify(&raw_inst, &raw_inputs, &mut transcript, &raw_gens);
                assert!(r.is_err());
                detections += 1;
            }
            Err(_) => {
                // The tampered bytes no longer form a proof at all.
                detections += 1;
            }
        }
    }
    assert_eq!(detections, trials);
}

#[test]
fn tampered_input_is_rejected() {
    let pd = trivial_prover_data(1);
    let vd = trivial_verifier_data();
    let (gens, inst, pf) = prove(&pd, &x_inputs(3)).unwrap();
    // The public input differs in one byte of its encoding.
    let r = verify(&vd, &x_inputs(2), &gens, &inst, &pf);
    assert!(matches!(r, Err(BridgeError::InvalidProof)));
}

#[test]
fn tampered_matrix_is_rejected() {
    let pd = trivial_prover_data(1);
    let vd = trivial_verifier_data();
    let (gens, _inst, pf) = prove(&pd, &x_inputs(3)).unwrap();
    // An instance whose constraint says `2w * 1 = x` instead.
    let bad_pd = trivial_prover_data(2);
    let (ids, w, _i) = bad_pd.r1cs.renumber();
    let (ma, mb, mc) = bad_pd.r1cs.to_matrices(&ids, w);
    let bad_inst = nizk_bridge::trusted::new_instance(1, 1, 1, &ma, &mb, &mc).unwrap();
    let r = verify(&vd, &x_inputs(3), &gens, &bad_inst, &pf);
    assert!(matches!(r, Err(BridgeError::InvalidProof)));
}

#[test]
fn modulus_guard_fires_first() {
    // The modulus is off by one from the scheme's.
    let mut off = q();
    off[0] = off[0].wrapping_add(1);
    let w = Var { ty: VarType::FinalWit, number: 0 };
    let x = Var { ty: VarType::Inst, number: 1 };
    let r1cs = R1cs {
        modulus: off.clone(),
        vars: vec![w, x],
        constraints: vec![(
            Lc { constant: FieldElem::from_u64(&off, 0), monomials: vec![(w, FieldElem::from_u64(&off, 1))] },
            Lc { constant: FieldElem::from_u64(&off, 1), monomials: Vec::new() },
            Lc { constant: FieldElem::from_u64(&off, 0), monomials: vec![(x, FieldElem::from_u64(&off, 1))] },
        )],
    };
    let mut swc = SwcProgram::new();
    swc.add_stage(
        vec![("x".to_string(), Sort::Field(off.clone()))],
        vec![Term::leaf(Op::Var("x".to_string(), Sort::Field(off.clone())))],
    )
    .unwrap();
    let pd = ProverData { r1cs, swc };
    let r = prove(&pd, &vec![("x".to_string(), Value::Field(FieldElem::from_u64(&off, 3)))]);
    assert!(matches!(r, Err(BridgeError::FieldMismatch)));
}

#[test]
fn unsatisfiable_instance_is_gated() {
    // `2w * 1 = x` with w = x = 3 gives 6 = 3, which fails.
    let pd = trivial_prover_data(2);
    let r = prove(&pd, &x_inputs(3));
    assert!(matches!(r, Err(BridgeError::UnsatisfiableInstance)));
}

#[test]
fn empty_constraint_system_is_refused() {
    let mut pd = trivial_prover_data(1);
    pd.r1cs.constraints = Vec::new();
    let r = prove(&pd, &x_inputs(3));
    assert!(matches!(r, Err(BridgeError::EmptyConstraintSystem)));
}

#[test]
fn missing_witness_value_is_reported() {
    // The witness program yields one value for a two-variable system.
    let mut pd = trivial_prover_data(1);
    let mut swc = SwcProgram::new();
    swc.add_stage(
        vec![("x".to_string(), Sort::Field(q()))],
        vec![var("x")],
    )
    .unwrap();
    pd.swc = swc;
    let r = prove(&pd, &x_inputs(3));
    assert!(matches!(r, Err(BridgeError::MissingWitnessValue)));
}

#[test]
fn prove_is_deterministic_in_its_statement() {
    // Two independent runs build the same instance shape and accept the
    // same inputs; the proofs differ (the prover is randomized) but
    // both verify.
    let pd = trivial_prover_data(1);
    let vd = trivial_verifier_data();
    let (g1, i1, p1) = prove(&pd, &x_inputs(3)).unwrap();
    let (g2, i2, p2) = prove(&pd, &x_inputs(3)).unwrap();
    assert_eq!(i1.num_cons(), i2.num_cons());
    assert_eq!(i1.num_vars(), i2.num_vars());
    assert_eq!(i1.num_inputs(), i2.num_inputs());
    verify(&vd, &x_inputs(3), &g1, &i1, &p1).unwrap();
    verify(&vd, &x_inputs(3), &g2, &i2, &p2).unwrap();
}

#[test]
fn matrices_are_byte_identical_across_runs() {
    let pd = trivial_prover_data(1);
    let (ids1, w1, _) = pd.r1cs.renumber();
    let (a1, b1, c1) = pd.r1cs.to_matrices(&ids1, w1);
    let (ids2, w2, _) = pd.r1cs.renumber();
    let (a2, b2, c2) = pd.r1cs.to_matrices(&ids2, w2);
    assert_eq!(ids1, ids2);
    assert_eq!(a1, a2);
    assert_eq!(b1, b2);
    assert_eq!(c1, c2);
}
