//! The binary artifact codec: round-trips, validation, and the version
//! gate.

use nizk_bridge::codec::{decode_prover_data, decode_verifier_data, encode_prover_data,
    encode_verifier_data, CODEC_MAGIC, CODEC_VERSION};
use nizk_bridge::driver::{prove, verify, ProverData, VerifierData};
use nizk_bridge::errors::BridgeError;
use nizk_bridge::field::{nizk_modulus, FieldElem};
use nizk_bridge::op::Op;
use nizk_bridge::r1cs::{Lc, R1cs, Var, VarType};
use nizk_bridge::swc::{SwcProgram, Term};
use nizk_bridge::value::{Sort, Value};

fn q() -> Vec<u8> {
    nizk_modulus()
}

fn feq(x: u64) -> FieldElem {
    FieldElem::from_u64(&q(), x)
}

fn var(name: &str) -> Term {
    Term::leaf(Op::Var(name.to_string(), Sort::Field(q())))
}

fn sample_prover_data() -> ProverData {
    let w = Var { ty: VarType::FinalWit, number: 0 };
    let x = Var { ty: VarType::Inst, number: 1 };
    let r1cs = R1cs {
        modulus: q(),
        vars: vec![w, x],
        constraints: vec![(
            Lc { constant: feq(0), monomials: vec![(w, feq(1))] },
            Lc { constant: feq(1), monomials: Vec::new() },
            Lc { constant: feq(0), monomials: vec![(x, feq(1))] },
        )],
    };
    let mut swc = SwcProgram::new();
    swc.add_stage(
        vec![("x".to_string(), Sort::Field(q()))],
        vec![var("x"), var("x")],
    )
    .unwrap();
    ProverData { r1cs, swc }
}

fn sample_verifier_data() -> VerifierData {
    let x = Var { ty: VarType::Inst, number: 1 };
    let mut public_swc = SwcProgram::new();
    public_swc
        .add_stage(
            vec![("x".to_string(), Sort::Field(q()))],
            vec![var("x")],
        )
        .unwrap();
    VerifierData { modulus: q(), vars: vec![x], public_swc }
}

fn x_inputs(x: u64) -> Vec<(String, Value)> {
    vec![("x".to_string(), Value::Field(feq(x)))]
}

#[test]
fn prover_data_roundtrips() {
    let pd = sample_prover_data();
    let bytes = encode_prover_data(&pd);
    assert_eq!(bytes[0], CODEC_MAGIC);
    assert_eq!(bytes[1], CODEC_VERSION);
    let back = decode_prover_data(&bytes).unwrap();
    // The decoded artifact matches what was written, field for field.
    assert_eq!(back.r1cs.vars, pd.r1cs.vars);
    assert_eq!(back.r1cs.modulus, pd.r1cs.modulus);
    assert_eq!(back.r1cs.constraints.len(), pd.r1cs.constraints.len());
    assert_eq!(back.swc.output_steps, pd.swc.output_steps);
    assert_eq!(back.swc.step_args, pd.swc.step_args);
    let again = encode_prover_data(&back);
    assert_eq!(again, bytes);
}

#[test]
fn verifier_data_roundtrips() {
    let vd = sample_verifier_data();
    let bytes = encode_verifier_data(&vd);
    let back = decode_verifier_data(&bytes).unwrap();
    assert_eq!(back.vars, vd.vars);
    assert_eq!(back.modulus, vd.modulus);
    let again = encode_verifier_data(&back);
    assert_eq!(again, bytes);
}

#[test]
fn version_mismatch_is_incompatible() {
    let pd = sample_prover_data();
    let mut bytes = encode_prover_data(&pd);
    bytes[1] = CODEC_VERSION.wrapping_add(1);
    let r = decode_prover_data(&bytes);
    assert!(matches!(r, Err(BridgeError::IncompatibleArtifact)));
    let r2 = decode_prover_data(&Vec::new());
    assert!(matches!(r2, Err(BridgeError::IncompatibleArtifact)));
}

#[test]
fn truncated_artifact_is_incompatible() {
    let pd = sample_prover_data();
    let bytes = encode_prover_data(&pd);
    let cut: Vec<u8> = bytes[0..bytes.len() / 2].to_vec();
    let r = decode_prover_data(&cut);
    assert!(matches!(r, Err(BridgeError::IncompatibleArtifact)));
}

#[test]
fn decoded_artifacts_prove_and_verify() {
    let pd_bytes = encode_prover_data(&sample_prover_data());
    let vd_bytes = encode_verifier_data(&sample_verifier_data());
    let pd = decode_prover_data(&pd_bytes).unwrap();
    let vd = decode_verifier_data(&vd_bytes).unwrap();
    let (gens, inst, pf) = prove(&pd, &x_inputs(5)).unwrap();
    verify(&vd, &x_inputs(5), &gens, &inst, &pf).unwrap();
}
