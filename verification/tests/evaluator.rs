//! Stage-by-stage evaluation scenarios and the evaluator's failure
//! modes.

use nizk_bridge::errors::BridgeError;
use nizk_bridge::eval::Evaluator;
use nizk_bridge::field::{FieldElem, u64_to_bytes32};
use nizk_bridge::op::Op;
use nizk_bridge::swc::{SwcProgram, Term};
use nizk_bridge::value::{Sort, Value};

fn field7() -> Vec<u8> {
    u64_to_bytes32(7)
}

fn fe7(x: u64) -> FieldElem {
    FieldElem::from_u64(&field7(), x)
}

fn pf_lit(x: u64) -> Term {
    Term::leaf(Op::Const(Value::Field(fe7(x))))
}

fn var(name: &str, sort: Sort) -> Term {
    Term::leaf(Op::Var(name.to_string(), sort))
}

fn field_sort() -> Sort {
    Sort::Field(field7())
}

fn ite(c: Term, t: Term, e: Term) -> Term {
    Term { op: Op::Ite, children: vec![c, t, e] }
}

fn pf_add(a: Term, b: Term) -> Term {
    Term { op: Op::PfAdd, children: vec![a, b] }
}

fn mk_inputs(v: Vec<(&str, Sort)>) -> Vec<(String, Sort)> {
    v.into_iter().map(|(n, s)| (n.to_string(), s)).collect()
}

fn expect_fields(output: &[Value], expected: &[u64]) {
    assert_eq!(output.len(), expected.len());
    for i in 0..expected.len() {
        assert!(
            output[i].value_eq(&Value::Field(fe7(expected[i]))),
            "output {} differs",
            i
        );
    }
}

#[test]
fn one_const() {
    let mut comp = SwcProgram::new();
    comp.add_stage(mk_inputs(vec![]), vec![pf_lit(0)]).unwrap();

    let mut evaluator = Evaluator::new(&comp);
    let output = evaluator.eval_stage(Vec::new()).unwrap();
    expect_fields(&output, &[0]);
    assert!(evaluator.is_done());
}

#[test]
fn many_const() {
    let mut comp = SwcProgram::new();
    comp.add_stage(mk_inputs(vec![]), vec![pf_lit(0)]).unwrap();
    comp.add_stage(mk_inputs(vec![]), vec![pf_lit(1), pf_lit(4)]).unwrap();
    comp.add_stage(mk_inputs(vec![]), vec![pf_lit(6)]).unwrap();
    comp.add_stage(mk_inputs(vec![]), vec![pf_lit(0)]).unwrap();

    let mut evaluator = Evaluator::new(&comp);
    let output = evaluator.eval_stage(Vec::new()).unwrap();
    expect_fields(&output, &[0]);
    let output = evaluator.eval_stage(Vec::new()).unwrap();
    expect_fields(&output, &[1, 4]);
    let output = evaluator.eval_stage(Vec::new()).unwrap();
    expect_fields(&output, &[6]);
    let output = evaluator.eval_stage(Vec::new()).unwrap();
    expect_fields(&output, &[0]);
    assert!(evaluator.is_done());
}

#[test]
fn vars_one_stage() {
    let mut comp = SwcProgram::new();
    comp.add_stage(
        mk_inputs(vec![("a", Sort::Bool), ("b", field_sort())]),
        vec![
            var("b", field_sort()),
            ite(var("a", Sort::Bool), pf_lit(1), pf_lit(0)),
        ],
    )
    .unwrap();

    let mut evaluator = Evaluator::new(&comp);
    let output = evaluator
        .eval_stage(vec![
            ("a".to_string(), Value::Bool(true)),
            ("b".to_string(), Value::Field(fe7(5))),
        ])
        .unwrap();
    expect_fields(&output, &[5, 1]);
    assert!(evaluator.is_done());
}

#[test]
fn vars_many_stages() {
    let mut comp = SwcProgram::new();
    comp.add_stage(
        mk_inputs(vec![("a", Sort::Bool), ("b", field_sort())]),
        vec![
            var("b", field_sort()),
            ite(var("a", Sort::Bool), pf_lit(1), pf_lit(0)),
        ],
    )
    .unwrap();
    comp.add_stage(
        mk_inputs(vec![("c", field_sort())]),
        vec![
            pf_add(var("b", field_sort()), var("c", field_sort())),
            ite(var("a", Sort::Bool), pf_lit(1), pf_lit(0)),
            ite(var("a", Sort::Bool), pf_lit(0), pf_lit(1)),
        ],
    )
    .unwrap();

    let mut evaluator = Evaluator::new(&comp);
    let output = evaluator
        .eval_stage(vec![
            ("a".to_string(), Value::Bool(true)),
            ("b".to_string(), Value::Field(fe7(5))),
        ])
        .unwrap();
    expect_fields(&output, &[5, 1]);

    let output = evaluator
        .eval_stage(vec![("c".to_string(), Value::Field(fe7(3)))])
        .unwrap();
    // 5 + 3 = 1 in the field with modulus 7.
    expect_fields(&output, &[1, 1, 0]);
    assert!(evaluator.is_done());
}

#[test]
fn step_values_grow_monotonically() {
    let mut comp = SwcProgram::new();
    comp.add_stage(mk_inputs(vec![]), vec![pf_lit(0)]).unwrap();
    comp.add_stage(mk_inputs(vec![]), vec![pf_lit(1), pf_lit(4)]).unwrap();
    // A stage whose only output repeats an earlier term adds no step.
    comp.add_stage(mk_inputs(vec![]), vec![pf_lit(0)]).unwrap();

    let mut evaluator = Evaluator::new(&comp);
    evaluator.eval_stage(Vec::new()).unwrap();
    let after_one = evaluator.step_values.len();
    evaluator.eval_stage(Vec::new()).unwrap();
    let after_two = evaluator.step_values.len();
    assert!(after_two > after_one);
    let output = evaluator.eval_stage(Vec::new()).unwrap();
    let after_three = evaluator.step_values.len();
    assert_eq!(after_two, after_three);
    expect_fields(&output, &[0]);
}

#[test]
fn missing_input_is_reported() {
    let mut comp = SwcProgram::new();
    comp.add_stage(
        mk_inputs(vec![("a", Sort::Bool)]),
        vec![var("a", Sort::Bool)],
    )
    .unwrap();
    let mut evaluator = Evaluator::new(&comp);
    let r = evaluator.eval_stage(Vec::new());
    assert!(matches!(r, Err(BridgeError::MissingInput)));
}

#[test]
fn sort_mismatch_is_reported() {
    let mut comp = SwcProgram::new();
    comp.add_stage(
        mk_inputs(vec![("b", field_sort())]),
        vec![var("b", field_sort())],
    )
    .unwrap();
    let mut evaluator = Evaluator::new(&comp);
    let r = evaluator.eval_stage(vec![("b".to_string(), Value::Bool(true))]);
    assert!(matches!(r, Err(BridgeError::SortMismatch)));
}

#[test]
fn duplicate_input_at_build() {
    let mut comp = SwcProgram::new();
    comp.add_stage(mk_inputs(vec![("a", Sort::Bool)]), vec![var("a", Sort::Bool)])
        .unwrap();
    let r = comp.add_stage(mk_inputs(vec![("a", Sort::Bool)]), vec![]);
    assert!(matches!(r, Err(BridgeError::DuplicateInput)));
}

#[test]
fn domain_error_on_bad_projection() {
    let mut comp = SwcProgram::new();
    let pair = Term {
        op: Op::Tuple,
        children: vec![pf_lit(1), pf_lit(2)],
    };
    let project_far = Term {
        op: Op::Field(5),
        children: vec![pair],
    };
    comp.add_stage(mk_inputs(vec![]), vec![project_far]).unwrap();
    let mut evaluator = Evaluator::new(&comp);
    let r = evaluator.eval_stage(Vec::new());
    assert!(matches!(r, Err(BridgeError::EvalDomainError)));
}

#[test]
fn tuple_ops_evaluate() {
    let mut comp = SwcProgram::new();
    let pair = Term {
        op: Op::Tuple,
        children: vec![pf_lit(1), pf_lit(2)],
    };
    let updated = Term {
        op: Op::Update(0),
        children: vec![pair, pf_lit(6)],
    };
    let first = Term {
        op: Op::Field(0),
        children: vec![updated],
    };
    comp.add_stage(mk_inputs(vec![]), vec![first]).unwrap();
    let mut evaluator = Evaluator::new(&comp);
    let output = evaluator.eval_stage(Vec::new()).unwrap();
    expect_fields(&output, &[6]);
}

#[test]
fn bool_ops_evaluate() {
    let mut comp = SwcProgram::new();
    let t = Term::leaf(Op::Const(Value::Bool(true)));
    let f = Term::leaf(Op::Const(Value::Bool(false)));
    let and = Term { op: Op::BoolAnd, children: vec![t.dup(), f.dup()] };
    let or = Term { op: Op::BoolOr, children: vec![t.dup(), f.dup()] };
    let xor = Term { op: Op::BoolXor, children: vec![t.dup(), t.dup()] };
    let not = Term { op: Op::Not, children: vec![f.dup()] };
    let eq = Term { op: Op::Eq, children: vec![pf_lit(3), pf_lit(3)] };
    comp.add_stage(mk_inputs(vec![]), vec![and, or, xor, not, eq]).unwrap();
    let mut evaluator = Evaluator::new(&comp);
    let output = evaluator.eval_stage(Vec::new()).unwrap();
    assert!(output[0].value_eq(&Value::Bool(false)));
    assert!(output[1].value_eq(&Value::Bool(true)));
    assert!(output[2].value_eq(&Value::Bool(false)));
    assert!(output[3].value_eq(&Value::Bool(true)));
    assert!(output[4].value_eq(&Value::Bool(true)));
}

#[test]
fn pf_mul_and_neg_evaluate() {
    let mut comp = SwcProgram::new();
    let mul = Term { op: Op::PfMul, children: vec![pf_lit(5), pf_lit(4)] };
    let neg = Term { op: Op::PfNeg, children: vec![pf_lit(3)] };
    comp.add_stage(mk_inputs(vec![]), vec![mul, neg]).unwrap();
    let mut evaluator = Evaluator::new(&comp);
    let output = evaluator.eval_stage(Vec::new()).unwrap();
    // 5 * 4 = 20 = 6 and -3 = 4 in the field with modulus 7.
    expect_fields(&output, &[6, 4]);
}

#[test]
fn bitvector_ops_evaluate() {
    let mut comp = SwcProgram::new();
    let bv = |x: u64| Term::leaf(Op::Const(Value::BitVector(x, 8)));
    let add = Term { op: Op::BvAdd, children: vec![bv(200), bv(100)] };
    let mul = Term { op: Op::BvMul, children: vec![bv(16), bv(17)] };
    let into_field = Term {
        op: Op::UbvToPf(u64_to_bytes32(7)),
        children: vec![bv(9)],
    };
    comp.add_stage(mk_inputs(vec![]), vec![add, mul, into_field]).unwrap();
    let mut evaluator = Evaluator::new(&comp);
    let output = evaluator.eval_stage(Vec::new()).unwrap();
    // 200 + 100 = 44 and 16 * 17 = 16 in eight bits; 9 = 2 mod 7.
    assert!(output[0].value_eq(&Value::BitVector(44, 8)));
    assert!(output[1].value_eq(&Value::BitVector(16, 8)));
    assert!(output[2].value_eq(&Value::Field(fe7(2))));
}

#[test]
fn bitvector_width_mismatch_is_domain_error() {
    let mut comp = SwcProgram::new();
    let add = Term {
        op: Op::BvAdd,
        children: vec![
            Term::leaf(Op::Const(Value::BitVector(1, 8))),
            Term::leaf(Op::Const(Value::BitVector(1, 16))),
        ],
    };
    comp.add_stage(mk_inputs(vec![]), vec![add]).unwrap();
    let mut evaluator = Evaluator::new(&comp);
    let r = evaluator.eval_stage(Vec::new());
    assert!(matches!(r, Err(BridgeError::EvalDomainError)));
}

#[test]
fn bitvector_inputs_check_their_sort() {
    let mut comp = SwcProgram::new();
    comp.add_stage(
        mk_inputs(vec![("v", Sort::BitVector(8))]),
        vec![var("v", Sort::BitVector(8))],
    )
    .unwrap();
    let mut evaluator = Evaluator::new(&comp);
    let r = evaluator.eval_stage(vec![("v".to_string(), Value::BitVector(3, 16))]);
    assert!(matches!(r, Err(BridgeError::SortMismatch)));
    let out = evaluator
        .eval_stage(vec![("v".to_string(), Value::BitVector(3, 8))])
        .unwrap();
    assert!(out[0].value_eq(&Value::BitVector(3, 8)));
}

#[test]
fn shared_subterms_share_steps() {
    let mut comp = SwcProgram::new();
    let sum = || pf_add(pf_lit(2), pf_lit(3));
    comp.add_stage(mk_inputs(vec![]), vec![sum(), sum()]).unwrap();
    // Both outputs are one term, so they point at one step: the program
    // holds the two constants and the sum, nothing more.
    assert_eq!(comp.output_steps[0], comp.output_steps[1]);
    assert_eq!(comp.steps.len(), 3);
    let mut evaluator = Evaluator::new(&comp);
    let output = evaluator.eval_stage(Vec::new()).unwrap();
    expect_fields(&output, &[5, 5]);
}
