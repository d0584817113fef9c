//! The operators of the witness-computation DAG and their evaluator.
//!
//! Each step of a program carries one `Op`; evaluating the step applies
//! the operator to the values of earlier steps and to the variable
//! environment. The evaluator is a single dispatch on the operator tag,
//! exact against `eval_op_spec`.

use vstd::prelude::*;
use crate::bytes::{le_val, le_bytes_of, lemma_le_bytes_of_roundtrip};
use crate::env::VarMap;
use crate::errors::BridgeError;
use crate::value::{Sort, SortV, Value, ValueV, value_view, value_views, value_wf, values_wf,
    sort_view, lemma_value_views, lemma_values_wf_elem, lemma_values_wf_intro};

verus! {

/// One operator of the DAG.
#[derive(Debug)]
pub enum Op {
    /// A named input variable of some stage, with its declared sort.
    Var(String, Sort),
    /// A literal value.
    Const(Value),
    /// Three arguments: a boolean choosing between the other two.
    Ite,
    /// Two arguments: structural equality.
    Eq,
    /// One boolean argument.
    Not,
    /// Any number of boolean arguments.
    BoolAnd,
    BoolOr,
    BoolXor,
    /// At least one field argument, all of one field.
    PfAdd,
    PfMul,
    /// One field argument.
    PfNeg,
    /// At least one bit-vector argument, all of one width.
    BvAdd,
    BvMul,
    /// One bit-vector argument, injected into the field with the given
    /// 32-byte little-endian modulus.
    UbvToPf(Vec<u8>),
    /// Any number of arguments, packed in order.
    Tuple,
    /// One tuple argument: its component at the index.
    Field(usize),
    /// A tuple and a replacement for the component at the index.
    Update(usize),
}

/// The mathematical shape of an `Op`.
#[verifier::ext_equal]
pub enum OpV {
    Var(Seq<char>, SortV),
    Const(ValueV),
    Ite,
    Eq,
    Not,
    BoolAnd,
    BoolOr,
    BoolXor,
    PfAdd,
    PfMul,
    PfNeg,
    BvAdd,
    BvMul,
    UbvToPf(Seq<u8>),
    Tuple,
    Field(int),
    Update(int),
}

pub open spec fn op_view(op: Op) -> OpV {
    match op {
        Op::Var(name, sort) => OpV::Var(name@, sort_view(sort)),
        Op::Const(v) => OpV::Const(value_view(v)),
        Op::Ite => OpV::Ite,
        Op::Eq => OpV::Eq,
        Op::Not => OpV::Not,
        Op::BoolAnd => OpV::BoolAnd,
        Op::BoolOr => OpV::BoolOr,
        Op::BoolXor => OpV::BoolXor,
        Op::PfAdd => OpV::PfAdd,
        Op::PfMul => OpV::PfMul,
        Op::PfNeg => OpV::PfNeg,
        Op::BvAdd => OpV::BvAdd,
        Op::BvMul => OpV::BvMul,
        Op::UbvToPf(m) => OpV::UbvToPf(m@),
        Op::Tuple => OpV::Tuple,
        Op::Field(i) => OpV::Field(i as int),
        Op::Update(i) => OpV::Update(i as int),
    }
}

impl View for Op {
    type V = OpV;

    open spec fn view(&self) -> OpV {
        op_view(*self)
    }
}

/// Well-formedness of an operator: any constant it carries is a
/// well-formed value, and any field modulus it names is a canonical
/// 32-byte string of value at least 2.
pub open spec fn op_wf(op: OpV) -> bool {
    match op {
        OpV::Const(v) => value_wf(v),
        OpV::UbvToPf(m) => m.len() == 32 && le_val(m) >= 2,
        _ => true,
    }
}

/// All members of a sequence are booleans.
pub open spec fn all_bools(args: Seq<ValueV>) -> bool {
    forall|i: int| 0 <= i < args.len() ==> (#[trigger] args[i]) is Bool
}

/// The value of a boolean shape.
pub open spec fn bool_of(v: ValueV) -> bool {
    v->Bool_0
}

/// Exclusive or, folded over a sequence of booleans.
pub open spec fn xor_fold(args: Seq<ValueV>) -> bool
    decreases args,
{
    if args.len() == 0 {
        false
    } else {
        xor_fold(args.drop_last()) != bool_of(args.last())
    }
}

/// All members are field elements of the field with the given modulus.
pub open spec fn all_fields(args: Seq<ValueV>, m: Seq<u8>) -> bool {
    forall|i: int| 0 <= i < args.len()
        ==> ((#[trigger] args[i]) matches ValueV::Field(_, mm) && mm == m)
}

/// The modulus of the first argument, where it is a field element.
pub open spec fn first_modulus(args: Seq<ValueV>) -> Seq<u8> {
    args[0]->Field_1
}

/// The value bytes of a field shape.
pub open spec fn field_val(v: ValueV) -> nat {
    le_val(v->Field_0)
}

/// The sum of the field values of a sequence.
pub open spec fn pf_sum(args: Seq<ValueV>) -> nat
    decreases args,
{
    if args.len() == 0 {
        0
    } else {
        pf_sum(args.drop_last()) + field_val(args.last())
    }
}

/// The product of the field values of a sequence.
pub open spec fn pf_prod(args: Seq<ValueV>) -> nat
    decreases args,
{
    if args.len() == 0 {
        1
    } else {
        pf_prod(args.drop_last()) * field_val(args.last())
    }
}

/// The guard under which a field-arithmetic operator applies.
pub open spec fn pf_guard(args: Seq<ValueV>) -> bool {
    args.len() >= 1 && args[0] is Field && all_fields(args, first_modulus(args))
}

/// All members are bit vectors of the given width.
pub open spec fn all_bvs(args: Seq<ValueV>, w: int) -> bool {
    forall|i: int| 0 <= i < args.len()
        ==> ((#[trigger] args[i]) matches ValueV::BitVector(_, ww) && ww == w)
}

/// The width of the first argument, where it is a bit vector.
pub open spec fn first_width(args: Seq<ValueV>) -> int {
    args[0]->BitVector_1
}

/// The unsigned value of a bit-vector shape.
pub open spec fn bv_val(v: ValueV) -> nat {
    v->BitVector_0 as nat
}

/// The sum of the bit-vector values of a sequence.
pub open spec fn bv_sum(args: Seq<ValueV>) -> nat
    decreases args,
{
    if args.len() == 0 {
        0
    } else {
        bv_sum(args.drop_last()) + bv_val(args.last())
    }
}

/// The product of the bit-vector values of a sequence.
pub open spec fn bv_prod(args: Seq<ValueV>) -> nat
    decreases args,
{
    if args.len() == 0 {
        1
    } else {
        bv_prod(args.drop_last()) * bv_val(args.last())
    }
}

/// The guard under which a bit-vector arithmetic operator applies.
pub open spec fn bv_guard(args: Seq<ValueV>) -> bool {
    args.len() >= 1 && args[0] is BitVector && all_bvs(args, first_width(args))
}

/// A field element of the given modulus with the given reduced value,
/// in canonical bytes.
pub open spec fn field_elem_v(n: nat, m: Seq<u8>) -> ValueV {
    ValueV::Field(le_bytes_of(n, 32), m)
}

/// What an operator yields on given argument values under a given
/// variable environment; `None` when the operator does not apply.
pub open spec fn eval_op_spec(op: OpV, args: Seq<ValueV>, env: Map<Seq<char>, ValueV>) -> Option<ValueV> {
    match op {
        OpV::Var(name, _) => if args.len() == 0 && env.contains_key(name) {
            Some(env[name])
        } else {
            None
        },
        OpV::Const(v) => if args.len() == 0 {
            Some(v)
        } else {
            None
        },
        OpV::Ite => if args.len() == 3 && args[0] is Bool {
            if bool_of(args[0]) {
                Some(args[1])
            } else {
                Some(args[2])
            }
        } else {
            None
        },
        OpV::Eq => if args.len() == 2 {
            Some(ValueV::Bool(args[0] == args[1]))
        } else {
            None
        },
        OpV::Not => if args.len() == 1 && args[0] is Bool {
            Some(ValueV::Bool(!bool_of(args[0])))
        } else {
            None
        },
        OpV::BoolAnd => if all_bools(args) {
            Some(ValueV::Bool(forall|i: int| 0 <= i < args.len() ==> bool_of(#[trigger] args[i])))
        } else {
            None
        },
        OpV::BoolOr => if all_bools(args) {
            Some(ValueV::Bool(exists|i: int| 0 <= i < args.len() && bool_of(#[trigger] args[i])))
        } else {
            None
        },
        OpV::BoolXor => if all_bools(args) {
            Some(ValueV::Bool(xor_fold(args)))
        } else {
            None
        },
        OpV::PfAdd => if pf_guard(args) {
            Some(field_elem_v(pf_sum(args) % le_val(first_modulus(args)), first_modulus(args)))
        } else {
            None
        },
        OpV::PfMul => if pf_guard(args) {
            Some(field_elem_v(pf_prod(args) % le_val(first_modulus(args)), first_modulus(args)))
        } else {
            None
        },
        OpV::PfNeg => if args.len() == 1 && args[0] is Field {
            Some(field_elem_v(
                ((le_val(first_modulus(args)) - field_val(args[0])) % (le_val(first_modulus(args)) as int)) as nat,
                first_modulus(args)))
        } else {
            None
        },
        OpV::BvAdd => if bv_guard(args) {
            let w = first_width(args);
            Some(ValueV::BitVector(
                (bv_sum(args) % vstd::arithmetic::power2::pow2(w as nat)) as u64, w))
        } else {
            None
        },
        OpV::BvMul => if bv_guard(args) {
            let w = first_width(args);
            Some(ValueV::BitVector(
                (bv_prod(args) % vstd::arithmetic::power2::pow2(w as nat)) as u64, w))
        } else {
            None
        },
        OpV::UbvToPf(m) => if args.len() == 1 && args[0] is BitVector {
            Some(field_elem_v(bv_val(args[0]) % le_val(m), m))
        } else {
            None
        },
        OpV::Tuple => Some(ValueV::Tuple(args)),
        OpV::Field(i) => if args.len() == 1 && (args[0] matches ValueV::Tuple(ts) && 0 <= i < ts.len()) {
            Some(args[0]->Tuple_0[i])
        } else {
            None
        },
        OpV::Update(i) => if args.len() == 2 && (args[0] matches ValueV::Tuple(ts) && 0 <= i < ts.len()) {
            Some(ValueV::Tuple(args[0]->Tuple_0.update(i, args[1])))
        } else {
            None
        },
    }
}

/// The error kind for a failing operator application: a missing variable
/// surfaces as a missing input, all else is a domain error.
pub open spec fn eval_op_err_is_missing(op: OpV, args: Seq<ValueV>, env: Map<Seq<char>, ValueV>) -> bool {
    op matches OpV::Var(name, _) && args.len() == 0 && !env.contains_key(name)
}


impl Op {
    /// A full copy.
    pub fn dup(&self) -> (r: Op)
        ensures
            op_view(r) == op_view(*self),
    {
        match self {
            Op::Var(name, sort) => Op::Var(name.as_str().to_owned(), sort.dup()),
            Op::Const(v) => Op::Const(v.dup()),
            Op::Ite => Op::Ite,
            Op::Eq => Op::Eq,
            Op::Not => Op::Not,
            Op::BoolAnd => Op::BoolAnd,
            Op::BoolOr => Op::BoolOr,
            Op::BoolXor => Op::BoolXor,
            Op::PfAdd => Op::PfAdd,
            Op::PfMul => Op::PfMul,
            Op::PfNeg => Op::PfNeg,
            Op::BvAdd => Op::BvAdd,
            Op::BvMul => Op::BvMul,
            Op::UbvToPf(m) => Op::UbvToPf(crate::field::copy_bytes(m)),
            Op::Tuple => Op::Tuple,
            Op::Field(i) => Op::Field(*i),
            Op::Update(i) => Op::Update(*i),
        }
    }
}

/// Applies one operator to argument values under the variable
/// environment, exactly as `eval_op_spec` says; a failing application
/// reports a missing input for an unbound variable and a domain error
/// for everything else.
#[verifier::loop_isolation(false)]
#[verifier::rlimit(100)]
pub fn eval_op(op: &Op, args: Vec<Value>, env: &VarMap) -> (r: Result<Value, BridgeError>)
    requires
        env.wf(),
        values_wf(value_views(args@)),
        op_wf(op@),
    ensures
        match r {
            Ok(v) => eval_op_spec(op@, value_views(args@), env.view_map()) == Some(value_view(v))
                && value_wf(value_view(v)),
            Err(e) => eval_op_spec(op@, value_views(args@), env.view_map()) is None
                && if eval_op_err_is_missing(op@, value_views(args@), env.view_map()) {
                    e is MissingInput
                } else {
                    e is EvalDomainError
                },
        },
{
    let ghost vs = value_views(args@);
    let ghost envm = env.view_map();
    proof {
        lemma_value_views(args@);
    }
    let mut args = args;
    match op {
        Op::Var(name, _) => {
            if args.len() != 0 {
                return Err(BridgeError::EvalDomainError);
            }
            match env.lookup(name.as_str()) {
                Some(v) => Ok(v),
                None => Err(BridgeError::MissingInput),
            }
        },
        Op::Const(v) => {
            if args.len() != 0 {
                return Err(BridgeError::EvalDomainError);
            }
            Ok(v.dup())
        },
        Op::Ite => {
            if args.len() != 3 {
                return Err(BridgeError::EvalDomainError);
            }
            match &args[0] {
                Value::Bool(b) => {
                    proof {
                        lemma_values_wf_elem(vs, 1);
                        lemma_values_wf_elem(vs, 2);
                    }
                    if *b {
                        Ok(args[1].dup())
                    } else {
                        Ok(args[2].dup())
                    }
                },
                _ => Err(BridgeError::EvalDomainError),
            }
        },
        Op::Eq => {
            if args.len() != 2 {
                return Err(BridgeError::EvalDomainError);
            }
            let b = args[0].value_eq(&args[1]);
            Ok(Value::Bool(b))
        },
        Op::Not => {
            if args.len() != 1 {
                return Err(BridgeError::EvalDomainError);
            }
            match &args[0] {
                Value::Bool(b) => Ok(Value::Bool(!*b)),
                _ => Err(BridgeError::EvalDomainError),
            }
        },
        Op::BoolAnd => {
            let n = args.len();
            let mut acc: bool = true;
            let mut i: usize = 0;
            while i < n
                invariant
                    op@ == OpV::BoolAnd,
                    n == args@.len(),
                    i <= n,
                    vs == value_views(args@),
                    vs.len() == n,
                    forall|j: int| 0 <= j < n ==> vs[j] == value_view(#[trigger] args@[j]),
                    forall|j: int| 0 <= j < i ==> (#[trigger] vs[j]) is Bool,
                    acc == (forall|j: int| 0 <= j < i ==> bool_of(#[trigger] vs[j])),
                decreases n - i,
            {
                match &args[i] {
                    Value::Bool(b) => {
                        let ghost acc0 = acc;
                        acc = acc && *b;
                        proof {
                            assert(bool_of(vs[i as int]) == *b);
                            if acc {
                                assert(forall|j: int| 0 <= j < i + 1 ==> bool_of(#[trigger] vs[j]));
                            } else {
                                assert(!acc0 || !*b);
                                if acc0 {
                                    assert(!bool_of(vs[i as int]));
                                }
                            }
                        }
                    },
                    _ => {
                        proof {
                            assert(!all_bools(vs));
                        }
                        return Err(BridgeError::EvalDomainError);
                    },
                }
                i = i + 1;
            }
            proof {
                assert(all_bools(vs));
            }
            Ok(Value::Bool(acc))
        },
        Op::BoolOr => {
            let n = args.len();
            let mut acc: bool = false;
            let mut i: usize = 0;
            while i < n
                invariant
                    op@ == OpV::BoolOr,
                    n == args@.len(),
                    i <= n,
                    vs == value_views(args@),
                    vs.len() == n,
                    forall|j: int| 0 <= j < n ==> vs[j] == value_view(#[trigger] args@[j]),
                    forall|j: int| 0 <= j < i ==> (#[trigger] vs[j]) is Bool,
                    acc == (exists|j: int| 0 <= j < i && bool_of(#[trigger] vs[j])),
                decreases n - i,
            {
                match &args[i] {
                    Value::Bool(b) => {
                        let ghost acc0 = acc;
                        acc = acc || *b;
                        proof {
                            assert(bool_of(vs[i as int]) == *b);
                            if acc {
                                if !acc0 {
                                    assert(bool_of(vs[i as int]));
                                }
                            } else {
                                assert(forall|j: int| 0 <= j < i + 1 ==> !bool_of(#[trigger] vs[j]));
                            }
                        }
                    },
                    _ => {
                        proof {
                            assert(!all_bools(vs));
                        }
                        return Err(BridgeError::EvalDomainError);
                    },
                }
                i = i + 1;
            }
            proof {
                assert(all_bools(vs));
            }
            Ok(Value::Bool(acc))
        },
        Op::BoolXor => {
            let n = args.len();
            let mut acc: bool = false;
            let mut i: usize = 0;
            proof {
                assert(vs.take(0) =~= Seq::<ValueV>::empty());
            }
            while i < n
                invariant
                    op@ == OpV::BoolXor,
                    n == args@.len(),
                    i <= n,
                    vs == value_views(args@),
                    vs.len() == n,
                    forall|j: int| 0 <= j < n ==> vs[j] == value_view(#[trigger] args@[j]),
                    forall|j: int| 0 <= j < i ==> (#[trigger] vs[j]) is Bool,
                    acc == xor_fold(vs.take(i as int)),
                decreases n - i,
            {
                match &args[i] {
                    Value::Bool(b) => {
                        proof {
                            assert(vs.take(i + 1).drop_last() =~= vs.take(i as int));
                            assert(vs.take(i + 1).last() == vs[i as int]);
                            assert(bool_of(vs[i as int]) == *b);
                        }
                        acc = acc != *b;
                    },
                    _ => {
                        proof {
                            assert(!all_bools(vs));
                        }
                        return Err(BridgeError::EvalDomainError);
                    },
                }
                i = i + 1;
            }
            proof {
                assert(vs.take(n as int) =~= vs);
                assert(all_bools(vs));
            }
            Ok(Value::Bool(acc))
        },
        Op::PfAdd => {
            if args.len() == 0 {
                return Err(BridgeError::EvalDomainError);
            }
            let first = match &args[0] {
                Value::Field(f0) => f0.dup(),
                _ => {
                    return Err(BridgeError::EvalDomainError);
                },
            };
            let ghost m = first_modulus(vs);
            let ghost mv = le_val(m);
            proof {
                lemma_values_wf_elem(vs, 0);
                vstd::arithmetic::div_mod::lemma_small_mod(field_val(vs[0]), mv);
                assert(vs.take(1).drop_last() =~= Seq::<ValueV>::empty());
                assert(vs.take(1).last() == vs[0]);
                assert(pf_sum(Seq::<ValueV>::empty()) == 0);
                assert(pf_sum(vs.take(1)) == field_val(vs[0]));
            }
            let n = args.len();
            let mut acc = first;
            let mut i: usize = 1;
            while i < n
                invariant
                    op@ == OpV::PfAdd,
                    1 <= i <= n,
                    n == args@.len(),
                    vs == value_views(args@),
                    vs.len() == n,
                    values_wf(vs),
                    forall|j: int| 0 <= j < n ==> vs[j] == value_view(#[trigger] args@[j]),
                    vs[0] is Field,
                    m == first_modulus(vs),
                    mv == le_val(m),
                    forall|j: int| 0 <= j < i
                        ==> ((#[trigger] vs[j]) matches ValueV::Field(_, mm) && mm == m),
                    acc.wf(),
                    acc.modulus@ == m,
                    le_val(acc.value@) == pf_sum(vs.take(i as int)) % mv,
                decreases n - i,
            {
                match &args[i] {
                    Value::Field(fi) => {
                        proof {
                            assert(vs[i as int] matches ValueV::Field(_, mm) && mm == fi.modulus@);
                        }
                        if fi.modulus.len() != acc.modulus.len() {
                            proof {
                                assert(fi.modulus@ != m);
                                assert(!all_fields(vs, m));
                            }
                            return Err(BridgeError::EvalDomainError);
                        }
                        let same_field = crate::bytes::le_eq(&fi.modulus, &acc.modulus);
                        if !same_field {
                            proof {
                                assert(fi.modulus@ != m);
                                assert(!all_fields(vs, m));
                            }
                            return Err(BridgeError::EvalDomainError);
                        }
                        proof {
                            lemma_values_wf_elem(vs, i as int);
                        }
                        let next = acc.pf_add(fi);
                        proof {
                            let s_prev = pf_sum(vs.take(i as int));
                            let fv = field_val(vs[i as int]);
                            assert(vs.take(i + 1).drop_last() =~= vs.take(i as int));
                            assert(vs.take(i + 1).last() == vs[i as int]);
                            assert(pf_sum(vs.take(i + 1)) == s_prev + fv);
                            assert(le_val(next.value@) == (le_val(acc.value@) + fv) % mv);
                            vstd::arithmetic::div_mod::lemma_add_mod_noop(
                                s_prev as int, fv as int, mv as int);
                            vstd::arithmetic::div_mod::lemma_small_mod(fv, mv);
                            assert((s_prev % mv + fv) % mv == (s_prev + fv) % mv);
                        }
                        acc = next;
                    },
                    _ => {
                        proof {
                            assert(!(vs[i as int] is Field));
                            assert(!all_fields(vs, m));
                        }
                        return Err(BridgeError::EvalDomainError);
                    },
                }
                i = i + 1;
            }
            proof {
                assert(vs.take(n as int) =~= vs);
                assert(pf_guard(vs));
                lemma_le_bytes_of_roundtrip(acc.value@);
                assert(value_view(Value::Field(acc))
                    == field_elem_v(pf_sum(vs) % mv, m));
            }
            Ok(Value::Field(acc))
        },
        Op::PfMul => {
            if args.len() == 0 {
                return Err(BridgeError::EvalDomainError);
            }
            let first = match &args[0] {
                Value::Field(f0) => f0.dup(),
                _ => {
                    return Err(BridgeError::EvalDomainError);
                },
            };
            let ghost m = first_modulus(vs);
            let ghost mv = le_val(m);
            proof {
                lemma_values_wf_elem(vs, 0);
                vstd::arithmetic::div_mod::lemma_small_mod(field_val(vs[0]), mv);
                assert(vs.take(1).drop_last() =~= Seq::<ValueV>::empty());
                assert(vs.take(1).last() == vs[0]);
                assert(pf_prod(Seq::<ValueV>::empty()) == 1);
                assert(pf_prod(vs.take(1)) == 1 * field_val(vs[0]));
                assert(1 * field_val(vs[0]) == field_val(vs[0]))
                    by (nonlinear_arith);
            }
            let n = args.len();
            let mut acc = first;
            let mut i: usize = 1;
            while i < n
                invariant
                    op@ == OpV::PfMul,
                    1 <= i <= n,
                    n == args@.len(),
                    vs == value_views(args@),
                    vs.len() == n,
                    values_wf(vs),
                    forall|j: int| 0 <= j < n ==> vs[j] == value_view(#[trigger] args@[j]),
                    vs[0] is Field,
                    m == first_modulus(vs),
                    mv == le_val(m),
                    forall|j: int| 0 <= j < i
                        ==> ((#[trigger] vs[j]) matches ValueV::Field(_, mm) && mm == m),
                    acc.wf(),
                    acc.modulus@ == m,
                    le_val(acc.value@) == pf_prod(vs.take(i as int)) % mv,
                decreases n - i,
            {
                match &args[i] {
                    Value::Field(fi) => {
                        proof {
                            assert(vs[i as int] matches ValueV::Field(_, mm) && mm == fi.modulus@);
                        }
                        if fi.modulus.len() != acc.modulus.len() {
                            proof {
                                assert(fi.modulus@ != m);
                                assert(!all_fields(vs, m));
                            }
                            return Err(BridgeError::EvalDomainError);
                        }
                        let same_field = crate::bytes::le_eq(&fi.modulus, &acc.modulus);
                        if !same_field {
                            proof {
                                assert(fi.modulus@ != m);
                                assert(!all_fields(vs, m));
                            }
                            return Err(BridgeError::EvalDomainError);
                        }
                        proof {
                            lemma_values_wf_elem(vs, i as int);
                        }
                        let next = acc.pf_mul(fi);
                        proof {
                            let s_prev = pf_prod(vs.take(i as int));
                            let fv = field_val(vs[i as int]);
                            assert(vs.take(i + 1).drop_last() =~= vs.take(i as int));
                            assert(vs.take(i + 1).last() == vs[i as int]);
                            assert(pf_prod(vs.take(i + 1)) == s_prev * fv);
                            assert(le_val(next.value@) == (le_val(acc.value@) * fv) % mv);
                            vstd::arithmetic::div_mod::lemma_mul_mod_noop_left(
                                s_prev as int, fv as int, mv as int);
                            assert(((s_prev % mv) * fv) % mv == (s_prev * fv) % mv);
                        }
                        acc = next;
                    },
                    _ => {
                        proof {
                            assert(!(vs[i as int] is Field));
                            assert(!all_fields(vs, m));
                        }
                        return Err(BridgeError::EvalDomainError);
                    },
                }
                i = i + 1;
            }
            proof {
                assert(vs.take(n as int) =~= vs);
                assert(pf_guard(vs));
                lemma_le_bytes_of_roundtrip(acc.value@);
                assert(value_view(Value::Field(acc))
                    == field_elem_v(pf_prod(vs) % mv, m));
            }
            Ok(Value::Field(acc))
        },
        Op::PfNeg => {
            if args.len() != 1 {
                return Err(BridgeError::EvalDomainError);
            }
            match &args[0] {
                Value::Field(f) => {
                    proof {
                        lemma_values_wf_elem(vs, 0);
                    }
                    let r = f.pf_neg();
                    proof {
                        lemma_le_bytes_of_roundtrip(r.value@);
                    }
                    Ok(Value::Field(r))
                },
                _ => Err(BridgeError::EvalDomainError),
            }
        },
        Op::BvAdd => {
            eval_bv_add(&args)
        },
        Op::BvMul => {
            eval_bv_mul(&args)
        },
        Op::UbvToPf(m) => {
            if args.len() != 1 {
                return Err(BridgeError::EvalDomainError);
            }
            match &args[0] {
                Value::BitVector(bits, _) => {
                    let fe = crate::field::FieldElem::from_u64(m, *bits);
                    proof {
                        lemma_le_bytes_of_roundtrip(fe.value@);
                    }
                    Ok(Value::Field(fe))
                },
                _ => Err(BridgeError::EvalDomainError),
            }
        },
        Op::Tuple => {
            Ok(Value::Tuple(args))
        },
        Op::Field(idx) => {
            if args.len() != 1 {
                return Err(BridgeError::EvalDomainError);
            }
            match &args[0] {
                Value::Tuple(ts) => {
                    proof {
                        lemma_value_views(ts@);
                    }
                    if *idx < ts.len() {
                        proof {
                            lemma_values_wf_elem(vs, 0);
                            lemma_values_wf_elem(value_views(ts@), *idx as int);
                        }
                        Ok(ts[*idx].dup())
                    } else {
                        Err(BridgeError::EvalDomainError)
                    }
                },
                _ => Err(BridgeError::EvalDomainError),
            }
        },
        Op::Update(idx) => {
            if args.len() != 2 {
                return Err(BridgeError::EvalDomainError);
            }
            let replacement = match args.pop() {
                Some(x) => x,
                None => {
                    return Err(BridgeError::EvalDomainError);
                },
            };
            let head = match args.pop() {
                Some(x) => x,
                None => {
                    return Err(BridgeError::EvalDomainError);
                },
            };
            proof {
                assert(value_view(replacement) == vs[1]);
                assert(value_view(head) == vs[0]);
            }
            match head {
                Value::Tuple(ts) => {
                    let ghost tv = value_views(ts@);
                    proof {
                        lemma_value_views(ts@);
                    }
                    if *idx >= ts.len() {
                        return Err(BridgeError::EvalDomainError);
                    }
                    proof {
                        lemma_values_wf_elem(vs, 0);
                        lemma_values_wf_elem(vs, 1);
                    }
                    let n = ts.len();
                    let mut out: Vec<Value> = Vec::new();
                    let mut i: usize = 0;
                    while i < n
                        invariant
                            n == ts@.len(),
                            i <= n,
                            out@.len() == i,
                            *idx < n,
                            tv == value_views(ts@),
                            tv.len() == n,
                            values_wf(tv),
                            value_wf(value_view(replacement)),
                            forall|j: int| 0 <= j < n ==> tv[j] == value_view(#[trigger] ts@[j]),
                            forall|j: int| 0 <= j < i ==> value_view(#[trigger] out@[j])
                                == (if j == *idx as int { value_view(replacement) } else { tv[j] }),
                        decreases n - i,
                    {
                        if i == *idx {
                            out.push(replacement.dup());
                        } else {
                            proof {
                                lemma_values_wf_elem(tv, i as int);
                            }
                            out.push(ts[i].dup());
                        }
                        i = i + 1;
                    }
                    let ghost outs = out@;
                    proof {
                        lemma_value_views(outs);
                        assert forall|j: int| 0 <= j < n
                            implies value_views(outs)[j] == tv.update(*idx as int, value_view(replacement))[j] by {
                            assert(value_views(outs)[j] == value_view(outs[j]));
                        }
                        assert(value_views(outs) =~= tv.update(*idx as int, value_view(replacement)));
                        assert forall|j: int| 0 <= j < n
                            implies value_wf(#[trigger] value_views(outs)[j]) by {
                            if j == *idx as int {
                            } else {
                                lemma_values_wf_elem(tv, j);
                            }
                        }
                        lemma_values_wf_intro(value_views(outs));
                    }
                    Ok(Value::Tuple(out))
                },
                _ => Err(BridgeError::EvalDomainError),
            }
        },
    }
}




/// The n-ary bit-vector sum, reduced to the common width.
#[verifier::loop_isolation(false)]
#[verifier::rlimit(100)]
fn eval_bv_add(args: &Vec<Value>) -> (r: Result<Value, BridgeError>)
    requires
        values_wf(value_views(args@)),
    ensures
        ({
            let vs = value_views(args@);
            match r {
                Ok(v) => bv_guard(vs) && value_wf(value_view(v))
                    && value_view(v) == ValueV::BitVector(
                        (bv_sum(vs) % vstd::arithmetic::power2::pow2(first_width(vs) as nat)) as u64,
                        first_width(vs)),
                Err(e) => !bv_guard(vs) && e is EvalDomainError,
            }
        }),
{
    let ghost vs = value_views(args@);
    proof {
        lemma_value_views(args@);
    }
    if args.len() == 0 {
        return Err(BridgeError::EvalDomainError);
    }
    let (first_bits, w) = match &args[0] {
        Value::BitVector(bits0, w0) => (*bits0, *w0),
        _ => {
            return Err(BridgeError::EvalDomainError);
        },
    };
    let ghost wv = first_width(vs);
    let ghost pw = vstd::arithmetic::power2::pow2(wv as nat);
    proof {
        lemma_values_wf_elem(vs, 0);
        vstd::arithmetic::div_mod::lemma_small_mod(bv_val(vs[0]), pw);
        assert(vs.take(1).drop_last() =~= Seq::<ValueV>::empty());
        assert(vs.take(1).last() == vs[0]);
        assert(bv_sum(Seq::<ValueV>::empty()) == 0);
        assert(bv_sum(vs.take(1)) == bv_val(vs[0]));
        if wv < 64 {
            vstd::arithmetic::power2::lemma_pow2_strictly_increases(wv as nat, 64);
        }
        vstd::arithmetic::power2::lemma2_to64();
    }
    let modulus = pow2_u128(w);
    let n = args.len();
    let mut acc: u64 = first_bits;
    let mut i: usize = 1;
    while i < n
        invariant
            1 <= i <= n,
            (acc as nat) < pw,
            acc as nat == bv_sum(vs.take(i as int)) % pw,
            forall|j: int| 0 <= j < i
                ==> ((#[trigger] vs[j]) matches ValueV::BitVector(_, ww) && ww == wv),
        decreases n - i,
    {
        match &args[i] {
            Value::BitVector(bits, ww) => {
                proof {
                    assert(vs[i as int] matches ValueV::BitVector(_, w2) && w2 == *ww);
                }
                if *ww != w {
                    proof {
                        assert(!all_bvs(vs, wv));
                    }
                    return Err(BridgeError::EvalDomainError);
                }
                proof {
                    lemma_values_wf_elem(vs, i as int);
                }
                let next = (((acc as u128) + (*bits as u128)) % modulus) as u64;
                proof {
                    let s_prev = bv_sum(vs.take(i as int));
                    let b = bv_val(vs[i as int]);
                    assert(vs.take(i + 1).drop_last() =~= vs.take(i as int));
                    assert(vs.take(i + 1).last() == vs[i as int]);
                    assert(bv_sum(vs.take(i + 1)) == s_prev + b);
                    vstd::arithmetic::div_mod::lemma_add_mod_noop(
                        s_prev as int, b as int, pw as int);
                    vstd::arithmetic::div_mod::lemma_small_mod(b, pw);
                    assert((s_prev % pw + b) % pw == (s_prev + b) % pw);
                }
                acc = next;
            },
            _ => {
                proof {
                    assert(!(vs[i as int] is BitVector));
                    assert(!all_bvs(vs, wv));
                }
                return Err(BridgeError::EvalDomainError);
            },
        }
        i = i + 1;
    }
    proof {
        assert(vs.take(n as int) =~= vs);
        assert(bv_guard(vs));
    }
    Ok(Value::BitVector(acc, w))
}

/// The n-ary bit-vector product, reduced to the common width.
#[verifier::loop_isolation(false)]
#[verifier::rlimit(100)]
fn eval_bv_mul(args: &Vec<Value>) -> (r: Result<Value, BridgeError>)
    requires
        values_wf(value_views(args@)),
    ensures
        ({
            let vs = value_views(args@);
            match r {
                Ok(v) => bv_guard(vs) && value_wf(value_view(v))
                    && value_view(v) == ValueV::BitVector(
                        (bv_prod(vs) % vstd::arithmetic::power2::pow2(first_width(vs) as nat)) as u64,
                        first_width(vs)),
                Err(e) => !bv_guard(vs) && e is EvalDomainError,
            }
        }),
{
    let ghost vs = value_views(args@);
    proof {
        lemma_value_views(args@);
    }
    if args.len() == 0 {
        return Err(BridgeError::EvalDomainError);
    }
    let (first_bits, w) = match &args[0] {
        Value::BitVector(bits0, w0) => (*bits0, *w0),
        _ => {
            return Err(BridgeError::EvalDomainError);
        },
    };
    let ghost wv = first_width(vs);
    let ghost pw = vstd::arithmetic::power2::pow2(wv as nat);
    proof {
        lemma_values_wf_elem(vs, 0);
        vstd::arithmetic::div_mod::lemma_small_mod(bv_val(vs[0]), pw);
        assert(vs.take(1).drop_last() =~= Seq::<ValueV>::empty());
        assert(vs.take(1).last() == vs[0]);
        assert(bv_prod(Seq::<ValueV>::empty()) == 1);
        assert(bv_prod(vs.take(1)) == 1 * bv_val(vs[0]));
        assert(1 * bv_val(vs[0]) == bv_val(vs[0])) by (nonlinear_arith);
        if wv < 64 {
            vstd::arithmetic::power2::lemma_pow2_strictly_increases(wv as nat, 64);
        }
        vstd::arithmetic::power2::lemma2_to64();
    }
    let modulus = pow2_u128(w);
    let n = args.len();
    let mut acc: u64 = first_bits;
    let mut i: usize = 1;
    while i < n
        invariant
            1 <= i <= n,
            (acc as nat) < pw,
            acc as nat == bv_prod(vs.take(i as int)) % pw,
            forall|j: int| 0 <= j < i
                ==> ((#[trigger] vs[j]) matches ValueV::BitVector(_, ww) && ww == wv),
        decreases n - i,
    {
        match &args[i] {
            Value::BitVector(bits, ww) => {
                proof {
                    assert(vs[i as int] matches ValueV::BitVector(_, w2) && w2 == *ww);
                }
                if *ww != w {
                    proof {
                        assert(!all_bvs(vs, wv));
                    }
                    return Err(BridgeError::EvalDomainError);
                }
                proof {
                    lemma_values_wf_elem(vs, i as int);
                    assert((acc as u128) * ((*bits) as u128)
                        <= 0xffff_ffff_ffff_ffffu128 * 0xffff_ffff_ffff_ffffu128)
                        by (nonlinear_arith)
                        requires
                            acc as u128 <= 0xffff_ffff_ffff_ffffu128,
                            (*bits) as u128 <= 0xffff_ffff_ffff_ffffu128;
                }
                let next = (((acc as u128) * (*bits as u128)) % modulus) as u64;
                proof {
                    let s_prev = bv_prod(vs.take(i as int));
                    let b = bv_val(vs[i as int]);
                    assert(vs.take(i + 1).drop_last() =~= vs.take(i as int));
                    assert(vs.take(i + 1).last() == vs[i as int]);
                    assert(bv_prod(vs.take(i + 1)) == s_prev * b);
                    vstd::arithmetic::div_mod::lemma_mul_mod_noop_left(
                        s_prev as int, b as int, pw as int);
                    assert(((s_prev % pw) * b) % pw == (s_prev * b) % pw);
                    assert((acc as u128) * (b as u128) == (acc as nat) * b);
                }
                acc = next;
            },
            _ => {
                proof {
                    assert(!(vs[i as int] is BitVector));
                    assert(!all_bvs(vs, wv));
                }
                return Err(BridgeError::EvalDomainError);
            },
        }
        i = i + 1;
    }
    proof {
        assert(vs.take(n as int) =~= vs);
        assert(bv_guard(vs));
    }
    Ok(Value::BitVector(acc, w))
}

/// `2^w` as a double machine word, for widths up to 64.
fn pow2_u128(w: usize) -> (r: u128)
    requires
        w <= 64,
    ensures
        r as nat == vstd::arithmetic::power2::pow2(w as nat),
        r >= 1,
{
    proof {
        assert(vstd::arithmetic::power2::pow2(0) == 1) by {
            vstd::arithmetic::power2::lemma2_to64();
        }
    }
    let mut r: u128 = 1;
    let mut i: usize = 0;
    while i < w
        invariant
            i <= w <= 64,
            r as nat == vstd::arithmetic::power2::pow2(i as nat),
        decreases w - i,
    {
        proof {
            vstd::arithmetic::power2::lemma_pow2_adds(i as nat, 1);
            vstd::arithmetic::power2::lemma2_to64();
            if (i as nat) + 1 < 64 {
                vstd::arithmetic::power2::lemma_pow2_strictly_increases(i as nat + 1, 64);
            }
        }
        r = r * 2;
        i = i + 1;
    }
    proof {
        vstd::arithmetic::power2::lemma_pow2_pos(w as nat);
    }
    r
}

} // verus!
