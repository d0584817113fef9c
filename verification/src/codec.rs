//! The binary artifact codec.
//!
//! Prover data, verifier data and witness programs persist in one
//! length-prefixed binary form, tagged with a codec version. The reader
//! refuses any other version, and validates everything it reads: a
//! decoded artifact is well-formed or the load fails. The construction
//! cache of a program is transient and has no place in the wire form.

use vstd::prelude::*;
use vstd::string::StringSliceAdditionalSpecFns;
use crate::bytes::{le_bytes_of, le_val};
use crate::errors::BridgeError;
use crate::driver::{ProverData, VerifierData};
use crate::field::FieldElem;
use crate::op::{Op, op_view, op_wf};
use crate::r1cs::{R1cs, Var, VarType, Lc, lc_wf, var_in};
use crate::swc::{SwcProgram, Stage, Step, args_start, outputs_before};
use crate::value::{Sort, Value, sort_height, value_height, sort_wf, value_wf, sort_view,
    value_view};

verus! {

broadcast use vstd::seq::group_seq_axioms;

/// The codec's magic byte.
pub const CODEC_MAGIC: u8 = 0xa7;

/// The codec version this crate writes and the only one it reads.
pub const CODEC_VERSION: u8 = 1;

/// The wire form of a machine word: eight little-endian bytes.
pub open spec fn wire_u64(x: u64) -> Seq<u8> {
    le_bytes_of(x as nat, 8)
}

/// The wire form of a length or index.
pub open spec fn wire_len(n: nat) -> Seq<u8> {
    le_bytes_of(n, 8)
}

/// The wire form of a string: its UTF-8 byte count, then its bytes.
pub open spec fn wire_string(cs: Seq<char>) -> Seq<u8> {
    wire_len(vstd::utf8::encode_utf8(cs).len()) + vstd::utf8::encode_utf8(cs)
}

/// The wire form of a field element: its value, then its modulus.
pub open spec fn wire_field(f: FieldElem) -> Seq<u8> {
    f.value@ + f.modulus@
}

/// The wire form of a sort.
pub open spec fn wire_sort(s: crate::value::SortV) -> Seq<u8>
    decreases s,
{
    match s {
        crate::value::SortV::Bool => seq![0u8],
        crate::value::SortV::Field(m) => seq![1u8] + m,
        crate::value::SortV::BitVector(w) => seq![3u8] + wire_len(w as nat),
        crate::value::SortV::Tuple(ts) => seq![2u8] + wire_len(ts.len()) + wire_sorts(ts),
    }
}

pub open spec fn wire_sorts(ts: Seq<crate::value::SortV>) -> Seq<u8>
    decreases ts,
{
    if ts.len() == 0 {
        Seq::empty()
    } else {
        wire_sorts(ts.drop_last()) + wire_sort(ts.last())
    }
}

/// The wire form of a value.
pub open spec fn wire_value(v: crate::value::ValueV) -> Seq<u8>
    decreases v,
{
    match v {
        crate::value::ValueV::Bool(b) => seq![0u8, if b { 1u8 } else { 0u8 }],
        crate::value::ValueV::Field(val, md) => seq![1u8] + val + md,
        crate::value::ValueV::BitVector(bits, w) => seq![3u8] + wire_u64(bits) + wire_len(w as nat),
        crate::value::ValueV::Tuple(vs) => seq![2u8] + wire_len(vs.len()) + wire_values(vs),
    }
}

pub open spec fn wire_values(vs: Seq<crate::value::ValueV>) -> Seq<u8>
    decreases vs,
{
    if vs.len() == 0 {
        Seq::empty()
    } else {
        wire_values(vs.drop_last()) + wire_value(vs.last())
    }
}

/// The wire form of an operator.
pub open spec fn wire_op(op: crate::op::OpV) -> Seq<u8> {
    match op {
        crate::op::OpV::Var(name, sort) => seq![0u8] + wire_string(name) + wire_sort(sort),
        crate::op::OpV::Const(v) => seq![1u8] + wire_value(v),
        crate::op::OpV::Ite => seq![2u8],
        crate::op::OpV::Eq => seq![3u8],
        crate::op::OpV::Not => seq![4u8],
        crate::op::OpV::BoolAnd => seq![5u8],
        crate::op::OpV::BoolOr => seq![6u8],
        crate::op::OpV::BoolXor => seq![7u8],
        crate::op::OpV::PfAdd => seq![8u8],
        crate::op::OpV::PfMul => seq![9u8],
        crate::op::OpV::PfNeg => seq![10u8],
        crate::op::OpV::Tuple => seq![11u8],
        crate::op::OpV::Field(i) => seq![12u8] + wire_len(i as nat),
        crate::op::OpV::Update(i) => seq![13u8] + wire_len(i as nat),
        crate::op::OpV::BvAdd => seq![14u8],
        crate::op::OpV::BvMul => seq![15u8],
        crate::op::OpV::UbvToPf(m) => seq![16u8] + m,
    }
}

/// Relies on `String::from_utf8`: it succeeds exactly on valid UTF-8
/// and returns the string those bytes encode.
#[verifier::external_body]
fn string_from_utf8(b: Vec<u8>) -> (r: Option<String>)
    ensures
        r is Some <==> vstd::utf8::valid_utf8(b@),
        r matches Some(s) ==> s@ == vstd::utf8::decode_utf8(b@),
{
    String::from_utf8(b).ok()
}

/// The UTF-8 bytes of a string, copied out.
fn str_to_bytes(s: &str) -> (r: Vec<u8>)
    ensures
        r@ == s.spec_bytes(),
{
    vstd::slice::slice_to_vec(s.as_bytes())
}

fn push_u64(out: &mut Vec<u8>, x: u64)
    ensures
        final(out)@ == old(out)@ + wire_u64(x),
{
    let ghost base = out@;
    let mut v: u64 = x;
    let mut i: usize = 0;
    proof {
        assert(out@ =~= base + le_bytes_of(x as nat, 8).take(0));
    }
    while i < 8
        invariant
            i <= 8,
            out@ == base + le_bytes_of(x as nat, 8).take(i as int),
            le_bytes_of(v as nat, (8 - i) as nat)
                == le_bytes_of(x as nat, 8).skip(i as int),
        decreases 8 - i,
    {
        proof {
            let whole = le_bytes_of(x as nat, 8);
            crate::bytes::lemma_le_bytes_of_val(x as nat, 8);
            crate::bytes::lemma_le_bytes_of_val(v as nat, (8 - i) as nat);
            assert(le_bytes_of(v as nat, (8 - i) as nat)
                == seq![(v as nat % 256) as u8]
                    + le_bytes_of(v as nat / 256, (7 - i) as nat));
            assert(whole.skip(i as int)[0] == whole[i as int]);
            assert(whole[i as int] == (v % 256) as u8);
            assert(whole.skip(i as int).skip(1) =~= whole.skip(i as int + 1));
            assert(le_bytes_of(v as nat / 256, (7 - i) as nat)
                =~= whole.skip(i as int + 1)) by {
                assert(le_bytes_of(v as nat, (8 - i) as nat).skip(1)
                    =~= le_bytes_of(v as nat / 256, (7 - i) as nat));
            }
            assert((v / 256) as nat == v as nat / 256);
            assert(whole.take(i as int + 1) =~= whole.take(i as int).push(whole[i as int]));
            assert(base + whole.take(i as int + 1)
                =~= (base + whole.take(i as int)).push(whole[i as int]));
        }
        out.push((v % 256) as u8);
        v = v / 256;
        i = i + 1;
    }
    proof {
        crate::bytes::lemma_le_bytes_of_val(x as nat, 8);
        assert(le_bytes_of(x as nat, 8).take(8) =~= le_bytes_of(x as nat, 8));
        assert(out@ =~= old(out)@ + wire_u64(x));
    }
}

fn push_bytes(out: &mut Vec<u8>, b: &Vec<u8>)
    ensures
        final(out)@ == old(out)@ + b@,
{
    let ghost base = out@;
    let mut i: usize = 0;
    proof {
        assert(out@ =~= base + b@.take(0));
    }
    while i < b.len()
        invariant
            i <= b@.len(),
            out@ == base + b@.take(i as int),
        decreases b@.len() - i,
    {
        proof {
            assert(b@.take(i + 1) =~= b@.take(i as int).push(b@[i as int]));
            assert(base + b@.take(i + 1)
                =~= (base + b@.take(i as int)).push(b@[i as int]));
        }
        out.push(b[i]);
        i = i + 1;
    }
    proof {
        assert(b@.take(b@.len() as int) =~= b@);
    }
}

fn push_usize(out: &mut Vec<u8>, x: usize)
    ensures
        final(out)@ == old(out)@ + wire_len(x as nat),
{
    push_u64(out, x as u64);
}

fn push_str(out: &mut Vec<u8>, s: &str)
    ensures
        final(out)@ == old(out)@ + wire_string(s@),
{
    let b = str_to_bytes(s);
    push_usize(out, b.len());
    push_bytes(out, &b);
    proof {
        assert(final(out)@ =~= old(out)@ + wire_string(s@));
    }
}

fn read_u8(bytes: &Vec<u8>, pos: usize) -> (r: Option<(u8, usize)>)
    ensures
        r is Some <==> pos < bytes@.len(),
        r matches Some(t) ==> t.0 == bytes@[pos as int] && t.1 == pos + 1
            && pos < t.1 <= bytes@.len(),
{
    if pos < bytes.len() {
        Some((bytes[pos], pos + 1))
    } else {
        None
    }
}

#[verifier::loop_isolation(false)]
fn read_u64(bytes: &Vec<u8>, pos: usize) -> (r: Option<(u64, usize)>)
    ensures
        r is Some <==> pos + 8 <= bytes@.len(),
        r matches Some(t) ==> t.0 as nat == le_val(bytes@.subrange(pos as int, pos + 8))
            && t.1 == pos + 8
            && pos < t.1 <= bytes@.len(),
{
    if pos >= bytes.len() || bytes.len() - pos < 8 {
        return None;
    }
    let ghost window = bytes@.subrange(pos as int, pos + 8);
    let mut x: u64 = 0;
    let mut i: usize = 8;
    proof {
        assert(window.skip(8) =~= Seq::<u8>::empty());
        crate::bytes::lemma_le_val_bound(window.skip(8));
    }
    while i > 0
        invariant
            i <= 8,
            pos + 8 <= bytes@.len(),
            window == bytes@.subrange(pos as int, pos + 8),
            x as nat == le_val(window.skip(i as int)),
            (x as nat) < crate::bytes::p256((8 - i) as nat),
        decreases i,
    {
        i = i - 1;
        proof {
            assert(window.skip(i as int)[0] == window[i as int]);
            assert(window[i as int] == bytes@[pos + i]);
            assert(window.skip(i as int).skip(1) =~= window.skip(i as int + 1));
            assert(le_val(window.skip(i as int))
                == window[i as int] + 256 * le_val(window.skip(i as int + 1)));
            crate::bytes::lemma_le_val_bound(window.skip(i as int));
            crate::bytes::lemma_p256_succ((7 - i) as nat);
            crate::bytes::lemma_p256_pos((7 - i) as nat);
            assert(crate::bytes::p256(8) <= 0x1_0000_0000_0000_0000nat) by {
                crate::field::lemma_p256_pow2_256();
                vstd::arithmetic::power::lemma_pow_positive(256, 8);
                assert(crate::bytes::p256(8) == 0x1_0000_0000_0000_0000nat) by {
                    vstd::arithmetic::power2::lemma_pow2(64);
                    vstd::arithmetic::power2::lemma2_to64();
                    vstd::arithmetic::power::lemma_pow_multiplies(2, 8, 8);
                    vstd::arithmetic::power2::lemma_pow2(8);
                }
            }
            assert(crate::bytes::p256((8 - i) as nat) <= crate::bytes::p256(8)) by {
                vstd::arithmetic::power::lemma_pow_positive(256, (8 - i) as nat);
                vstd::arithmetic::power::lemma_pow_positive(256, 8);
                if i > 0 {
                    vstd::arithmetic::power::lemma_pow_strictly_increases(256, (8 - i) as nat, 8);
                }
            }
        }
        x = x * 256 + (bytes[pos + i] as u64);
    }
    proof {
        assert(window.skip(0) =~= window);
    }
    Some((x, pos + 8))
}

/// A length read from the wire, bounded so later arithmetic stays in
/// `usize`.
fn read_len(bytes: &Vec<u8>, pos: usize) -> (r: Option<(usize, usize)>)
    ensures
        r is Some <==> (pos + 8 <= bytes@.len()
            && le_val(bytes@.subrange(pos as int, pos + 8)) <= 0x1000_0000),
        r matches Some(t) ==> t.0 as nat == le_val(bytes@.subrange(pos as int, pos + 8))
            && t.1 == pos + 8
            && pos < t.1 <= bytes@.len() && t.0 <= 0x1000_0000,
{
    match read_u64(bytes, pos) {
        Some((x, p)) => {
            if x <= 0x1000_0000 {
                Some((x as usize, p))
            } else {
                None
            }
        },
        None => None,
    }
}

#[verifier::loop_isolation(false)]
fn read_bytes32(bytes: &Vec<u8>, pos: usize) -> (r: Option<(Vec<u8>, usize)>)
    ensures
        r is Some <==> pos + 32 <= bytes@.len(),
        r matches Some(t) ==> t.0@ == bytes@.subrange(pos as int, pos + 32)
            && t.1 == pos + 32
            && pos < t.1 <= bytes@.len() && t.0@.len() == 32,
{
    if pos >= bytes.len() || bytes.len() - pos < 32 {
        return None;
    }
    let mut out: Vec<u8> = Vec::new();
    let mut i: usize = 0;
    while i < 32
        invariant
            i <= 32,
            pos + 32 <= bytes@.len(),
            out@ =~= bytes@.subrange(pos as int, pos + i),
        decreases 32 - i,
    {
        proof {
            assert(bytes@.subrange(pos as int, pos + i + 1)
                =~= bytes@.subrange(pos as int, pos + i).push(bytes@[pos + i]));
        }
        out.push(bytes[pos + i]);
        i = i + 1;
    }
    Some((out, pos + 32))
}

#[verifier::loop_isolation(false)]
fn read_string(bytes: &Vec<u8>, pos: usize) -> (r: Option<(String, usize)>)
    ensures
        r matches Some(t) ==> ({
            let n = le_val(bytes@.subrange(pos as int, pos + 8)) as int;
            &&& pos + 8 <= bytes@.len()
            &&& n <= 0x1000_0000
            &&& pos + 8 + n <= bytes@.len()
            &&& vstd::utf8::valid_utf8(bytes@.subrange(pos + 8, pos + 8 + n))
            &&& t.0@ == vstd::utf8::decode_utf8(bytes@.subrange(pos + 8, pos + 8 + n))
            &&& t.1 == pos + 8 + n
            &&& pos < t.1 <= bytes@.len()
        }),
        r is None ==> !(pos + 8 <= bytes@.len()
            && le_val(bytes@.subrange(pos as int, pos + 8)) <= 0x1000_0000
            && pos + 8 + le_val(bytes@.subrange(pos as int, pos + 8)) <= bytes@.len()
            && vstd::utf8::valid_utf8(bytes@.subrange(
                pos + 8, pos + 8 + le_val(bytes@.subrange(pos as int, pos + 8))))),
{
    let (n, p) = match read_len(bytes, pos) {
        Some(t) => t,
        None => {
            return None;
        },
    };
    if n > bytes.len() || bytes.len() - n < p {
        return None;
    }
    let mut raw: Vec<u8> = Vec::new();
    let mut i: usize = 0;
    while i < n
        invariant
            i <= n,
            p + n <= bytes@.len(),
            raw@ =~= bytes@.subrange(p as int, p + i),
        decreases n - i,
    {
        proof {
            assert(bytes@.subrange(p as int, p + i + 1)
                =~= bytes@.subrange(p as int, p + i).push(bytes@[p + i]));
        }
        raw.push(bytes[p + i]);
        i = i + 1;
    }
    match string_from_utf8(raw) {
        Some(s) => Some((s, p + n)),
        None => None,
    }
}

fn push_field(out: &mut Vec<u8>, f: &FieldElem)
    ensures
        final(out)@ == old(out)@ + wire_field(*f),
{
    push_bytes(out, &f.value);
    push_bytes(out, &f.modulus);
    proof {
        assert(final(out)@ =~= old(out)@ + wire_field(*f));
    }
}

fn read_field(bytes: &Vec<u8>, pos: usize) -> (r: Option<(FieldElem, usize)>)
    ensures
        r matches Some(t) ==> pos < t.1 <= bytes@.len() && t.0.wf(),
{
    let (value, p1) = match read_bytes32(bytes, pos) {
        Some(t) => t,
        None => {
            return None;
        },
    };
    let (modulus, p2) = match read_bytes32(bytes, p1) {
        Some(t) => t,
        None => {
            return None;
        },
    };
    let fe = FieldElem { value, modulus };
    let one = crate::field::u64_to_bytes32(1);
    let big_enough = crate::bytes::le_lt(&one, &fe.modulus);
    let reduced = crate::bytes::le_lt(&fe.value, &fe.modulus);
    if big_enough && reduced {
        Some((fe, p2))
    } else {
        None
    }
}

fn push_sort(out: &mut Vec<u8>, s: &Sort)
    ensures
        final(out)@ == old(out)@ + wire_sort(s@),
    decreases sort_height(*s),
{
    let ghost base = out@;
    match s {
        Sort::Bool => {
            out.push(0u8);
            proof {
                assert(final(out)@ =~= old(out)@ + wire_sort(s@));
            }
        },
        Sort::Field(m) => {
            out.push(1u8);
            push_bytes(out, m);
            proof {
                assert(final(out)@ =~= old(out)@ + wire_sort(s@));
            }
        },
        Sort::BitVector(w) => {
            out.push(3u8);
            push_usize(out, *w);
            proof {
                assert(final(out)@ =~= old(out)@ + wire_sort(s@));
            }
        },
        Sort::Tuple(ts) => {
            let ghost sv = crate::value::sort_views(ts@);
            proof {
                crate::value::lemma_sort_views(ts@);
            }
            out.push(2u8);
            push_usize(out, ts.len());
            let ghost mid = out@;
            proof {
                assert(wire_sorts(sv.take(0)) =~= Seq::<u8>::empty());
                assert(out@ =~= mid + wire_sorts(sv.take(0)));
            }
            let mut i: usize = 0;
            while i < ts.len()
                invariant
                    i <= ts@.len(),
                    sort_height(*s) == 1 + crate::value::sorts_height(ts@),
                    sv == crate::value::sort_views(ts@),
                    sv.len() == ts@.len(),
                    forall|j: int| 0 <= j < ts@.len()
                        ==> sv[j] == crate::value::sort_view(#[trigger] ts@[j]),
                    out@ == mid + wire_sorts(sv.take(i as int)),
                decreases ts@.len() - i,
            {
                proof {
                    crate::value::lemma_sorts_height_elem(ts@, i as int);
                }
                push_sort(out, &ts[i]);
                proof {
                    assert(sv.take(i + 1).drop_last() =~= sv.take(i as int));
                    assert(sv.take(i + 1).last() == sv[i as int]);
                    assert(wire_sorts(sv.take(i + 1))
                        == wire_sorts(sv.take(i as int)) + wire_sort(sv[i as int]));
                    assert(out@ =~= mid + wire_sorts(sv.take(i + 1)));
                }
                i = i + 1;
            }
            proof {
                assert(sv.take(ts@.len() as int) =~= sv);
                assert(out@ =~= old(out)@ + wire_sort(s@));
            }
        },
    }
}

fn read_sort(bytes: &Vec<u8>, pos: usize) -> (r: Option<(Sort, usize)>)
    ensures
        r matches Some(t) ==> pos < t.1 <= bytes@.len() && sort_wf(sort_view(t.0)),
    decreases bytes@.len() - pos,
{
    let (tag, p0) = match read_u8(bytes, pos) {
        Some(t) => t,
        None => {
            return None;
        },
    };
    if tag == 0 {
        Some((Sort::Bool, p0))
    } else if tag == 1 {
        let (m, p1) = match read_bytes32(bytes, p0) {
            Some(t) => t,
            None => {
                return None;
            },
        };
        let one = crate::field::u64_to_bytes32(1);
        if !crate::bytes::le_lt(&one, &m) {
            return None;
        }
        Some((Sort::Field(m), p1))
    } else if tag == 2 {
        let (n, p1) = match read_len(bytes, p0) {
            Some(t) => t,
            None => {
                return None;
            },
        };
        let mut ts: Vec<Sort> = Vec::new();
        let mut p = p1;
        let mut i: usize = 0;
        while i < n
            invariant
                i <= n,
                pos < p <= bytes@.len(),
                forall|j: int| 0 <= j < ts@.len()
                    ==> sort_wf(sort_view(#[trigger] ts@[j])),
            decreases n - i,
        {
            let (child, p2) = match read_sort(bytes, p) {
                Some(t) => t,
                None => {
                    return None;
                },
            };
            ts.push(child);
            p = p2;
            i = i + 1;
        }
        proof {
            crate::value::lemma_sort_views(ts@);
            assert forall|j: int| 0 <= j < crate::value::sort_views(ts@).len()
                implies sort_wf(#[trigger] crate::value::sort_views(ts@)[j]) by {
                assert(crate::value::sort_views(ts@)[j] == sort_view(ts@[j]));
            }
            crate::value::lemma_sorts_wf_intro(crate::value::sort_views(ts@));
        }
        Some((Sort::Tuple(ts), p))
    } else if tag == 3 {
        let (w, p1) = match read_len(bytes, p0) {
            Some(t) => t,
            None => {
                return None;
            },
        };
        if w < 1 || w > 64 {
            return None;
        }
        Some((Sort::BitVector(w), p1))
    } else {
        None
    }
}

fn push_value(out: &mut Vec<u8>, v: &Value)
    ensures
        final(out)@ == old(out)@ + wire_value(v@),
    decreases value_height(*v),
{
    let ghost base = out@;
    match v {
        Value::Bool(b) => {
            out.push(0u8);
            out.push(if *b { 1u8 } else { 0u8 });
            proof {
                assert(final(out)@ =~= old(out)@ + wire_value(v@));
            }
        },
        Value::Field(f) => {
            out.push(1u8);
            push_field(out, f);
            proof {
                assert(final(out)@ =~= old(out)@ + wire_value(v@));
            }
        },
        Value::BitVector(bits, w) => {
            out.push(3u8);
            push_u64(out, *bits);
            push_usize(out, *w);
            proof {
                assert(final(out)@ =~= old(out)@ + wire_value(v@));
            }
        },
        Value::Tuple(vs) => {
            let ghost vv = crate::value::value_views(vs@);
            proof {
                crate::value::lemma_value_views(vs@);
            }
            out.push(2u8);
            push_usize(out, vs.len());
            let ghost mid = out@;
            proof {
                assert(wire_values(vv.take(0)) =~= Seq::<u8>::empty());
                assert(out@ =~= mid + wire_values(vv.take(0)));
            }
            let mut i: usize = 0;
            while i < vs.len()
                invariant
                    i <= vs@.len(),
                    value_height(*v) == 1 + crate::value::values_height(vs@),
                    vv == crate::value::value_views(vs@),
                    vv.len() == vs@.len(),
                    forall|j: int| 0 <= j < vs@.len()
                        ==> vv[j] == crate::value::value_view(#[trigger] vs@[j]),
                    out@ == mid + wire_values(vv.take(i as int)),
                decreases vs@.len() - i,
            {
                proof {
                    crate::value::lemma_values_height_elem(vs@, i as int);
                }
                push_value(out, &vs[i]);
                proof {
                    assert(vv.take(i + 1).drop_last() =~= vv.take(i as int));
                    assert(vv.take(i + 1).last() == vv[i as int]);
                    assert(wire_values(vv.take(i + 1))
                        == wire_values(vv.take(i as int)) + wire_value(vv[i as int]));
                    assert(out@ =~= mid + wire_values(vv.take(i + 1)));
                }
                i = i + 1;
            }
            proof {
                assert(vv.take(vs@.len() as int) =~= vv);
                assert(out@ =~= old(out)@ + wire_value(v@));
            }
        },
    }
}

fn read_value(bytes: &Vec<u8>, pos: usize) -> (r: Option<(Value, usize)>)
    ensures
        r matches Some(t) ==> pos < t.1 <= bytes@.len() && value_wf(value_view(t.0)),
    decreases bytes@.len() - pos,
{
    let (tag, p0) = match read_u8(bytes, pos) {
        Some(t) => t,
        None => {
            return None;
        },
    };
    if tag == 0 {
        let (b, p1) = match read_u8(bytes, p0) {
            Some(t) => t,
            None => {
                return None;
            },
        };
        Some((Value::Bool(b != 0), p1))
    } else if tag == 1 {
        let (f, p1) = match read_field(bytes, p0) {
            Some(t) => t,
            None => {
                return None;
            },
        };
        Some((Value::Field(f), p1))
    } else if tag == 2 {
        let (n, p1) = match read_len(bytes, p0) {
            Some(t) => t,
            None => {
                return None;
            },
        };
        let mut vs: Vec<Value> = Vec::new();
        let mut p = p1;
        let mut i: usize = 0;
        while i < n
            invariant
                i <= n,
                pos < p <= bytes@.len(),
                forall|j: int| 0 <= j < vs@.len()
                    ==> value_wf(value_view(#[trigger] vs@[j])),
            decreases n - i,
        {
            let (child, p2) = match read_value(bytes, p) {
                Some(t) => t,
                None => {
                    return None;
                },
            };
            vs.push(child);
            p = p2;
            i = i + 1;
        }
        proof {
            crate::value::lemma_value_views(vs@);
            assert forall|j: int| 0 <= j < crate::value::value_views(vs@).len()
                implies value_wf(#[trigger] crate::value::value_views(vs@)[j]) by {
                assert(crate::value::value_views(vs@)[j] == value_view(vs@[j]));
            }
            crate::value::lemma_values_wf_intro(crate::value::value_views(vs@));
        }
        Some((Value::Tuple(vs), p))
    } else if tag == 3 {
        let (bits, p1) = match read_u64(bytes, p0) {
            Some(t) => t,
            None => {
                return None;
            },
        };
        let (w, p2) = match read_len(bytes, p1) {
            Some(t) => t,
            None => {
                return None;
            },
        };
        if w < 1 || w > 64 {
            return None;
        }
        if w < 64 {
            let limit = crate::value::pow2_u64(w);
            if bits >= limit {
                return None;
            }
        } else {
            proof {
                vstd::arithmetic::power2::lemma2_to64();
            }
        }
        Some((Value::BitVector(bits, w), p2))
    } else {
        None
    }
}

fn push_op(out: &mut Vec<u8>, op: &Op)
    ensures
        final(out)@ == old(out)@ + wire_op(op@),
{
    match op {
        Op::Var(name, sort) => {
            out.push(0u8);
            push_str(out, name.as_str());
            push_sort(out, sort);
        },
        Op::Const(v) => {
            out.push(1u8);
            push_value(out, v);
        },
        Op::Ite => out.push(2u8),
        Op::Eq => out.push(3u8),
        Op::Not => out.push(4u8),
        Op::BoolAnd => out.push(5u8),
        Op::BoolOr => out.push(6u8),
        Op::BoolXor => out.push(7u8),
        Op::PfAdd => out.push(8u8),
        Op::PfMul => out.push(9u8),
        Op::PfNeg => out.push(10u8),
        Op::BvAdd => out.push(14u8),
        Op::BvMul => out.push(15u8),
        Op::UbvToPf(m) => {
            out.push(16u8);
            push_bytes(out, m);
        },
        Op::Tuple => out.push(11u8),
        Op::Field(i) => {
            out.push(12u8);
            push_usize(out, *i);
        },
        Op::Update(i) => {
            out.push(13u8);
            push_usize(out, *i);
        },
    }
    proof {
        assert(final(out)@ =~= old(out)@ + wire_op(op@));
    }
}

fn read_op(bytes: &Vec<u8>, pos: usize) -> (r: Option<(Op, usize)>)
    ensures
        r matches Some(t) ==> pos < t.1 <= bytes@.len() && op_wf(op_view(t.0)),
{
    let (tag, p0) = match read_u8(bytes, pos) {
        Some(t) => t,
        None => {
            return None;
        },
    };
    if tag == 0 {
        let (name, p1) = match read_string(bytes, p0) {
            Some(t) => t,
            None => {
                return None;
            },
        };
        let (sort, p2) = match read_sort(bytes, p1) {
            Some(t) => t,
            None => {
                return None;
            },
        };
        Some((Op::Var(name, sort), p2))
    } else if tag == 1 {
        let (v, p1) = match read_value(bytes, p0) {
            Some(t) => t,
            None => {
                return None;
            },
        };
        Some((Op::Const(v), p1))
    } else if tag == 2 {
        Some((Op::Ite, p0))
    } else if tag == 3 {
        Some((Op::Eq, p0))
    } else if tag == 4 {
        Some((Op::Not, p0))
    } else if tag == 5 {
        Some((Op::BoolAnd, p0))
    } else if tag == 6 {
        Some((Op::BoolOr, p0))
    } else if tag == 7 {
        Some((Op::BoolXor, p0))
    } else if tag == 8 {
        Some((Op::PfAdd, p0))
    } else if tag == 9 {
        Some((Op::PfMul, p0))
    } else if tag == 10 {
        Some((Op::PfNeg, p0))
    } else if tag == 11 {
        Some((Op::Tuple, p0))
    } else if tag == 12 {
        let (i, p1) = match read_len(bytes, p0) {
            Some(t) => t,
            None => {
                return None;
            },
        };
        Some((Op::Field(i), p1))
    } else if tag == 13 {
        let (i, p1) = match read_len(bytes, p0) {
            Some(t) => t,
            None => {
                return None;
            },
        };
        Some((Op::Update(i), p1))
    } else if tag == 14 {
        Some((Op::BvAdd, p0))
    } else if tag == 15 {
        Some((Op::BvMul, p0))
    } else if tag == 16 {
        let (m, p1) = match read_bytes32(bytes, p0) {
            Some(t) => t,
            None => {
                return None;
            },
        };
        let one = crate::field::u64_to_bytes32(1);
        if !crate::bytes::le_lt(&one, &m) {
            return None;
        }
        Some((Op::UbvToPf(m), p1))
    } else {
        None
    }
}


/// The wire form of a declared input list.
pub open spec fn wire_decls(ds: Seq<(Seq<char>, crate::value::SortV)>) -> Seq<u8>
    decreases ds,
{
    if ds.len() == 0 {
        Seq::empty()
    } else {
        wire_decls(ds.drop_last()) + wire_string(ds.last().0) + wire_sort(ds.last().1)
    }
}

/// The wire form of a stage: its declared inputs, then its output count.
pub open spec fn wire_stage(st: crate::swc::StageV) -> Seq<u8> {
    wire_len(st.inputs.len()) + wire_decls(st.inputs) + wire_len(st.num_outputs as nat)
}

/// The wire form of a monomial list.
pub open spec fn wire_monos(ms: Seq<(Var, FieldElem)>) -> Seq<u8>
    decreases ms,
{
    if ms.len() == 0 {
        Seq::empty()
    } else {
        wire_monos(ms.drop_last()) + wire_var(ms.last().0) + wire_field(ms.last().1)
    }
}

/// The wire form of a linear combination.
pub open spec fn wire_lc(lc: Lc) -> Seq<u8> {
    wire_field(lc.constant) + wire_len(lc.monomials@.len()) + wire_monos(lc.monomials@)
}

fn push_stage(out: &mut Vec<u8>, stage: &Stage)
    ensures
        final(out)@ == old(out)@ + wire_stage(stage@),
{
    let ghost ds = crate::swc::decls_view(stage.inputs@);
    proof {
        crate::swc::lemma_decls_view(stage.inputs@);
    }
    push_usize(out, stage.inputs.len());
    let ghost mid = out@;
    proof {
        assert(wire_decls(ds.take(0)) =~= Seq::<u8>::empty());
        assert(out@ =~= mid + wire_decls(ds.take(0)));
    }
    let mut i: usize = 0;
    while i < stage.inputs.len()
        invariant
            i <= stage.inputs@.len(),
            ds == crate::swc::decls_view(stage.inputs@),
            ds.len() == stage.inputs@.len(),
            forall|j: int| 0 <= j < stage.inputs@.len()
                ==> ds[j] == ((#[trigger] stage.inputs@[j]).0@,
                    crate::value::sort_view(stage.inputs@[j].1)),
            out@ == mid + wire_decls(ds.take(i as int)),
        decreases stage.inputs@.len() - i,
    {
        push_str(out, stage.inputs[i].0.as_str());
        push_sort(out, &stage.inputs[i].1);
        proof {
            assert(ds.take(i + 1).drop_last() =~= ds.take(i as int));
            assert(ds.take(i + 1).last() == ds[i as int]);
            assert(wire_decls(ds.take(i + 1))
                == wire_decls(ds.take(i as int)) + wire_string(ds[i as int].0)
                    + wire_sort(ds[i as int].1));
            assert(out@ =~= mid + wire_decls(ds.take(i + 1)));
        }
        i = i + 1;
    }
    proof {
        assert(ds.take(stage.inputs@.len() as int) =~= ds);
    }
    push_usize(out, stage.num_outputs);
    proof {
        assert(final(out)@ =~= old(out)@ + wire_stage(stage@));
    }
}

fn read_stage(bytes: &Vec<u8>, pos: usize) -> (r: Option<(Stage, usize)>)
    ensures
        r matches Some(t) ==> pos < t.1 <= bytes@.len(),
{
    let (n, p0) = match read_len(bytes, pos) {
        Some(t) => t,
        None => {
            return None;
        },
    };
    let mut inputs: Vec<(String, Sort)> = Vec::new();
    let mut p = p0;
    let mut i: usize = 0;
    while i < n
        invariant
            i <= n,
            pos < p <= bytes@.len(),
        decreases n - i,
    {
        let (name, p1) = match read_string(bytes, p) {
            Some(t) => t,
            None => {
                return None;
            },
        };
        let (sort, p2) = match read_sort(bytes, p1) {
            Some(t) => t,
            None => {
                return None;
            },
        };
        inputs.push((name, sort));
        p = p2;
        i = i + 1;
    }
    let (num_outputs, p3) = match read_len(bytes, p) {
        Some(t) => t,
        None => {
            return None;
        },
    };
    Some((Stage { inputs, num_outputs }, p3))
}

/// The wire form of a name list.
pub open spec fn wire_strings(ss: Seq<String>) -> Seq<u8>
    decreases ss,
{
    if ss.len() == 0 {
        Seq::empty()
    } else {
        wire_strings(ss.drop_last()) + wire_string(ss.last()@)
    }
}

/// The wire form of a stage list.
pub open spec fn wire_stages(sts: Seq<Stage>) -> Seq<u8>
    decreases sts,
{
    if sts.len() == 0 {
        Seq::empty()
    } else {
        wire_stages(sts.drop_last()) + wire_stage(crate::swc::stage_view(sts.last()))
    }
}

/// The wire form of a step list: each operator, then its slice end.
pub open spec fn wire_steps(ks: Seq<Step>) -> Seq<u8>
    decreases ks,
{
    if ks.len() == 0 {
        Seq::empty()
    } else {
        wire_steps(ks.drop_last()) + wire_op(op_view(ks.last().op))
            + wire_len(ks.last().args_end as nat)
    }
}

/// The wire form of an index list.
pub open spec fn wire_idxs(xs: Seq<usize>) -> Seq<u8>
    decreases xs,
{
    if xs.len() == 0 {
        Seq::empty()
    } else {
        wire_idxs(xs.drop_last()) + wire_len(xs.last() as nat)
    }
}

/// The wire form of a whole witness program; the construction cache
/// has no wire form.
pub open spec fn wire_program(p: SwcProgram) -> Seq<u8> {
    wire_len(p.vars@.len()) + wire_strings(p.vars@)
        + wire_len(p.stages@.len()) + wire_stages(p.stages@)
        + wire_len(p.steps@.len()) + wire_steps(p.steps@)
        + wire_len(p.step_args@.len()) + wire_idxs(p.step_args@)
        + wire_len(p.output_steps@.len()) + wire_idxs(p.output_steps@)
}

/// Writes a witness program in the wire form, appending to the buffer;
/// the construction cache stays behind.
#[verifier::rlimit(100)]
pub fn encode_program(out: &mut Vec<u8>, prog: &SwcProgram)
    ensures
        final(out)@ == old(out)@ + wire_program(*prog),
{
    push_usize(out, prog.vars.len());
    let ghost m1 = out@;
    proof {
        assert(wire_strings(prog.vars@.take(0)) =~= Seq::<u8>::empty());
        assert(out@ =~= m1 + wire_strings(prog.vars@.take(0)));
    }
    let mut i: usize = 0;
    while i < prog.vars.len()
        invariant
            i <= prog.vars@.len(),
            out@ == m1 + wire_strings(prog.vars@.take(i as int)),
        decreases prog.vars@.len() - i,
    {
        push_str(out, prog.vars[i].as_str());
        proof {
            let vv = prog.vars@;
            assert(vv.take(i + 1).drop_last() =~= vv.take(i as int));
            assert(vv.take(i + 1).last() == vv[i as int]);
            assert(out@ =~= m1 + wire_strings(vv.take(i + 1)));
        }
        i = i + 1;
    }
    proof {
        assert(prog.vars@.take(prog.vars@.len() as int) =~= prog.vars@);
    }
    push_usize(out, prog.stages.len());
    let ghost m2 = out@;
    proof {
        assert(wire_stages(prog.stages@.take(0)) =~= Seq::<u8>::empty());
        assert(out@ =~= m2 + wire_stages(prog.stages@.take(0)));
    }
    let mut i2: usize = 0;
    while i2 < prog.stages.len()
        invariant
            i2 <= prog.stages@.len(),
            out@ == m2 + wire_stages(prog.stages@.take(i2 as int)),
        decreases prog.stages@.len() - i2,
    {
        push_stage(out, &prog.stages[i2]);
        proof {
            let vv = prog.stages@;
            assert(vv.take(i2 + 1).drop_last() =~= vv.take(i2 as int));
            assert(vv.take(i2 + 1).last() == vv[i2 as int]);
            assert(out@ =~= m2 + wire_stages(vv.take(i2 + 1)));
        }
        i2 = i2 + 1;
    }
    proof {
        assert(prog.stages@.take(prog.stages@.len() as int) =~= prog.stages@);
    }
    push_usize(out, prog.steps.len());
    let ghost m3 = out@;
    proof {
        assert(wire_steps(prog.steps@.take(0)) =~= Seq::<u8>::empty());
        assert(out@ =~= m3 + wire_steps(prog.steps@.take(0)));
    }
    let mut i3: usize = 0;
    while i3 < prog.steps.len()
        invariant
            i3 <= prog.steps@.len(),
            out@ == m3 + wire_steps(prog.steps@.take(i3 as int)),
        decreases prog.steps@.len() - i3,
    {
        push_op(out, &prog.steps[i3].op);
        push_usize(out, prog.steps[i3].args_end);
        proof {
            let vv = prog.steps@;
            assert(vv.take(i3 + 1).drop_last() =~= vv.take(i3 as int));
            assert(vv.take(i3 + 1).last() == vv[i3 as int]);
            assert(out@ =~= m3 + wire_steps(vv.take(i3 + 1)));
        }
        i3 = i3 + 1;
    }
    proof {
        assert(prog.steps@.take(prog.steps@.len() as int) =~= prog.steps@);
    }
    push_usize(out, prog.step_args.len());
    let ghost m4 = out@;
    proof {
        assert(wire_idxs(prog.step_args@.take(0)) =~= Seq::<u8>::empty());
        assert(out@ =~= m4 + wire_idxs(prog.step_args@.take(0)));
    }
    let mut i4: usize = 0;
    while i4 < prog.step_args.len()
        invariant
            i4 <= prog.step_args@.len(),
            out@ == m4 + wire_idxs(prog.step_args@.take(i4 as int)),
        decreases prog.step_args@.len() - i4,
    {
        push_usize(out, prog.step_args[i4]);
        proof {
            let vv = prog.step_args@;
            assert(vv.take(i4 + 1).drop_last() =~= vv.take(i4 as int));
            assert(vv.take(i4 + 1).last() == vv[i4 as int]);
            assert(out@ =~= m4 + wire_idxs(vv.take(i4 + 1)));
        }
        i4 = i4 + 1;
    }
    proof {
        assert(prog.step_args@.take(prog.step_args@.len() as int) =~= prog.step_args@);
    }
    push_usize(out, prog.output_steps.len());
    let ghost m5 = out@;
    proof {
        assert(wire_idxs(prog.output_steps@.take(0)) =~= Seq::<u8>::empty());
        assert(out@ =~= m5 + wire_idxs(prog.output_steps@.take(0)));
    }
    let mut i5: usize = 0;
    while i5 < prog.output_steps.len()
        invariant
            i5 <= prog.output_steps@.len(),
            out@ == m5 + wire_idxs(prog.output_steps@.take(i5 as int)),
        decreases prog.output_steps@.len() - i5,
    {
        push_usize(out, prog.output_steps[i5]);
        proof {
            let vv = prog.output_steps@;
            assert(vv.take(i5 + 1).drop_last() =~= vv.take(i5 as int));
            assert(vv.take(i5 + 1).last() == vv[i5 as int]);
            assert(out@ =~= m5 + wire_idxs(vv.take(i5 + 1)));
        }
        i5 = i5 + 1;
    }
    proof {
        assert(prog.output_steps@.take(prog.output_steps@.len() as int)
            =~= prog.output_steps@);
        assert(final(out)@ =~= old(out)@ + wire_program(*prog));
    }
}

/// Reads a witness program and validates it whole: the result is
/// well-formed or the read fails.
pub fn read_program(bytes: &Vec<u8>, pos: usize) -> (r: Option<(SwcProgram, usize)>)
    ensures
        r matches Some(t) ==> pos < t.1 <= bytes@.len() && t.0.wf(),
{
    let (n_vars, p0) = match read_len(bytes, pos) {
        Some(t) => t,
        None => {
            return None;
        },
    };
    let mut vars: Vec<String> = Vec::new();
    let mut p = p0;
    let mut i: usize = 0;
    while i < n_vars
        invariant
            i <= n_vars,
            pos < p <= bytes@.len(),
        decreases n_vars - i,
    {
        let (name, p1) = match read_string(bytes, p) {
            Some(t) => t,
            None => {
                return None;
            },
        };
        vars.push(name);
        p = p1;
        i = i + 1;
    }
    let (n_stages, p2) = match read_len(bytes, p) {
        Some(t) => t,
        None => {
            return None;
        },
    };
    let mut stages: Vec<Stage> = Vec::new();
    let mut p3 = p2;
    let mut i2: usize = 0;
    while i2 < n_stages
        invariant
            i2 <= n_stages,
            pos < p3 <= bytes@.len(),
        decreases n_stages - i2,
    {
        let (stage, p4) = match read_stage(bytes, p3) {
            Some(t) => t,
            None => {
                return None;
            },
        };
        stages.push(stage);
        p3 = p4;
        i2 = i2 + 1;
    }
    let (n_steps, p5) = match read_len(bytes, p3) {
        Some(t) => t,
        None => {
            return None;
        },
    };
    let mut steps: Vec<Step> = Vec::new();
    let mut p6 = p5;
    let mut i3: usize = 0;
    while i3 < n_steps
        invariant
            i3 <= n_steps,
            pos < p6 <= bytes@.len(),
            forall|k: int| 0 <= k < steps@.len()
                ==> op_wf(op_view((#[trigger] steps@[k]).op)),
        decreases n_steps - i3,
    {
        let (op, p7) = match read_op(bytes, p6) {
            Some(t) => t,
            None => {
                return None;
            },
        };
        let (args_end, p8) = match read_len(bytes, p7) {
            Some(t) => t,
            None => {
                return None;
            },
        };
        steps.push(Step { op, args_end });
        p6 = p8;
        i3 = i3 + 1;
    }
    let (n_args, p9) = match read_len(bytes, p6) {
        Some(t) => t,
        None => {
            return None;
        },
    };
    let mut step_args: Vec<usize> = Vec::new();
    let mut p10 = p9;
    let mut i4: usize = 0;
    while i4 < n_args
        invariant
            i4 <= n_args,
            pos < p10 <= bytes@.len(),
        decreases n_args - i4,
    {
        let (x, p11) = match read_len(bytes, p10) {
            Some(t) => t,
            None => {
                return None;
            },
        };
        step_args.push(x);
        p10 = p11;
        i4 = i4 + 1;
    }
    let (n_out, p12) = match read_len(bytes, p10) {
        Some(t) => t,
        None => {
            return None;
        },
    };
    let mut output_steps: Vec<usize> = Vec::new();
    let mut p13 = p12;
    let mut i5: usize = 0;
    while i5 < n_out
        invariant
            i5 <= n_out,
            pos < p13 <= bytes@.len(),
        decreases n_out - i5,
    {
        let (x, p14) = match read_len(bytes, p13) {
            Some(t) => t,
            None => {
                return None;
            },
        };
        output_steps.push(x);
        p13 = p14;
        i5 = i5 + 1;
    }
    let prog = SwcProgram {
        vars,
        stages,
        steps,
        step_args,
        output_steps,
        term_cache: Vec::new(),
    };
    let ghost ops_ok = forall|k: int| 0 <= k < prog.steps@.len()
        ==> op_wf(op_view((#[trigger] prog.steps@[k]).op));
    proof {
        assert(ops_ok);
    }
    if program_shape_ok(&prog) {
        Some((prog, p13))
    } else {
        None
    }
}

/// Checks every structural clause of a program's well-formedness but
/// the operator one, which the reader establishes while decoding.
#[verifier::loop_isolation(false)]
#[verifier::rlimit(100)]
fn program_shape_ok(prog: &SwcProgram) -> (r: bool)
    requires
        forall|k: int| 0 <= k < prog.steps@.len()
            ==> op_wf(op_view((#[trigger] prog.steps@[k]).op)),
        prog.term_cache@.len() == 0,
    ensures
        r == prog.wf(),
{
    let n_steps = prog.steps.len();
    let n_args = prog.step_args.len();
    // Argument ranges: within bounds, ordered, gapless at the end.
    if n_steps == 0 {
        if n_args != 0 {
            return false;
        }
    } else {
        if prog.steps[n_steps - 1].args_end != n_args {
            return false;
        }
    }
    let mut k: usize = 0;
    let mut prev_end: usize = 0;
    while k < n_steps
        invariant
            k <= n_steps,
            prev_end as int == args_start(*prog, k as int),
            forall|q: int| 0 <= q < k
                ==> args_start(*prog, q) <= (#[trigger] prog.steps@[q]).args_end
                    <= prog.step_args@.len(),
            forall|q: int, j: int| #![trigger prog.steps@[q], prog.step_args@[j]]
                0 <= q < k && args_start(*prog, q) <= j < prog.steps@[q].args_end
                ==> prog.step_args@[j] < q,
        decreases n_steps - k,
    {
        let end = prog.steps[k].args_end;
        if end < prev_end || end > n_args {
            return false;
        }
        let mut j: usize = prev_end;
        while j < end
            invariant
                prev_end <= j <= end,
                end <= n_args,
                forall|q: int| prev_end <= q < j ==> prog.step_args@[q] < k,
            decreases end - j,
        {
            if prog.step_args[j] >= k {
                return false;
            }
            j = j + 1;
        }
        prev_end = end;
        k = k + 1;
    }
    // Output steps exist.
    let n_out = prog.output_steps.len();
    let mut i: usize = 0;
    while i < n_out
        invariant
            i <= n_out,
            forall|q: int| 0 <= q < i ==> (#[trigger] prog.output_steps@[q]) < prog.steps@.len(),
        decreases n_out - i,
    {
        if prog.output_steps[i] >= n_steps {
            return false;
        }
        i = i + 1;
    }
    // The per-stage output counts sum to the output list's length.
    let n_stages = prog.stages.len();
    let mut acc: usize = 0;
    let mut s: usize = 0;
    while s < n_stages
        invariant
            s <= n_stages,
            acc as int == outputs_before(prog.stages@, s as int),
        decreases n_stages - s,
    {
        let num = prog.stages[s].num_outputs;
        if num > usize::MAX - acc {
            proof {
                crate::swc::lemma_outputs_before_mono(prog.stages@, s as int + 1,
                    prog.stages@.len() as int);
            }
            return false;
        }
        acc = acc + num;
        s = s + 1;
    }
    if acc != n_out {
        return false;
    }
    true
}


/// The wire form of a constraint variable.
pub open spec fn wire_var(v: Var) -> Seq<u8> {
    seq![
        match v.ty {
            VarType::Inst => 0u8,
            VarType::FinalWit => 1u8,
            VarType::Chall => 2u8,
            VarType::RoundWit => 3u8,
        },
    ] + wire_u64(v.number)
}

fn push_var(out: &mut Vec<u8>, v: &Var)
    ensures
        final(out)@ == old(out)@ + wire_var(*v),
{
    let tag: u8 = match v.ty {
        VarType::Inst => 0,
        VarType::FinalWit => 1,
        VarType::Chall => 2,
        VarType::RoundWit => 3,
    };
    out.push(tag);
    push_u64(out, v.number);
    proof {
        assert(final(out)@ =~= old(out)@ + wire_var(*v));
    }
}

fn read_var(bytes: &Vec<u8>, pos: usize) -> (r: Option<(Var, usize)>)
    ensures
        r matches Some(t) ==> pos < t.1 <= bytes@.len(),
{
    let (tag, p0) = match read_u8(bytes, pos) {
        Some(t) => t,
        None => {
            return None;
        },
    };
    let ty = if tag == 0 {
        VarType::Inst
    } else if tag == 1 {
        VarType::FinalWit
    } else if tag == 2 {
        VarType::Chall
    } else if tag == 3 {
        VarType::RoundWit
    } else {
        return None;
    };
    let (number, p1) = match read_u64(bytes, p0) {
        Some(t) => t,
        None => {
            return None;
        },
    };
    Some((Var { ty, number }, p1))
}

fn push_lc(out: &mut Vec<u8>, lc: &Lc)
    ensures
        final(out)@ == old(out)@ + wire_lc(*lc),
{
    push_field(out, &lc.constant);
    push_usize(out, lc.monomials.len());
    let ghost mid = out@;
    let ghost ms = lc.monomials@;
    proof {
        assert(wire_monos(ms.take(0)) =~= Seq::<u8>::empty());
        assert(out@ =~= mid + wire_monos(ms.take(0)));
    }
    let mut i: usize = 0;
    while i < lc.monomials.len()
        invariant
            i <= lc.monomials@.len(),
            ms == lc.monomials@,
            out@ == mid + wire_monos(ms.take(i as int)),
        decreases lc.monomials@.len() - i,
    {
        push_var(out, &lc.monomials[i].0);
        push_field(out, &lc.monomials[i].1);
        proof {
            assert(ms.take(i + 1).drop_last() =~= ms.take(i as int));
            assert(ms.take(i + 1).last() == ms[i as int]);
            assert(wire_monos(ms.take(i + 1))
                == wire_monos(ms.take(i as int)) + wire_var(ms[i as int].0)
                    + wire_field(ms[i as int].1));
            assert(out@ =~= mid + wire_monos(ms.take(i + 1)));
        }
        i = i + 1;
    }
    proof {
        assert(ms.take(ms.len() as int) =~= ms);
        assert(final(out)@ =~= old(out)@ + wire_lc(*lc));
    }
}

fn read_lc(bytes: &Vec<u8>, pos: usize) -> (r: Option<(Lc, usize)>)
    ensures
        r matches Some(t) ==> pos < t.1 <= bytes@.len(),
{
    let (constant, p0) = match read_field(bytes, pos) {
        Some(t) => t,
        None => {
            return None;
        },
    };
    let (n, p1) = match read_len(bytes, p0) {
        Some(t) => t,
        None => {
            return None;
        },
    };
    let mut monomials: Vec<(Var, FieldElem)> = Vec::new();
    let mut p = p1;
    let mut i: usize = 0;
    while i < n
        invariant
            i <= n,
            pos < p <= bytes@.len(),
        decreases n - i,
    {
        let (v, p2) = match read_var(bytes, p) {
            Some(t) => t,
            None => {
                return None;
            },
        };
        let (f, p3) = match read_field(bytes, p2) {
            Some(t) => t,
            None => {
                return None;
            },
        };
        monomials.push((v, f));
        p = p3;
        i = i + 1;
    }
    Some((Lc { constant, monomials }, p))
}

/// The wire form of a variable list.
pub open spec fn wire_vars(vs: Seq<Var>) -> Seq<u8>
    decreases vs,
{
    if vs.len() == 0 {
        Seq::empty()
    } else {
        wire_vars(vs.drop_last()) + wire_var(vs.last())
    }
}

/// The wire form of a constraint list.
pub open spec fn wire_cons(cs: Seq<(Lc, Lc, Lc)>) -> Seq<u8>
    decreases cs,
{
    if cs.len() == 0 {
        Seq::empty()
    } else {
        wire_cons(cs.drop_last()) + wire_lc(cs.last().0) + wire_lc(cs.last().1)
            + wire_lc(cs.last().2)
    }
}

/// The wire form of a whole constraint system.
pub open spec fn wire_r1cs(r: R1cs) -> Seq<u8> {
    r.modulus@ + wire_len(r.vars@.len()) + wire_vars(r.vars@)
        + wire_len(r.constraints@.len()) + wire_cons(r.constraints@)
}

/// Writes a constraint system in the wire form, appending to the
/// buffer.
pub fn encode_r1cs(out: &mut Vec<u8>, r: &R1cs)
    ensures
        final(out)@ == old(out)@ + wire_r1cs(*r),
{
    push_bytes(out, &r.modulus);
    push_usize(out, r.vars.len());
    let ghost m1 = out@;
    proof {
        assert(wire_vars(r.vars@.take(0)) =~= Seq::<u8>::empty());
        assert(out@ =~= m1 + wire_vars(r.vars@.take(0)));
    }
    let mut i: usize = 0;
    while i < r.vars.len()
        invariant
            i <= r.vars@.len(),
            out@ == m1 + wire_vars(r.vars@.take(i as int)),
        decreases r.vars@.len() - i,
    {
        push_var(out, &r.vars[i]);
        proof {
            let vv = r.vars@;
            assert(vv.take(i + 1).drop_last() =~= vv.take(i as int));
            assert(vv.take(i + 1).last() == vv[i as int]);
            assert(out@ =~= m1 + wire_vars(vv.take(i + 1)));
        }
        i = i + 1;
    }
    proof {
        assert(r.vars@.take(r.vars@.len() as int) =~= r.vars@);
    }
    push_usize(out, r.constraints.len());
    let ghost m2 = out@;
    proof {
        assert(wire_cons(r.constraints@.take(0)) =~= Seq::<u8>::empty());
        assert(out@ =~= m2 + wire_cons(r.constraints@.take(0)));
    }
    let mut i2: usize = 0;
    while i2 < r.constraints.len()
        invariant
            i2 <= r.constraints@.len(),
            out@ == m2 + wire_cons(r.constraints@.take(i2 as int)),
        decreases r.constraints@.len() - i2,
    {
        push_lc(out, &r.constraints[i2].0);
        push_lc(out, &r.constraints[i2].1);
        push_lc(out, &r.constraints[i2].2);
        proof {
            let vv = r.constraints@;
            assert(vv.take(i2 + 1).drop_last() =~= vv.take(i2 as int));
            assert(vv.take(i2 + 1).last() == vv[i2 as int]);
            assert(out@ =~= m2 + wire_cons(vv.take(i2 + 1)));
        }
        i2 = i2 + 1;
    }
    proof {
        assert(r.constraints@.take(r.constraints@.len() as int) =~= r.constraints@);
        assert(final(out)@ =~= old(out)@ + wire_r1cs(*r));
    }
}

/// Reads a constraint system and validates it whole.
#[verifier::loop_isolation(false)]
pub fn read_r1cs(bytes: &Vec<u8>, pos: usize) -> (r: Option<(R1cs, usize)>)
    ensures
        r matches Some(t) ==> pos < t.1 <= bytes@.len() && t.0.wf()
            && t.0.vars@.len() <= 0x1000_0000
            && t.0.constraints@.len() <= 0x1000_0000,
{
    let (modulus, p0) = match read_bytes32(bytes, pos) {
        Some(t) => t,
        None => {
            return None;
        },
    };
    let (n_vars, p1) = match read_len(bytes, p0) {
        Some(t) => t,
        None => {
            return None;
        },
    };
    let mut vars: Vec<Var> = Vec::new();
    let mut p = p1;
    let mut i: usize = 0;
    while i < n_vars
        invariant
            i <= n_vars,
            vars@.len() == i,
            pos < p <= bytes@.len(),
        decreases n_vars - i,
    {
        let (v, p2) = match read_var(bytes, p) {
            Some(t) => t,
            None => {
                return None;
            },
        };
        vars.push(v);
        p = p2;
        i = i + 1;
    }
    let (n_cons, p3) = match read_len(bytes, p) {
        Some(t) => t,
        None => {
            return None;
        },
    };
    let mut constraints: Vec<(Lc, Lc, Lc)> = Vec::new();
    let mut p4 = p3;
    let mut i2: usize = 0;
    while i2 < n_cons
        invariant
            i2 <= n_cons,
            constraints@.len() == i2,
            pos < p4 <= bytes@.len(),
        decreases n_cons - i2,
    {
        let (a, p5) = match read_lc(bytes, p4) {
            Some(t) => t,
            None => {
                return None;
            },
        };
        let (b, p6) = match read_lc(bytes, p5) {
            Some(t) => t,
            None => {
                return None;
            },
        };
        let (c, p7) = match read_lc(bytes, p6) {
            Some(t) => t,
            None => {
                return None;
            },
        };
        constraints.push((a, b, c));
        p4 = p7;
        i2 = i2 + 1;
    }
    let r1cs = R1cs { modulus, vars, constraints };
    if r1cs_ok(&r1cs) {
        Some((r1cs, p4))
    } else {
        None
    }
}

/// Checks a decoded constraint system's well-formedness.
#[verifier::loop_isolation(false)]
#[verifier::rlimit(100)]
fn r1cs_ok(r: &R1cs) -> (r_ok: bool)
    ensures
        r_ok == r.wf(),
{
    if r.modulus.len() != 32 {
        return false;
    }
    let one = crate::field::u64_to_bytes32(1);
    if !crate::bytes::le_lt(&one, &r.modulus) {
        return false;
    }
    let n_vars = r.vars.len();
    let mut i: usize = 0;
    while i < n_vars
        invariant
            i <= n_vars,
            forall|x: int, y: int| 0 <= x < y < i ==> r.vars@[x] != r.vars@[y],
        decreases n_vars - i,
    {
        let mut j: usize = 0;
        while j < i
            invariant
                j <= i,
                forall|y: int| 0 <= y < j ==> r.vars@[y] != r.vars@[i as int],
            decreases i - j,
        {
            if r.vars[j] == r.vars[i] {
                return false;
            }
            j = j + 1;
        }
        i = i + 1;
    }
    let n_cons = r.constraints.len();
    let mut c: usize = 0;
    while c < n_cons
        invariant
            c <= n_cons,
            forall|q: int| 0 <= q < c
                ==> lc_wf((#[trigger] r.constraints@[q]).0, r.modulus@, r.vars@)
                    && lc_wf(r.constraints@[q].1, r.modulus@, r.vars@)
                    && lc_wf(r.constraints@[q].2, r.modulus@, r.vars@),
        decreases n_cons - c,
    {
        let ok0 = lc_ok(r, &r.constraints[c].0);
        let ok1 = lc_ok(r, &r.constraints[c].1);
        let ok2 = lc_ok(r, &r.constraints[c].2);
        if !(ok0 && ok1 && ok2) {
            return false;
        }
        c = c + 1;
    }
    true
}

/// Checks one linear combination against the system's modulus and
/// variable list.
#[verifier::loop_isolation(false)]
fn lc_ok(r: &R1cs, lc: &Lc) -> (r_ok: bool)
    requires
        r.modulus@.len() == 32,
        crate::bytes::le_val(r.modulus@) >= 2,
    ensures
        r_ok == lc_wf(*lc, r.modulus@, r.vars@),
{
    let fe_ok = field_matches(&lc.constant, &r.modulus);
    if !fe_ok {
        return false;
    }
    let n = lc.monomials.len();
    let mut j: usize = 0;
    while j < n
        invariant
            j <= n,
            forall|q: int| 0 <= q < j
                ==> (#[trigger] lc.monomials@[q]).1.wf()
                    && lc.monomials@[q].1.modulus@ == r.modulus@
                    && var_in(r.vars@, lc.monomials@[q].0),
        decreases n - j,
    {
        let ok = field_matches(&lc.monomials[j].1, &r.modulus);
        if !ok {
            return false;
        }
        let mut found: bool = false;
        let mut k: usize = 0;
        while k < r.vars.len()
            invariant
                k <= r.vars@.len(),
                found ==> var_in(r.vars@, lc.monomials@[j as int].0),
                !found ==> forall|y: int| 0 <= y < k ==> r.vars@[y] != lc.monomials@[j as int].0,
            decreases r.vars@.len() - k,
        {
            if r.vars[k] == lc.monomials[j].0 {
                found = true;
            }
            k = k + 1;
        }
        if !found {
            return false;
        }
        j = j + 1;
    }
    true
}

/// Whether a field element is well-formed and of the given field.
fn field_matches(f: &FieldElem, modulus: &Vec<u8>) -> (r: bool)
    requires
        modulus@.len() == 32,
        crate::bytes::le_val(modulus@) >= 2,
    ensures
        r == (f.wf() && f.modulus@ == modulus@),
{
    if f.value.len() != 32 || f.modulus.len() != 32 {
        return false;
    }
    let same = crate::bytes::le_eq(&f.modulus, modulus);
    if !same {
        return false;
    }
    crate::bytes::le_lt(&f.value, &f.modulus)
}

/// The wire form of prover data: header, constraint system, witness
/// program.
pub open spec fn wire_prover_data(pd: ProverData) -> Seq<u8> {
    seq![CODEC_MAGIC, CODEC_VERSION] + wire_r1cs(pd.r1cs) + wire_program(pd.swc)
}

/// Writes prover data, byte for byte the wire form.
pub fn encode_prover_data(pd: &ProverData) -> (r: Vec<u8>)
    ensures
        r@ == wire_prover_data(*pd),
        r@.len() >= 2,
        r@[0] == CODEC_MAGIC,
        r@[1] == CODEC_VERSION,
{
    let mut out: Vec<u8> = Vec::new();
    out.push(CODEC_MAGIC);
    out.push(CODEC_VERSION);
    proof {
        assert(out@ =~= seq![CODEC_MAGIC, CODEC_VERSION]);
    }
    encode_r1cs(&mut out, &pd.r1cs);
    encode_program(&mut out, &pd.swc);
    proof {
        assert(out@ =~= wire_prover_data(*pd));
    }
    out
}

/// Reads prover data, refusing any other codec version and anything
/// malformed or non-canonical: what comes back is well-formed, within
/// the sizes the bridge accepts, and re-encodes to exactly the bytes
/// that were read — the reader accepts only the writer's wire form.
pub fn decode_prover_data(bytes: &Vec<u8>) -> (r: Result<ProverData, BridgeError>)
    ensures
        match r {
            Ok(pd) => pd.wf() && pd.r1cs.vars@.len() <= 0x1000_0000
                && pd.r1cs.constraints@.len() <= 0x1000_0000
                && bytes@ == wire_prover_data(pd)
                && bytes@.len() >= 2 && bytes@[0] == CODEC_MAGIC && bytes@[1] == CODEC_VERSION,
            Err(e) => e is IncompatibleArtifact,
        },
{
    if bytes.len() < 2 || bytes[0] != CODEC_MAGIC || bytes[1] != CODEC_VERSION {
        return Err(BridgeError::IncompatibleArtifact);
    }
    let (r1cs, p0) = match read_r1cs(bytes, 2) {
        Some(t) => t,
        None => {
            return Err(BridgeError::IncompatibleArtifact);
        },
    };
    let (swc, _p1) = match read_program(bytes, p0) {
        Some(t) => t,
        None => {
            return Err(BridgeError::IncompatibleArtifact);
        },
    };
    let pd = ProverData { r1cs, swc };
    let again = encode_prover_data(&pd);
    if again.len() != bytes.len() {
        return Err(BridgeError::IncompatibleArtifact);
    }
    if !crate::bytes::le_eq(&again, bytes) {
        return Err(BridgeError::IncompatibleArtifact);
    }
    Ok(pd)
}

/// The wire form of verifier data: header, modulus, public variables,
/// public program.
pub open spec fn wire_verifier_data(vd: VerifierData) -> Seq<u8> {
    seq![CODEC_MAGIC, CODEC_VERSION] + vd.modulus@ + wire_len(vd.vars@.len())
        + wire_vars(vd.vars@) + wire_program(vd.public_swc)
}

/// Writes verifier data, byte for byte the wire form.
pub fn encode_verifier_data(vd: &VerifierData) -> (r: Vec<u8>)
    ensures
        r@ == wire_verifier_data(*vd),
        r@.len() >= 2,
        r@[0] == CODEC_MAGIC,
        r@[1] == CODEC_VERSION,
{
    let mut out: Vec<u8> = Vec::new();
    out.push(CODEC_MAGIC);
    out.push(CODEC_VERSION);
    proof {
        assert(out@ =~= seq![CODEC_MAGIC, CODEC_VERSION]);
    }
    push_bytes(&mut out, &vd.modulus);
    push_usize(&mut out, vd.vars.len());
    let ghost base = out@;
    proof {
        assert(wire_vars(vd.vars@.take(0)) =~= Seq::<u8>::empty());
        assert(out@ =~= base + wire_vars(vd.vars@.take(0)));
    }
    let mut i: usize = 0;
    while i < vd.vars.len()
        invariant
            i <= vd.vars@.len(),
            out@ == base + wire_vars(vd.vars@.take(i as int)),
        decreases vd.vars@.len() - i,
    {
        push_var(&mut out, &vd.vars[i]);
        proof {
            let vv = vd.vars@;
            assert(vv.take(i + 1).drop_last() =~= vv.take(i as int));
            assert(vv.take(i + 1).last() == vv[i as int]);
            assert(out@ =~= base + wire_vars(vv.take(i + 1)));
        }
        i = i + 1;
    }
    proof {
        assert(vd.vars@.take(vd.vars@.len() as int) =~= vd.vars@);
    }
    encode_program(&mut out, &vd.public_swc);
    proof {
        assert(out@ =~= wire_verifier_data(*vd));
    }
    out
}

/// Reads verifier data, refusing any other codec version and anything
/// malformed or non-canonical: what comes back is well-formed and
/// re-encodes to exactly the bytes that were read.
pub fn decode_verifier_data(bytes: &Vec<u8>) -> (r: Result<VerifierData, BridgeError>)
    ensures
        match r {
            Ok(vd) => vd.wf()
                && bytes@ == wire_verifier_data(vd)
                && bytes@.len() >= 2 && bytes@[0] == CODEC_MAGIC && bytes@[1] == CODEC_VERSION,
            Err(e) => e is IncompatibleArtifact,
        },
{
    if bytes.len() < 2 || bytes[0] != CODEC_MAGIC || bytes[1] != CODEC_VERSION {
        return Err(BridgeError::IncompatibleArtifact);
    }
    let (modulus, p0) = match read_bytes32(bytes, 2) {
        Some(t) => t,
        None => {
            return Err(BridgeError::IncompatibleArtifact);
        },
    };
    let one = crate::field::u64_to_bytes32(1);
    if !crate::bytes::le_lt(&one, &modulus) {
        return Err(BridgeError::IncompatibleArtifact);
    }
    let (n_vars, p1) = match read_len(bytes, p0) {
        Some(t) => t,
        None => {
            return Err(BridgeError::IncompatibleArtifact);
        },
    };
    let mut vars: Vec<Var> = Vec::new();
    let mut p = p1;
    let mut i: usize = 0;
    while i < n_vars
        invariant
            i <= n_vars,
            2 < p <= bytes@.len(),
        decreases n_vars - i,
    {
        let (v, p2) = match read_var(bytes, p) {
            Some(t) => t,
            None => {
                return Err(BridgeError::IncompatibleArtifact);
            },
        };
        vars.push(v);
        p = p2;
        i = i + 1;
    }
    let (public_swc, _p3) = match read_program(bytes, p) {
        Some(t) => t,
        None => {
            return Err(BridgeError::IncompatibleArtifact);
        },
    };
    let vd = VerifierData { modulus, vars, public_swc };
    let again = encode_verifier_data(&vd);
    if again.len() != bytes.len() {
        return Err(BridgeError::IncompatibleArtifact);
    }
    if !crate::bytes::le_eq(&again, bytes) {
        return Err(BridgeError::IncompatibleArtifact);
    }
    Ok(vd)
}

} // verus!
