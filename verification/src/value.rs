//! Tagged runtime values and their sorts.
//!
//! Every wire of the witness computation carries a `Value`; every declared
//! stage input carries a `Sort`. Values are compared structurally; a value
//! is checked against its declared sort before a stage consumes it.
//!
//! The model covers the value forms the bridge itself moves: booleans,
//! prime-field elements, machine-width bit vectors and tuples of these.
//! Aggregate stores keyed by ordered values, arbitrary-precision
//! integers and opaque maps belong to the compiler front end's own
//! evaluator and are deliberately not modeled here.

use vstd::prelude::*;
use crate::bytes::{le_val, le_eq};
use crate::field::FieldElem;

verus! {

/// The type of a value: a boolean, an element of a prime field
/// (identified by its 32-byte little-endian modulus), or a tuple.
#[derive(Debug)]
pub enum Sort {
    Bool,
    Field(Vec<u8>),
    BitVector(usize),
    Tuple(Vec<Sort>),
}

/// The mathematical shape of a `Sort`.
#[verifier::ext_equal]
pub enum SortV {
    Bool,
    Field(Seq<u8>),
    BitVector(int),
    Tuple(Seq<SortV>),
}

/// A tagged runtime value.
#[derive(Debug)]
pub enum Value {
    Bool(bool),
    Field(FieldElem),
    BitVector(u64, usize),
    Tuple(Vec<Value>),
}

/// The mathematical shape of a `Value`. A field element appears as its
/// value bytes and its modulus bytes; a bit vector as its unsigned
/// value and its width.
#[verifier::ext_equal]
pub enum ValueV {
    Bool(bool),
    Field(Seq<u8>, Seq<u8>),
    BitVector(u64, int),
    Tuple(Seq<ValueV>),
}

pub open spec fn sort_view(s: Sort) -> SortV
    decreases s,
{
    match s {
        Sort::Bool => SortV::Bool,
        Sort::Field(m) => SortV::Field(m@),
        Sort::BitVector(w) => SortV::BitVector(w as int),
        Sort::Tuple(ts) => SortV::Tuple(sort_views(ts@)),
    }
}

pub open spec fn sort_views(ts: Seq<Sort>) -> Seq<SortV>
    decreases ts,
{
    if ts.len() == 0 {
        Seq::empty()
    } else {
        sort_views(ts.drop_last()).push(sort_view(ts.last()))
    }
}

impl View for Sort {
    type V = SortV;

    open spec fn view(&self) -> SortV {
        sort_view(*self)
    }
}

pub open spec fn value_view(v: Value) -> ValueV
    decreases v,
{
    match v {
        Value::Bool(b) => ValueV::Bool(b),
        Value::Field(f) => ValueV::Field(f.value@, f.modulus@),
        Value::BitVector(bits, w) => ValueV::BitVector(bits, w as int),
        Value::Tuple(vs) => ValueV::Tuple(value_views(vs@)),
    }
}

pub open spec fn value_views(vs: Seq<Value>) -> Seq<ValueV>
    decreases vs,
{
    if vs.len() == 0 {
        Seq::empty()
    } else {
        value_views(vs.drop_last()).push(value_view(vs.last()))
    }
}

impl View for Value {
    type V = ValueV;

    open spec fn view(&self) -> ValueV {
        value_view(*self)
    }
}

/// The view of a sequence of sorts is the sequence of their views.
pub proof fn lemma_sort_views(ts: Seq<Sort>)
    ensures
        sort_views(ts).len() == ts.len(),
        forall|i: int| 0 <= i < ts.len() ==> sort_views(ts)[i] == sort_view(#[trigger] ts[i]),
    decreases ts,
{
    if ts.len() > 0 {
        lemma_sort_views(ts.drop_last());
        assert forall|i: int| 0 <= i < ts.len() implies sort_views(ts)[i] == sort_view(#[trigger] ts[i]) by {
            if i < ts.len() - 1 {
                assert(ts.drop_last()[i] == ts[i]);
            }
        }
    }
}

/// The view of a sequence of values is the sequence of their views.
pub proof fn lemma_value_views(vs: Seq<Value>)
    ensures
        value_views(vs).len() == vs.len(),
        forall|i: int| 0 <= i < vs.len() ==> value_views(vs)[i] == value_view(#[trigger] vs[i]),
    decreases vs,
{
    if vs.len() > 0 {
        lemma_value_views(vs.drop_last());
        assert forall|i: int| 0 <= i < vs.len() implies value_views(vs)[i] == value_view(#[trigger] vs[i]) by {
            if i < vs.len() - 1 {
                assert(vs.drop_last()[i] == vs[i]);
            }
        }
    }
}

/// A structural height measure, used for termination of value traversals.
pub open spec fn value_height(v: Value) -> nat
    decreases v,
{
    match v {
        Value::Bool(_) => 0,
        Value::Field(_) => 0,
        Value::BitVector(_, _) => 0,
        Value::Tuple(vs) => 1 + values_height(vs@),
    }
}

pub open spec fn values_height(vs: Seq<Value>) -> nat
    decreases vs,
{
    if vs.len() == 0 {
        0
    } else {
        values_height(vs.drop_last()) + value_height(vs.last())
    }
}

pub open spec fn sort_height(s: Sort) -> nat
    decreases s,
{
    match s {
        Sort::Bool => 0,
        Sort::Field(_) => 0,
        Sort::BitVector(_) => 0,
        Sort::Tuple(ts) => 1 + sorts_height(ts@),
    }
}

pub open spec fn sorts_height(ts: Seq<Sort>) -> nat
    decreases ts,
{
    if ts.len() == 0 {
        0
    } else {
        sorts_height(ts.drop_last()) + sort_height(ts.last())
    }
}

pub proof fn lemma_values_height_elem(vs: Seq<Value>, i: int)
    requires
        0 <= i < vs.len(),
    ensures
        value_height(vs[i]) <= values_height(vs),
    decreases vs,
{
    if i < vs.len() - 1 {
        lemma_values_height_elem(vs.drop_last(), i);
        assert(vs.drop_last()[i] == vs[i]);
    }
}

pub proof fn lemma_sorts_height_elem(ts: Seq<Sort>, i: int)
    requires
        0 <= i < ts.len(),
    ensures
        sort_height(ts[i]) <= sorts_height(ts),
    decreases ts,
{
    if i < ts.len() - 1 {
        lemma_sorts_height_elem(ts.drop_last(), i);
        assert(ts.drop_last()[i] == ts[i]);
    }
}

/// Well-formedness of a value shape: every field element it holds is
/// canonical, reduced below its 32-byte modulus.
pub open spec fn value_wf(v: ValueV) -> bool
    decreases v,
{
    match v {
        ValueV::Bool(_) => true,
        ValueV::Field(val, md) => val.len() == 32 && md.len() == 32
            && le_val(val) < le_val(md) && le_val(md) >= 2,
        ValueV::BitVector(bits, w) => 1 <= w <= 64
            && (bits as nat) < vstd::arithmetic::power2::pow2(w as nat),
        ValueV::Tuple(vs) => values_wf(vs),
    }
}

pub open spec fn values_wf(vs: Seq<ValueV>) -> bool
    decreases vs,
{
    if vs.len() == 0 {
        true
    } else {
        values_wf(vs.drop_last()) && value_wf(vs.last())
    }
}

/// Each member of a well-formed sequence of value shapes is well-formed.
pub proof fn lemma_values_wf_elem(vs: Seq<ValueV>, i: int)
    requires
        values_wf(vs),
        0 <= i < vs.len(),
    ensures
        value_wf(vs[i]),
    decreases vs,
{
    if i < vs.len() - 1 {
        lemma_values_wf_elem(vs.drop_last(), i);
        assert(vs.drop_last()[i] == vs[i]);
    }
}

/// A sequence of well-formed value shapes is well-formed.
pub proof fn lemma_values_wf_intro(vs: Seq<ValueV>)
    requires
        forall|i: int| 0 <= i < vs.len() ==> value_wf(#[trigger] vs[i]),
    ensures
        values_wf(vs),
    decreases vs,
{
    if vs.len() > 0 {
        assert(forall|i: int| 0 <= i < vs.drop_last().len()
            ==> value_wf(#[trigger] vs.drop_last()[i]));
        lemma_values_wf_intro(vs.drop_last());
    }
}

impl Value {
    /// Whether this value is well-formed: every field element in it is
    /// canonical and reduced.
    pub fn check_wf(&self) -> (r: bool)
        ensures
            r == value_wf(self@),
        decreases value_height(*self),
    {
        match self {
            Value::Bool(_) => true,
            Value::BitVector(bits, w) => {
                if *w < 1 || *w > 64 {
                    false
                } else if *w == 64 {
                    proof {
                        vstd::arithmetic::power2::lemma2_to64();
                    }
                    true
                } else {
                    let limit = pow2_u64(*w);
                    *bits < limit
                }
            },
            Value::Field(f) => {
                if f.value.len() == 32 && f.modulus.len() == 32 {
                    let below = crate::bytes::le_lt(&f.value, &f.modulus);
                    let one_bytes = crate::field::u64_to_bytes32(1);
                    let too_small = crate::bytes::le_lt(&one_bytes, &f.modulus);
                    below && too_small
                } else {
                    false
                }
            },
            Value::Tuple(vs) => {
                let ghost s1 = value_views(vs@);
                proof {
                    lemma_value_views(vs@);
                }
                let n = vs.len();
                let mut i: usize = 0;
                while i < n
                    invariant
                        n == vs@.len(),
                        i <= n,
                        self@ == ValueV::Tuple(s1),
                        s1.len() == n,
                        forall|j: int| 0 <= j < n ==> s1[j] == value_view(#[trigger] vs@[j]),
                        forall|j: int| 0 <= j < i ==> value_wf(s1[j]),
                        value_height(*self) == 1 + values_height(vs@),
                    decreases n - i,
                {
                    proof {
                        lemma_values_height_elem(vs@, i as int);
                    }
                    let ok = vs[i].check_wf();
                    if !ok {
                        proof {
                            if values_wf(s1) {
                                lemma_values_wf_elem(s1, i as int);
                            }
                        }
                        return false;
                    }
                    i = i + 1;
                }
                proof {
                    lemma_values_wf_intro(s1);
                }
                true
            },
        }
    }
}

/// Whether a value inhabits a sort.
pub open spec fn spec_has_sort(v: ValueV, s: SortV) -> bool
    decreases v,
{
    match v {
        ValueV::Bool(_) => s is Bool,
        ValueV::Field(_, m) => s == SortV::Field(m),
        ValueV::BitVector(_, w) => s == SortV::BitVector(w),
        ValueV::Tuple(vs) => s matches SortV::Tuple(ss) && spec_have_sorts(vs, ss),
    }
}

pub open spec fn spec_have_sorts(vs: Seq<ValueV>, ss: Seq<SortV>) -> bool
    decreases vs,
{
    if vs.len() != ss.len() {
        false
    } else if vs.len() == 0 {
        true
    } else {
        spec_have_sorts(vs.drop_last(), ss.drop_last()) && spec_has_sort(vs.last(), ss.last())
    }
}

/// Pointwise reading of `spec_have_sorts`.
pub proof fn lemma_have_sorts_index(vs: Seq<ValueV>, ss: Seq<SortV>)
    requires
        spec_have_sorts(vs, ss),
    ensures
        vs.len() == ss.len(),
        forall|i: int| 0 <= i < vs.len() ==> spec_has_sort(#[trigger] vs[i], ss[i]),
    decreases vs,
{
    if vs.len() > 0 {
        lemma_have_sorts_index(vs.drop_last(), ss.drop_last());
        assert forall|i: int| 0 <= i < vs.len() implies spec_has_sort(#[trigger] vs[i], ss[i]) by {
            if i < vs.len() - 1 {
                assert(vs.drop_last()[i] == vs[i]);
                assert(ss.drop_last()[i] == ss[i]);
            }
        }
    }
}

/// Pointwise introduction of `spec_have_sorts`.
pub proof fn lemma_have_sorts_intro(vs: Seq<ValueV>, ss: Seq<SortV>)
    requires
        vs.len() == ss.len(),
        forall|i: int| 0 <= i < vs.len() ==> spec_has_sort(#[trigger] vs[i], ss[i]),
    ensures
        spec_have_sorts(vs, ss),
    decreases vs,
{
    if vs.len() > 0 {
        assert(forall|i: int| 0 <= i < vs.drop_last().len()
            ==> spec_has_sort(#[trigger] vs.drop_last()[i], ss.drop_last()[i]));
        lemma_have_sorts_intro(vs.drop_last(), ss.drop_last());
    }
}

/// Well-formedness of a sort shape: every field modulus it mentions is
/// a 32-byte string of value at least 2.
pub open spec fn sort_wf(s: SortV) -> bool
    decreases s,
{
    match s {
        SortV::Bool => true,
        SortV::Field(m) => m.len() == 32 && le_val(m) >= 2,
        SortV::BitVector(w) => 1 <= w <= 64,
        SortV::Tuple(ss) => sorts_wf(ss),
    }
}

pub open spec fn sorts_wf(ss: Seq<SortV>) -> bool
    decreases ss,
{
    if ss.len() == 0 {
        true
    } else {
        sorts_wf(ss.drop_last()) && sort_wf(ss.last())
    }
}

/// Each member of a well-formed sequence of sort shapes is well-formed.
pub proof fn lemma_sorts_wf_elem(ss: Seq<SortV>, i: int)
    requires
        sorts_wf(ss),
        0 <= i < ss.len(),
    ensures
        sort_wf(ss[i]),
    decreases ss,
{
    if i < ss.len() - 1 {
        lemma_sorts_wf_elem(ss.drop_last(), i);
        assert(ss.drop_last()[i] == ss[i]);
    }
}

/// A sequence of well-formed sort shapes is well-formed.
pub proof fn lemma_sorts_wf_intro(ss: Seq<SortV>)
    requires
        forall|i: int| 0 <= i < ss.len() ==> sort_wf(#[trigger] ss[i]),
    ensures
        sorts_wf(ss),
    decreases ss,
{
    if ss.len() > 0 {
        assert(forall|i: int| 0 <= i < ss.drop_last().len()
            ==> sort_wf(#[trigger] ss.drop_last()[i]));
        lemma_sorts_wf_intro(ss.drop_last());
    }
}

impl Sort {
    /// Structural equality of two sorts.
    pub fn sort_eq(&self, other: &Sort) -> (r: bool)
        ensures
            r == (self@ == other@),
        decreases sort_height(*self),
    {
        match (self, other) {
            (Sort::Bool, Sort::Bool) => true,
            (Sort::BitVector(w1), Sort::BitVector(w2)) => w1 == w2,
            (Sort::Field(m1), Sort::Field(m2)) => {
                if m1.len() == m2.len() {
                    le_eq(m1, m2)
                } else {
                    false
                }
            },
            (Sort::Tuple(ts1), Sort::Tuple(ts2)) => {
                let ghost s1 = sort_views(ts1@);
                let ghost s2 = sort_views(ts2@);
                proof {
                    lemma_sort_views(ts1@);
                    lemma_sort_views(ts2@);
                }
                if ts1.len() != ts2.len() {
                    return false;
                }
                let n = ts1.len();
                let mut i: usize = 0;
                while i < n
                    invariant
                        n == ts1@.len() == ts2@.len(),
                        i <= n,
                        self@ == SortV::Tuple(s1) && other@ == SortV::Tuple(s2),
                        s1.len() == n && s2.len() == n,
                        forall|j: int| 0 <= j < n ==> s1[j] == sort_view(#[trigger] ts1@[j]),
                        forall|j: int| 0 <= j < n ==> s2[j] == sort_view(#[trigger] ts2@[j]),
                        forall|j: int| 0 <= j < i ==> s1[j] == s2[j],
                        sort_height(*self) == 1 + sorts_height(ts1@),
                    decreases n - i,
                {
                    proof {
                        lemma_sorts_height_elem(ts1@, i as int);
                    }
                    let same = ts1[i].sort_eq(&ts2[i]);
                    if !same {
                        proof {
                            assert(s1[i as int] != s2[i as int]);
                        }
                        return false;
                    }
                    i = i + 1;
                }
                proof {
                    assert(s1 =~= s2);
                }
                true
            },
            _ => false,
        }
    }

    /// Whether this sort is well-formed.
    pub fn check_wf(&self) -> (r: bool)
        ensures
            r == sort_wf(self@),
        decreases sort_height(*self),
    {
        match self {
            Sort::Bool => true,
            Sort::BitVector(w) => *w >= 1 && *w <= 64,
            Sort::Field(m) => {
                if m.len() == 32 {
                    let one_bytes = crate::field::u64_to_bytes32(1);
                    crate::bytes::le_lt(&one_bytes, m)
                } else {
                    false
                }
            },
            Sort::Tuple(ts) => {
                let ghost s1 = sort_views(ts@);
                proof {
                    lemma_sort_views(ts@);
                }
                let n = ts.len();
                let mut i: usize = 0;
                while i < n
                    invariant
                        n == ts@.len(),
                        i <= n,
                        self@ == SortV::Tuple(s1),
                        s1.len() == n,
                        forall|j: int| 0 <= j < n ==> s1[j] == sort_view(#[trigger] ts@[j]),
                        forall|j: int| 0 <= j < i ==> sort_wf(s1[j]),
                        sort_height(*self) == 1 + sorts_height(ts@),
                    decreases n - i,
                {
                    proof {
                        lemma_sorts_height_elem(ts@, i as int);
                    }
                    let ok = ts[i].check_wf();
                    if !ok {
                        proof {
                            if sorts_wf(s1) {
                                lemma_sorts_wf_elem(s1, i as int);
                            }
                        }
                        return false;
                    }
                    i = i + 1;
                }
                proof {
                    lemma_sorts_wf_intro(s1);
                }
                true
            },
        }
    }

    /// A full copy.
    pub fn dup(&self) -> (r: Sort)
        ensures
            r@ == self@,
        decreases sort_height(*self),
    {
        match self {
            Sort::Bool => Sort::Bool,
            Sort::Field(m) => Sort::Field(crate::field::copy_bytes(m)),
            Sort::BitVector(w) => Sort::BitVector(*w),
            Sort::Tuple(ts) => {
                let ghost s1 = sort_views(ts@);
                proof {
                    lemma_sort_views(ts@);
                }
                let n = ts.len();
                let mut out: Vec<Sort> = Vec::new();
                let mut i: usize = 0;
                while i < n
                    invariant
                        n == ts@.len(),
                        i <= n,
                        out@.len() == i,
                        self@ == SortV::Tuple(s1),
                        s1.len() == n,
                        forall|j: int| 0 <= j < n ==> s1[j] == sort_view(#[trigger] ts@[j]),
                        forall|j: int| 0 <= j < i ==> sort_view(#[trigger] out@[j]) == s1[j],
                        sort_height(*self) == 1 + sorts_height(ts@),
                    decreases n - i,
                {
                    proof {
                        lemma_sorts_height_elem(ts@, i as int);
                    }
                    let c = ts[i].dup();
                    out.push(c);
                    i = i + 1;
                }
                let ghost outs = out@;
                proof {
                    lemma_sort_views(outs);
                    assert forall|j: int| 0 <= j < n implies sort_views(outs)[j] == s1[j] by {
                        assert(sort_views(outs)[j] == sort_view(outs[j]));
                        assert(sort_view(out@[j]) == s1[j]);
                    }
                    assert(sort_views(outs) =~= s1);
                }
                Sort::Tuple(out)
            },
        }
    }
}

impl Value {
    /// Structural equality of two values.
    pub fn value_eq(&self, other: &Value) -> (r: bool)
        ensures
            r == (self@ == other@),
        decreases value_height(*self),
    {
        match (self, other) {
            (Value::Bool(b1), Value::Bool(b2)) => b1 == b2,
            (Value::BitVector(x1, w1), Value::BitVector(x2, w2)) => x1 == x2 && w1 == w2,
            (Value::Field(f1), Value::Field(f2)) => {
                if f1.value.len() == f2.value.len() && f1.modulus.len() == f2.modulus.len() {
                    let ve = le_eq(&f1.value, &f2.value);
                    let me = le_eq(&f1.modulus, &f2.modulus);
                    ve && me
                } else {
                    false
                }
            },
            (Value::Tuple(vs1), Value::Tuple(vs2)) => {
                let ghost s1 = value_views(vs1@);
                let ghost s2 = value_views(vs2@);
                proof {
                    lemma_value_views(vs1@);
                    lemma_value_views(vs2@);
                }
                if vs1.len() != vs2.len() {
                    return false;
                }
                let n = vs1.len();
                let mut i: usize = 0;
                while i < n
                    invariant
                        n == vs1@.len() == vs2@.len(),
                        i <= n,
                        self@ == ValueV::Tuple(s1) && other@ == ValueV::Tuple(s2),
                        s1.len() == n && s2.len() == n,
                        forall|j: int| 0 <= j < n ==> s1[j] == value_view(#[trigger] vs1@[j]),
                        forall|j: int| 0 <= j < n ==> s2[j] == value_view(#[trigger] vs2@[j]),
                        forall|j: int| 0 <= j < i ==> s1[j] == s2[j],
                        value_height(*self) == 1 + values_height(vs1@),
                    decreases n - i,
                {
                    proof {
                        lemma_values_height_elem(vs1@, i as int);
                    }
                    let same = vs1[i].value_eq(&vs2[i]);
                    if !same {
                        proof {
                            assert(s1[i as int] != s2[i as int]);
                        }
                        return false;
                    }
                    i = i + 1;
                }
                proof {
                    assert(s1 =~= s2);
                }
                true
            },
            _ => false,
        }
    }

    /// Whether this value inhabits the given sort.
    pub fn has_sort(&self, s: &Sort) -> (r: bool)
        ensures
            r == spec_has_sort(self@, s@),
        decreases value_height(*self),
    {
        match (self, s) {
            (Value::Bool(_), Sort::Bool) => true,
            (Value::BitVector(_, w1), Sort::BitVector(w2)) => w1 == w2,
            (Value::Field(f), Sort::Field(m)) => {
                if f.modulus.len() == m.len() {
                    le_eq(&f.modulus, m)
                } else {
                    false
                }
            },
            (Value::Tuple(vs), Sort::Tuple(ss)) => {
                let ghost s1 = value_views(vs@);
                let ghost s2 = sort_views(ss@);
                proof {
                    lemma_value_views(vs@);
                    lemma_sort_views(ss@);
                }
                if vs.len() != ss.len() {
                    proof {
                        assert(!spec_have_sorts(s1, s2));
                    }
                    return false;
                }
                let n = vs.len();
                let mut i: usize = 0;
                let mut all_ok: bool = true;
                while i < n
                    invariant
                        n == vs@.len() == ss@.len(),
                        i <= n,
                        self@ == ValueV::Tuple(s1) && s@ == SortV::Tuple(s2),
                        s1.len() == n && s2.len() == n,
                        forall|j: int| 0 <= j < n ==> s1[j] == value_view(#[trigger] vs@[j]),
                        forall|j: int| 0 <= j < n ==> s2[j] == sort_view(#[trigger] ss@[j]),
                        forall|j: int| 0 <= j < i ==> spec_has_sort(s1[j], s2[j]),
                        value_height(*self) == 1 + values_height(vs@),
                        all_ok,
                    decreases n - i,
                {
                    proof {
                        lemma_values_height_elem(vs@, i as int);
                    }
                    let ok = vs[i].has_sort(&ss[i]);
                    if !ok {
                        proof {
                            assert(!spec_has_sort(s1[i as int], s2[i as int]));
                            if spec_have_sorts(s1, s2) {
                                lemma_have_sorts_index(s1, s2);
                            }
                        }
                        return false;
                    }
                    i = i + 1;
                }
                proof {
                    lemma_have_sorts_intro(s1, s2);
                }
                true
            },
            _ => false,
        }
    }

    /// A full copy.
    pub fn dup(&self) -> (r: Value)
        ensures
            r@ == self@,
        decreases value_height(*self),
    {
        match self {
            Value::Bool(b) => Value::Bool(*b),
            Value::Field(f) => Value::Field(f.dup()),
            Value::BitVector(bits, w) => Value::BitVector(*bits, *w),
            Value::Tuple(vs) => {
                let ghost s1 = value_views(vs@);
                proof {
                    lemma_value_views(vs@);
                }
                let n = vs.len();
                let mut out: Vec<Value> = Vec::new();
                let mut i: usize = 0;
                while i < n
                    invariant
                        n == vs@.len(),
                        i <= n,
                        out@.len() == i,
                        self@ == ValueV::Tuple(s1),
                        s1.len() == n,
                        forall|j: int| 0 <= j < n ==> s1[j] == value_view(#[trigger] vs@[j]),
                        forall|j: int| 0 <= j < i ==> value_view(#[trigger] out@[j]) == s1[j],
                        value_height(*self) == 1 + values_height(vs@),
                    decreases n - i,
                {
                    proof {
                        lemma_values_height_elem(vs@, i as int);
                    }
                    let c = vs[i].dup();
                    out.push(c);
                    i = i + 1;
                }
                let ghost outs = out@;
                proof {
                    lemma_value_views(outs);
                    assert forall|j: int| 0 <= j < n implies value_views(outs)[j] == s1[j] by {
                        assert(value_views(outs)[j] == value_view(outs[j]));
                        assert(value_view(out@[j]) == s1[j]);
                    }
                    assert(value_views(outs) =~= s1);
                }
                Value::Tuple(out)
            },
        }
    }
}


/// `2^w` as a machine word, for widths below 64.
pub fn pow2_u64(w: usize) -> (r: u64)
    requires
        w < 64,
    ensures
        r as nat == vstd::arithmetic::power2::pow2(w as nat),
{
    proof {
        assert(vstd::arithmetic::power2::pow2(0) == 1) by {
            vstd::arithmetic::power2::lemma2_to64();
        }
    }
    let mut r: u64 = 1;
    let mut i: usize = 0;
    while i < w
        invariant
            i <= w < 64,
            r as nat == vstd::arithmetic::power2::pow2(i as nat),
        decreases w - i,
    {
        proof {
            vstd::arithmetic::power2::lemma_pow2_adds(i as nat, 1);
            vstd::arithmetic::power2::lemma2_to64();
            vstd::arithmetic::power2::lemma_pow2_strictly_increases(i as nat + 1, 64);
        }
        r = r * 2;
        i = i + 1;
    }
    r
}

} // verus!
