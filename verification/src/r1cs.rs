//! The rank-1 constraint system and its translation to the NIZK
//! scheme's shape.
//!
//! The symbolic system keys its linear combinations by variables; the
//! scheme wants dense, index-keyed sparse matrices. The bridge
//! renumbers variables canonically — witnesses first in order of
//! appearance, one reserved slot for the constant-one column, then the
//! public inputs in order — and emits one matrix triple per monomial,
//! walking the constraints in order. Every ordering here is observable
//! in the matrices and is pinned exactly.

use vstd::prelude::*;
use crate::bytes::{le_val, le_eq};
use crate::field::FieldElem;

verus! {

broadcast use vstd::seq::group_seq_axioms;

/// The role of a constraint variable.
#[derive(Clone, Copy, Debug, PartialEq, Eq, Structural)]
pub enum VarType {
    /// A public input.
    Inst,
    /// A private witness fixed at the end of witness computation.
    FinalWit,
    /// A verifier challenge.
    Chall,
    /// A witness fixed in an intermediate round.
    RoundWit,
}

/// One constraint variable.
#[derive(Clone, Copy, Debug, PartialEq, Eq, Structural)]
pub struct Var {
    pub ty: VarType,
    pub number: u64,
}

/// Whether a variable lands in the witness part of the assignment.
pub open spec fn is_wit(v: Var) -> bool {
    v.ty is FinalWit || v.ty is RoundWit
}

/// A linear combination: a constant plus coefficient-weighted variables,
/// in a fixed order.
#[derive(Debug)]
pub struct Lc {
    pub constant: FieldElem,
    pub monomials: Vec<(Var, FieldElem)>,
}

/// The symbolic constraint system.
#[derive(Debug)]
pub struct R1cs {
    /// The field modulus, 32 little-endian bytes.
    pub modulus: Vec<u8>,
    /// The variables, in their canonical order of appearance.
    pub vars: Vec<Var>,
    /// The constraints `a * b = c`, in order.
    pub constraints: Vec<(Lc, Lc, Lc)>,
}

/// How many witness-kind variables the first `n` hold.
pub open spec fn wit_count(vars: Seq<Var>, n: int) -> int
    decreases n,
{
    if n <= 0 {
        0
    } else {
        wit_count(vars, n - 1) + if is_wit(vars[n - 1]) { 1int } else { 0int }
    }
}

/// How many input-kind variables the first `n` hold.
pub open spec fn inst_count(vars: Seq<Var>, n: int) -> int
    decreases n,
{
    if n <= 0 {
        0
    } else {
        inst_count(vars, n - 1) + if is_wit(vars[n - 1]) { 0int } else { 1int }
    }
}

/// The scheme-side index of variable `i`: witnesses take `0..W` in
/// order of appearance, index `W` is reserved for the constant one,
/// and inputs take `W+1..` in order of appearance.
pub open spec fn new_id(vars: Seq<Var>, i: int) -> int {
    if is_wit(vars[i]) {
        wit_count(vars, i)
    } else {
        wit_count(vars, vars.len() as int) + 1 + inst_count(vars, i)
    }
}

pub proof fn lemma_counts_sum(vars: Seq<Var>, n: int)
    requires
        0 <= n <= vars.len(),
    ensures
        wit_count(vars, n) + inst_count(vars, n) == n,
        wit_count(vars, n) >= 0,
        inst_count(vars, n) >= 0,
    decreases n,
{
    if n > 0 {
        lemma_counts_sum(vars, n - 1);
    }
}

pub proof fn lemma_counts_mono(vars: Seq<Var>, a: int, b: int)
    requires
        0 <= a <= b <= vars.len(),
    ensures
        wit_count(vars, a) <= wit_count(vars, b),
        inst_count(vars, a) <= inst_count(vars, b),
        is_wit(vars[a]) && a < b ==> wit_count(vars, a) < wit_count(vars, b),
        a < b && !is_wit(vars[a]) ==> inst_count(vars, a) < inst_count(vars, b),
    decreases b - a,
{
    if a < b {
        lemma_counts_mono(vars, a + 1, b);
    }
}

/// Every index below the witness count is taken by some witness.
pub proof fn lemma_wit_count_surjective(vars: Seq<Var>, n: int, v: int)
    requires
        0 <= n <= vars.len(),
        0 <= v < wit_count(vars, n),
    ensures
        exists|i: int| 0 <= i < n && is_wit(#[trigger] vars[i]) && wit_count(vars, i) == v,
    decreases n,
{
    if n > 0 {
        if is_wit(vars[n - 1]) && wit_count(vars, n - 1) == v {
            assert(is_wit(vars[n - 1]) && wit_count(vars, n - 1) == v);
        } else {
            lemma_wit_count_surjective(vars, n - 1, v);
        }
    }
}

/// Every index below the input count is taken by some input.
pub proof fn lemma_inst_count_surjective(vars: Seq<Var>, n: int, v: int)
    requires
        0 <= n <= vars.len(),
        0 <= v < inst_count(vars, n),
    ensures
        exists|i: int| 0 <= i < n && !is_wit(#[trigger] vars[i]) && inst_count(vars, i) == v,
    decreases n,
{
    if n > 0 {
        if !is_wit(vars[n - 1]) && inst_count(vars, n - 1) == v {
            assert(!is_wit(vars[n - 1]) && inst_count(vars, n - 1) == v);
        } else {
            lemma_inst_count_surjective(vars, n - 1, v);
        }
    }
}

/// Renumbering totality: with `W` witnesses and `I` inputs, the map
/// from variable positions to scheme indices is injective, avoids the
/// reserved constant slot `W`, stays within `0..=W+I`, and together
/// with the constant slot covers that whole range — a bijection between
/// the variables plus the constant column and `{0, ..., W+I}`.
pub proof fn lemma_renumbering_bijection(vars: Seq<Var>)
    ensures
        forall|i: int, j: int| 0 <= i < j < vars.len()
            ==> new_id(vars, i) != new_id(vars, j),
        forall|i: int| 0 <= i < vars.len()
            ==> 0 <= #[trigger] new_id(vars, i)
                <= wit_count(vars, vars.len() as int) + inst_count(vars, vars.len() as int)
                && new_id(vars, i) != wit_count(vars, vars.len() as int),
        forall|v: int| {
            let w = wit_count(vars, vars.len() as int);
            let t = w + inst_count(vars, vars.len() as int);
            0 <= v <= t && v != w
        } ==> #[trigger] id_covered(vars, v),
{
    let n = vars.len() as int;
    let w = wit_count(vars, n);
    let t = w + inst_count(vars, n);
    assert forall|i: int, j: int| 0 <= i < j < vars.len()
        implies new_id(vars, i) != new_id(vars, j) by {
        lemma_counts_sum(vars, i);
        lemma_counts_sum(vars, j);
        lemma_counts_mono(vars, i, j);
        lemma_counts_mono(vars, j, n);
    }
    assert forall|i: int| 0 <= i < vars.len()
        implies 0 <= #[trigger] new_id(vars, i) <= t && new_id(vars, i) != w by {
        lemma_counts_sum(vars, i);
        lemma_counts_mono(vars, i, n);
        if is_wit(vars[i]) {
            assert(wit_count(vars, i) < wit_count(vars, i + 1) <= w);
        } else {
            assert(inst_count(vars, i) < inst_count(vars, i + 1) <= inst_count(vars, n));
        }
    }
    assert forall|v: int| {
        0 <= v <= t && v != w
    } implies #[trigger] id_covered(vars, v) by {
        lemma_counts_sum(vars, n);
        if v < w {
            lemma_wit_count_surjective(vars, n, v);
            let i = choose|i: int| 0 <= i < n && is_wit(#[trigger] vars[i]) && wit_count(vars, i) == v;
            assert(new_id(vars, i) == v);
        } else {
            lemma_inst_count_surjective(vars, n, v - w - 1);
            let i = choose|i: int| 0 <= i < n && !is_wit(#[trigger] vars[i])
                && inst_count(vars, i) == v - w - 1;
            assert(new_id(vars, i) == v);
        }
    }
}

/// Some variable is renumbered to the given scheme index.
pub open spec fn id_covered(vars: Seq<Var>, v: int) -> bool {
    exists|i: int| 0 <= i < vars.len() && new_id(vars, i) == v
}

/// In a list of distinct variables, positions with one variable agree.
pub proof fn lemma_vars_unique_eq(vars: Seq<Var>, a: int, b: int)
    requires
        forall|i: int, j: int| 0 <= i < j < vars.len() ==> vars[i] != vars[j],
        0 <= a < vars.len(),
        0 <= b < vars.len(),
        vars[a] == vars[b],
    ensures
        a == b,
{
    if a < b {
        assert(vars[a] != vars[b]);
    } else if b < a {
        assert(vars[b] != vars[a]);
    }
}

/// Whether a variable occurs in a list.
pub open spec fn var_in(vars: Seq<Var>, v: Var) -> bool {
    exists|i: int| 0 <= i < vars.len() && vars[i] == v
}

/// The position of a variable in a list of distinct variables.
pub open spec fn var_index(vars: Seq<Var>, v: Var) -> int {
    choose|i: int| 0 <= i < vars.len() && vars[i] == v
}

/// A linear combination is well-formed over a modulus and a variable
/// list: its constant and coefficients are reduced elements of that
/// field, and every variable it mentions is declared.
pub open spec fn lc_wf(lc: Lc, md: Seq<u8>, vars: Seq<Var>) -> bool {
    &&& lc.constant.wf()
    &&& lc.constant.modulus@ == md
    &&& forall|j: int| 0 <= j < lc.monomials@.len()
        ==> (#[trigger] lc.monomials@[j]).1.wf()
            && lc.monomials@[j].1.modulus@ == md
            && var_in(vars, lc.monomials@[j].0)
}

impl R1cs {
    /// Well-formedness: a sensible modulus, distinct variables, and
    /// well-formed constraints.
    pub open spec fn wf(self) -> bool {
        &&& self.modulus@.len() == 32
        &&& le_val(self.modulus@) >= 2
        &&& forall|i: int, j: int| 0 <= i < j < self.vars@.len()
            ==> self.vars@[i] != self.vars@[j]
        &&& forall|i: int| 0 <= i < self.constraints@.len()
            ==> lc_wf((#[trigger] self.constraints@[i]).0, self.modulus@, self.vars@)
                && lc_wf(self.constraints@[i].1, self.modulus@, self.vars@)
                && lc_wf(self.constraints@[i].2, self.modulus@, self.vars@)
    }

    /// The number of witness-kind variables.
    pub open spec fn num_wit(self) -> int {
        wit_count(self.vars@, self.vars@.len() as int)
    }

    /// The number of input-kind variables.
    pub open spec fn num_inst(self) -> int {
        inst_count(self.vars@, self.vars@.len() as int)
    }

    /// The scheme-side index of every variable, in order; also the
    /// witness and input counts.
    pub fn renumber(&self) -> (r: (Vec<usize>, usize, usize))
        requires
            self.wf(),
        ensures
            r.0@.len() == self.vars@.len(),
            forall|i: int| 0 <= i < self.vars@.len()
                ==> (#[trigger] r.0@[i]) as int == new_id(self.vars@, i),
            r.1 as int == self.num_wit(),
            r.2 as int == self.num_inst(),
            r.1 + r.2 == self.vars@.len(),
    {
        let n = self.vars.len();
        let mut w: usize = 0;
        let mut i: usize = 0;
        while i < n
            invariant
                i <= n,
                n == self.vars@.len(),
                w as int == wit_count(self.vars@, i as int),
                w <= i,
            decreases n - i,
        {
            proof {
                lemma_counts_sum(self.vars@, i as int);
                lemma_counts_sum(self.vars@, i as int + 1);
            }
            let is_w = match self.vars[i].ty {
                VarType::FinalWit => true,
                VarType::RoundWit => true,
                _ => false,
            };
            if is_w {
                w = w + 1;
            }
            i = i + 1;
        }
        let mut ids: Vec<usize> = Vec::new();
        let mut wc: usize = 0;
        let mut ic: usize = 0;
        let mut j: usize = 0;
        while j < n
            invariant
                j <= n,
                n == self.vars@.len(),
                w as int == wit_count(self.vars@, n as int),
                wc as int == wit_count(self.vars@, j as int),
                ic as int == inst_count(self.vars@, j as int),
                wc + ic == j,
                ids@.len() == j,
                forall|q: int| 0 <= q < j
                    ==> (#[trigger] ids@[q]) as int == new_id(self.vars@, q),
            decreases n - j,
        {
            proof {
                lemma_counts_sum(self.vars@, j as int);
                lemma_counts_sum(self.vars@, j as int + 1);
                lemma_counts_mono(self.vars@, j as int, n as int);
                lemma_counts_sum(self.vars@, n as int);
            }
            let is_w = match self.vars[j].ty {
                VarType::FinalWit => true,
                VarType::RoundWit => true,
                _ => false,
            };
            if is_w {
                ids.push(wc);
                wc = wc + 1;
            } else {
                ids.push(w + 1 + ic);
                ic = ic + 1;
            }
            j = j + 1;
        }
        proof {
            lemma_counts_sum(self.vars@, n as int);
        }
        (ids, w, n - w)
    }

    /// The position of a declared variable.
    fn find_var(&self, v: &Var) -> (r: usize)
        requires
            self.wf(),
            var_in(self.vars@, *v),
        ensures
            r < self.vars@.len(),
            self.vars@[r as int] == *v,
            r as int == var_index(self.vars@, *v),
    {
        let n = self.vars.len();
        let mut i: usize = 0;
        while i < n
            invariant
                i <= n,
                n == self.vars@.len(),
                self.wf(),
                var_in(self.vars@, *v),
                forall|j: int| 0 <= j < i ==> self.vars@[j] != *v,
            decreases n - i,
        {
            let same = match (self.vars[i].ty, v.ty) {
                (VarType::Inst, VarType::Inst) => true,
                (VarType::FinalWit, VarType::FinalWit) => true,
                (VarType::Chall, VarType::Chall) => true,
                (VarType::RoundWit, VarType::RoundWit) => true,
                _ => false,
            };
            if same && self.vars[i].number == v.number {
                proof {
                    let idx = var_index(self.vars@, *v);
                    assert(self.vars@[i as int] == *v);
                    assert(0 <= idx < self.vars@.len() && self.vars@[idx] == *v);
                    lemma_vars_unique_eq(self.vars@, i as int, idx);
                }
                return i;
            }
            i = i + 1;
        }
        proof {
            let w = choose|q: int| 0 <= q < self.vars@.len() && self.vars@[q] == *v;
            assert(self.vars@[w] == *v);
            assert(false);
        }
        0
    }
}


/// The scheme-side column of a declared variable.
pub open spec fn col_of(vars: Seq<Var>, v: Var) -> int {
    new_id(vars, var_index(vars, v))
}

/// The matrix triples one linear combination contributes to its row:
/// one per monomial, in order, then one for the constant if it is not
/// zero, in the reserved constant column.
pub open spec fn lc_entries(lc: Lc, row: int, vars: Seq<Var>) -> Seq<(int, int, Seq<u8>)> {
    let mono = Seq::new(
        lc.monomials@.len(),
        |j: int| (row, col_of(vars, lc.monomials@[j].0), lc.monomials@[j].1.value@),
    );
    if lc.constant.val() != 0 {
        mono.push((row, wit_count(vars, vars.len() as int), lc.constant.value@))
    } else {
        mono
    }
}

/// Picks one side of a constraint.
pub open spec fn lc_side(c: (Lc, Lc, Lc), which: int) -> Lc {
    if which == 0 {
        c.0
    } else if which == 1 {
        c.1
    } else {
        c.2
    }
}

/// One sparse matrix: the entries of the chosen side of the first `n`
/// constraints, row by row.
pub open spec fn matrix(constraints: Seq<(Lc, Lc, Lc)>, which: int, n: int, vars: Seq<Var>)
    -> Seq<(int, int, Seq<u8>)>
    decreases n,
{
    if n <= 0 {
        Seq::empty()
    } else {
        matrix(constraints, which, n - 1, vars)
            + lc_entries(lc_side(constraints[n - 1], which), n - 1, vars)
    }
}

/// The sum of a linear combination's monomials under an assignment of
/// values to the declared variables, unreduced.
pub open spec fn mono_sum(monomials: Seq<(Var, FieldElem)>, vars: Seq<Var>, vals: Seq<nat>) -> nat
    decreases monomials,
{
    if monomials.len() == 0 {
        0
    } else {
        mono_sum(monomials.drop_last(), vars, vals)
            + monomials.last().1.val() * vals[var_index(vars, monomials.last().0)]
    }
}

/// The value of a linear combination under an assignment, reduced.
pub open spec fn lc_value(lc: Lc, vars: Seq<Var>, vals: Seq<nat>, m: nat) -> nat {
    (lc.constant.val() + mono_sum(lc.monomials@, vars, vals)) % m
}

/// One constraint holds under an assignment.
pub open spec fn row_sat(c: (Lc, Lc, Lc), vars: Seq<Var>, vals: Seq<nat>, m: nat) -> bool {
    (lc_value(c.0, vars, vals, m) * lc_value(c.1, vars, vals, m)) % m
        == lc_value(c.2, vars, vals, m)
}

/// The whole system holds under an assignment.
pub open spec fn satisfied(r: R1cs, vals: Seq<nat>) -> bool {
    forall|i: int| 0 <= i < r.constraints@.len()
        ==> row_sat(#[trigger] r.constraints@[i], r.vars@, vals, le_val(r.modulus@))
}

/// The values of a list of field elements.
pub open spec fn field_vals(values: Seq<FieldElem>) -> Seq<nat> {
    Seq::new(values.len(), |i: int| values[i].val())
}

/// An assignment list matches the constraint system: one reduced
/// element of its field per variable.
pub open spec fn values_match(r: R1cs, values: Seq<FieldElem>) -> bool {
    &&& values.len() == r.vars@.len()
    &&& forall|i: int| 0 <= i < values.len()
        ==> (#[trigger] values[i]).wf() && values[i].modulus@ == r.modulus@
}

impl R1cs {
    /// Appends one linear combination's matrix entries for a row.
    #[verifier::loop_isolation(false)]
    fn append_lc_entries(
        &self,
        out: &mut Vec<(usize, usize, Vec<u8>)>,
        lc: &Lc,
        row: usize,
        const_id: usize,
        ids: &Vec<usize>,
    )
        requires
            self.wf(),
            lc_wf(*lc, self.modulus@, self.vars@),
            const_id as int == self.num_wit(),
            ids@.len() == self.vars@.len(),
            forall|i: int| 0 <= i < self.vars@.len()
                ==> (#[trigger] ids@[i]) as int == new_id(self.vars@, i),
        ensures
            final(out)@.len() == old(out)@.len() + lc_entries(*lc, row as int, self.vars@).len(),
            forall|k: int| 0 <= k < old(out)@.len()
                ==> final(out)@[k] == old(out)@[k],
            forall|k: int| 0 <= k < lc_entries(*lc, row as int, self.vars@).len()
                ==> {
                    let e = lc_entries(*lc, row as int, self.vars@)[k];
                    let x = #[trigger] final(out)@[old(out)@.len() + k];
                    x.0 as int == e.0 && x.1 as int == e.1 && x.2@ == e.2
                },
    {
        let ghost spec_entries = lc_entries(*lc, row as int, self.vars@);
        let ghost base = out@.len() as int;
        let n = lc.monomials.len();
        let mut j: usize = 0;
        while j < n
            invariant
                j <= n,
                n == lc.monomials@.len(),
                out@.len() == base + j,
                forall|k: int| 0 <= k < base ==> out@[k] == old(out)@[k],
                forall|k: int| 0 <= k < j
                    ==> {
                        let e = spec_entries[k];
                        let x = #[trigger] out@[base + k];
                        x.0 as int == e.0 && x.1 as int == e.1 && x.2@ == e.2
                    },
            decreases n - j,
        {
            let idx = self.find_var(&lc.monomials[j].0);
            let col = ids[idx];
            let bytes = crate::field::copy_bytes(&lc.monomials[j].1.value);
            out.push((row, col, bytes));
            j = j + 1;
        }
        let zero = crate::field::zero_bytes32();
        let is_zero = le_eq(&lc.constant.value, &zero);
        proof {
            if is_zero {
                crate::bytes::lemma_le_val_injective(lc.constant.value@, zero@);
            } else {
                if lc.constant.val() == 0 {
                    crate::bytes::lemma_le_val_injective(lc.constant.value@, zero@);
                }
            }
        }
        if !is_zero {
            let bytes = crate::field::copy_bytes(&lc.constant.value);
            out.push((row, const_id, bytes));
        }
    }

    /// The three sparse matrices of the whole system, entries emitted
    /// constraint by constraint, in order.
    #[verifier::loop_isolation(false)]
    pub fn to_matrices(&self, ids: &Vec<usize>, const_id: usize)
        -> (r: (Vec<(usize, usize, Vec<u8>)>, Vec<(usize, usize, Vec<u8>)>, Vec<(usize, usize, Vec<u8>)>))
        requires
            self.wf(),
            self.constraints@.len() <= usize::MAX,
            const_id as int == self.num_wit(),
            ids@.len() == self.vars@.len(),
            forall|i: int| 0 <= i < self.vars@.len()
                ==> (#[trigger] ids@[i]) as int == new_id(self.vars@, i),
        ensures
            matrix_matches(r.0@, matrix(self.constraints@, 0, self.constraints@.len() as int, self.vars@)),
            matrix_matches(r.1@, matrix(self.constraints@, 1, self.constraints@.len() as int, self.vars@)),
            matrix_matches(r.2@, matrix(self.constraints@, 2, self.constraints@.len() as int, self.vars@)),
    {
        let n = self.constraints.len();
        let mut ma: Vec<(usize, usize, Vec<u8>)> = Vec::new();
        let mut mb: Vec<(usize, usize, Vec<u8>)> = Vec::new();
        let mut mc: Vec<(usize, usize, Vec<u8>)> = Vec::new();
        let mut i: usize = 0;
        while i < n
            invariant
                i <= n,
                n == self.constraints@.len(),
                matrix_matches(ma@, matrix(self.constraints@, 0, i as int, self.vars@)),
                matrix_matches(mb@, matrix(self.constraints@, 1, i as int, self.vars@)),
                matrix_matches(mc@, matrix(self.constraints@, 2, i as int, self.vars@)),
            decreases n - i,
        {
            let ghost c = self.constraints@[i as int];
            let ghost pa = ma@;
            let ghost pb = mb@;
            let ghost pc = mc@;
            self.append_lc_entries(&mut ma, &self.constraints[i].0, i, const_id, ids);
            self.append_lc_entries(&mut mb, &self.constraints[i].1, i, const_id, ids);
            self.append_lc_entries(&mut mc, &self.constraints[i].2, i, const_id, ids);
            proof {
                let ea = lc_entries(c.0, i as int, self.vars@);
                let eb = lc_entries(c.1, i as int, self.vars@);
                let ec = lc_entries(c.2, i as int, self.vars@);
                let sa = matrix(self.constraints@, 0, i as int, self.vars@);
                let sb = matrix(self.constraints@, 1, i as int, self.vars@);
                let sc = matrix(self.constraints@, 2, i as int, self.vars@);
                assert(matrix(self.constraints@, 0, i as int + 1, self.vars@) == sa + ea);
                assert(matrix(self.constraints@, 1, i as int + 1, self.vars@) == sb + eb);
                assert(matrix(self.constraints@, 2, i as int + 1, self.vars@) == sc + ec);
                assert forall|k: int| 0 <= k < ma@.len()
                    implies {
                        let e = (sa + ea)[k];
                        (#[trigger] ma@[k]).0 as int == e.0 && ma@[k].1 as int == e.1
                            && ma@[k].2@ == e.2
                    } by {
                    assert(pa.len() == sa.len());
                    if k < sa.len() {
                        assert(ma@[k] == pa[k]);
                        assert((sa + ea)[k] == sa[k]);
                    } else {
                        let k2 = k - sa.len();
                        assert((sa + ea)[k] == ea[k2]);
                        assert(ma@[pa.len() + k2].0 as int == ea[k2].0
                            && ma@[pa.len() + k2].1 as int == ea[k2].1
                            && ma@[pa.len() + k2].2@ == ea[k2].2);
                        assert(pa.len() + k2 == k);
                    }
                }
                assert forall|k: int| 0 <= k < mb@.len()
                    implies {
                        let e = (sb + eb)[k];
                        (#[trigger] mb@[k]).0 as int == e.0 && mb@[k].1 as int == e.1
                            && mb@[k].2@ == e.2
                    } by {
                    assert(pb.len() == sb.len());
                    if k < sb.len() {
                        assert(mb@[k] == pb[k]);
                        assert((sb + eb)[k] == sb[k]);
                    } else {
                        let k2 = k - sb.len();
                        assert((sb + eb)[k] == eb[k2]);
                        assert(mb@[pb.len() + k2].0 as int == eb[k2].0
                            && mb@[pb.len() + k2].1 as int == eb[k2].1
                            && mb@[pb.len() + k2].2@ == eb[k2].2);
                        assert(pb.len() + k2 == k);
                    }
                }
                assert forall|k: int| 0 <= k < mc@.len()
                    implies {
                        let e = (sc + ec)[k];
                        (#[trigger] mc@[k]).0 as int == e.0 && mc@[k].1 as int == e.1
                            && mc@[k].2@ == e.2
                    } by {
                    assert(pc.len() == sc.len());
                    if k < sc.len() {
                        assert(mc@[k] == pc[k]);
                        assert((sc + ec)[k] == sc[k]);
                    } else {
                        let k2 = k - sc.len();
                        assert((sc + ec)[k] == ec[k2]);
                        assert(mc@[pc.len() + k2].0 as int == ec[k2].0
                            && mc@[pc.len() + k2].1 as int == ec[k2].1
                            && mc@[pc.len() + k2].2@ == ec[k2].2);
                        assert(pc.len() + k2 == k);
                    }
                }
            }
            i = i + 1;
        }
        (ma, mb, mc)
    }

    /// The witness and input encodings, walked off the variable list in
    /// its canonical order.
    #[verifier::loop_isolation(false)]
    pub fn build_assignments(&self, values: &Vec<FieldElem>) -> (r: (Vec<Vec<u8>>, Vec<Vec<u8>>))
        requires
            self.wf(),
            values_match(*self, values@),
        ensures
            r.0@.len() as int == self.num_wit(),
            r.1@.len() as int == self.num_inst(),
            forall|i: int| 0 <= i < self.vars@.len() && is_wit(#[trigger] self.vars@[i])
                ==> r.0@[wit_count(self.vars@, i)]@ == values@[i].value@,
            forall|i: int| 0 <= i < self.vars@.len() && !is_wit(#[trigger] self.vars@[i])
                ==> r.1@[inst_count(self.vars@, i)]@ == values@[i].value@,
            forall|k: int| 0 <= k < r.0@.len() ==> (#[trigger] r.0@[k])@.len() == 32,
            forall|k: int| 0 <= k < r.1@.len() ==> (#[trigger] r.1@[k])@.len() == 32,
    {
        let n = self.vars.len();
        let mut wit: Vec<Vec<u8>> = Vec::new();
        let mut inp: Vec<Vec<u8>> = Vec::new();
        let mut i: usize = 0;
        while i < n
            invariant
                i <= n,
                n == self.vars@.len(),
                wit@.len() as int == wit_count(self.vars@, i as int),
                inp@.len() as int == inst_count(self.vars@, i as int),
                forall|q: int| 0 <= q < i && is_wit(#[trigger] self.vars@[q])
                    ==> wit@[wit_count(self.vars@, q)]@ == values@[q].value@,
                forall|q: int| 0 <= q < i && !is_wit(#[trigger] self.vars@[q])
                    ==> inp@[inst_count(self.vars@, q)]@ == values@[q].value@,
                forall|k: int| 0 <= k < wit@.len() ==> (#[trigger] wit@[k])@.len() == 32,
                forall|k: int| 0 <= k < inp@.len() ==> (#[trigger] inp@[k])@.len() == 32,
            decreases n - i,
        {
            proof {
                lemma_counts_sum(self.vars@, i as int);
                lemma_counts_sum(self.vars@, i as int + 1);
                lemma_counts_mono(self.vars@, i as int, n as int);
            }
            let bytes = crate::field::copy_bytes(&values[i].value);
            let is_w = match self.vars[i].ty {
                VarType::FinalWit => true,
                VarType::RoundWit => true,
                _ => false,
            };
            let ghost pw = wit@;
            let ghost pi = inp@;
            if is_w {
                wit.push(bytes);
            } else {
                inp.push(bytes);
            }
            proof {
                assert forall|q: int| 0 <= q < i + 1 && is_wit(#[trigger] self.vars@[q])
                    implies wit@[wit_count(self.vars@, q)]@ == values@[q].value@ by {
                    lemma_counts_mono(self.vars@, q, i as int);
                    lemma_counts_sum(self.vars@, q);
                    if q < i {
                        assert(wit@[wit_count(self.vars@, q)] == pw[wit_count(self.vars@, q)]);
                    } else {
                        assert(wit@[wit_count(self.vars@, q)] == wit@.last());
                    }
                }
                assert forall|q: int| 0 <= q < i + 1 && !is_wit(#[trigger] self.vars@[q])
                    implies inp@[inst_count(self.vars@, q)]@ == values@[q].value@ by {
                    lemma_counts_mono(self.vars@, q, i as int);
                    lemma_counts_sum(self.vars@, q);
                    if q < i {
                        assert(inp@[inst_count(self.vars@, q)] == pi[inst_count(self.vars@, q)]);
                    } else {
                        assert(inp@[inst_count(self.vars@, q)] == inp@.last());
                    }
                }
            }
            i = i + 1;
        }
        proof {
            lemma_counts_sum(self.vars@, n as int);
        }
        (wit, inp)
    }

    /// The value of one linear combination under the assignment.
    #[verifier::loop_isolation(false)]
    fn lc_eval(&self, lc: &Lc, values: &Vec<FieldElem>) -> (r: FieldElem)
        requires
            self.wf(),
            lc_wf(*lc, self.modulus@, self.vars@),
            values_match(*self, values@),
        ensures
            r.wf(),
            r.modulus@ == self.modulus@,
            r.val() == lc_value(*lc, self.vars@, field_vals(values@), le_val(self.modulus@)),
    {
        let ghost vals = field_vals(values@);
        let ghost m = le_val(self.modulus@);
        let mut acc = lc.constant.dup();
        proof {
            assert(lc.monomials@.take(0) =~= Seq::<(Var, FieldElem)>::empty());
            vstd::arithmetic::div_mod::lemma_small_mod(lc.constant.val(), m);
        }
        let n = lc.monomials.len();
        let mut j: usize = 0;
        while j < n
            invariant
                j <= n,
                n == lc.monomials@.len(),
                acc.wf(),
                acc.modulus@ == self.modulus@,
                acc.val() == (lc.constant.val()
                    + mono_sum(lc.monomials@.take(j as int), self.vars@, vals)) % m,
            decreases n - j,
        {
            let idx = self.find_var(&lc.monomials[j].0);
            let term = lc.monomials[j].1.pf_mul(&values[idx]);
            let next = acc.pf_add(&term);
            proof {
                let pre = lc.monomials@.take(j as int);
                let cur = lc.monomials@.take(j as int + 1);
                assert(cur.drop_last() =~= pre);
                assert(cur.last() == lc.monomials@[j as int]);
                let s_prev = lc.constant.val() + mono_sum(pre, self.vars@, vals);
                let prod = lc.monomials@[j as int].1.val() * vals[var_index(self.vars@, lc.monomials@[j as int].0)];
                assert(vals[idx as int] == values@[idx as int].val());
                assert(term.val() == prod % m);
                assert(mono_sum(cur, self.vars@, vals) == mono_sum(pre, self.vars@, vals) + prod);
                assert(next.val() == (acc.val() + term.val()) % m);
                vstd::arithmetic::div_mod::lemma_add_mod_noop(
                    s_prev as int, prod as int, m as int);
                assert((s_prev % m + prod % m) % m == (s_prev + prod) % m);
            }
            acc = next;
            j = j + 1;
        }
        proof {
            assert(lc.monomials@.take(n as int) =~= lc.monomials@);
        }
        acc
    }

    /// Whether the assignment satisfies every constraint.
    #[verifier::loop_isolation(false)]
    pub fn check_sat(&self, values: &Vec<FieldElem>) -> (r: bool)
        requires
            self.wf(),
            values_match(*self, values@),
        ensures
            r == satisfied(*self, field_vals(values@)),
    {
        let ghost vals = field_vals(values@);
        let ghost m = le_val(self.modulus@);
        let n = self.constraints.len();
        let mut i: usize = 0;
        while i < n
            invariant
                i <= n,
                n == self.constraints@.len(),
                forall|q: int| 0 <= q < i
                    ==> row_sat(#[trigger] self.constraints@[q], self.vars@, vals, m),
            decreases n - i,
        {
            let a = self.lc_eval(&self.constraints[i].0, values);
            let b = self.lc_eval(&self.constraints[i].1, values);
            let c = self.lc_eval(&self.constraints[i].2, values);
            let prod = a.pf_mul(&b);
            let same = le_eq(&prod.value, &c.value);
            proof {
                if same {
                    assert(prod.val() == c.val());
                } else {
                    if prod.val() == c.val() {
                        crate::bytes::lemma_le_val_injective(prod.value@, c.value@);
                    }
                }
            }
            if !same {
                return false;
            }
            i = i + 1;
        }
        true
    }
}

/// An entry list matches a mathematical matrix pointwise.
pub open spec fn matrix_matches(r: Seq<(usize, usize, Vec<u8>)>, m: Seq<(int, int, Seq<u8>)>) -> bool {
    &&& r.len() == m.len()
    &&& forall|k: int| 0 <= k < r.len()
        ==> (#[trigger] r[k]).0 as int == m[k].0 && r[k].1 as int == m[k].1 && r[k].2@ == m[k].2
}


/// Every entry of one linear combination is in bounds: the row is the
/// given one, the column is below `W + 1 + I`, and the value is a
/// canonical element below the modulus.
pub proof fn lemma_lc_entries_bounds(r: R1cs, lc: Lc, row: int)
    requires
        r.wf(),
        lc_wf(lc, r.modulus@, r.vars@),
    ensures
        forall|k: int| 0 <= k < lc_entries(lc, row, r.vars@).len()
            ==> {
                let e = #[trigger] lc_entries(lc, row, r.vars@)[k];
                e.0 == row && 0 <= e.1 < r.num_wit() + 1 + r.num_inst()
                    && e.2.len() == 32 && le_val(e.2) < le_val(r.modulus@)
            },
{
    let n = r.vars@.len() as int;
    lemma_counts_sum(r.vars@, n);
    assert forall|k: int| 0 <= k < lc_entries(lc, row, r.vars@).len()
        implies {
            let e = #[trigger] lc_entries(lc, row, r.vars@)[k];
            e.0 == row && 0 <= e.1 < r.num_wit() + 1 + r.num_inst()
                && e.2.len() == 32 && le_val(e.2) < le_val(r.modulus@)
        } by {
        let mono_len = lc.monomials@.len() as int;
        if k < mono_len {
            let v = lc.monomials@[k].0;
            assert(var_in(r.vars@, v));
            let idx = var_index(r.vars@, v);
            assert(0 <= idx < n && r.vars@[idx] == v);
            lemma_counts_sum(r.vars@, idx);
            lemma_counts_mono(r.vars@, idx, n);
            if is_wit(r.vars@[idx]) {
                assert(wit_count(r.vars@, idx) < wit_count(r.vars@, idx + 1));
            } else {
                assert(inst_count(r.vars@, idx) < inst_count(r.vars@, idx + 1));
            }
            assert(lc.monomials@[k].1.wf());
        } else {
            crate::bytes::lemma_le_val_bound(lc.constant.value@);
        }
    }
}

/// Every entry of a matrix is in bounds for the system's shape.
pub proof fn lemma_matrix_bounds(r: R1cs, which: int, n: int)
    requires
        r.wf(),
        0 <= n <= r.constraints@.len(),
    ensures
        forall|k: int| 0 <= k < matrix(r.constraints@, which, n, r.vars@).len()
            ==> {
                let e = #[trigger] matrix(r.constraints@, which, n, r.vars@)[k];
                0 <= e.0 < n && 0 <= e.1 < r.num_wit() + 1 + r.num_inst()
                    && e.2.len() == 32 && le_val(e.2) < le_val(r.modulus@)
            },
    decreases n,
{
    if n > 0 {
        lemma_matrix_bounds(r, which, n - 1);
        let lc = lc_side(r.constraints@[n - 1], which);
        assert(lc_wf(lc, r.modulus@, r.vars@));
        lemma_lc_entries_bounds(r, lc, n - 1);
        let prev = matrix(r.constraints@, which, n - 1, r.vars@);
        let ent = lc_entries(lc, n - 1, r.vars@);
        assert forall|k: int| 0 <= k < matrix(r.constraints@, which, n, r.vars@).len()
            implies {
                let e = #[trigger] matrix(r.constraints@, which, n, r.vars@)[k];
                0 <= e.0 < n && 0 <= e.1 < r.num_wit() + 1 + r.num_inst()
                    && e.2.len() == 32 && le_val(e.2) < le_val(r.modulus@)
            } by {
            if k < prev.len() {
                assert(matrix(r.constraints@, which, n, r.vars@)[k] == prev[k]);
            } else {
                assert(matrix(r.constraints@, which, n, r.vars@)[k] == ent[k - prev.len()]);
            }
        }
    }
}

} // verus!
