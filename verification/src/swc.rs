//! The staged witness computation: a DAG of operator applications,
//! flattened into a topologically sorted array of steps, grouped into
//! stages that each consume a batch of named inputs and yield a fixed
//! number of outputs.
//!
//! The builder appends one stage at a time. Each output is a term tree;
//! the builder walks it in post-order, skipping terms a step already
//! computes, so shared subterms become shared steps. The construction
//! cache mapping terms to steps is transient: it never leaves the
//! builder and is not part of the serialized form.

use vstd::prelude::*;
use crate::errors::BridgeError;
use crate::op::{Op, OpV, op_view, op_wf};
use crate::value::{Sort, SortV, sort_view};

verus! {

broadcast use vstd::seq::group_seq_axioms;

/// A term tree: an operator applied to subterms.
#[derive(Debug)]
pub struct Term {
    pub op: Op,
    pub children: Vec<Term>,
}

/// A structural height measure for term traversals.
pub open spec fn term_height(t: Term) -> nat
    decreases t,
{
    1 + terms_height(t.children@)
}

pub open spec fn terms_height(ts: Seq<Term>) -> nat
    decreases ts,
{
    if ts.len() == 0 {
        0
    } else {
        terms_height(ts.drop_last()) + term_height(ts.last())
    }
}

pub proof fn lemma_terms_height_elem(ts: Seq<Term>, i: int)
    requires
        0 <= i < ts.len(),
    ensures
        term_height(ts[i]) <= terms_height(ts),
    decreases ts,
{
    if i < ts.len() - 1 {
        lemma_terms_height_elem(ts.drop_last(), i);
        assert(ts.drop_last()[i] == ts[i]);
    }
}

/// The mathematical shape of a term.
#[verifier::ext_equal]
pub struct TermV {
    pub op: OpV,
    pub args: Seq<TermV>,
}

pub open spec fn term_view(t: Term) -> TermV
    decreases t,
{
    TermV { op: op_view(t.op), args: term_views(t.children@) }
}

pub open spec fn term_views(ts: Seq<Term>) -> Seq<TermV>
    decreases ts,
{
    if ts.len() == 0 {
        Seq::empty()
    } else {
        term_views(ts.drop_last()).push(term_view(ts.last()))
    }
}

/// The view of a sequence of terms is the sequence of their views.
pub proof fn lemma_term_views(ts: Seq<Term>)
    ensures
        term_views(ts).len() == ts.len(),
        forall|i: int| 0 <= i < ts.len() ==> term_views(ts)[i] == term_view(#[trigger] ts[i]),
    decreases ts,
{
    if ts.len() > 0 {
        lemma_term_views(ts.drop_last());
        assert forall|i: int| 0 <= i < ts.len()
            implies term_views(ts)[i] == term_view(#[trigger] ts[i]) by {
            if i < ts.len() - 1 {
                assert(ts.drop_last()[i] == ts[i]);
            }
        }
    }
}

impl View for Term {
    type V = TermV;

    open spec fn view(&self) -> TermV {
        term_view(*self)
    }
}

impl Term {
    /// A leaf term.
    pub fn leaf(op: Op) -> (r: Term)
        ensures
            r@.op == op_view(op),
            r@.args == Seq::<TermV>::empty(),
    {
        let r = Term { op, children: Vec::new() };
        proof {
            assert(term_views(r.children@) =~= Seq::<TermV>::empty());
        }
        r
    }

    /// Structural equality of the operators of two terms.
    fn op_eq(a: &Op, b: &Op) -> (r: bool)
        ensures
            r == (op_view(*a) == op_view(*b)),
    {
        match (a, b) {
            (Op::Var(n1, s1), Op::Var(n2, s2)) => {
                crate::trusted::str_eq(n1.as_str(), n2.as_str()) && s1.sort_eq(s2)
            },
            (Op::Const(v1), Op::Const(v2)) => v1.value_eq(v2),
            (Op::Ite, Op::Ite) => true,
            (Op::Eq, Op::Eq) => true,
            (Op::Not, Op::Not) => true,
            (Op::BoolAnd, Op::BoolAnd) => true,
            (Op::BoolOr, Op::BoolOr) => true,
            (Op::BoolXor, Op::BoolXor) => true,
            (Op::PfAdd, Op::PfAdd) => true,
            (Op::PfMul, Op::PfMul) => true,
            (Op::PfNeg, Op::PfNeg) => true,
            (Op::BvAdd, Op::BvAdd) => true,
            (Op::BvMul, Op::BvMul) => true,
            (Op::UbvToPf(m1), Op::UbvToPf(m2)) => {
                m1.len() == m2.len() && crate::bytes::le_eq(m1, m2)
            },
            (Op::Tuple, Op::Tuple) => true,
            (Op::Field(i1), Op::Field(i2)) => i1 == i2,
            (Op::Update(i1), Op::Update(i2)) => i1 == i2,
            _ => false,
        }
    }

    /// Structural equality of two terms; used by the builder to skip
    /// terms whose step already exists.
    pub fn term_eq(&self, other: &Term) -> (r: bool)
        ensures
            r == (self@ == other@),
        decreases term_height(*self),
    {
        let ghost s1 = term_views(self.children@);
        let ghost s2 = term_views(other.children@);
        proof {
            lemma_term_views(self.children@);
            lemma_term_views(other.children@);
        }
        if !Self::op_eq(&self.op, &other.op) {
            return false;
        }
        if self.children.len() != other.children.len() {
            return false;
        }
        let n = self.children.len();
        let mut i: usize = 0;
        while i < n
            invariant
                n == self.children@.len() == other.children@.len(),
                i <= n,
                term_height(*self) == 1 + terms_height(self.children@),
                s1 == term_views(self.children@),
                s2 == term_views(other.children@),
                s1.len() == n && s2.len() == n,
                forall|j: int| 0 <= j < n ==> s1[j] == term_view(#[trigger] self.children@[j]),
                forall|j: int| 0 <= j < n ==> s2[j] == term_view(#[trigger] other.children@[j]),
                forall|j: int| 0 <= j < i ==> s1[j] == s2[j],
            decreases n - i,
        {
            proof {
                lemma_terms_height_elem(self.children@, i as int);
            }
            let same = self.children[i].term_eq(&other.children[i]);
            if !same {
                proof {
                    assert(s1[i as int] != s2[i as int]);
                }
                return false;
            }
            i = i + 1;
        }
        proof {
            assert(s1 =~= s2);
        }
        true
    }
}

/// One stage: the inputs it consumes, by name and sort, and how many
/// outputs it yields.
#[derive(Debug)]
pub struct Stage {
    pub inputs: Vec<(String, Sort)>,
    pub num_outputs: usize,
}

/// The mathematical shape of a stage.
#[verifier::ext_equal]
pub struct StageV {
    pub inputs: Seq<(Seq<char>, SortV)>,
    pub num_outputs: int,
}

/// The shape of a declared input list.
pub open spec fn decls_view(inputs: Seq<(String, Sort)>) -> Seq<(Seq<char>, SortV)>
    decreases inputs,
{
    if inputs.len() == 0 {
        Seq::empty()
    } else {
        decls_view(inputs.drop_last()).push((inputs.last().0@, sort_view(inputs.last().1)))
    }
}

/// Pointwise reading of `decls_view`.
pub proof fn lemma_decls_view(inputs: Seq<(String, Sort)>)
    ensures
        decls_view(inputs).len() == inputs.len(),
        forall|i: int| 0 <= i < inputs.len()
            ==> decls_view(inputs)[i] == ((#[trigger] inputs[i]).0@, sort_view(inputs[i].1)),
    decreases inputs,
{
    if inputs.len() > 0 {
        lemma_decls_view(inputs.drop_last());
        assert forall|i: int| 0 <= i < inputs.len()
            implies decls_view(inputs)[i] == ((#[trigger] inputs[i]).0@, sort_view(inputs[i].1)) by {
            if i < inputs.len() - 1 {
                assert(inputs.drop_last()[i] == inputs[i]);
            }
        }
    }
}

pub open spec fn stage_view(s: Stage) -> StageV {
    StageV { inputs: decls_view(s.inputs@), num_outputs: s.num_outputs as int }
}

impl View for Stage {
    type V = StageV;

    open spec fn view(&self) -> StageV {
        stage_view(*self)
    }
}

/// One step of the flattened program: an operator, and the exclusive end
/// of its argument range in the shared argument array.
#[derive(Debug)]
pub struct Step {
    pub op: Op,
    pub args_end: usize,
}

/// The staged witness computation program.
#[derive(Debug)]
pub struct SwcProgram {
    /// All input names declared so far, in declaration order.
    pub vars: Vec<String>,
    /// The stages, in evaluation order.
    pub stages: Vec<Stage>,
    /// The steps, topologically sorted.
    pub steps: Vec<Step>,
    /// The shared flat argument array; step `k` owns the slice between
    /// the previous step's end and its own.
    pub step_args: Vec<usize>,
    /// Per-stage output step indices, concatenated in stage order.
    pub output_steps: Vec<usize>,
    /// Construction cache from terms to their steps; never serialized.
    pub term_cache: Vec<(Term, usize)>,
}

/// Where step `k`'s argument slice begins.
pub open spec fn args_start(prog: SwcProgram, k: int) -> int {
    if k == 0 {
        0
    } else {
        prog.steps@[k - 1].args_end as int
    }
}

/// The argument step indices of step `k`.
pub open spec fn args_of(prog: SwcProgram, k: int) -> Seq<int> {
    Seq::new(
        (prog.steps@[k].args_end - args_start(prog, k)) as nat,
        |j: int| prog.step_args@[args_start(prog, k) + j] as int,
    )
}

/// The term a step computes, reconstructed from the flat form: its
/// operator applied to the terms of its argument steps. Well-formed
/// programs only ever reach the guarded branch.
pub open spec fn step_denotes(prog: SwcProgram, k: int) -> TermV
    decreases k,
{
    TermV {
        op: op_view(prog.steps@[k].op),
        args: Seq::new(
            args_of(prog, k).len(),
            |j: int| if 0 <= args_of(prog, k)[j] < k {
                step_denotes(prog, args_of(prog, k)[j])
            } else {
                TermV { op: OpV::Tuple, args: Seq::empty() }
            },
        ),
    }
}

/// What a step denotes is stable when a program grows at the end: new
/// steps and arguments never change what the old ones compute.
pub proof fn lemma_denotes_stable(p1: SwcProgram, p2: SwcProgram, k: int)
    requires
        p1.wf(),
        0 <= k < p1.steps@.len(),
        p1.steps@.len() <= p2.steps@.len(),
        forall|q: int| 0 <= q < p1.steps@.len() ==> p2.steps@[q] == p1.steps@[q],
        p1.step_args@.len() <= p2.step_args@.len(),
        forall|j: int| 0 <= j < p1.step_args@.len() ==> p2.step_args@[j] == p1.step_args@[j],
    ensures
        step_denotes(p2, k) == step_denotes(p1, k),
    decreases k,
{
    assert(args_start(p2, k) == args_start(p1, k));
    assert(p2.steps@[k] == p1.steps@[k]);
    let a1 = args_of(p1, k);
    let a2 = args_of(p2, k);
    assert forall|j: int| 0 <= j < a1.len() implies a2[j] == a1[j] by {
        assert(p1.step_args@[args_start(p1, k) + j] == p2.step_args@[args_start(p1, k) + j]);
    }
    assert(a2 =~= a1);
    assert forall|j: int| 0 <= j < a1.len()
        implies step_denotes(p2, k).args[j] == step_denotes(p1, k).args[j] by {
        assert(0 <= a1[j] < k);
        lemma_denotes_stable(p1, p2, a1[j]);
    }
    assert(step_denotes(p2, k).args =~= step_denotes(p1, k).args);
    assert(step_denotes(p2, k) =~= step_denotes(p1, k));
}

/// One term shape occurs inside another: it is the term itself or
/// sits somewhere under its arguments.
pub open spec fn is_subterm(s: TermV, t: TermV) -> bool
    decreases t,
{
    s == t || subterm_of_any(s, t.args)
}

pub open spec fn subterm_of_any(s: TermV, ts: Seq<TermV>) -> bool
    decreases ts,
{
    if ts.len() == 0 {
        false
    } else {
        subterm_of_any(s, ts.drop_last()) || is_subterm(s, ts.last())
    }
}

/// Occurring under some member of a list is occurring under the list.
pub proof fn lemma_subterm_any_elem(s: TermV, ts: Seq<TermV>, j: int)
    requires
        0 <= j < ts.len(),
        is_subterm(s, ts[j]),
    ensures
        subterm_of_any(s, ts),
    decreases ts,
{
    if j < ts.len() - 1 {
        lemma_subterm_any_elem(s, ts.drop_last(), j);
        assert(ts.drop_last()[j] == ts[j]);
    }
}

/// The subterm relation is transitive.
pub proof fn lemma_subterm_trans(a: TermV, b: TermV, c: TermV)
    requires
        is_subterm(a, b),
        is_subterm(b, c),
    ensures
        is_subterm(a, c),
    decreases c,
{
    if b == c {
    } else {
        lemma_subterm_trans_any(a, b, c.args);
    }
}

proof fn lemma_subterm_trans_any(a: TermV, b: TermV, cs: Seq<TermV>)
    requires
        is_subterm(a, b),
        subterm_of_any(b, cs),
    ensures
        subterm_of_any(a, cs),
    decreases cs,
{
    if cs.len() > 0 {
        if subterm_of_any(b, cs.drop_last()) {
            lemma_subterm_trans_any(a, b, cs.drop_last());
        } else {
            lemma_subterm_trans(a, b, cs.last());
        }
    }
}

/// When a program grows by steps that sit under one subterm of a
/// target, every step added since a baseline still sits under the
/// target.
pub proof fn lemma_new_steps_under(
    prev: SwcProgram,
    cur: SwcProgram,
    base_len: int,
    t: TermV,
    child: TermV,
)
    requires
        prev.wf(),
        0 <= base_len <= prev.steps@.len() <= cur.steps@.len(),
        forall|q: int| 0 <= q < prev.steps@.len() ==> cur.steps@[q] == prev.steps@[q],
        prev.step_args@.len() <= cur.step_args@.len(),
        forall|j: int| 0 <= j < prev.step_args@.len() ==> cur.step_args@[j] == prev.step_args@[j],
        forall|k: int| base_len <= k < prev.steps@.len()
            ==> is_subterm(#[trigger] step_denotes(prev, k), t),
        forall|k: int| prev.steps@.len() <= k < cur.steps@.len()
            ==> is_subterm(#[trigger] step_denotes(cur, k), child),
        is_subterm(child, t),
    ensures
        forall|k: int| base_len <= k < cur.steps@.len()
            ==> is_subterm(#[trigger] step_denotes(cur, k), t),
{
    assert forall|k: int| base_len <= k < cur.steps@.len()
        implies is_subterm(#[trigger] step_denotes(cur, k), t) by {
        if k < prev.steps@.len() {
            lemma_denotes_stable(prev, cur, k);
            assert(is_subterm(step_denotes(prev, k), t));
        } else {
            lemma_subterm_trans(step_denotes(cur, k), child, t);
        }
    }
}

/// Every cache entry maps a term to the step that denotes it.
pub open spec fn cache_valid(prog: SwcProgram) -> bool {
    forall|i: int| 0 <= i < prog.term_cache@.len()
        ==> term_view((#[trigger] prog.term_cache@[i]).0)
            == step_denotes(prog, prog.term_cache@[i].1 as int)
}

/// The total number of outputs of the first `s` stages.
pub open spec fn outputs_before(stages: Seq<Stage>, s: int) -> int
    decreases s,
{
    if s <= 0 {
        0
    } else {
        outputs_before(stages, s - 1) + stages[s - 1].num_outputs
    }
}

pub proof fn lemma_outputs_before_push(stages: Seq<Stage>, st: Stage, s: int)
    requires
        0 <= s <= stages.len(),
    ensures
        outputs_before(stages.push(st), s) == outputs_before(stages, s),
    decreases s,
{
    if s > 0 {
        lemma_outputs_before_push(stages, st, s - 1);
    }
}

pub proof fn lemma_outputs_before_nonneg(stages: Seq<Stage>, s: int)
    ensures
        outputs_before(stages, s) >= 0,
    decreases s,
{
    if s > 0 {
        lemma_outputs_before_nonneg(stages, s - 1);
    }
}

/// Monotonicity of the per-stage output count prefix sum.
pub proof fn lemma_outputs_before_mono(stages: Seq<Stage>, a: int, b: int)
    requires
        0 <= a <= b,
    ensures
        outputs_before(stages, a) <= outputs_before(stages, b),
    decreases b,
{
    if a < b {
        lemma_outputs_before_mono(stages, a, b - 1);
    }
}

impl SwcProgram {
    /// Well-formedness: argument ranges are within bounds and ordered,
    /// the program is topologically sorted, output steps exist, the
    /// per-stage output counts sum to the output list's length, and
    /// every constant the steps carry is a well-formed value.
    pub open spec fn wf(self) -> bool {
        &&& forall|k: int| 0 <= k < self.steps@.len()
            ==> args_start(self, k) <= (#[trigger] self.steps@[k]).args_end <= self.step_args@.len()
        &&& self.steps@.len() > 0
            ==> self.steps@[self.steps@.len() - 1].args_end == self.step_args@.len()
        &&& self.steps@.len() == 0 ==> self.step_args@.len() == 0
        &&& forall|k: int, j: int| #![trigger self.steps@[k], self.step_args@[j]]
            0 <= k < self.steps@.len()
            && args_start(self, k) <= j < self.steps@[k].args_end
            ==> self.step_args@[j] < k
        &&& forall|i: int| 0 <= i < self.output_steps@.len()
            ==> (#[trigger] self.output_steps@[i]) < self.steps@.len()
        &&& outputs_before(self.stages@, self.stages@.len() as int) == self.output_steps@.len()
        &&& forall|k: int| 0 <= k < self.steps@.len()
            ==> op_wf(op_view((#[trigger] self.steps@[k]).op))
        &&& forall|i: int| 0 <= i < self.term_cache@.len()
            ==> (#[trigger] self.term_cache@[i]).1 < self.steps@.len()
    }

    /// An empty program.
    pub fn new() -> (r: SwcProgram)
        ensures
            r.wf(),
            cache_valid(r),
            r.vars@.len() == 0,
            r.stages@.len() == 0,
            r.steps@.len() == 0,
            r.step_args@.len() == 0,
            r.output_steps@.len() == 0,
            r.term_cache@.len() == 0,
    {
        SwcProgram {
            vars: Vec::new(),
            stages: Vec::new(),
            steps: Vec::new(),
            step_args: Vec::new(),
            output_steps: Vec::new(),
            term_cache: Vec::new(),
        }
    }

    /// Whether a name is already a declared input of some stage.
    fn knows_var(&self, name: &str) -> (r: bool)
        ensures
            r == (exists|i: int| 0 <= i < self.vars@.len() && (#[trigger] self.vars@[i])@ == name@),
    {
        let n = self.vars.len();
        let mut i: usize = 0;
        while i < n
            invariant
                n == self.vars@.len(),
                i <= n,
                forall|j: int| 0 <= j < i ==> (#[trigger] self.vars@[j])@ != name@,
            decreases n - i,
        {
            if crate::trusted::str_eq(self.vars[i].as_str(), name) {
                return true;
            }
            i = i + 1;
        }
        false
    }

    /// The step index computing a term, if the cache holds one.
    fn cached_step(&self, t: &Term) -> (r: Option<usize>)
        requires
            self.wf(),
            cache_valid(*self),
        ensures
            r matches Some(idx) ==> idx < self.steps@.len()
                && step_denotes(*self, idx as int) == t@,
    {
        let n = self.term_cache.len();
        let mut i: usize = 0;
        while i < n
            invariant
                self.wf(),
                cache_valid(*self),
                n == self.term_cache@.len(),
                i <= n,
            decreases n - i,
        {
            if self.term_cache[i].0.term_eq(t) {
                proof {
                    assert(term_view(self.term_cache@[i as int].0) == t@);
                }
                return Some(self.term_cache[i].1);
            }
            i = i + 1;
        }
        None
    }

    /// Appends the steps that compute a term, in post-order, skipping
    /// terms whose step already exists; yields the term's step. Stages
    /// and the output list are untouched. A term carrying a malformed
    /// constant is refused.
    #[verifier::rlimit(100)]
    pub fn add_term(&mut self, t: &Term) -> (r: Result<usize, BridgeError>)
        requires
            old(self).wf(),
            cache_valid(*old(self)),
        ensures
            final(self).wf(),
            cache_valid(*final(self)),
            r matches Ok(idx) ==> idx < final(self).steps@.len()
                && step_denotes(*final(self), idx as int) == t@,
            r matches Err(e) ==> e is EvalDomainError && !term_wf(*t),
            final(self).steps@.len() >= old(self).steps@.len(),
            forall|k: int| 0 <= k < old(self).steps@.len()
                ==> final(self).steps@[k] == old(self).steps@[k],
            forall|j: int| 0 <= j < old(self).step_args@.len()
                ==> final(self).step_args@[j] == old(self).step_args@[j],
            final(self).step_args@.len() >= old(self).step_args@.len(),
            final(self).stages@ == old(self).stages@,
            final(self).output_steps@ == old(self).output_steps@,
            final(self).vars@ == old(self).vars@,
            forall|k: int| old(self).steps@.len() <= k < final(self).steps@.len()
                ==> is_subterm(#[trigger] step_denotes(*final(self), k), t@),
        decreases term_height(*t), 1int,
    {
        if let Some(idx) = self.cached_step(t) {
            return Ok(idx);
        }
        if !op_check_wf(&t.op) {
            return Err(BridgeError::EvalDomainError);
        }
        self.add_term_children(t)
    }

    /// The uncached half of `add_term`: appends the children's steps,
    /// then the term's own.
    #[verifier::rlimit(100)]
    fn add_term_children(&mut self, t: &Term) -> (r: Result<usize, BridgeError>)
        requires
            old(self).wf(),
            cache_valid(*old(self)),
            op_wf(op_view(t.op)),
        ensures
            final(self).wf(),
            cache_valid(*final(self)),
            r matches Ok(idx) ==> idx < final(self).steps@.len()
                && step_denotes(*final(self), idx as int) == t@,
            r matches Err(e) ==> e is EvalDomainError && !term_wf(*t),
            final(self).steps@.len() >= old(self).steps@.len(),
            forall|k: int| 0 <= k < old(self).steps@.len()
                ==> final(self).steps@[k] == old(self).steps@[k],
            forall|j: int| 0 <= j < old(self).step_args@.len()
                ==> final(self).step_args@[j] == old(self).step_args@[j],
            final(self).step_args@.len() >= old(self).step_args@.len(),
            final(self).stages@ == old(self).stages@,
            final(self).output_steps@ == old(self).output_steps@,
            final(self).vars@ == old(self).vars@,
            forall|k: int| old(self).steps@.len() <= k < final(self).steps@.len()
                ==> is_subterm(#[trigger] step_denotes(*final(self), k), t@),
        decreases term_height(*t), 0int,
    {
        let ghost cviews = term_views(t.children@);
        proof {
            lemma_term_views(t.children@);
        }
        let n = t.children.len();
        let mut arg_steps: Vec<usize> = Vec::new();
        let mut i: usize = 0;
        while i < n
            invariant
                n == t.children@.len(),
                i <= n,
                self.wf(),
                cache_valid(*self),
                cviews == term_views(t.children@),
                cviews.len() == n,
                forall|j: int| 0 <= j < n
                    ==> cviews[j] == term_view(#[trigger] t.children@[j]),
                arg_steps@.len() == i,
                forall|j: int| 0 <= j < i ==> (#[trigger] arg_steps@[j]) < self.steps@.len(),
                forall|j: int| 0 <= j < i
                    ==> step_denotes(*self, (#[trigger] arg_steps@[j]) as int) == cviews[j],
                self.steps@.len() >= old(self).steps@.len(),
                forall|k: int| 0 <= k < old(self).steps@.len()
                    ==> self.steps@[k] == old(self).steps@[k],
                forall|j: int| 0 <= j < old(self).step_args@.len()
                    ==> self.step_args@[j] == old(self).step_args@[j],
                self.step_args@.len() >= old(self).step_args@.len(),
                self.stages@ == old(self).stages@,
                self.output_steps@ == old(self).output_steps@,
                self.vars@ == old(self).vars@,
                forall|k: int| old(self).steps@.len() <= k < self.steps@.len()
                    ==> is_subterm(#[trigger] step_denotes(*self, k), t@),
                term_height(*t) == 1 + terms_height(t.children@),
                op_wf(op_view(t.op)),
            decreases n - i,
        {
            proof {
                lemma_terms_height_elem(t.children@, i as int);
            }
            let ghost prev = *self;
            let ghost cv = cviews[i as int];
            proof {
                lemma_term_views(t.children@);
                lemma_subterm_any_elem(cv, term_views(t.children@), i as int);
                assert(is_subterm(cv, t@));
            }
            let child_step = match self.add_term(&t.children[i]) {
                Ok(idx) => idx,
                Err(e) => {
                    proof {
                        if term_wf(*t) {
                            lemma_terms_wf_elem(t.children@, i as int);
                        }
                        lemma_new_steps_under(prev, *self,
                            old(self).steps@.len() as int, t@, cv);
                    }
                    return Err(e);
                },
            };
            proof {
                assert forall|j: int| 0 <= j < i
                    implies step_denotes(*self, (#[trigger] arg_steps@[j]) as int) == cviews[j] by {
                    lemma_denotes_stable(prev, *self, arg_steps@[j] as int);
                }
                lemma_new_steps_under(prev, *self,
                    old(self).steps@.len() as int, t@, cv);
            }
            arg_steps.push(child_step);
            i = i + 1;
        }
        let ghost at_loop_end = *self;
        let idx = self.append_step(&t.op, arg_steps, t);
        proof {
            assert forall|k: int| at_loop_end.steps@.len() <= k < self.steps@.len()
                implies is_subterm(#[trigger] step_denotes(*self, k), t@) by {
                assert(k == at_loop_end.steps@.len());
                assert(step_denotes(*self, k) == t@);
            }
            lemma_new_steps_under(at_loop_end, *self,
                old(self).steps@.len() as int, t@, t@);
        }
        Ok(idx)
    }

    /// Appends one step whose arguments are existing steps, recording it
    /// in the cache for the given term, which it then denotes.
    #[verifier::rlimit(100)]
    fn append_step(&mut self, op: &Op, arg_steps: Vec<usize>, term: &Term) -> (r: usize)
        requires
            old(self).wf(),
            cache_valid(*old(self)),
            op_wf(op_view(*op)),
            forall|j: int| 0 <= j < arg_steps@.len()
                ==> (#[trigger] arg_steps@[j]) < old(self).steps@.len(),
            term@.op == op_view(*op),
            term@.args.len() == arg_steps@.len(),
            forall|j: int| 0 <= j < arg_steps@.len()
                ==> term@.args[j] == step_denotes(*old(self), (#[trigger] arg_steps@[j]) as int),
        ensures
            final(self).wf(),
            cache_valid(*final(self)),
            r < final(self).steps@.len(),
            r == old(self).steps@.len(),
            step_denotes(*final(self), r as int) == term@,
            final(self).steps@.len() == old(self).steps@.len() + 1,
            forall|k: int| 0 <= k < old(self).steps@.len()
                ==> final(self).steps@[k] == old(self).steps@[k],
            forall|j: int| 0 <= j < old(self).step_args@.len()
                ==> final(self).step_args@[j] == old(self).step_args@[j],
            final(self).step_args@.len() >= old(self).step_args@.len(),
            final(self).stages@ == old(self).stages@,
            final(self).output_steps@ == old(self).output_steps@,
            final(self).vars@ == old(self).vars@,
    {
        let step_idx = self.steps.len();
        let ghost old_args_len = self.step_args@.len() as int;
        let m = arg_steps.len();
        let mut i: usize = 0;
        while i < m
            invariant
                m == arg_steps@.len(),
                i <= m,
                self.steps@ == old(self).steps@,
                self.stages@ == old(self).stages@,
                self.output_steps@ == old(self).output_steps@,
                self.vars@ == old(self).vars@,
                self.term_cache@ == old(self).term_cache@,
                0 <= old_args_len,
                self.step_args@.len() == old_args_len + i,
                forall|j: int| 0 <= j < old_args_len
                    ==> self.step_args@[j] == old(self).step_args@[j],
                forall|j: int| old_args_len <= j < self.step_args@.len()
                    ==> (#[trigger] self.step_args@[j]) == arg_steps@[j - old_args_len],
            decreases m - i,
        {
            let ghost prev = self.step_args@;
            self.step_args.push(arg_steps[i]);
            proof {
                assert(self.step_args@ == prev.push(arg_steps@[i as int]));
                assert forall|j: int| old_args_len <= j < self.step_args@.len()
                    implies (#[trigger] self.step_args@[j]) == arg_steps@[j - old_args_len] by {
                    if j < prev.len() {
                        vstd::seq::axiom_seq_push_index_different(prev, arg_steps@[i as int], j);
                    } else {
                        assert(j == prev.len());
                        vstd::seq::axiom_seq_push_index_same(prev, arg_steps@[i as int], j);
                    }
                }
            }
            i = i + 1;
        }
        self.steps.push(Step { op: op.dup(), args_end: self.step_args.len() });
        proof {
            let newp = *self;
            let oldp = *old(self);
            assert forall|k: int| 0 <= k < newp.steps@.len()
                implies args_start(newp, k) <= (#[trigger] newp.steps@[k]).args_end
                    <= newp.step_args@.len() by {
                if k < oldp.steps@.len() {
                    assert(args_start(newp, k) == args_start(oldp, k));
                } else {
                    assert(k == oldp.steps@.len());
                    assert(newp.steps@[k].args_end == newp.step_args@.len());
                    if k > 0 {
                        assert(args_start(newp, k) == oldp.steps@[k - 1].args_end);
                        assert(oldp.steps@[k - 1].args_end <= oldp.step_args@.len());
                    }
                }
            }
            assert forall|k: int, j: int| #![trigger newp.steps@[k], newp.step_args@[j]]
                0 <= k < newp.steps@.len()
                && args_start(newp, k) <= j < newp.steps@[k].args_end
                implies newp.step_args@[j] < k by {
                if k < oldp.steps@.len() {
                    assert(args_start(newp, k) == args_start(oldp, k));
                    assert(newp.step_args@[j] == oldp.step_args@[j]);
                } else {
                    assert(k == oldp.steps@.len());
                    assert(args_start(newp, k) == old_args_len);
                    assert(newp.step_args@[j] == arg_steps@[j - old_args_len]);
                }
            }
        }
        let ghost mid = *self;
        proof {
            let oldp = *old(self);
            let k = step_idx as int;
            assert(args_start(mid, k) == old_args_len);
            assert(mid.steps@[k].args_end == mid.step_args@.len());
            let av = args_of(mid, k);
            assert(av.len() == arg_steps@.len());
            assert forall|j: int| 0 <= j < av.len() implies av[j] == arg_steps@[j] as int by {
                assert(mid.step_args@[old_args_len + j] == arg_steps@[j]);
            }
            assert forall|j: int| 0 <= j < av.len()
                implies step_denotes(mid, k).args[j] == term@.args[j] by {
                assert(0 <= av[j] < k);
                lemma_denotes_stable(oldp, mid, av[j]);
            }
            assert(step_denotes(mid, k).args =~= term@.args);
            assert(step_denotes(mid, k) =~= term@);
        }
        let copied = term.dup();
        self.term_cache.push((copied, step_idx));
        proof {
            let newp = *self;
            let oldp = *old(self);
            let k = step_idx as int;
            assert(newp.steps@ == mid.steps@ && newp.step_args@ == mid.step_args@);
            assert(mid.wf());
            lemma_denotes_stable(mid, newp, k);
            assert(step_denotes(newp, k) == term@);
            assert forall|i2: int| 0 <= i2 < newp.term_cache@.len()
                implies term_view((#[trigger] newp.term_cache@[i2]).0)
                    == step_denotes(newp, newp.term_cache@[i2].1 as int) by {
                if i2 < newp.term_cache@.len() - 1 {
                    assert(newp.term_cache@[i2] == oldp.term_cache@[i2]);
                    assert(term_view(oldp.term_cache@[i2].0)
                        == step_denotes(oldp, oldp.term_cache@[i2].1 as int));
                    assert(oldp.term_cache@[i2].1 < oldp.steps@.len());
                    lemma_denotes_stable(oldp, newp, oldp.term_cache@[i2].1 as int);
                } else {
                    assert(newp.term_cache@[i2].0 == copied);
                    assert(newp.term_cache@[i2].1 == step_idx);
                }
            }
        }
        step_idx
    }

}

/// Whether an operator's embedded constant, if any, is well-formed.
pub fn op_check_wf(op: &Op) -> (r: bool)
    ensures
        r == op_wf(op_view(*op)),
{
    match op {
        Op::Const(v) => v.check_wf(),
        Op::UbvToPf(m) => {
            if m.len() != 32 {
                false
            } else {
                let one = crate::field::u64_to_bytes32(1);
                crate::bytes::le_lt(&one, m)
            }
        },
        _ => true,
    }
}

impl Term {
    /// A full copy.
    pub fn dup(&self) -> (r: Term)
        ensures
            r@ == self@,
        decreases term_height(*self),
    {
        let ghost s1 = term_views(self.children@);
        proof {
            lemma_term_views(self.children@);
        }
        let n = self.children.len();
        let mut out: Vec<Term> = Vec::new();
        let mut i: usize = 0;
        while i < n
            invariant
                n == self.children@.len(),
                i <= n,
                out@.len() == i,
                s1 == term_views(self.children@),
                s1.len() == n,
                forall|j: int| 0 <= j < n ==> s1[j] == term_view(#[trigger] self.children@[j]),
                forall|j: int| 0 <= j < i ==> term_view(#[trigger] out@[j]) == s1[j],
                term_height(*self) == 1 + terms_height(self.children@),
            decreases n - i,
        {
            proof {
                lemma_terms_height_elem(self.children@, i as int);
            }
            let c = self.children[i].dup();
            out.push(c);
            i = i + 1;
        }
        let ghost outs = out@;
        proof {
            lemma_term_views(outs);
            assert forall|j: int| 0 <= j < n implies term_views(outs)[j] == s1[j] by {
                assert(term_views(outs)[j] == term_view(outs[j]));
                assert(term_view(out@[j]) == s1[j]);
            }
            assert(term_views(outs) =~= s1);
        }
        Term { op: self.op.dup(), children: out }
    }
}


/// Well-formedness of a term: every constant in it is a well-formed
/// value.
pub open spec fn term_wf(t: Term) -> bool
    decreases t,
{
    op_wf(op_view(t.op)) && terms_wf(t.children@)
}

pub open spec fn terms_wf(ts: Seq<Term>) -> bool
    decreases ts,
{
    if ts.len() == 0 {
        true
    } else {
        terms_wf(ts.drop_last()) && term_wf(ts.last())
    }
}

pub proof fn lemma_terms_wf_elem(ts: Seq<Term>, i: int)
    requires
        terms_wf(ts),
        0 <= i < ts.len(),
    ensures
        term_wf(ts[i]),
    decreases ts,
{
    if i < ts.len() - 1 {
        lemma_terms_wf_elem(ts.drop_last(), i);
        assert(ts.drop_last()[i] == ts[i]);
    }
}

pub proof fn lemma_terms_wf_intro(ts: Seq<Term>)
    requires
        forall|i: int| 0 <= i < ts.len() ==> term_wf(#[trigger] ts[i]),
    ensures
        terms_wf(ts),
    decreases ts,
{
    if ts.len() > 0 {
        assert(forall|i: int| 0 <= i < ts.drop_last().len()
            ==> term_wf(#[trigger] ts.drop_last()[i]));
        lemma_terms_wf_intro(ts.drop_last());
    }
}

impl Term {
    /// Whether every constant in this term is a well-formed value.
    pub fn check_wf(&self) -> (r: bool)
        ensures
            r == term_wf(*self),
        decreases term_height(*self),
    {
        if !op_check_wf(&self.op) {
            return false;
        }
        let n = self.children.len();
        let mut i: usize = 0;
        while i < n
            invariant
                n == self.children@.len(),
                i <= n,
                term_height(*self) == 1 + terms_height(self.children@),
                op_wf(op_view(self.op)),
                forall|j: int| 0 <= j < i ==> term_wf(#[trigger] self.children@[j]),
            decreases n - i,
        {
            proof {
                lemma_terms_height_elem(self.children@, i as int);
            }
            let ok = self.children[i].check_wf();
            if !ok {
                proof {
                    if terms_wf(self.children@) {
                        lemma_terms_wf_elem(self.children@, i as int);
                    }
                }
                return false;
            }
            i = i + 1;
        }
        proof {
            lemma_terms_wf_intro(self.children@);
        }
        true
    }
}

/// Whether a name occurs in a list of names.
pub open spec fn var_known(vars: Seq<String>, name: Seq<char>) -> bool {
    exists|i: int| 0 <= i < vars.len() && (#[trigger] vars[i])@ == name
}

/// The declared input names are new to the program and mutually
/// distinct.
pub open spec fn fresh_decls(vars: Seq<String>, inputs: Seq<(String, Sort)>) -> bool {
    &&& forall|i: int| 0 <= i < inputs.len() ==> !var_known(vars, (#[trigger] inputs[i]).0@)
    &&& forall|i: int, j: int| 0 <= i < j < inputs.len() ==> inputs[i].0@ != inputs[j].0@
}

/// Every term of a list is well-formed.
pub open spec fn terms_all_wf(ts: Seq<Term>) -> bool {
    forall|i: int| 0 <= i < ts.len() ==> term_wf(#[trigger] ts[i])
}

impl SwcProgram {
    /// Appends a stage. Each output term is walked in post-order and
    /// becomes a chain of steps, shared subterms included once; the
    /// terms' steps join the output list in order. A declared name
    /// already owned by an earlier stage, or declared twice here, is a
    /// duplicate input; a term carrying a malformed constant is refused
    /// before anything changes.
    #[verifier::rlimit(100)]
    pub fn add_stage(&mut self, inputs: Vec<(String, Sort)>, output_values: Vec<Term>)
        -> (r: Result<(), BridgeError>)
        requires
            old(self).wf(),
            cache_valid(*old(self)),
        ensures
            final(self).wf(),
            cache_valid(*final(self)),
            match r {
                Ok(()) => {
                    &&& fresh_decls(old(self).vars@, inputs@)
                    &&& terms_all_wf(output_values@)
                    &&& forall|i: int| 0 <= i < output_values@.len()
                        ==> step_denotes(*final(self),
                            (#[trigger] final(self).output_steps@[
                                old(self).output_steps@.len() + i]) as int)
                            == term_view(output_values@[i])
                    &&& forall|k: int| old(self).steps@.len() <= k < final(self).steps@.len()
                        ==> exists|i: int| 0 <= i < output_values@.len()
                            && is_subterm(#[trigger] step_denotes(*final(self), k),
                                term_view(output_values@[i]))
                    &&& final(self).stages@.len() == old(self).stages@.len() + 1
                    &&& forall|i: int| 0 <= i < old(self).stages@.len()
                        ==> final(self).stages@[i] == old(self).stages@[i]
                    &&& stage_view(final(self).stages@.last()) == (StageV {
                        inputs: decls_view(inputs@),
                        num_outputs: output_values@.len() as int,
                    })
                    &&& final(self).output_steps@.len()
                        == old(self).output_steps@.len() + output_values@.len()
                    &&& forall|i: int| 0 <= i < old(self).output_steps@.len()
                        ==> final(self).output_steps@[i] == old(self).output_steps@[i]
                    &&& final(self).vars@.len() == old(self).vars@.len() + inputs@.len()
                    &&& forall|i: int| 0 <= i < old(self).vars@.len()
                        ==> final(self).vars@[i] == old(self).vars@[i]
                    &&& forall|i: int| 0 <= i < inputs@.len()
                        ==> (#[trigger] final(self).vars@[old(self).vars@.len() + i])@
                            == inputs@[i].0@
                    &&& final(self).steps@.len() >= old(self).steps@.len()
                    &&& forall|k: int| 0 <= k < old(self).steps@.len()
                        ==> final(self).steps@[k] == old(self).steps@[k]
                    &&& final(self).step_args@.len() >= old(self).step_args@.len()
                    &&& forall|j: int| 0 <= j < old(self).step_args@.len()
                        ==> final(self).step_args@[j] == old(self).step_args@[j]
                },
                Err(e) => {
                    &&& *final(self) == *old(self)
                    &&& (e is DuplicateInput || e is EvalDomainError)
                    &&& (e is DuplicateInput) == !fresh_decls(old(self).vars@, inputs@)
                    &&& (e is EvalDomainError) == (fresh_decls(old(self).vars@, inputs@)
                        && !terms_all_wf(output_values@))
                },
            },
    {
        if !self.check_fresh(&inputs) {
            return Err(BridgeError::DuplicateInput);
        }
        if !check_terms(&output_values) {
            return Err(BridgeError::EvalDomainError);
        }
        let out_steps = self.build_steps(&output_values);
        let ghost built = *self;
        let ghost outs = out_steps@;
        self.commit_stage(inputs, out_steps, output_values.len());
        proof {
            let finalp = *self;
            assert forall|i: int| 0 <= i < finalp.term_cache@.len()
                implies term_view((#[trigger] finalp.term_cache@[i]).0)
                    == step_denotes(finalp, finalp.term_cache@[i].1 as int) by {
                assert(finalp.term_cache@[i] == built.term_cache@[i]);
                lemma_denotes_stable(built, finalp, built.term_cache@[i].1 as int);
            }
            assert forall|i: int| 0 <= i < output_values@.len()
                implies step_denotes(finalp,
                    (#[trigger] finalp.output_steps@[built.output_steps@.len() + i]) as int)
                    == term_view(output_values@[i]) by {
                assert(finalp.output_steps@[built.output_steps@.len() + i] == outs[i]);
                assert(step_denotes(built, outs[i] as int) == term_view(output_values@[i]));
                lemma_denotes_stable(built, finalp, outs[i] as int);
            }
            assert forall|k: int| old(self).steps@.len() <= k < finalp.steps@.len()
                implies exists|q: int| 0 <= q < output_values@.len()
                    && is_subterm(#[trigger] step_denotes(finalp, k),
                        term_view(output_values@[q])) by {
                let q = choose|q: int| 0 <= q < output_values@.len()
                    && is_subterm(#[trigger] step_denotes(built, k),
                        term_view(output_values@[q]));
                lemma_denotes_stable(built, finalp, k);
                assert(is_subterm(step_denotes(finalp, k), term_view(output_values@[q])));
            }
        }
        Ok(())
    }

    /// Whether the declared names are new to the program and mutually
    /// distinct.
    fn check_fresh(&self, inputs: &Vec<(String, Sort)>) -> (r: bool)
        ensures
            r == fresh_decls(self.vars@, inputs@),
    {
        let n_in = inputs.len();
        let mut i: usize = 0;
        while i < n_in
            invariant
                i <= n_in,
                n_in == inputs@.len(),
                forall|j: int| 0 <= j < i ==> !var_known(self.vars@, (#[trigger] inputs@[j]).0@),
                forall|j1: int, j2: int| 0 <= j1 < j2 < i ==> inputs@[j1].0@ != inputs@[j2].0@,
            decreases n_in - i,
        {
            if self.knows_var(inputs[i].0.as_str()) {
                return false;
            }
            let mut j: usize = 0;
            while j < i
                invariant
                    j <= i < n_in,
                    n_in == inputs@.len(),
                    forall|j2: int| 0 <= j2 < j ==> inputs@[j2].0@ != inputs@[i as int].0@,
                decreases i - j,
            {
                if crate::trusted::str_eq(inputs[j].0.as_str(), inputs[i].0.as_str()) {
                    return false;
                }
                j = j + 1;
            }
            i = i + 1;
        }
        true
    }

    /// Appends the steps for each output term and collects the terms'
    /// step indices, in order.
    fn build_steps(&mut self, output_values: &Vec<Term>) -> (r: Vec<usize>)
        requires
            old(self).wf(),
            cache_valid(*old(self)),
            terms_all_wf(output_values@),
        ensures
            final(self).wf(),
            cache_valid(*final(self)),
            r@.len() == output_values@.len(),
            forall|j: int| 0 <= j < r@.len() ==> (#[trigger] r@[j]) < final(self).steps@.len(),
            forall|j: int| 0 <= j < r@.len()
                ==> step_denotes(*final(self), (#[trigger] r@[j]) as int)
                    == term_view(output_values@[j]),
            forall|k: int| old(self).steps@.len() <= k < final(self).steps@.len()
                ==> exists|i: int| 0 <= i < output_values@.len()
                    && is_subterm(#[trigger] step_denotes(*final(self), k),
                        term_view(output_values@[i])),
            final(self).steps@.len() >= old(self).steps@.len(),
            forall|k: int| 0 <= k < old(self).steps@.len()
                ==> final(self).steps@[k] == old(self).steps@[k],
            final(self).step_args@.len() >= old(self).step_args@.len(),
            forall|j: int| 0 <= j < old(self).step_args@.len()
                ==> final(self).step_args@[j] == old(self).step_args@[j],
            final(self).stages@ == old(self).stages@,
            final(self).output_steps@ == old(self).output_steps@,
            final(self).vars@ == old(self).vars@,
    {
        let ghost oviews = term_views(output_values@);
        proof {
            lemma_term_views(output_values@);
        }
        let n_out = output_values.len();
        let mut out_steps: Vec<usize> = Vec::new();
        let mut i: usize = 0;
        while i < n_out
            invariant
                i <= n_out,
                n_out == output_values@.len(),
                terms_all_wf(output_values@),
                self.wf(),
                cache_valid(*self),
                oviews.len() == n_out,
                forall|j: int| 0 <= j < n_out
                    ==> oviews[j] == term_view(#[trigger] output_values@[j]),
                out_steps@.len() == i,
                forall|j: int| 0 <= j < i ==> (#[trigger] out_steps@[j]) < self.steps@.len(),
                forall|j: int| 0 <= j < i
                    ==> step_denotes(*self, (#[trigger] out_steps@[j]) as int) == oviews[j],
                forall|k: int| old(self).steps@.len() <= k < self.steps@.len()
                    ==> exists|q: int| 0 <= q < output_values@.len()
                        && is_subterm(#[trigger] step_denotes(*self, k),
                            term_view(output_values@[q])),
                self.steps@.len() >= old(self).steps@.len(),
                forall|k: int| 0 <= k < old(self).steps@.len()
                    ==> self.steps@[k] == old(self).steps@[k],
                self.step_args@.len() >= old(self).step_args@.len(),
                forall|j: int| 0 <= j < old(self).step_args@.len()
                    ==> self.step_args@[j] == old(self).step_args@[j],
                self.stages@ == old(self).stages@,
                self.output_steps@ == old(self).output_steps@,
                self.vars@ == old(self).vars@,
            decreases n_out - i,
        {
            let ghost prev = *self;
            let idx = match self.add_term(&output_values[i]) {
                Ok(idx) => idx,
                Err(_) => {
                    proof {
                        assert(term_wf(output_values@[i as int]));
                        assert(false);
                    }
                    0
                },
            };
            proof {
                assert forall|j: int| 0 <= j < i
                    implies step_denotes(*self, (#[trigger] out_steps@[j]) as int) == oviews[j] by {
                    lemma_denotes_stable(prev, *self, out_steps@[j] as int);
                }
                assert forall|k: int| old(self).steps@.len() <= k < self.steps@.len()
                    implies exists|q: int| 0 <= q < output_values@.len()
                        && is_subterm(#[trigger] step_denotes(*self, k),
                            term_view(output_values@[q])) by {
                    if k < prev.steps@.len() {
                        let q = choose|q: int| 0 <= q < output_values@.len()
                            && is_subterm(#[trigger] step_denotes(prev, k),
                                term_view(output_values@[q]));
                        lemma_denotes_stable(prev, *self, k);
                        assert(is_subterm(step_denotes(*self, k), term_view(output_values@[q])));
                    } else {
                        assert(is_subterm(step_denotes(*self, k),
                            term_view(output_values@[i as int])));
                    }
                }
            }
            out_steps.push(idx);
            i = i + 1;
        }
        out_steps
    }

    /// Records a checked stage: its names, its output steps, itself.
    fn commit_stage(&mut self, inputs: Vec<(String, Sort)>, out_steps: Vec<usize>, n_out: usize)
        requires
            old(self).wf(),
            out_steps@.len() == n_out,
            forall|j: int| 0 <= j < out_steps@.len()
                ==> (#[trigger] out_steps@[j]) < old(self).steps@.len(),
        ensures
            final(self).wf(),
            final(self).stages@.len() == old(self).stages@.len() + 1,
            forall|i: int| 0 <= i < old(self).stages@.len()
                ==> final(self).stages@[i] == old(self).stages@[i],
            stage_view(final(self).stages@.last()) == (StageV {
                inputs: decls_view(inputs@),
                num_outputs: n_out as int,
            }),
            final(self).output_steps@.len() == old(self).output_steps@.len() + n_out,
            forall|i: int| 0 <= i < old(self).output_steps@.len()
                ==> final(self).output_steps@[i] == old(self).output_steps@[i],
            forall|i: int| 0 <= i < out_steps@.len()
                ==> (#[trigger] final(self).output_steps@[old(self).output_steps@.len() + i])
                    == out_steps@[i],
            final(self).vars@.len() == old(self).vars@.len() + inputs@.len(),
            forall|i: int| 0 <= i < old(self).vars@.len()
                ==> final(self).vars@[i] == old(self).vars@[i],
            forall|i: int| 0 <= i < inputs@.len()
                ==> (#[trigger] final(self).vars@[old(self).vars@.len() + i])@ == inputs@[i].0@,
            final(self).steps@ == old(self).steps@,
            final(self).step_args@ == old(self).step_args@,
            final(self).term_cache@ == old(self).term_cache@,
    {
        let n_in = inputs.len();
        let mut i4: usize = 0;
        while i4 < n_in
            invariant
                i4 <= n_in,
                n_in == inputs@.len(),
                self.steps@ == old(self).steps@,
                self.step_args@ == old(self).step_args@,
                self.stages@ == old(self).stages@,
                self.output_steps@ == old(self).output_steps@,
                self.term_cache@ == old(self).term_cache@,
                self.vars@.len() == old(self).vars@.len() + i4,
                forall|j: int| 0 <= j < old(self).vars@.len()
                    ==> self.vars@[j] == old(self).vars@[j],
                forall|j: int| 0 <= j < i4
                    ==> (#[trigger] self.vars@[old(self).vars@.len() + j])@ == inputs@[j].0@,
            decreases n_in - i4,
        {
            let name = inputs[i4].0.as_str().to_owned();
            self.vars.push(name);
            i4 = i4 + 1;
        }
        let ghost mid = *self;
        let mut i5: usize = 0;
        while i5 < n_out
            invariant
                i5 <= n_out,
                out_steps@.len() == n_out,
                self.steps@ == mid.steps@,
                self.step_args@ == mid.step_args@,
                self.stages@ == mid.stages@,
                self.term_cache@ == mid.term_cache@,
                self.vars@ == mid.vars@,
                self.output_steps@.len() == mid.output_steps@.len() + i5,
                forall|j: int| 0 <= j < mid.output_steps@.len()
                    ==> self.output_steps@[j] == mid.output_steps@[j],
                forall|j: int| mid.output_steps@.len() <= j < self.output_steps@.len()
                    ==> (#[trigger] self.output_steps@[j])
                        == out_steps@[j - mid.output_steps@.len()],
            decreases n_out - i5,
        {
            let ghost prev = self.output_steps@;
            self.output_steps.push(out_steps[i5]);
            proof {
                assert forall|j: int| mid.output_steps@.len() <= j < self.output_steps@.len()
                    implies (#[trigger] self.output_steps@[j])
                        == out_steps@[j - mid.output_steps@.len()] by {
                    if j < prev.len() {
                        vstd::seq::axiom_seq_push_index_different(prev, out_steps@[i5 as int], j);
                    } else {
                        vstd::seq::axiom_seq_push_index_same(prev, out_steps@[i5 as int], j);
                    }
                }
            }
            i5 = i5 + 1;
        }
        let ghost oldp = *old(self);
        self.stages.push(Stage { inputs, num_outputs: n_out });
        proof {
            let newp = *self;
            assert(newp.stages@ == oldp.stages@.push(newp.stages@.last()));
            lemma_outputs_before_push(oldp.stages@, newp.stages@.last(), oldp.stages@.len() as int);
            assert(outputs_before(newp.stages@, newp.stages@.len() as int)
                == outputs_before(oldp.stages@, oldp.stages@.len() as int) + n_out);
            assert forall|i: int| 0 <= i < newp.output_steps@.len()
                implies (#[trigger] newp.output_steps@[i]) < newp.steps@.len() by {
                if i < oldp.output_steps@.len() {
                    assert(newp.output_steps@[i] == oldp.output_steps@[i]);
                } else {
                    assert(newp.output_steps@[i] == out_steps@[i - oldp.output_steps@.len()]);
                }
            }
        }
    }

    /// The per-stage output counts, in stage order.
    pub fn stage_sizes(&self) -> (r: Vec<usize>)
        ensures
            r@.len() == self.stages@.len(),
            forall|i: int| 0 <= i < r@.len()
                ==> r@[i] == (#[trigger] self.stages@[i]).num_outputs,
    {
        let n = self.stages.len();
        let mut r: Vec<usize> = Vec::new();
        let mut i: usize = 0;
        while i < n
            invariant
                n == self.stages@.len(),
                i <= n,
                r@.len() == i,
                forall|j: int| 0 <= j < i ==> r@[j] == (#[trigger] self.stages@[j]).num_outputs,
            decreases n - i,
        {
            r.push(self.stages[i].num_outputs);
            i = i + 1;
        }
        r
    }

    /// How many inputs the given stage declares.
    pub fn num_stage_inputs(&self, n: usize) -> (r: usize)
        requires
            n < self.stages@.len(),
        ensures
            r == self.stages@[n as int].inputs@.len(),
    {
        self.stages[n].inputs.len()
    }

    /// The argument step indices of one step, in order.
    pub fn step_args_of(&self, step_idx: usize) -> (r: Vec<usize>)
        requires
            self.wf(),
            step_idx < self.steps@.len(),
        ensures
            r@.len() == self.steps@[step_idx as int].args_end - args_start(*self, step_idx as int),
            forall|j: int| 0 <= j < r@.len()
                ==> (#[trigger] r@[j]) == self.step_args@[args_start(*self, step_idx as int) + j]
                    && r@[j] < step_idx,
    {
        let args_end = self.steps[step_idx].args_end;
        let start: usize = if step_idx == 0 {
            0
        } else {
            self.steps[step_idx - 1].args_end
        };
        let mut r: Vec<usize> = Vec::new();
        let mut j: usize = start;
        while j < args_end
            invariant
                self.wf(),
                step_idx < self.steps@.len(),
                start == args_start(*self, step_idx as int),
                args_end == self.steps@[step_idx as int].args_end,
                start <= j <= args_end,
                args_end <= self.step_args@.len(),
                r@.len() == j - start,
                forall|q: int| 0 <= q < r@.len()
                    ==> (#[trigger] r@[q]) == self.step_args@[start + q] && r@[q] < step_idx,
            decreases args_end - j,
        {
            r.push(self.step_args[j]);
            j = j + 1;
        }
        r
    }
}

/// Whether every term of a list is well-formed.
fn check_terms(ts: &Vec<Term>) -> (r: bool)
    ensures
        r == terms_all_wf(ts@),
{
    let n = ts.len();
    let mut i: usize = 0;
    while i < n
        invariant
            i <= n,
            n == ts@.len(),
            forall|j: int| 0 <= j < i ==> term_wf(#[trigger] ts@[j]),
        decreases n - i,
    {
        let ok = ts[i].check_wf();
        if !ok {
            return false;
        }
        i = i + 1;
    }
    true
}


/// Topological validity: in a well-formed program every argument of
/// step `k` is the index of an earlier step, and every output step
/// index points at an existing step.
pub proof fn lemma_topological_validity(prog: SwcProgram)
    requires
        prog.wf(),
    ensures
        forall|k: int, j: int| #![trigger prog.steps@[k], prog.step_args@[j]]
            0 <= k < prog.steps@.len()
            && args_start(prog, k) <= j < prog.steps@[k].args_end
            ==> prog.step_args@[j] < k,
        forall|i: int| 0 <= i < prog.output_steps@.len()
            ==> (#[trigger] prog.output_steps@[i]) < prog.steps@.len(),
{
}

} // verus!
