//! The stage-by-stage evaluator of a witness computation.
//!
//! The evaluator is a forward-only coroutine over stages: each call
//! takes the inputs one stage declares, extends the variable
//! environment, computes every step up to the highest step the stage's
//! outputs need — each step exactly once, in index order — and hands
//! back the stage's outputs. A step's slot, once written, never
//! changes. After the last stage the evaluator is done.

use vstd::prelude::*;
use crate::env::{VarMap, bindings_map, bindings_unique};
use crate::errors::BridgeError;
use crate::op::{eval_op, eval_op_spec, eval_op_err_is_missing, op_view};
use crate::swc::{SwcProgram, TermV, args_of, outputs_before, decls_view, step_denotes,
    lemma_outputs_before_mono, lemma_decls_view};
use crate::value::{Value, ValueV, SortV, value_view, value_views, value_wf, values_wf,
    spec_has_sort, lemma_value_views, lemma_values_wf_elem, lemma_values_wf_intro};

verus! {

broadcast use vstd::seq::group_seq_axioms;

/// What step `k` yields, given the values of all earlier steps and the
/// variable environment.
pub open spec fn step_eval(prog: SwcProgram, env: Map<Seq<char>, ValueV>, vals: Seq<ValueV>, k: int)
    -> Option<ValueV> {
    eval_op_spec(
        op_view(prog.steps@[k].op),
        Seq::new(args_of(prog, k).len(), |j: int| vals[args_of(prog, k)[j]]),
        env,
    )
}

/// Runs the steps from `vals.len()` through `upto`, extending `vals`
/// one value per step; a failing step ends the run with a code, 1 for a
/// missing variable and 3 for a domain error.
pub open spec fn eval_run(prog: SwcProgram, env: Map<Seq<char>, ValueV>, vals: Seq<ValueV>, upto: int)
    -> Result<Seq<ValueV>, int>
    decreases upto + 1 - vals.len(),
{
    if vals.len() > upto {
        Ok(vals)
    } else {
        match step_eval(prog, env, vals, vals.len() as int) {
            Some(v) => eval_run(prog, env, vals.push(v), upto),
            None => Err(
                if eval_op_err_is_missing(
                    op_view(prog.steps@[vals.len() as int].op),
                    Seq::new(args_of(prog, vals.len() as int).len(),
                        |j: int| vals[args_of(prog, vals.len() as int)[j]]),
                    env,
                ) {
                    1int
                } else {
                    3int
                },
            ),
        }
    }
}

/// The evaluation of a term under a variable environment: its
/// subterms' values, handed to its operator.
pub open spec fn term_eval(t: TermV, env: Map<Seq<char>, ValueV>) -> Option<ValueV>
    decreases t,
{
    match terms_eval(t.args, env) {
        Some(argvals) => eval_op_spec(t.op, argvals, env),
        None => None,
    }
}

pub open spec fn terms_eval(ts: Seq<TermV>, env: Map<Seq<char>, ValueV>) -> Option<Seq<ValueV>>
    decreases ts,
{
    if ts.len() == 0 {
        Some(Seq::empty())
    } else {
        match (terms_eval(ts.drop_last(), env), term_eval(ts.last(), env)) {
            (Some(rest), Some(v)) => Some(rest.push(v)),
            _ => None,
        }
    }
}

/// Pointwise introduction for a list of term evaluations.
proof fn lemma_terms_eval_intro(ts: Seq<TermV>, env: Map<Seq<char>, ValueV>, vs: Seq<ValueV>)
    requires
        ts.len() == vs.len(),
        forall|j: int| 0 <= j < ts.len() ==> term_eval(#[trigger] ts[j], env) == Some(vs[j]),
    ensures
        terms_eval(ts, env) == Some(vs),
    decreases ts,
{
    if ts.len() > 0 {
        assert(forall|j: int| 0 <= j < ts.drop_last().len()
            ==> term_eval(#[trigger] ts.drop_last()[j], env) == Some(vs.drop_last()[j]));
        lemma_terms_eval_intro(ts.drop_last(), env, vs.drop_last());
        assert(vs.drop_last().push(vs.last()) =~= vs);
    }
}

/// The builder and the evaluator agree: in a state where every computed
/// step value satisfies the step relation under one environment, each
/// step's value is the evaluation of the term that step denotes.
pub proof fn lemma_step_values_denote(
    prog: SwcProgram,
    env: Map<Seq<char>, ValueV>,
    vals: Seq<ValueV>,
    k: int,
)
    requires
        prog.wf(),
        vals.len() <= prog.steps@.len(),
        0 <= k < vals.len(),
        forall|q: int| 0 <= q < vals.len()
            ==> Some(vals[q]) == step_eval(prog, env, vals.take(q), q),
    ensures
        term_eval(step_denotes(prog, k), env) == Some(vals[k]),
    decreases k,
{
    let av = args_of(prog, k);
    let argvals = Seq::new(av.len(), |j: int| vals.take(k)[av[j]]);
    let dt = step_denotes(prog, k);
    assert(Some(vals[k]) == step_eval(prog, env, vals.take(k), k));
    assert forall|j: int| 0 <= j < dt.args.len()
        implies term_eval(#[trigger] dt.args[j], env) == Some(argvals[j]) by {
        assert(0 <= av[j] < k);
        assert(dt.args[j] == step_denotes(prog, av[j]));
        lemma_step_values_denote(prog, env, vals, av[j]);
        assert(vals.take(k)[av[j]] == vals[av[j]]);
    }
    lemma_terms_eval_intro(dt.args, env, argvals);
    assert(term_eval(dt, env) == eval_op_spec(dt.op, argvals, env));
    assert(step_eval(prog, env, vals.take(k), k)
        == eval_op_spec(op_view(prog.steps@[k].op), argvals, env));
}

/// Whatever occurs inside an evaluable term is itself evaluable: with
/// the builder's pinning of every added step to a subterm of some
/// output, evaluability of the output terms covers every step.
pub proof fn lemma_subterm_eval(s: TermV, t: TermV, env: Map<Seq<char>, ValueV>)
    requires
        crate::swc::is_subterm(s, t),
        term_eval(t, env) is Some,
    ensures
        term_eval(s, env) is Some,
    decreases t,
{
    if s != t {
        lemma_subterm_eval_any(s, t.args, env);
    }
}

proof fn lemma_subterm_eval_any(s: TermV, ts: Seq<TermV>, env: Map<Seq<char>, ValueV>)
    requires
        crate::swc::subterm_of_any(s, ts),
        terms_eval(ts, env) is Some,
    ensures
        term_eval(s, env) is Some,
    decreases ts,
{
    if crate::swc::subterm_of_any(s, ts.drop_last()) {
        lemma_subterm_eval_any(s, ts.drop_last(), env);
    } else {
        lemma_subterm_eval(s, ts.last(), env);
    }
}

/// A run completes when every step it must take denotes a term that
/// evaluates: with the builder's step pinning, a program built from
/// evaluable terms never fails a step.
pub proof fn lemma_eval_run_completes(
    prog: SwcProgram,
    env: Map<Seq<char>, ValueV>,
    vals: Seq<ValueV>,
    upto: int,
)
    requires
        prog.wf(),
        vals.len() <= prog.steps@.len(),
        upto < prog.steps@.len(),
        forall|q: int| 0 <= q < vals.len()
            ==> Some(vals[q]) == step_eval(prog, env, vals.take(q), q),
        forall|k: int| 0 <= k <= upto
            ==> (#[trigger] term_eval(step_denotes(prog, k), env)) is Some,
    ensures
        eval_run(prog, env, vals, upto) is Ok,
    decreases upto + 1 - vals.len(),
{
    if vals.len() <= upto {
        let k = vals.len() as int;
        let av = args_of(prog, k);
        let argvals = Seq::new(av.len(), |j: int| vals[av[j]]);
        let dt = step_denotes(prog, k);
        assert forall|j: int| 0 <= j < dt.args.len()
            implies term_eval(#[trigger] dt.args[j], env) == Some(argvals[j]) by {
            assert(0 <= av[j] < k);
            assert(dt.args[j] == step_denotes(prog, av[j]));
            lemma_step_values_denote(prog, env, vals, av[j]);
            assert(vals.take(k)[av[j]] == vals[av[j]]);
        }
        lemma_terms_eval_intro(dt.args, env, argvals);
        assert(term_eval(dt, env) == eval_op_spec(dt.op, argvals, env));
        assert(term_eval(dt, env) is Some);
        assert(vals.take(k) =~= vals);
        assert(step_eval(prog, env, vals, k)
            == eval_op_spec(op_view(prog.steps@[k].op), argvals, env));
        let v = step_eval(prog, env, vals, k)->Some_0;
        assert forall|q: int| 0 <= q < vals.push(v).len()
            implies Some(vals.push(v)[q]) == step_eval(prog, env, vals.push(v).take(q), q) by {
            assert(vals.push(v).take(q) =~= vals.take(q));
            if q < vals.len() {
                assert(vals.push(v)[q] == vals[q]);
            } else {
                assert(vals.push(v)[q] == v);
                assert(vals.take(q) =~= vals);
            }
        }
        lemma_eval_run_completes(prog, env, vals.push(v), upto);
    }
}

/// A finished run is consistent: each of its values satisfies the step
/// relation over the values before it.
/// Extending a consistent prefix by the next step's value keeps it
/// consistent.
proof fn lemma_consistent_push(
    prog: SwcProgram,
    env: Map<Seq<char>, ValueV>,
    vals: Seq<ValueV>,
    v: ValueV,
)
    requires
        forall|q: int| 0 <= q < vals.len()
            ==> Some(vals[q]) == step_eval(prog, env, vals.take(q), q),
        Some(v) == step_eval(prog, env, vals, vals.len() as int),
    ensures
        forall|q: int| 0 <= q < vals.push(v).len()
            ==> Some(vals.push(v)[q]) == step_eval(prog, env, vals.push(v).take(q), q),
{
    assert forall|q: int| 0 <= q < vals.push(v).len()
        implies Some(vals.push(v)[q]) == step_eval(prog, env, vals.push(v).take(q), q) by {
        assert(vals.push(v).take(q) =~= vals.take(q));
        if q < vals.len() {
            assert(vals.push(v)[q] == vals[q]);
        } else {
            assert(vals.push(v)[q] == v);
            assert(vals.take(q) =~= vals);
        }
    }
}

#[verifier::rlimit(100)]
pub proof fn lemma_eval_run_consistent(
    prog: SwcProgram,
    env: Map<Seq<char>, ValueV>,
    vals: Seq<ValueV>,
    upto: int,
    res: Seq<ValueV>,
)
    requires
        eval_run(prog, env, vals, upto) == Ok::<Seq<ValueV>, int>(res),
        forall|q: int| 0 <= q < vals.len()
            ==> Some(vals[q]) == step_eval(prog, env, vals.take(q), q),
    ensures
        res.take(vals.len() as int) == vals,
        forall|q: int| 0 <= q < res.len()
            ==> Some(res[q]) == step_eval(prog, env, res.take(q), q),
    decreases upto + 1 - vals.len(),
{
    if vals.len() > upto {
        assert(vals.take(vals.len() as int) =~= vals);
    } else {
        let k = vals.len() as int;
        let v = step_eval(prog, env, vals, k)->Some_0;
        assert(vals.take(k) =~= vals);
        lemma_consistent_push(prog, env, vals, v);
        lemma_eval_run_consistent(prog, env, vals.push(v), upto, res);
        let l = vals.len() as int;
        assert(res.take(l + 1) == vals.push(v));
        lemma_eval_run_len(prog, env, vals, upto, res);
        assert(l + 1 <= res.len());
        assert forall|q: int| 0 <= q < l implies res.take(l)[q] == vals[q] by {
            assert(res.take(l)[q] == res[q]);
            assert(res.take(l + 1)[q] == res[q]);
            assert(vals.push(v)[q] == vals[q]);
        }
        assert(res.take(l) =~= vals);
    }
}

/// The scenario workhorse: over a program whose every step sits under
/// one of the given terms — what the stage builder guarantees — and an
/// environment in which those terms evaluate, a fresh run completes
/// and each step's value is the evaluation of the term it denotes.
pub proof fn lemma_run_yields_term_evals(
    prog: SwcProgram,
    env: Map<Seq<char>, ValueV>,
    ts: Seq<TermV>,
    upto: int,
)
    requires
        prog.wf(),
        0 <= upto < prog.steps@.len(),
        forall|k: int| 0 <= k < prog.steps@.len()
            ==> exists|i: int| 0 <= i < ts.len()
                && crate::swc::is_subterm(#[trigger] step_denotes(prog, k), ts[i]),
        forall|i: int| 0 <= i < ts.len()
            ==> (#[trigger] term_eval(ts[i], env)) is Some,
    ensures
        eval_run(prog, env, Seq::empty(), upto) matches Ok(res)
            && res.len() == upto + 1
            && forall|k: int| 0 <= k < res.len()
                ==> Some(res[k]) == term_eval(step_denotes(prog, k), env),
{
    assert forall|k: int| 0 <= k <= upto
        implies (#[trigger] term_eval(step_denotes(prog, k), env)) is Some by {
        let i = choose|i: int| 0 <= i < ts.len()
            && crate::swc::is_subterm(#[trigger] step_denotes(prog, k), ts[i]);
        lemma_subterm_eval(step_denotes(prog, k), ts[i], env);
    }
    lemma_eval_run_completes(prog, env, Seq::empty(), upto);
    let res = eval_run(prog, env, Seq::empty(), upto)->Ok_0;
    lemma_eval_run_consistent(prog, env, Seq::empty(), upto, res);
    assert(res.len() == upto + 1) by {
        lemma_eval_run_len(prog, env, Seq::empty(), upto, res);
    }
    assert forall|k: int| 0 <= k < res.len()
        implies Some(res[k]) == term_eval(step_denotes(prog, k), env) by {
        lemma_step_values_denote(prog, env, res, k);
    }
}

/// A successful run from nothing reaches exactly one past its target.
proof fn lemma_eval_run_len(
    prog: SwcProgram,
    env: Map<Seq<char>, ValueV>,
    vals: Seq<ValueV>,
    upto: int,
    res: Seq<ValueV>,
)
    requires
        eval_run(prog, env, vals, upto) == Ok::<Seq<ValueV>, int>(res),
    ensures
        res.len() == if vals.len() > upto { vals.len() as int } else { upto + 1 },
    decreases upto + 1 - vals.len(),
{
    if vals.len() <= upto {
        let v = step_eval(prog, env, vals, vals.len() as int)->Some_0;
        lemma_eval_run_len(prog, env, vals.push(v), upto, res);
    }
}

/// The highest step among `num` output steps starting at `ob`; -1 when
/// there are none.
pub open spec fn win_max(prog: SwcProgram, ob: int, num: int) -> int
    decreases num,
{
    if num <= 0 {
        -1
    } else {
        let m = win_max(prog, ob, num - 1);
        let x = prog.output_steps@[ob + num - 1] as int;
        if x > m {
            x
        } else {
            m
        }
    }
}

/// Every output step of the window is bounded by the window's maximum.
pub proof fn lemma_win_max_ge(prog: SwcProgram, ob: int, num: int, i: int)
    requires
        0 <= i < num,
    ensures
        prog.output_steps@[ob + i] <= win_max(prog, ob, num),
    decreases num,
{
    if i < num - 1 {
        lemma_win_max_ge(prog, ob, num - 1, i);
    }
}

/// The environment after binding the declared inputs, in declaration
/// order, to their values in the given input map.
pub open spec fn env_extend(
    envm: Map<Seq<char>, ValueV>,
    decls: Seq<(Seq<char>, SortV)>,
    im: Map<Seq<char>, ValueV>,
) -> Map<Seq<char>, ValueV>
    decreases decls,
{
    if decls.len() == 0 {
        envm
    } else {
        env_extend(envm, decls.drop_last(), im).insert(decls.last().0, im[decls.last().0])
    }
}

/// The first problem a declared-input scan finds: 0 for none, 1 for a
/// missing input, 2 for a value of the wrong sort or a malformed value.
pub open spec fn decl_scan(decls: Seq<(Seq<char>, SortV)>, im: Map<Seq<char>, ValueV>) -> int
    decreases decls,
{
    if decls.len() == 0 {
        0
    } else if !im.contains_key(decls[0].0) {
        1
    } else if !(value_wf(im[decls[0].0]) && spec_has_sort(im[decls[0].0], decls[0].1)) {
        2
    } else {
        decl_scan(decls.skip(1), im)
    }
}

/// The scan verdict is one of its three codes.
pub proof fn lemma_decl_scan_range(decls: Seq<(Seq<char>, SortV)>, im: Map<Seq<char>, ValueV>)
    ensures
        decl_scan(decls, im) == 0 || decl_scan(decls, im) == 1 || decl_scan(decls, im) == 2,
    decreases decls,
{
    if decls.len() > 0 {
        lemma_decl_scan_range(decls.skip(1), im);
    }
}

/// A failing run reports one of its two codes.
pub proof fn lemma_eval_run_err_range(prog: SwcProgram, env: Map<Seq<char>, ValueV>, vals: Seq<ValueV>, upto: int)
    ensures
        eval_run(prog, env, vals, upto) matches Err(c) ==> c == 1 || c == 3,
    decreases upto + 1 - vals.len(),
{
    if vals.len() <= upto {
        match step_eval(prog, env, vals, vals.len() as int) {
            Some(v) => {
                lemma_eval_run_err_range(prog, env, vals.push(v), upto);
            },
            None => {},
        }
    }
}

/// The declared names are mutually distinct.
pub open spec fn decls_unique(decls: Seq<(Seq<char>, SortV)>) -> bool {
    forall|i: int, j: int| 0 <= i < j < decls.len() ==> decls[i].0 != decls[j].0
}

/// A declared name is already bound in the environment.
pub open spec fn decls_clash(decls: Seq<(Seq<char>, SortV)>, envm: Map<Seq<char>, ValueV>) -> bool {
    exists|i: int| 0 <= i < decls.len() && envm.contains_key((#[trigger] decls[i]).0)
}

/// Evaluates a staged witness computation, stage by stage.
pub struct Evaluator<'a> {
    /// The program under evaluation.
    pub comp: &'a SwcProgram,
    /// The variable environment accumulated over the stages so far.
    pub env: VarMap,
    /// The value of each evaluated step, in step order.
    pub step_values: Vec<Value>,
    /// How many stages have been evaluated.
    pub stages_evaluated: usize,
    /// How many outputs the evaluated stages have yielded.
    pub outputs_evaluated: usize,
}

impl<'a> Evaluator<'a> {
    /// The evaluator's invariant over its program.
    pub open spec fn wf(self) -> bool {
        &&& self.comp.wf()
        &&& self.env.wf()
        &&& values_wf(value_views(self.step_values@))
        &&& self.stages_evaluated <= self.comp.stages@.len()
        &&& self.outputs_evaluated
            == outputs_before(self.comp.stages@, self.stages_evaluated as int)
        &&& self.step_values@.len() <= self.comp.steps@.len()
    }

    /// A fresh evaluator over a program.
    pub fn new(comp: &'a SwcProgram) -> (r: Evaluator<'a>)
        requires
            comp.wf(),
        ensures
            r.wf(),
            r.comp == comp,
            r.env.view_map() == Map::<Seq<char>, ValueV>::empty(),
            r.step_values@.len() == 0,
            r.stages_evaluated == 0,
            r.outputs_evaluated == 0,
    {
        Evaluator {
            comp,
            env: VarMap::new(),
            step_values: Vec::new(),
            stages_evaluated: 0,
            outputs_evaluated: 0,
        }
    }

    /// Whether every stage has been evaluated.
    pub fn is_done(&self) -> (r: bool)
        ensures
            r == (self.stages_evaluated == self.comp.stages@.len()),
    {
        self.stages_evaluated == self.comp.stages.len()
    }

    /// Evaluates the next step, appending its value.
    fn eval_step(&mut self) -> (r: Result<(), BridgeError>)
        requires
            old(self).wf(),
            old(self).step_values@.len() < old(self).comp.steps@.len(),
        ensures
            final(self).wf(),
            final(self).comp == old(self).comp,
            final(self).env == old(self).env,
            final(self).stages_evaluated == old(self).stages_evaluated,
            final(self).outputs_evaluated == old(self).outputs_evaluated,
            match r {
                Ok(()) => {
                    &&& final(self).step_values@.len() == old(self).step_values@.len() + 1
                    &&& final(self).step_values@.drop_last() == old(self).step_values@
                    &&& value_views(final(self).step_values@)
                        == value_views(old(self).step_values@).push(
                            value_views(final(self).step_values@).last())
                    &&& Some(value_views(final(self).step_values@).last())
                        == step_eval(*old(self).comp, old(self).env.view_map(),
                            value_views(old(self).step_values@),
                            old(self).step_values@.len() as int)
                },
                Err(e) => {
                    &&& final(self).step_values@ == old(self).step_values@
                    &&& step_eval(*old(self).comp, old(self).env.view_map(),
                        value_views(old(self).step_values@),
                        old(self).step_values@.len() as int) is None
                    &&& {
                        let k = old(self).step_values@.len() as int;
                        let missing = eval_op_err_is_missing(
                            op_view(old(self).comp.steps@[k].op),
                            Seq::new(args_of(*old(self).comp, k).len(),
                                |j: int| value_views(old(self).step_values@)[
                                    args_of(*old(self).comp, k)[j]]),
                            old(self).env.view_map());
                        if missing { e is MissingInput } else { e is EvalDomainError }
                    }
                },
            },
    {
        let next = self.step_values.len();
        let ghost vals = value_views(self.step_values@);
        let ghost argidx = args_of(*self.comp, next as int);
        proof {
            lemma_value_views(self.step_values@);
        }
        let idxs = self.comp.step_args_of(next);
        let mut args: Vec<Value> = Vec::new();
        let mut j: usize = 0;
        proof {
            assert(argidx.len() == idxs@.len());
        }
        while j < idxs.len()
            invariant
                j <= idxs@.len(),
                self.wf(),
                next == self.step_values@.len(),
                next < self.comp.steps@.len(),
                vals == value_views(self.step_values@),
                argidx == args_of(*self.comp, next as int),
                argidx.len() == idxs@.len(),
                forall|q: int| 0 <= q < idxs@.len()
                    ==> (#[trigger] idxs@[q]) < next && idxs@[q] == argidx[q],
                args@.len() == j,
                forall|q: int| 0 <= q < j
                    ==> value_view(#[trigger] args@[q]) == vals[argidx[q]],
            decreases idxs@.len() - j,
        {
            proof {
                lemma_value_views(self.step_values@);
            }
            let a = self.step_values[idxs[j]].dup();
            args.push(a);
            j = j + 1;
        }
        let ghost argvals = Seq::new(argidx.len(), |q: int| vals[argidx[q]]);
        proof {
            lemma_value_views(args@);
            assert forall|q: int| 0 <= q < args@.len()
                implies value_views(args@)[q] == argvals[q] by {
                assert(value_views(args@)[q] == value_view(args@[q]));
                assert(value_view(args@[q]) == vals[argidx[q]]);
            }
            assert(value_views(args@) =~= argvals);
            assert forall|q: int| 0 <= q < value_views(args@).len()
                implies value_wf(#[trigger] value_views(args@)[q]) by {
                assert(value_views(args@)[q] == vals[argidx[q]]);
                lemma_values_wf_elem(vals, argidx[q]);
            }
            lemma_values_wf_intro(value_views(args@));
        }
        let v = match eval_op(&self.comp.steps[next].op, args, &self.env) {
            Ok(v) => v,
            Err(e) => {
                return Err(e);
            },
        };
        let ghost vview = value_view(v);
        let ghost prevv = self.step_values@;
        self.step_values.push(v);
        proof {
            assert(self.step_values@.drop_last() =~= prevv);
            assert(self.step_values@.last() == v);
            assert(value_views(self.step_values@) == value_views(prevv).push(vview));
            assert(value_views(self.step_values@).last() == vview);
            assert(value_views(self.step_values@).drop_last() =~= vals);
            assert forall|q: int| 0 <= q < value_views(self.step_values@).len()
                implies value_wf(#[trigger] value_views(self.step_values@)[q]) by {
                if q < vals.len() {
                    assert(value_views(self.step_values@)[q] == vals[q]);
                    lemma_values_wf_elem(vals, q);
                } else {
                    assert(value_views(self.step_values@)[q] == vview);
                }
            }
            lemma_values_wf_intro(value_views(self.step_values@));
        }
        Ok(())
    }
}


/// A clean scan means every declared input is present, well-formed and
/// of its declared sort.
pub proof fn lemma_decl_scan_ok(decls: Seq<(Seq<char>, SortV)>, im: Map<Seq<char>, ValueV>)
    requires
        decl_scan(decls, im) == 0,
    ensures
        forall|i: int| 0 <= i < decls.len()
            ==> im.contains_key((#[trigger] decls[i]).0)
                && value_wf(im[decls[i].0])
                && spec_has_sort(im[decls[i].0], decls[i].1),
    decreases decls,
{
    if decls.len() > 0 {
        lemma_decl_scan_ok(decls.skip(1), im);
        assert forall|i: int| 0 <= i < decls.len()
            implies im.contains_key((#[trigger] decls[i]).0)
                && value_wf(im[decls[i].0])
                && spec_has_sort(im[decls[i].0], decls[i].1) by {
            if i > 0 {
                assert(decls.skip(1)[i - 1] == decls[i]);
            }
        }
    }
}

impl<'a> Evaluator<'a> {
    /// Checks the inputs offered to the next stage against its declared
    /// inputs: names unique and fresh, every declared input present,
    /// well-formed and of its sort, nothing extra.
    #[verifier::loop_isolation(false)]
    #[verifier::rlimit(60)]
    fn check_stage_inputs(&self, inputs: &Vec<(String, Value)>) -> (r: Result<(), BridgeError>)
        requires
            self.wf(),
            self.stages_evaluated < self.comp.stages@.len(),
        ensures
            ({
                let stage = self.comp.stages@[self.stages_evaluated as int];
                let decls = decls_view(stage.inputs@);
                let im = bindings_map(inputs@);
                let envm0 = self.env.view_map();
                match r {
                    Ok(()) => {
                        &&& bindings_unique(inputs@)
                        &&& decls_unique(decls)
                        &&& !decls_clash(decls, envm0)
                        &&& decl_scan(decls, im) == 0
                        &&& inputs@.len() == decls.len()
                    },
                    Err(e) => {
                        if !(bindings_unique(inputs@) && decls_unique(decls)
                            && !decls_clash(decls, envm0)) {
                            e is DuplicateInput
                        } else if decl_scan(decls, im) == 1 {
                            e is MissingInput
                        } else if decl_scan(decls, im) == 2 {
                            e is SortMismatch
                        } else {
                            e is MissingInput && inputs@.len() != decls.len()
                        }
                    },
                }
            }),
    {
        let comp = self.comp;
        let stage_idx = self.stages_evaluated;
        let ghost decls = decls_view(comp.stages@[stage_idx as int].inputs@);
        let ghost im = bindings_map(inputs@);
        proof {
            lemma_decls_view(comp.stages@[stage_idx as int].inputs@);
        }
        // Names in the offered map must be unique for it to be a map.
        let n_in = inputs.len();
        let mut i: usize = 0;
        while i < n_in
            invariant
                i <= n_in,
                forall|a: int, b: int| 0 <= a < b < i ==> inputs@[a].0@ != inputs@[b].0@,
            decreases n_in - i,
        {
            let mut j: usize = 0;
            while j < i
                invariant
                    j <= i,
                    forall|b: int| 0 <= b < j ==> inputs@[b].0@ != inputs@[i as int].0@,
                decreases i - j,
            {
                if crate::trusted::str_eq(inputs[j].0.as_str(), inputs[i].0.as_str()) {
                    return Err(BridgeError::DuplicateInput);
                }
                j = j + 1;
            }
            i = i + 1;
        }
        // Declared names must be distinct and unused.
        let n_decl = comp.stages[stage_idx].inputs.len();
        let mut i2: usize = 0;
        while i2 < n_decl
            invariant
                i2 <= n_decl,
                forall|a: int, b: int| 0 <= a < b < i2 ==> decls[a].0 != decls[b].0,
                forall|a: int| 0 <= a < i2 ==> !self.env.view_map().contains_key((#[trigger] decls[a]).0),
            decreases n_decl - i2,
        {
            let mut j2: usize = 0;
            while j2 < i2
                invariant
                    j2 <= i2,
                    forall|b: int| 0 <= b < j2 ==> decls[b].0 != decls[i2 as int].0,
                decreases i2 - j2,
            {
                if crate::trusted::str_eq(
                    comp.stages[stage_idx].inputs[j2].0.as_str(),
                    comp.stages[stage_idx].inputs[i2].0.as_str(),
                ) {
                    return Err(BridgeError::DuplicateInput);
                }
                j2 = j2 + 1;
            }
            if self.env.contains(comp.stages[stage_idx].inputs[i2].0.as_str()) {
                return Err(BridgeError::DuplicateInput);
            }
            i2 = i2 + 1;
        }
        // Scan the declared inputs in order.
        proof {
            assert(decls.skip(0) =~= decls);
        }
        let mut i3: usize = 0;
        while i3 < n_decl
            invariant
                i3 <= n_decl,
                decl_scan(decls, im) == decl_scan(decls.skip(i3 as int), im),
            decreases n_decl - i3,
        {
            proof {
                assert(decls.skip(i3 as int)[0] == decls[i3 as int]);
                assert(decls.skip(i3 as int).skip(1) =~= decls.skip(i3 as int + 1));
            }
            let found = find_input(inputs, comp.stages[stage_idx].inputs[i3].0.as_str());
            match found {
                None => {
                    return Err(BridgeError::MissingInput);
                },
                Some(idx) => {
                    let ok_wf = inputs[idx].1.check_wf();
                    let ok_sort = inputs[idx].1.has_sort(&comp.stages[stage_idx].inputs[i3].1);
                    if !(ok_wf && ok_sort) {
                        return Err(BridgeError::SortMismatch);
                    }
                },
            }
            i3 = i3 + 1;
        }
        proof {
            assert(decls.skip(n_decl as int) =~= Seq::<(Seq<char>, SortV)>::empty());
        }
        // Nothing beyond the declared inputs may be offered.
        if inputs.len() != n_decl {
            return Err(BridgeError::MissingInput);
        }
        Ok(())
    }

    /// Binds the checked inputs of the next stage, in declaration order.
    #[verifier::loop_isolation(false)]
    #[verifier::rlimit(60)]
    fn bind_stage_inputs(&mut self, inputs: &Vec<(String, Value)>)
        requires
            old(self).wf(),
            old(self).stages_evaluated < old(self).comp.stages@.len(),
            bindings_unique(inputs@),
            decls_unique(decls_view(old(self).comp.stages@[old(self).stages_evaluated as int].inputs@)),
            !decls_clash(
                decls_view(old(self).comp.stages@[old(self).stages_evaluated as int].inputs@),
                old(self).env.view_map()),
            decl_scan(
                decls_view(old(self).comp.stages@[old(self).stages_evaluated as int].inputs@),
                bindings_map(inputs@)) == 0,
        ensures
            final(self).wf(),
            final(self).comp == old(self).comp,
            final(self).step_values@ == old(self).step_values@,
            final(self).stages_evaluated == old(self).stages_evaluated,
            final(self).outputs_evaluated == old(self).outputs_evaluated,
            final(self).env.view_map() == env_extend(
                old(self).env.view_map(),
                decls_view(old(self).comp.stages@[old(self).stages_evaluated as int].inputs@),
                bindings_map(inputs@)),
            final(self).env.entries@.len() >= old(self).env.entries@.len(),
            final(self).env.entries@.take(old(self).env.entries@.len() as int)
                == old(self).env.entries@,
    {
        let comp = self.comp;
        let stage_idx = self.stages_evaluated;
        let ghost decls = decls_view(comp.stages@[stage_idx as int].inputs@);
        let ghost im = bindings_map(inputs@);
        let ghost envm0 = self.env.view_map();
        proof {
            lemma_decls_view(comp.stages@[stage_idx as int].inputs@);
            lemma_decl_scan_ok(decls, im);
        }
        let n_decl = comp.stages[stage_idx].inputs.len();
        proof {
            assert(decls.take(0) =~= Seq::<(Seq<char>, SortV)>::empty());
        }
        let mut i: usize = 0;
        while i < n_decl
            invariant
                i <= n_decl,
                self.comp == old(self).comp,
                self.step_values@ == old(self).step_values@,
                self.stages_evaluated == old(self).stages_evaluated,
                self.outputs_evaluated == old(self).outputs_evaluated,
                self.env.wf(),
                self.env.view_map() == env_extend(envm0, decls.take(i as int), im),
                forall|a: int| i <= a < n_decl
                    ==> !self.env.view_map().contains_key((#[trigger] decls[a]).0),
                self.env.entries@.len() >= old(self).env.entries@.len(),
                self.env.entries@.take(old(self).env.entries@.len() as int)
                    == old(self).env.entries@,
            decreases n_decl - i,
        {
            let found = find_input(inputs, comp.stages[stage_idx].inputs[i].0.as_str());
            let idx = match found {
                Some(idx) => idx,
                None => {
                    proof {
                        assert(false);
                    }
                    0
                },
            };
            let name = comp.stages[stage_idx].inputs[i].0.as_str().to_owned();
            let value = inputs[idx].1.dup();
            let ghost prev_entries = self.env.entries@;
            self.env.insert(name, value);
            proof {
                assert(decls.take(i as int + 1).drop_last() =~= decls.take(i as int));
                assert(decls.take(i as int + 1).last() == decls[i as int]);
                assert(self.env.view_map() == env_extend(envm0, decls.take(i as int + 1), im));
                assert(self.env.entries@.take(old(self).env.entries@.len() as int)
                    =~= prev_entries.take(old(self).env.entries@.len() as int));
                assert forall|a: int| i + 1 <= a < n_decl
                    implies !self.env.view_map().contains_key((#[trigger] decls[a]).0) by {
                    assert(decls[a].0 != decls[i as int].0);
                }
            }
            i = i + 1;
        }
        proof {
            assert(decls.take(n_decl as int) =~= decls);
        }
    }
}

/// The position of a name in an input list with unique names.
fn find_input(inputs: &Vec<(String, Value)>, name: &str) -> (r: Option<usize>)
    requires
        bindings_unique(inputs@),
    ensures
        match r {
            Some(i) => i < inputs@.len() && inputs@[i as int].0@ == name@
                && bindings_map(inputs@).contains_key(name@)
                && bindings_map(inputs@)[name@] == value_view(inputs@[i as int].1),
            None => !bindings_map(inputs@).contains_key(name@),
        },
{
    let n = inputs.len();
    let mut i: usize = 0;
    while i < n
        invariant
            i <= n,
            n == inputs@.len(),
            bindings_unique(inputs@),
            forall|j: int| 0 <= j < i ==> inputs@[j].0@ != name@,
        decreases n - i,
    {
        if crate::trusted::str_eq(inputs[i].0.as_str(), name) {
            proof {
                crate::env::lemma_bindings_map_get(inputs@, name@);
            }
            return Some(i);
        }
        i = i + 1;
    }
    proof {
        crate::env::lemma_bindings_map_get(inputs@, name@);
    }
    None
}


impl<'a> Evaluator<'a> {
    /// The highest step index among the next stage's output steps.
    fn window_max(&self, ob: usize, num: usize) -> (r: usize)
        requires
            self.wf(),
            num > 0,
            ob + num <= self.comp.output_steps@.len(),
        ensures
            r as int == win_max(*self.comp, ob as int, num as int),
            r < self.comp.steps@.len(),
    {
        let total = self.comp.output_steps.len();
        let mut m: usize = self.comp.output_steps[ob];
        proof {
            assert(win_max(*self.comp, ob as int, 0) == -1);
        }
        let mut i: usize = 1;
        while i < num
            invariant
                1 <= i <= num,
                self.wf(),
                num > 0,
                total == self.comp.output_steps@.len(),
                ob + num <= total,
                m as int == win_max(*self.comp, ob as int, i as int),
                m < self.comp.steps@.len(),
            decreases num - i,
        {
            let x = self.comp.output_steps[ob + i];
            if x > m {
                m = x;
            }
            i = i + 1;
        }
        m
    }

    /// Evaluates every step from the first unevaluated one through
    /// `mx`, in order, each exactly once.
    #[verifier::loop_isolation(false)]
    #[verifier::rlimit(100)]
    fn run_steps(&mut self, mx: usize) -> (r: Result<(), BridgeError>)
        requires
            old(self).wf(),
            mx < old(self).comp.steps@.len(),
        ensures
            final(self).wf(),
            final(self).comp == old(self).comp,
            final(self).env == old(self).env,
            final(self).stages_evaluated == old(self).stages_evaluated,
            final(self).outputs_evaluated == old(self).outputs_evaluated,
            ({
                let run = eval_run(*old(self).comp, old(self).env.view_map(),
                    value_views(old(self).step_values@), mx as int);
                match r {
                    Ok(()) => {
                        &&& run == Ok::<Seq<ValueV>, int>(value_views(final(self).step_values@))
                        &&& final(self).step_values@.len()
                            == if old(self).step_values@.len() > mx {
                                old(self).step_values@.len() as int
                            } else {
                                mx + 1
                            }
                        &&& forall|k: int| 0 <= k < old(self).step_values@.len()
                            ==> final(self).step_values@[k] == old(self).step_values@[k]
                    },
                    Err(e) => {
                        &&& final(self).step_values@ == old(self).step_values@
                        &&& run matches Err(c)
                            && (if c == 1 { e is MissingInput } else { e is EvalDomainError })
                    },
                }
            }),
    {
        let ghost vals0 = value_views(old(self).step_values@);
        let ghost envm = old(self).env.view_map();
        let n0 = self.step_values.len();
        while self.step_values.len() <= mx
            invariant
                self.wf(),
                self.comp == old(self).comp,
                self.env == old(self).env,
                self.stages_evaluated == old(self).stages_evaluated,
                self.outputs_evaluated == old(self).outputs_evaluated,
                n0 == old(self).step_values@.len(),
                self.step_values@.len() >= n0,
                self.step_values@.take(n0 as int) == old(self).step_values@,
                self.step_values@.len() <= mx + 1 || self.step_values@.len() == n0,
                eval_run(*self.comp, envm, value_views(self.step_values@), mx as int)
                    == eval_run(*self.comp, envm, vals0, mx as int),
            decreases mx + 1 - self.step_values@.len(),
        {
            let ghost cur = value_views(self.step_values@);
            let ghost prev_vec = self.step_values@;
            proof {
                lemma_value_views(prev_vec);
            }
            match self.eval_step() {
                Ok(()) => {
                    proof {
                        let last = value_views(self.step_values@).last();
                        assert(value_views(self.step_values@) == cur.push(last));
                        assert(cur.len() <= mx);
                        assert(step_eval(*self.comp, envm, cur, cur.len() as int) == Some(last));
                        assert(eval_run(*self.comp, envm, cur, mx as int)
                            == eval_run(*self.comp, envm, cur.push(last), mx as int));
                        assert(self.step_values@.drop_last() == prev_vec);
                        assert(self.step_values@.take(n0 as int)
                            =~= self.step_values@.drop_last().take(n0 as int));
                    }
                },
                Err(e) => {
                    proof {
                        assert(eval_run(*self.comp, envm, cur, mx as int) matches Err(c)
                            && (if c == 1 { e is MissingInput } else { e is EvalDomainError }));
                    }
                    self.step_values.truncate(n0);
                    proof {
                        assert(self.step_values@ =~= old(self).step_values@);
                    }
                    return Err(e);
                },
            }
        }
        proof {
            lemma_value_views(self.step_values@);
            assert(value_views(self.step_values@).len() > mx);
            assert(eval_run(*self.comp, envm, value_views(self.step_values@), mx as int)
                == Ok::<Seq<ValueV>, int>(value_views(self.step_values@)));
            if n0 <= mx {
                assert(self.step_values@.len() == mx + 1);
            }
            assert forall|k: int| 0 <= k < n0
                implies self.step_values@[k] == old(self).step_values@[k] by {
                assert(self.step_values@.take(n0 as int)[k] == self.step_values@[k]);
            }
        }
        Ok(())
    }

    /// Evaluates the next stage: checks and binds its inputs, computes
    /// every step its outputs reach — each exactly once, in index
    /// order — and returns the stage's output values in declaration
    /// order. On any failure the evaluator is left as it was.
    #[verifier::loop_isolation(false)]
    #[verifier::rlimit(100)]
    pub fn eval_stage(&mut self, inputs: Vec<(String, Value)>) -> (r: Result<Vec<Value>, BridgeError>)
        requires
            old(self).wf(),
            old(self).stages_evaluated < old(self).comp.stages@.len(),
        ensures
            final(self).wf(),
            final(self).comp == old(self).comp,
            ({
                let stage = old(self).comp.stages@[old(self).stages_evaluated as int];
                let decls = decls_view(stage.inputs@);
                let im = bindings_map(inputs@);
                let envm0 = old(self).env.view_map();
                let envm1 = env_extend(envm0, decls, im);
                let ob0 = old(self).outputs_evaluated as int;
                let num = stage.num_outputs as int;
                let n0 = old(self).step_values@.len() as int;
                let mx = win_max(*old(self).comp, ob0, num);
                match r {
                    Ok(out) => {
                        &&& bindings_unique(inputs@)
                        &&& decls_unique(decls)
                        &&& !decls_clash(decls, envm0)
                        &&& decl_scan(decls, im) == 0
                        &&& inputs@.len() == decls.len()
                        &&& final(self).env.view_map() == envm1
                        &&& final(self).stages_evaluated == old(self).stages_evaluated + 1
                        &&& final(self).outputs_evaluated == ob0 + num
                        &&& (num == 0 ==> final(self).step_values@ == old(self).step_values@)
                        &&& (num > 0 ==> eval_run(*old(self).comp, envm1,
                                value_views(old(self).step_values@), mx)
                            == Ok::<Seq<ValueV>, int>(value_views(final(self).step_values@)))
                        &&& final(self).step_values@.len() >= n0
                        &&& forall|k: int| 0 <= k < n0
                            ==> final(self).step_values@[k] == old(self).step_values@[k]
                        &&& (num > 0 && mx >= n0 ==> final(self).step_values@.len() > n0)
                        &&& out@.len() == num
                        &&& forall|i: int| 0 <= i < num
                            ==> (((#[trigger] old(self).comp.output_steps@[ob0 + i]) as int)
                                < final(self).step_values@.len())
                        &&& forall|i: int| 0 <= i < num
                            ==> value_view(#[trigger] out@[i])
                                == value_views(final(self).step_values@)[
                                    old(self).comp.output_steps@[ob0 + i] as int]
                    },
                    Err(e) => {
                        &&& final(self).env.view_map() == envm0
                        &&& final(self).step_values@ == old(self).step_values@
                        &&& final(self).stages_evaluated == old(self).stages_evaluated
                        &&& final(self).outputs_evaluated == old(self).outputs_evaluated
                        &&& if !(bindings_unique(inputs@) && decls_unique(decls)
                            && !decls_clash(decls, envm0)) {
                            e is DuplicateInput
                        } else if decl_scan(decls, im) == 1 {
                            e is MissingInput
                        } else if decl_scan(decls, im) == 2 {
                            e is SortMismatch
                        } else if inputs@.len() != decls.len() {
                            e is MissingInput
                        } else {
                            num > 0
                                && (eval_run(*old(self).comp, envm1,
                                    value_views(old(self).step_values@), mx) matches Err(c)
                                    && (if c == 1 { e is MissingInput } else { e is EvalDomainError }))
                        }
                    },
                }
            }),
    {
        match self.check_stage_inputs(&inputs) {
            Err(e) => {
                return Err(e);
            },
            Ok(()) => {},
        }
        let env_len0 = self.env.len();
        self.bind_stage_inputs(&inputs);
        let stage_idx = self.stages_evaluated;
        let num = self.comp.stages[stage_idx].num_outputs;
        let ob0 = self.outputs_evaluated;
        let total = self.comp.output_steps.len();
        let n_stages = self.comp.stages.len();
        proof {
            assert(outputs_before(self.comp.stages@, stage_idx + 1)
                == ob0 + num);
            lemma_outputs_before_mono(self.comp.stages@, stage_idx + 1,
                self.comp.stages@.len() as int);
            assert(ob0 + num <= total);
            assert(stage_idx < n_stages);
        }
        if num > 0 {
            let mx = self.window_max(ob0, num);
            match self.run_steps(mx) {
                Err(e) => {
                    self.env.truncate_to(env_len0);
                    proof {
                        assert(self.env.entries@ =~= old(self).env.entries@);
                    }
                    return Err(e);
                },
                Ok(()) => {
                    proof {
                        lemma_value_views(self.step_values@);
                        assert forall|i: int| 0 <= i < num
                            implies (#[trigger] self.comp.output_steps@[ob0 + i])
                                < self.step_values@.len() by {
                            lemma_win_max_ge(*self.comp, ob0 as int, num as int, i);
                        }
                    }
                },
            }
        }
        let mut out: Vec<Value> = Vec::new();
        let mut i: usize = 0;
        proof {
            lemma_value_views(self.step_values@);
        }
        while i < num
            invariant
                i <= num,
                ob0 + num <= total,
                total == self.comp.output_steps@.len(),
                num > 0 ==> forall|q: int| 0 <= q < num
                    ==> (#[trigger] self.comp.output_steps@[ob0 + q])
                        < self.step_values@.len(),
                out@.len() == i,
                forall|q: int| 0 <= q < i
                    ==> value_view(#[trigger] out@[q])
                        == value_views(self.step_values@)[
                            self.comp.output_steps@[ob0 + q] as int],
            decreases num - i,
        {
            let oidx = self.comp.output_steps[ob0 + i];
            proof {
                lemma_value_views(self.step_values@);
            }
            let v = self.step_values[oidx].dup();
            out.push(v);
            i = i + 1;
        }
        proof {
            assert(ob0 + num <= total);
            assert(stage_idx < n_stages);
        }
        self.outputs_evaluated = ob0 + num;
        self.stages_evaluated = stage_idx + 1;
        Ok(out)
    }
}

} // verus!
