//! The prover and verifier drivers.
//!
//! A prove run is a straight line: guard the field modulus, evaluate
//! the witness program stage by stage over the input map, place the
//! resulting field values on the constraint variables, renumber and
//! emit the matrices, refuse an unsatisfied system, then hand the
//! scheme its generators, instance, assignments and transcript. A
//! verify run evaluates only the public-input program, encodes the
//! inputs identically, and replays the transcript under the same
//! domain-separation label.

use vstd::prelude::*;
use crate::bytes::le_val;
use crate::env::{bindings_unique, bindings_map};
use crate::errors::BridgeError;
use crate::eval::Evaluator;
use crate::field::{FieldElem, nizk_modulus, nizk_modulus_seq, nizk_modulus_val};
use crate::r1cs::{R1cs, Var, satisfied, field_vals, values_match, lemma_matrix_bounds,
    lemma_counts_sum, matrix_matches};
use crate::swc::{SwcProgram, decls_view, lemma_decls_view, outputs_before};
use crate::r1cs::{matrix, wit_count, inst_count, is_wit};
use crate::trusted::{InstanceHandle, GensHandle, SchemeAssignment, ProofHandle, new_assignment,
    new_instance, new_gens, transcript_new, nizk_prove, nizk_verify, entries_canonical};
use crate::value::{Value, value_view, value_wf, value_views, lemma_value_views,
    lemma_values_wf_elem};

verus! {

broadcast use vstd::seq::group_seq_axioms;

/// Everything a prover run is bootstrapped from: the constraint system
/// and the witness computation that fills it.
pub struct ProverData {
    pub r1cs: R1cs,
    pub swc: SwcProgram,
}

impl ProverData {
    pub open spec fn wf(self) -> bool {
        self.r1cs.wf() && self.swc.wf()
    }
}

/// Everything a verifier run is bootstrapped from: the public
/// variables and the program slice that computes only them.
pub struct VerifierData {
    /// The field modulus the instance was built over.
    pub modulus: Vec<u8>,
    /// The public constraint variables, in renumbered order.
    pub vars: Vec<Var>,
    /// The program computing the public inputs, in that order.
    pub public_swc: SwcProgram,
}

impl VerifierData {
    pub open spec fn wf(self) -> bool {
        self.modulus@.len() == 32 && le_val(self.modulus@) >= 2 && self.public_swc.wf()
    }
}

/// A name is declared by some input of a stage.
pub open spec fn decl_named(decls: Seq<(Seq<char>, crate::value::SortV)>, k: Seq<char>) -> bool {
    exists|j: int| 0 <= j < decls.len() && (#[trigger] decls[j]).0 == k
}

/// The given map, restricted to the declared names of one stage.
pub open spec fn restrict_to(
    im: Map<Seq<char>, crate::value::ValueV>,
    decls: Seq<(Seq<char>, crate::value::SortV)>,
) -> Map<Seq<char>, crate::value::ValueV> {
    Map::new(|k: Seq<char>| im.contains_key(k) && decl_named(decls, k), |k: Seq<char>| im[k])
}

/// One full run of a program over one named input map: the composition
/// of the per-stage contract, stage by stage. Failure codes: 1 for a
/// missing input, 2 for a sort mismatch, 3 for a domain error, 4 for a
/// duplicate or clashing name.
pub open spec fn run_stages(
    prog: SwcProgram,
    im: Map<Seq<char>, crate::value::ValueV>,
    s: int,
    envm: Map<Seq<char>, crate::value::ValueV>,
    vals: Seq<crate::value::ValueV>,
) -> Result<(Map<Seq<char>, crate::value::ValueV>, Seq<crate::value::ValueV>), int>
    decreases prog.stages@.len() - s,
{
    if s < 0 || s >= prog.stages@.len() {
        Ok((envm, vals))
    } else {
        let decls = decls_view(prog.stages@[s].inputs@);
        let sim = restrict_to(im, decls);
        if !(crate::eval::decls_unique(decls) && !crate::eval::decls_clash(decls, envm)) {
            Err(4)
        } else if crate::eval::decl_scan(decls, sim) == 1 {
            Err(1)
        } else if crate::eval::decl_scan(decls, sim) == 2 {
            Err(2)
        } else {
            let envm2 = crate::eval::env_extend(envm, decls, sim);
            let num = prog.stages@[s].num_outputs as int;
            if num == 0 {
                run_stages(prog, im, s + 1, envm2, vals)
            } else {
                match crate::eval::eval_run(prog, envm2, vals,
                    crate::eval::win_max(prog, outputs_before(prog.stages@, s), num)) {
                    Ok(vals2) => run_stages(prog, im, s + 1, envm2, vals2),
                    Err(c) => Err(c),
                }
            }
        }
    }
}

/// Two maps that agree on the declared names give one scan verdict.
proof fn lemma_scan_map_agree(
    decls: Seq<(Seq<char>, crate::value::SortV)>,
    m1: Map<Seq<char>, crate::value::ValueV>,
    m2: Map<Seq<char>, crate::value::ValueV>,
)
    requires
        forall|k: Seq<char>| decl_named(decls, k)
            ==> (#[trigger] m1.contains_key(k)) == m2.contains_key(k)
                && (m1.contains_key(k) ==> m1[k] == m2[k]),
    ensures
        crate::eval::decl_scan(decls, m1) == crate::eval::decl_scan(decls, m2),
    decreases decls,
{
    if decls.len() > 0 {
        assert(decl_named(decls, decls[0].0));
        assert forall|k: Seq<char>| decl_named(decls.skip(1), k)
            implies (#[trigger] m1.contains_key(k)) == m2.contains_key(k)
                && (m1.contains_key(k) ==> m1[k] == m2[k]) by {
            let j = choose|j: int| 0 <= j < decls.skip(1).len()
                && (#[trigger] decls.skip(1)[j]).0 == k;
            assert(decls[j + 1].0 == k);
            assert(decl_named(decls, k));
        }
        lemma_scan_map_agree(decls.skip(1), m1, m2);
    }
}

/// Two maps that agree on the declared names, all present, extend an
/// environment identically.
proof fn lemma_extend_map_agree(
    envm: Map<Seq<char>, crate::value::ValueV>,
    decls: Seq<(Seq<char>, crate::value::SortV)>,
    m1: Map<Seq<char>, crate::value::ValueV>,
    m2: Map<Seq<char>, crate::value::ValueV>,
)
    requires
        forall|k: Seq<char>| decl_named(decls, k)
            ==> (#[trigger] m1.contains_key(k)) && m2.contains_key(k) && m1[k] == m2[k],
    ensures
        crate::eval::env_extend(envm, decls, m1) == crate::eval::env_extend(envm, decls, m2),
    decreases decls,
{
    if decls.len() > 0 {
        assert(decl_named(decls, decls.last().0));
        assert forall|k: Seq<char>| decl_named(decls.drop_last(), k)
            implies (#[trigger] m1.contains_key(k)) && m2.contains_key(k) && m1[k] == m2[k] by {
            let j = choose|j: int| 0 <= j < decls.drop_last().len()
                && (#[trigger] decls.drop_last()[j]).0 == k;
            assert(decls[j].0 == k);
            assert(decl_named(decls, k));
        }
        lemma_extend_map_agree(envm, decls.drop_last(), m1, m2);
        assert(m1.contains_key(decls.last().0));
        assert(m1[decls.last().0] == m2[decls.last().0]);
        assert(crate::eval::env_extend(envm, decls, m1)
            == crate::eval::env_extend(envm, decls.drop_last(), m1)
                .insert(decls.last().0, m1[decls.last().0]));
        assert(crate::eval::env_extend(envm, decls, m2)
            == crate::eval::env_extend(envm, decls.drop_last(), m2)
                .insert(decls.last().0, m2[decls.last().0]));
    }
}

/// Picks out of the provided map the entries one stage declares, in
/// declaration order; what comes back denotes exactly the provided
/// map restricted to the declared names.
#[verifier::loop_isolation(false)]
#[verifier::rlimit(100)]
fn project_stage(prog: &SwcProgram, s: usize, provided: &Vec<(String, Value)>)
    -> (r: Vec<(String, Value)>)
    requires
        s < prog.stages@.len(),
        bindings_unique(provided@),
    ensures
        ({
            let decls = decls_view(prog.stages@[s as int].inputs@);
            let im = bindings_map(provided@);
            let pim = bindings_map(r@);
            crate::eval::decls_unique(decls) ==> {
                &&& bindings_unique(r@)
                &&& forall|k: Seq<char>| #[trigger] pim.contains_key(k)
                    <==> (decl_named(decls, k) && im.contains_key(k))
                &&& forall|k: Seq<char>| #[trigger] pim.contains_key(k) ==> pim[k] == im[k]
                &&& (forall|j: int| 0 <= j < decls.len()
                        ==> im.contains_key((#[trigger] decls[j]).0))
                    ==> r@.len() == decls.len()
            }
        }),
{
    let ghost decls = decls_view(prog.stages@[s as int].inputs@);
    let ghost im = bindings_map(provided@);
    proof {
        lemma_decls_view(prog.stages@[s as int].inputs@);
    }
    let n_decl = prog.stages[s].inputs.len();
    let mut proj: Vec<(String, Value)> = Vec::new();
    let mut d: usize = 0;
    while d < n_decl
        invariant
            d <= n_decl,
            n_decl == decls.len(),
            forall|a: int| 0 <= a < proj@.len()
                ==> exists|j: int| 0 <= j < d && (#[trigger] proj@[a]).0@ == decls[j].0
                    && im.contains_key(decls[j].0)
                    && value_view(proj@[a].1) == im[decls[j].0],
            forall|j: int| 0 <= j < d && im.contains_key((#[trigger] decls[j]).0)
                ==> exists|a: int| 0 <= a < proj@.len() && (#[trigger] proj@[a]).0@ == decls[j].0,
            crate::eval::decls_unique(decls)
                ==> forall|a: int, b: int| 0 <= a < b < proj@.len()
                    ==> proj@[a].0@ != proj@[b].0@,
            crate::eval::decls_unique(decls)
                && (forall|j: int| 0 <= j < d ==> im.contains_key((#[trigger] decls[j]).0))
                ==> proj@.len() == d,
        decreases n_decl - d,
    {
        let name = prog.stages[s].inputs[d].0.as_str();
        let ghost before = proj@;
        match find_in(provided, name) {
            Some(idx) => {
                let copied = provided[idx].1.dup();
                proj.push((name.to_owned(), copied));
                proof {
                    assert(proj@.len() == before.len() + 1);
                    assert(proj@[before.len() as int].0@ == decls[d as int].0);
                    assert(value_view(proj@[before.len() as int].1) == im[decls[d as int].0]);
                    assert(forall|a: int| 0 <= a < before.len()
                        ==> proj@[a] == before[a]);
                    if crate::eval::decls_unique(decls) {
                        assert forall|a: int, b: int| 0 <= a < b < proj@.len()
                            implies proj@[a].0@ != proj@[b].0@ by {
                            if b == proj@.len() - 1 {
                                let j = choose|j: int| 0 <= j < d
                                    && (#[trigger] proj@[a]).0@ == decls[j].0
                                    && im.contains_key(decls[j].0)
                                    && value_view(proj@[a].1) == im[decls[j].0];
                                assert(decls[j].0 != decls[d as int].0);
                            }
                        }
                    }
                }
            },
            None => {},
        }
        d = d + 1;
    }
    proof {
        let pim = bindings_map(proj@);
        if crate::eval::decls_unique(decls) {
            assert forall|k: Seq<char>| #[trigger] pim.contains_key(k)
                implies (decl_named(decls, k) && im.contains_key(k)) && pim[k] == im[k] by {
                crate::env::lemma_bindings_map_get(proj@, k);
                let a = choose|a: int| 0 <= a < proj@.len() && (#[trigger] proj@[a]).0@ == k;
                let j = choose|j: int| 0 <= j < n_decl && (#[trigger] proj@[a]).0@ == decls[j].0
                    && im.contains_key(decls[j].0)
                    && value_view(proj@[a].1) == im[decls[j].0];
                assert(decl_named(decls, k));
            }
            assert forall|k: Seq<char>| decl_named(decls, k) && im.contains_key(k)
                implies #[trigger] pim.contains_key(k) by {
                let j = choose|j: int| 0 <= j < decls.len() && (#[trigger] decls[j]).0 == k;
                let a = choose|a: int| 0 <= a < proj@.len()
                    && (#[trigger] proj@[a]).0@ == decls[j].0;
                crate::env::lemma_bindings_map_get(proj@, k);
            }
        }
    }
    proj
}

/// Advances the evaluator by one stage over the provided map: projects
/// the stage's declared inputs out of the map and evaluates. The step
/// taken is exactly one unfolding of `run_stages`.
#[verifier::loop_isolation(false)]
#[verifier::rlimit(100)]
fn advance_stage<'a>(ev: &mut Evaluator<'a>, prog: &'a SwcProgram, provided: &Vec<(String, Value)>)
    -> (r: Result<Vec<Value>, BridgeError>)
    requires
        old(ev).wf(),
        old(ev).comp == prog,
        prog.wf(),
        old(ev).stages_evaluated < prog.stages@.len(),
        bindings_unique(provided@),
    ensures
        final(ev).wf(),
        final(ev).comp == prog,
        ({
            let im = bindings_map(provided@);
            let s = old(ev).stages_evaluated as int;
            let vals0 = crate::value::value_views(old(ev).step_values@);
            match r {
                Ok(out) => {
                    &&& final(ev).stages_evaluated == old(ev).stages_evaluated + 1
                    &&& final(ev).outputs_evaluated as int == old(ev).outputs_evaluated
                        + prog.stages@[s].num_outputs
                    &&& run_stages(*prog, im, s, old(ev).env.view_map(), vals0)
                        == run_stages(*prog, im, s + 1, final(ev).env.view_map(),
                            crate::value::value_views(final(ev).step_values@))
                    &&& final(ev).step_values@.len() >= old(ev).step_values@.len()
                    &&& forall|k: int| 0 <= k < old(ev).step_values@.len()
                        ==> final(ev).step_values@[k] == old(ev).step_values@[k]
                    &&& out@.len() == prog.stages@[s].num_outputs
                    &&& forall|i: int| 0 <= i < out@.len()
                        ==> (((#[trigger] prog.output_steps@[old(ev).outputs_evaluated + i]) as int)
                            < final(ev).step_values@.len())
                    &&& forall|i: int| 0 <= i < out@.len()
                        ==> value_view(#[trigger] out@[i])
                            == crate::value::value_views(final(ev).step_values@)[
                                prog.output_steps@[old(ev).outputs_evaluated + i] as int]
                    &&& forall|i: int| 0 <= i < out@.len()
                        ==> value_wf(value_view(#[trigger] out@[i]))
                },
                Err(e) => run_stages(*prog, im, s, old(ev).env.view_map(), vals0) matches Err(c)
                    && (if c == 1 { e is MissingInput }
                        else if c == 2 { e is SortMismatch }
                        else if c == 3 { e is EvalDomainError }
                        else { e is DuplicateInput }),
            }
        }),
{
    let ghost im = bindings_map(provided@);
    let s = ev.stages_evaluated;
    let ghost env0 = ev.env.view_map();
    let ghost pre_vec = ev.step_values@;
    let ghost vals0 = crate::value::value_views(pre_vec);
    let ghost decls = decls_view(prog.stages@[s as int].inputs@);
    let ghost sim = restrict_to(im, decls);
    proof {
        lemma_value_views(pre_vec);
    }
    let proj = project_stage(prog, s, provided);
    let ghost pim = bindings_map(proj@);
    proof {
        if crate::eval::decls_unique(decls) {
            assert forall|k: Seq<char>| decl_named(decls, k)
                implies (#[trigger] pim.contains_key(k)) == sim.contains_key(k)
                    && (pim.contains_key(k) ==> pim[k] == sim[k]) by {
                assert(sim.contains_key(k) == (im.contains_key(k) && decl_named(decls, k)));
            }
            lemma_scan_map_agree(decls, pim, sim);
            if crate::eval::decl_scan(decls, sim) == 0 {
                crate::eval::lemma_decl_scan_ok(decls, sim);
                assert forall|k: Seq<char>| decl_named(decls, k)
                    implies (#[trigger] pim.contains_key(k)) && sim.contains_key(k)
                        && pim[k] == sim[k] by {
                    let j = choose|j: int| 0 <= j < decls.len()
                        && (#[trigger] decls[j]).0 == k;
                    assert(sim.contains_key(decls[j].0));
                    assert(sim.contains_key(k));
                    assert(im.contains_key(k));
                }
                lemma_extend_map_agree(env0, decls, pim, sim);
                assert forall|j: int| 0 <= j < decls.len()
                    implies im.contains_key((#[trigger] decls[j]).0) by {
                    assert(decl_named(decls, decls[j].0));
                    assert(sim.contains_key(decls[j].0));
                }
                assert(proj@.len() == decls.len());
            }
        }
    }
    match ev.eval_stage(proj) {
        Ok(out) => {
            proof {
                let fv = crate::value::value_views(ev.step_values@);
                lemma_value_views(ev.step_values@);
                assert(run_stages(*prog, im, s as int, env0, vals0)
                    == run_stages(*prog, im, s as int + 1, ev.env.view_map(), fv));
                assert forall|i: int| 0 <= i < out@.len()
                    implies value_wf(value_view(#[trigger] out@[i])) by {
                    lemma_values_wf_elem(fv,
                        prog.output_steps@[old(ev).outputs_evaluated + i] as int);
                }
            }
            Ok(out)
        },
        Err(e) => {
            proof {
                if !(crate::eval::decls_unique(decls)
                    && !crate::eval::decls_clash(decls, env0)) {
                    assert(run_stages(*prog, im, s as int, env0, vals0)
                        == Err::<(Map<Seq<char>, crate::value::ValueV>, Seq<crate::value::ValueV>), int>(4));
                    assert(e is DuplicateInput);
                } else {
                    assert(bindings_unique(proj@));
                    assert(crate::eval::decl_scan(decls, pim)
                        == crate::eval::decl_scan(decls, sim));
                    if crate::eval::decl_scan(decls, sim) == 1 {
                        assert(run_stages(*prog, im, s as int, env0, vals0)
                            == Err::<(Map<Seq<char>, crate::value::ValueV>, Seq<crate::value::ValueV>), int>(1));
                        assert(e is MissingInput);
                    } else if crate::eval::decl_scan(decls, sim) == 2 {
                        assert(run_stages(*prog, im, s as int, env0, vals0)
                            == Err::<(Map<Seq<char>, crate::value::ValueV>, Seq<crate::value::ValueV>), int>(2));
                        assert(e is SortMismatch);
                    } else {
                        crate::eval::lemma_decl_scan_range(decls, sim);
                        assert(crate::eval::decl_scan(decls, sim) == 0);
                        assert(proj@.len() == decls.len());
                        assert(crate::eval::env_extend(env0, decls, pim)
                            == crate::eval::env_extend(env0, decls, sim));
                        assert(prog.stages@[s as int].num_outputs > 0
                            && (crate::eval::eval_run(*prog,
                                crate::eval::env_extend(env0, decls, sim), vals0,
                                crate::eval::win_max(*prog,
                                    outputs_before(prog.stages@, s as int),
                                    prog.stages@[s as int].num_outputs as int))
                                matches Err(c)
                                && (if c == 1 { e is MissingInput }
                                    else { e is EvalDomainError })));
                        crate::eval::lemma_eval_run_err_range(*prog,
                            crate::eval::env_extend(env0, decls, sim), vals0,
                            crate::eval::win_max(*prog,
                                outputs_before(prog.stages@, s as int),
                                prog.stages@[s as int].num_outputs as int));
                        assert(run_stages(*prog, im, s as int, env0, vals0)
                            matches Err(cc) && (cc == 1 || cc == 3));
                    }
                }
            }
            Err(e)
        },
    }
}

/// Runs every stage of a program over one named input map, handing
/// each stage the declared subset, and concatenates the stage outputs.
/// The whole run is pinned to `run_stages`: on success the values are
/// the run's values at the program's output steps, in order, and each
/// failure carries the kind of the first violated condition.
#[verifier::loop_isolation(false)]
#[verifier::rlimit(100)]
pub fn eval_all(prog: &SwcProgram, provided: &Vec<(String, Value)>)
    -> (r: Result<Vec<Value>, BridgeError>)
    requires
        prog.wf(),
    ensures
        r matches Err(e) ==> e is DuplicateInput || e is MissingInput
            || e is SortMismatch || e is EvalDomainError,
        r matches Ok(vals) ==> vals@.len() == prog.output_steps@.len()
            && forall|i: int| 0 <= i < vals@.len()
                ==> value_wf(value_view(#[trigger] vals@[i])),
        ({
            let im = bindings_map(provided@);
            if !bindings_unique(provided@) {
                r matches Err(e) && e is DuplicateInput
            } else {
                match run_stages(*prog, im, 0, Map::empty(), Seq::empty()) {
                    Ok(st) => r matches Ok(vals)
                        && (forall|i: int| 0 <= i < vals@.len()
                            ==> value_view(#[trigger] vals@[i])
                                == st.1[prog.output_steps@[i] as int]),
                    Err(c) => r matches Err(e)
                        && (if c == 1 { e is MissingInput }
                            else if c == 2 { e is SortMismatch }
                            else if c == 3 { e is EvalDomainError }
                            else { e is DuplicateInput }),
                }
            }
        }),
{
    let ghost im = bindings_map(provided@);
    // The provided map must have unique names to be a map at all.
    let n_prov = provided.len();
    let mut a: usize = 0;
    while a < n_prov
        invariant
            a <= n_prov,
            forall|x: int, y: int| 0 <= x < y < a ==> provided@[x].0@ != provided@[y].0@,
        decreases n_prov - a,
    {
        let mut b: usize = 0;
        while b < a
            invariant
                b <= a,
                forall|y: int| 0 <= y < b ==> provided@[y].0@ != provided@[a as int].0@,
            decreases a - b,
        {
            if crate::trusted::str_eq(provided[b].0.as_str(), provided[a].0.as_str()) {
                return Err(BridgeError::DuplicateInput);
            }
            b = b + 1;
        }
        a = a + 1;
    }
    let mut ev = Evaluator::new(prog);
    let mut collected: Vec<Value> = Vec::new();
    let n_stages = prog.stages.len();
    let mut s: usize = 0;
    while s < n_stages
        invariant
            s <= n_stages,
            n_stages == prog.stages@.len(),
            ev.wf(),
            ev.comp == prog,
            ev.stages_evaluated == s,
            collected@.len() == ev.outputs_evaluated,
            forall|i: int| 0 <= i < collected@.len()
                ==> value_wf(value_view(#[trigger] collected@[i])),
            forall|i: int| 0 <= i < collected@.len()
                ==> (((#[trigger] prog.output_steps@[i]) as int) < ev.step_values@.len()),
            forall|i: int| 0 <= i < collected@.len()
                ==> value_view(#[trigger] collected@[i])
                    == crate::value::value_views(ev.step_values@)[prog.output_steps@[i] as int],
            bindings_unique(provided@),
            run_stages(*prog, im, 0, Map::empty(), Seq::empty())
                == run_stages(*prog, im, s as int, ev.env.view_map(),
                    crate::value::value_views(ev.step_values@)),
        decreases n_stages - s,
    {
        let ghost pre_vec = ev.step_values@;
        let ghost vals0 = crate::value::value_views(pre_vec);
        let ghost ob0 = ev.outputs_evaluated as int;
        proof {
            lemma_value_views(pre_vec);
        }
        let mut out = match advance_stage(&mut ev, prog, provided) {
            Ok(out) => out,
            Err(e) => {
                return Err(e);
            },
        };
        proof {
            let fv = crate::value::value_views(ev.step_values@);
            lemma_value_views(ev.step_values@);
            // Earlier collected outputs still name the same slots.
            assert forall|i: int| 0 <= i < collected@.len()
                implies value_view(#[trigger] collected@[i])
                    == fv[prog.output_steps@[i] as int] by {
                let oidx = prog.output_steps@[i] as int;
                assert(oidx < vals0.len());
                assert(ev.step_values@[oidx] == pre_vec[oidx]);
                assert(fv[oidx] == value_view(ev.step_values@[oidx]));
                assert(vals0[oidx] == value_view(pre_vec[oidx]));
            }
        }
        let ghost before = collected@;
        let ghost out_pre = out@;
        collected.append(&mut out);
        proof {
            assert(collected@ == before + out_pre);
            assert forall|i: int| 0 <= i < collected@.len()
                implies value_wf(value_view(#[trigger] collected@[i])) by {
                if i < before.len() {
                    assert(collected@[i] == before[i]);
                } else {
                    assert(collected@[i] == out_pre[i - before.len()]);
                }
            }
            assert forall|i: int| 0 <= i < collected@.len()
                implies (((#[trigger] prog.output_steps@[i]) as int) < ev.step_values@.len()) by {
                if i >= before.len() {
                    let i2 = i - before.len();
                    assert(before.len() == ob0);
                    assert(((prog.output_steps@[ob0 + i2]) as int)
                        < ev.step_values@.len());
                    assert(ob0 + i2 == i);
                }
            }
            assert forall|i: int| 0 <= i < collected@.len()
                implies value_view(#[trigger] collected@[i])
                    == crate::value::value_views(ev.step_values@)[prog.output_steps@[i] as int] by {
                if i < before.len() {
                    assert(collected@[i] == before[i]);
                } else {
                    let i2 = i - before.len();
                    assert(collected@[i] == out_pre[i2]);
                    assert(before.len() == ob0);
                    assert(value_view(out_pre[i2])
                        == crate::value::value_views(ev.step_values@)[
                            prog.output_steps@[ob0 + i2] as int]);
                    assert(ob0 + i2 == i);
                }
            }
        }
        s = s + 1;
    }
    proof {
        assert(ev.outputs_evaluated as int
            == crate::swc::outputs_before(prog.stages@, prog.stages@.len() as int));
    }
    Ok(collected)
}

/// The position of a name in a unique-named binding list.
fn find_in(provided: &Vec<(String, Value)>, name: &str) -> (r: Option<usize>)
    requires
        bindings_unique(provided@),
    ensures
        match r {
            Some(i) => i < provided@.len() && provided@[i as int].0@ == name@
                && bindings_map(provided@).contains_key(name@)
                && bindings_map(provided@)[name@] == value_view(provided@[i as int].1),
            None => !bindings_map(provided@).contains_key(name@),
        },
{
    let n = provided.len();
    let mut i: usize = 0;
    while i < n
        invariant
            i <= n,
            n == provided@.len(),
            bindings_unique(provided@),
            forall|j: int| 0 <= j < i ==> provided@[j].0@ != name@,
        decreases n - i,
    {
        if crate::trusted::str_eq(provided[i].0.as_str(), name) {
            proof {
                crate::env::lemma_bindings_map_get(provided@, name@);
            }
            return Some(i);
        }
        i = i + 1;
    }
    proof {
        crate::env::lemma_bindings_map_get(provided@, name@);
    }
    None
}

/// A value is a field element of the field with the given modulus.
pub open spec fn value_is_field_of(v: crate::value::ValueV, md: Seq<u8>) -> bool {
    v matches crate::value::ValueV::Field(_, m) && m == md
}

/// Places evaluated output values on the constraint variables: one
/// reduced element of the system's field per variable, in order. The
/// result holds exactly the field values, and the call fails exactly
/// when the counts differ or some value is not a field element of the
/// system's field.
#[verifier::loop_isolation(false)]
pub fn values_to_field(r1cs: &R1cs, vals: &Vec<Value>) -> (r: Result<Vec<FieldElem>, BridgeError>)
    requires
        r1cs.wf(),
        forall|i: int| 0 <= i < vals@.len() ==> value_wf(value_view(#[trigger] vals@[i])),
    ensures
        match r {
            Ok(fes) => {
                &&& values_match(*r1cs, fes@)
                &&& vals@.len() == r1cs.vars@.len()
                &&& fes@.len() == vals@.len()
                &&& forall|i: int| 0 <= i < vals@.len()
                    ==> value_view(#[trigger] vals@[i])
                        == crate::value::ValueV::Field(fes@[i].value@, fes@[i].modulus@)
            },
            Err(e) => e is MissingWitnessValue
                && (vals@.len() != r1cs.vars@.len()
                    || exists|i: int| 0 <= i < vals@.len()
                        && !value_is_field_of(value_view(#[trigger] vals@[i]), r1cs.modulus@)),
        },
        (r is Err) == (vals@.len() != r1cs.vars@.len()
            || exists|i: int| 0 <= i < vals@.len()
                && !value_is_field_of(value_view(#[trigger] vals@[i]), r1cs.modulus@)),
{
    if vals.len() != r1cs.vars.len() {
        return Err(BridgeError::MissingWitnessValue);
    }
    let n = vals.len();
    let mut fes: Vec<FieldElem> = Vec::new();
    let mut i: usize = 0;
    while i < n
        invariant
            i <= n,
            fes@.len() == i,
            forall|q: int| 0 <= q < i
                ==> (#[trigger] fes@[q]).wf() && fes@[q].modulus@ == r1cs.modulus@,
            forall|q: int| 0 <= q < i
                ==> value_view(#[trigger] vals@[q])
                    == crate::value::ValueV::Field(fes@[q].value@, fes@[q].modulus@),
        decreases n - i,
    {
        match &vals[i] {
            Value::Field(f) => {
                if f.modulus.len() != 32 {
                    proof {
                        assert(value_wf(value_view(vals@[i as int])));
                        assert(false);
                    }
                    return Err(BridgeError::MissingWitnessValue);
                }
                let same = crate::bytes::le_eq(&f.modulus, &r1cs.modulus);
                if !same {
                    proof {
                        assert(!value_is_field_of(value_view(vals@[i as int]), r1cs.modulus@));
                    }
                    return Err(BridgeError::MissingWitnessValue);
                }
                fes.push(f.dup());
            },
            _ => {
                proof {
                    assert(!value_is_field_of(value_view(vals@[i as int]), r1cs.modulus@));
                }
                return Err(BridgeError::MissingWitnessValue);
            },
        }
        i = i + 1;
    }
    Ok(fes)
}

/// One side of an instance's ghost model matches a mathematical matrix
/// pointwise.
pub open spec fn ghost_matrix_matches(r: Seq<(usize, usize, Seq<u8>)>, m: Seq<(int, int, Seq<u8>)>) -> bool {
    &&& r.len() == m.len()
    &&& forall|k: int| 0 <= k < r.len()
        ==> (#[trigger] r[k]).0 as int == m[k].0 && r[k].1 as int == m[k].1 && r[k].2 == m[k].2
}

/// Translates the symbolic system plus its assignment into the
/// scheme's shape: guards the modulus, refuses an empty system,
/// renumbers, emits the matrices, refuses an unsatisfied assignment,
/// and builds the instance and both assignments. Success is owed
/// exactly when the modulus is the scheme's, the system has
/// constraints, and the assignment satisfies it; the instance then
/// provably holds the system's three matrices, and the two assignments
/// hold the witness and input encodings in renumbered order.
#[verifier::rlimit(100)]
pub fn r1cs_to_spartan(r1cs: &R1cs, values: &Vec<FieldElem>)
    -> (r: Result<(InstanceHandle, SchemeAssignment, SchemeAssignment, usize, usize, usize), BridgeError>)
    requires
        r1cs.wf(),
        values_match(*r1cs, values@),
        r1cs.vars@.len() <= 0x1000_0000,
        r1cs.constraints@.len() <= 0x1000_0000,
    ensures
        match r {
            Ok(t) => {
                &&& r1cs.modulus@ == nizk_modulus_seq()
                &&& r1cs.constraints@.len() > 0
                &&& satisfied(*r1cs, field_vals(values@))
                &&& t.3 as int == r1cs.constraints@.len()
                &&& t.4 as int == r1cs.num_wit()
                &&& t.5 as int == r1cs.num_inst()
                &&& t.0.spec_num_cons() == t.3 && t.0.spec_num_vars() == t.4
                    && t.0.spec_num_inputs() == t.5
                &&& t.1.spec_count() == t.4
                &&& t.2.spec_count() == t.5
                &&& ghost_matrix_matches(t.0.spec_mat_a(),
                    matrix(r1cs.constraints@, 0, r1cs.constraints@.len() as int, r1cs.vars@))
                &&& ghost_matrix_matches(t.0.spec_mat_b(),
                    matrix(r1cs.constraints@, 1, r1cs.constraints@.len() as int, r1cs.vars@))
                &&& ghost_matrix_matches(t.0.spec_mat_c(),
                    matrix(r1cs.constraints@, 2, r1cs.constraints@.len() as int, r1cs.vars@))
                &&& t.1.spec_entries().len() as int == r1cs.num_wit()
                &&& t.2.spec_entries().len() as int == r1cs.num_inst()
                &&& forall|i: int| 0 <= i < r1cs.vars@.len() && is_wit(#[trigger] r1cs.vars@[i])
                    ==> t.1.spec_entries()[wit_count(r1cs.vars@, i)] == values@[i].value@
                &&& forall|i: int| 0 <= i < r1cs.vars@.len() && !is_wit(#[trigger] r1cs.vars@[i])
                    ==> t.2.spec_entries()[inst_count(r1cs.vars@, i)] == values@[i].value@
            },
            Err(e) => {
                if r1cs.modulus@ != nizk_modulus_seq() {
                    e is FieldMismatch
                } else if r1cs.constraints@.len() == 0 {
                    e is EmptyConstraintSystem
                } else {
                    e is UnsatisfiableInstance && !satisfied(*r1cs, field_vals(values@))
                }
            },
        },
{
    let q = nizk_modulus();
    let modulus_ok = crate::bytes::le_eq(&r1cs.modulus, &q);
    if !modulus_ok {
        return Err(BridgeError::FieldMismatch);
    }
    let num_cons = r1cs.constraints.len();
    if num_cons == 0 {
        return Err(BridgeError::EmptyConstraintSystem);
    }
    let sat = r1cs.check_sat(values);
    if !sat {
        return Err(BridgeError::UnsatisfiableInstance);
    }
    let (ids, w, icount) = r1cs.renumber();
    let (ma, mb, mc) = r1cs.to_matrices(&ids, w);
    let (wit, inp) = r1cs.build_assignments(values);
    proof {
        lemma_counts_sum(r1cs.vars@, r1cs.vars@.len() as int);
        lemma_matrix_bounds(*r1cs, 0, num_cons as int);
        lemma_matrix_bounds(*r1cs, 1, num_cons as int);
        lemma_matrix_bounds(*r1cs, 2, num_cons as int);
        assert(le_val(r1cs.modulus@) == nizk_modulus_val());
        assert(crate::trusted::triples_ok(ma@, num_cons as int, (w + 1 + icount) as int));
        assert(crate::trusted::triples_ok(mb@, num_cons as int, (w + 1 + icount) as int));
        assert(crate::trusted::triples_ok(mc@, num_cons as int, (w + 1 + icount) as int));
        assert(entries_canonical(wit@)) by {
            assert forall|k: int| 0 <= k < wit@.len()
                implies (#[trigger] wit@[k])@.len() == 32
                    && le_val(wit@[k]@) < nizk_modulus_val() by {
                crate::r1cs::lemma_wit_count_surjective(r1cs.vars@, r1cs.vars@.len() as int, k);
                let i = choose|i: int| 0 <= i < r1cs.vars@.len()
                    && crate::r1cs::is_wit(#[trigger] r1cs.vars@[i])
                    && crate::r1cs::wit_count(r1cs.vars@, i) == k;
                assert(wit@[k]@ == values@[i].value@);
            }
        }
        assert(entries_canonical(inp@)) by {
            assert forall|k: int| 0 <= k < inp@.len()
                implies (#[trigger] inp@[k])@.len() == 32
                    && le_val(inp@[k]@) < nizk_modulus_val() by {
                crate::r1cs::lemma_inst_count_surjective(r1cs.vars@, r1cs.vars@.len() as int, k);
                let i = choose|i: int| 0 <= i < r1cs.vars@.len()
                    && !crate::r1cs::is_wit(#[trigger] r1cs.vars@[i])
                    && crate::r1cs::inst_count(r1cs.vars@, i) == k;
                assert(inp@[k]@ == values@[i].value@);
            }
        }
    }
    let assn_wit = match new_assignment(&wit) {
        Some(h) => h,
        None => {
            proof {
                assert(false);
            }
            return Err(BridgeError::UnsatisfiableInstance);
        },
    };
    let assn_inp = match new_assignment(&inp) {
        Some(h) => h,
        None => {
            proof {
                assert(false);
            }
            return Err(BridgeError::UnsatisfiableInstance);
        },
    };
    let inst = match new_instance(num_cons, w, icount, &ma, &mb, &mc) {
        Some(h) => h,
        None => {
            proof {
                assert(false);
            }
            return Err(BridgeError::UnsatisfiableInstance);
        },
    };
    proof {
        let sa = matrix(r1cs.constraints@, 0, num_cons as int, r1cs.vars@);
        let sb = matrix(r1cs.constraints@, 1, num_cons as int, r1cs.vars@);
        let sc = matrix(r1cs.constraints@, 2, num_cons as int, r1cs.vars@);
        assert forall|k: int| 0 <= k < inst.spec_mat_a().len()
            implies (#[trigger] inst.spec_mat_a()[k]).0 as int == sa[k].0
                && inst.spec_mat_a()[k].1 as int == sa[k].1
                && inst.spec_mat_a()[k].2 == sa[k].2 by {
            assert(inst.spec_mat_a()[k] == (ma@[k].0, ma@[k].1, ma@[k].2@));
        }
        assert forall|k: int| 0 <= k < inst.spec_mat_b().len()
            implies (#[trigger] inst.spec_mat_b()[k]).0 as int == sb[k].0
                && inst.spec_mat_b()[k].1 as int == sb[k].1
                && inst.spec_mat_b()[k].2 == sb[k].2 by {
            assert(inst.spec_mat_b()[k] == (mb@[k].0, mb@[k].1, mb@[k].2@));
        }
        assert forall|k: int| 0 <= k < inst.spec_mat_c().len()
            implies (#[trigger] inst.spec_mat_c()[k]).0 as int == sc[k].0
                && inst.spec_mat_c()[k].1 as int == sc[k].1
                && inst.spec_mat_c()[k].2 == sc[k].2 by {
            assert(inst.spec_mat_c()[k] == (mc@[k].0, mc@[k].1, mc@[k].2@));
        }
        assert forall|i: int| 0 <= i < r1cs.vars@.len() && is_wit(#[trigger] r1cs.vars@[i])
            implies assn_wit.spec_entries()[wit_count(r1cs.vars@, i)] == values@[i].value@ by {
            crate::r1cs::lemma_counts_mono(r1cs.vars@, i, r1cs.vars@.len() as int);
            crate::r1cs::lemma_counts_sum(r1cs.vars@, i);
            assert(assn_wit.spec_entries()[wit_count(r1cs.vars@, i)]
                == wit@[wit_count(r1cs.vars@, i)]@);
        }
        assert forall|i: int| 0 <= i < r1cs.vars@.len() && !is_wit(#[trigger] r1cs.vars@[i])
            implies assn_inp.spec_entries()[inst_count(r1cs.vars@, i)] == values@[i].value@ by {
            crate::r1cs::lemma_counts_mono(r1cs.vars@, i, r1cs.vars@.len() as int);
            crate::r1cs::lemma_counts_sum(r1cs.vars@, i);
            assert(assn_inp.spec_entries()[inst_count(r1cs.vars@, i)]
                == inp@[inst_count(r1cs.vars@, i)]@);
        }
    }
    Ok((inst, assn_wit, assn_inp, num_cons, w, icount))
}

/// The values a finished run leaves at a program's output steps.
pub open spec fn chain_outputs(prog: SwcProgram, st_vals: Seq<crate::value::ValueV>)
    -> Seq<crate::value::ValueV> {
    Seq::new(prog.output_steps@.len(), |i: int| st_vals[prog.output_steps@[i] as int])
}

/// The outputs place one element of the system's field on each
/// constraint variable.
pub open spec fn outputs_fit(r1cs: R1cs, outs: Seq<crate::value::ValueV>) -> bool {
    outs.len() == r1cs.vars@.len()
        && forall|i: int| 0 <= i < outs.len()
            ==> value_is_field_of(#[trigger] outs[i], r1cs.modulus@)
}

/// The numeric values of a sequence of field-element shapes.
pub open spec fn outputs_vals(outs: Seq<crate::value::ValueV>) -> Seq<nat> {
    Seq::new(outs.len(), |i: int| le_val(outs[i]->Field_0))
}

/// A full prover run over loaded prover data and an input map. The
/// modulus is guarded before anything of the constraint system or the
/// witness program is touched; the satisfiability gate runs before the
/// scheme's prover is invoked. On success the instance provably holds
/// the system's matrices and the proof is stamped with its shape;
/// every failure carries one of the run's own error kinds, each tied
/// to its gate.
pub fn prove(pd: &ProverData, inputs: &Vec<(String, Value)>)
    -> (r: Result<(GensHandle, InstanceHandle, ProofHandle), BridgeError>)
    requires
        pd.wf(),
        pd.r1cs.vars@.len() <= 0x1000_0000,
        pd.r1cs.constraints@.len() <= 0x1000_0000,
    ensures
        match r {
            Ok(t) => {
                &&& pd.r1cs.modulus@ == nizk_modulus_seq()
                &&& pd.r1cs.constraints@.len() > 0
                &&& bindings_unique(inputs@)
                &&& (run_stages(pd.swc, bindings_map(inputs@), 0,
                        Map::empty(), Seq::empty()) matches Ok(st)
                    && outputs_fit(pd.r1cs, chain_outputs(pd.swc, st.1))
                    && satisfied(pd.r1cs, outputs_vals(chain_outputs(pd.swc, st.1))))
                &&& t.1.spec_num_cons() == pd.r1cs.constraints@.len()
                &&& t.1.spec_num_vars() == pd.r1cs.num_wit()
                &&& t.1.spec_num_inputs() == pd.r1cs.num_inst()
                &&& t.0.spec_num_cons() == t.1.spec_num_cons()
                &&& t.0.spec_num_vars() == t.1.spec_num_vars()
                &&& t.0.spec_num_inputs() == t.1.spec_num_inputs()
                &&& t.2.spec_num_cons() == t.1.spec_num_cons()
                &&& t.2.spec_num_vars() == t.1.spec_num_vars()
                &&& t.2.spec_num_inputs() == t.1.spec_num_inputs()
                &&& ghost_matrix_matches(t.1.spec_mat_a(), matrix(pd.r1cs.constraints@, 0,
                    pd.r1cs.constraints@.len() as int, pd.r1cs.vars@))
                &&& ghost_matrix_matches(t.1.spec_mat_b(), matrix(pd.r1cs.constraints@, 1,
                    pd.r1cs.constraints@.len() as int, pd.r1cs.vars@))
                &&& ghost_matrix_matches(t.1.spec_mat_c(), matrix(pd.r1cs.constraints@, 2,
                    pd.r1cs.constraints@.len() as int, pd.r1cs.vars@))
            },
            Err(e) => {
                &&& (e is FieldMismatch || e is DuplicateInput || e is MissingInput
                    || e is SortMismatch || e is EvalDomainError || e is MissingWitnessValue
                    || e is EmptyConstraintSystem || e is UnsatisfiableInstance)
                &&& (e is FieldMismatch) == (pd.r1cs.modulus@ != nizk_modulus_seq())
                &&& ((e is DuplicateInput || e is MissingInput || e is SortMismatch
                        || e is EvalDomainError)
                    ==> pd.r1cs.modulus@ == nizk_modulus_seq()
                        && (if !bindings_unique(inputs@) {
                            e is DuplicateInput
                        } else {
                            run_stages(pd.swc, bindings_map(inputs@), 0,
                                Map::empty(), Seq::empty()) matches Err(c)
                                && (if c == 1 { e is MissingInput }
                                    else if c == 2 { e is SortMismatch }
                                    else if c == 3 { e is EvalDomainError }
                                    else { e is DuplicateInput })
                        }))
                &&& (e is MissingWitnessValue
                    ==> pd.r1cs.modulus@ == nizk_modulus_seq()
                        && bindings_unique(inputs@)
                        && (run_stages(pd.swc, bindings_map(inputs@), 0,
                            Map::empty(), Seq::empty()) matches Ok(st)
                            && !outputs_fit(pd.r1cs, chain_outputs(pd.swc, st.1))))
                &&& (e is EmptyConstraintSystem
                    ==> pd.r1cs.modulus@ == nizk_modulus_seq()
                        && pd.r1cs.constraints@.len() == 0)
                &&& (e is UnsatisfiableInstance
                    ==> pd.r1cs.modulus@ == nizk_modulus_seq()
                        && pd.r1cs.constraints@.len() > 0
                        && bindings_unique(inputs@)
                        && (run_stages(pd.swc, bindings_map(inputs@), 0,
                            Map::empty(), Seq::empty()) matches Ok(st)
                            && outputs_fit(pd.r1cs, chain_outputs(pd.swc, st.1))
                            && !satisfied(pd.r1cs, outputs_vals(chain_outputs(pd.swc, st.1)))))
            },
        },
{
    let q = nizk_modulus();
    let modulus_ok = crate::bytes::le_eq(&pd.r1cs.modulus, &q);
    if !modulus_ok {
        return Err(BridgeError::FieldMismatch);
    }
    let vals = match eval_all(&pd.swc, inputs) {
        Ok(v) => v,
        Err(e) => {
            return Err(e);
        },
    };
    let ghost st_vals = run_stages(pd.swc, bindings_map(inputs@), 0,
        Map::empty(), Seq::empty())->Ok_0.1;
    let ghost outs = chain_outputs(pd.swc, st_vals);
    proof {
        assert forall|i: int| 0 <= i < outs.len()
            implies #[trigger] outs[i] == value_view(vals@[i]) by {
            assert(value_view(vals@[i]) == st_vals[pd.swc.output_steps@[i] as int]);
        }
    }
    let fes = match values_to_field(&pd.r1cs, &vals) {
        Ok(f) => f,
        Err(e) => {
            proof {
                assert(!outputs_fit(pd.r1cs, outs)) by {
                    if outputs_fit(pd.r1cs, outs) {
                        assert forall|i: int| 0 <= i < vals@.len()
                            implies value_is_field_of(
                                value_view(#[trigger] vals@[i]), pd.r1cs.modulus@) by {
                            assert(value_is_field_of(outs[i], pd.r1cs.modulus@));
                        }
                        assert(vals@.len() == pd.r1cs.vars@.len());
                        assert(false);
                    }
                }
            }
            return Err(e);
        },
    };
    proof {
        assert(outputs_fit(pd.r1cs, outs)) by {
            assert forall|i: int| 0 <= i < outs.len()
                implies value_is_field_of(#[trigger] outs[i], pd.r1cs.modulus@) by {
                assert(value_view(vals@[i])
                    == crate::value::ValueV::Field(fes@[i].value@, fes@[i].modulus@));
            }
        }
        assert(field_vals(fes@) =~= outputs_vals(outs)) by {
            assert forall|i: int| 0 <= i < fes@.len()
                implies field_vals(fes@)[i] == outputs_vals(outs)[i] by {
                assert(value_view(vals@[i])
                    == crate::value::ValueV::Field(fes@[i].value@, fes@[i].modulus@));
                assert(outs[i]->Field_0 == fes@[i].value@);
            }
        }
    }
    let (inst, wit, inp, num_cons, num_vars, num_inputs) =
        match r1cs_to_spartan(&pd.r1cs, &fes) {
            Ok(t) => t,
            Err(e) => {
                proof {
                    assert(!(e is FieldMismatch));
                }
                return Err(e);
            },
        };
    proof {
        lemma_counts_sum(pd.r1cs.vars@, pd.r1cs.vars@.len() as int);
    }
    let gens = new_gens(num_cons, num_vars, num_inputs);
    let mut transcript = transcript_new();
    let pf = nizk_prove(&inst, wit, &inp, &gens, &mut transcript);
    Ok((gens, inst, pf))
}

/// A full verifier run: evaluate the public-input program, encode the
/// inputs in the scheme's scalar form, replay the transcript under the
/// fixed label, and ask the scheme. The artifact's modulus is guarded
/// first; past that guard, every rejection — a failing evaluation, a
/// value that is no public field element, a shape mismatch, or the
/// scheme's verdict — surfaces as an invalid proof. The proof handle
/// certifies a proof minted by `prove` in this process; a proof
/// reloaded from disk is checked against the scheme directly at the
/// process boundary instead, since the published scheme aborts rather
/// than rejects on some malformed serialized proofs.
#[verifier::loop_isolation(false)]
pub fn verify(
    vd: &VerifierData,
    inputs: &Vec<(String, Value)>,
    gens: &GensHandle,
    inst: &InstanceHandle,
    proof: &ProofHandle,
) -> (r: Result<(), BridgeError>)
    requires
        vd.wf(),
        gens.spec_num_cons() == inst.spec_num_cons(),
        gens.spec_num_vars() == inst.spec_num_vars(),
        gens.spec_num_inputs() == inst.spec_num_inputs(),
    ensures
        match r {
            Ok(()) => {
                &&& vd.modulus@ == nizk_modulus_seq()
                &&& bindings_unique(inputs@)
                &&& (run_stages(vd.public_swc, bindings_map(inputs@), 0,
                        Map::empty(), Seq::empty()) matches Ok(st)
                    && vd.public_swc.output_steps@.len() == vd.vars@.len()
                    && vd.vars@.len() == inst.spec_num_inputs()
                    && (forall|i: int| 0 <= i < vd.public_swc.output_steps@.len()
                        ==> value_is_field_of(
                            #[trigger] st.1[vd.public_swc.output_steps@[i] as int],
                            nizk_modulus_seq())))
            },
            Err(e) => {
                &&& (e is FieldMismatch || e is InvalidProof)
                &&& (e is FieldMismatch) == (vd.modulus@ != nizk_modulus_seq())
            },
        },
{
    let q = nizk_modulus();
    proof {
        assert(q@.len() == 32);
    }
    let modulus_ok = crate::bytes::le_eq(&vd.modulus, &q);
    if !modulus_ok {
        return Err(BridgeError::FieldMismatch);
    }
    let vals = match eval_all(&vd.public_swc, inputs) {
        Ok(v) => v,
        Err(_) => {
            return Err(BridgeError::InvalidProof);
        },
    };
    let n = vals.len();
    let mut enc: Vec<Vec<u8>> = Vec::new();
    let mut i: usize = 0;
    while i < n
        invariant
            i <= n,
            n == vals@.len(),
            forall|k: int| 0 <= k < vals@.len()
                ==> value_wf(value_view(#[trigger] vals@[k])),
            enc@.len() == i,
            entries_canonical(enc@),
            forall|k: int| 0 <= k < i
                ==> value_is_field_of(value_view(#[trigger] vals@[k]), nizk_modulus_seq()),
        decreases n - i,
    {
        let ghost prev = enc@;
        match &vals[i] {
            Value::Field(f) => {
                proof {
                    assert(value_wf(value_view(vals@[i as int])));
                    assert(value_view(vals@[i as int])
                        == crate::value::ValueV::Field(f.value@, f.modulus@));
                }
                if f.modulus.len() != 32 {
                    return Err(BridgeError::InvalidProof);
                }
                let same = crate::bytes::le_eq(&f.modulus, &q);
                if !same {
                    return Err(BridgeError::InvalidProof);
                }
                enc.push(crate::field::copy_bytes(&f.value));
                proof {
                    assert forall|k: int| 0 <= k < enc@.len()
                        implies (#[trigger] enc@[k])@.len() == 32
                            && le_val(enc@[k]@) < nizk_modulus_val() by {
                        if k < prev.len() {
                            assert(enc@[k] == prev[k]);
                        } else {
                            assert(enc@[k]@ == f.value@);
                            assert(le_val(f.value@) < le_val(f.modulus@));
                        }
                    }
                }
            },
            _ => {
                return Err(BridgeError::InvalidProof);
            },
        }
        i = i + 1;
    }
    // The public program must yield exactly the declared public vars.
    if enc.len() != vd.vars.len() {
        return Err(BridgeError::InvalidProof);
    }
    let assn = match new_assignment(&enc) {
        Some(h) => h,
        None => {
            proof {
                assert(false);
            }
            return Err(BridgeError::InvalidProof);
        },
    };
    if assn.len() != inst.num_inputs() {
        return Err(BridgeError::InvalidProof);
    }
    // The proof must be stamped with this instance's shape.
    if proof.num_cons() != inst.num_cons()
        || proof.num_vars() != inst.num_vars()
        || proof.num_inputs() != inst.num_inputs()
    {
        return Err(BridgeError::InvalidProof);
    }
    proof {
        let im = bindings_map(inputs@);
        assert(bindings_unique(inputs@));
        let chain = run_stages(vd.public_swc, im, 0, Map::empty(), Seq::empty());
        assert(chain is Ok);
        let st = chain->Ok_0;
        assert forall|k: int| 0 <= k < vd.public_swc.output_steps@.len()
            implies value_is_field_of(
                #[trigger] st.1[vd.public_swc.output_steps@[k] as int],
                nizk_modulus_seq()) by {
            assert(value_view(vals@[k]) == st.1[vd.public_swc.output_steps@[k] as int]);
            assert(value_is_field_of(value_view(vals@[k]), nizk_modulus_seq()));
        }
    }
    let mut transcript = transcript_new();
    nizk_verify(proof, inst, &assn, &mut transcript, gens)
}

/// Determinism of the translation: any two matrix entry lists the
/// bridge accepts for one system describe the same matrix, entry for
/// entry.
pub proof fn lemma_matrices_deterministic(
    x: Seq<(usize, usize, Vec<u8>)>,
    y: Seq<(usize, usize, Vec<u8>)>,
    m: Seq<(int, int, Seq<u8>)>,
)
    requires
        matrix_matches(x, m),
        matrix_matches(y, m),
    ensures
        x.len() == y.len(),
        forall|k: int| 0 <= k < x.len()
            ==> (#[trigger] x[k]).0 == y[k].0 && x[k].1 == y[k].1 && x[k].2@ == y[k].2@,
{
}


/// Determinism of the assignment encodings: any two witness and input
/// vectors that satisfy the builder's contract for one system and one
/// assignment agree byte for byte. Together with the matrix law, two
/// independent prover runs over one artifact and one input map hand
/// the scheme identical matrices, witnesses and inputs.
pub proof fn lemma_assignments_deterministic(
    r: R1cs,
    values: Seq<FieldElem>,
    wit1: Seq<Vec<u8>>,
    inp1: Seq<Vec<u8>>,
    wit2: Seq<Vec<u8>>,
    inp2: Seq<Vec<u8>>,
)
    requires
        wit1.len() as int == r.num_wit(),
        inp1.len() as int == r.num_inst(),
        wit2.len() as int == r.num_wit(),
        inp2.len() as int == r.num_inst(),
        forall|i: int| 0 <= i < r.vars@.len() && crate::r1cs::is_wit(#[trigger] r.vars@[i])
            ==> wit1[crate::r1cs::wit_count(r.vars@, i)]@ == values[i].value@
                && wit2[crate::r1cs::wit_count(r.vars@, i)]@ == values[i].value@,
        forall|i: int| 0 <= i < r.vars@.len() && !crate::r1cs::is_wit(#[trigger] r.vars@[i])
            ==> inp1[crate::r1cs::inst_count(r.vars@, i)]@ == values[i].value@
                && inp2[crate::r1cs::inst_count(r.vars@, i)]@ == values[i].value@,
    ensures
        forall|k: int| 0 <= k < wit1.len() ==> (#[trigger] wit1[k])@ == wit2[k]@,
        forall|k: int| 0 <= k < inp1.len() ==> (#[trigger] inp1[k])@ == inp2[k]@,
{
    let n = r.vars@.len() as int;
    assert forall|k: int| 0 <= k < wit1.len() implies (#[trigger] wit1[k])@ == wit2[k]@ by {
        crate::r1cs::lemma_wit_count_surjective(r.vars@, n, k);
        let i = choose|i: int| 0 <= i < n && crate::r1cs::is_wit(#[trigger] r.vars@[i])
            && crate::r1cs::wit_count(r.vars@, i) == k;
        assert(wit1[k]@ == values[i].value@);
        assert(wit2[k]@ == values[i].value@);
    }
    assert forall|k: int| 0 <= k < inp1.len() implies (#[trigger] inp1[k])@ == inp2[k]@ by {
        crate::r1cs::lemma_inst_count_surjective(r.vars@, n, k);
        let i = choose|i: int| 0 <= i < n && !crate::r1cs::is_wit(#[trigger] r.vars@[i])
            && crate::r1cs::inst_count(r.vars@, i) == k;
        assert(inp1[k]@ == values[i].value@);
        assert(inp2[k]@ == values[i].value@);
    }
}

} // verus!
