//! The solve orchestrator and its error type: run the critical-path pass,
//! then — when the template declares resources — the allocator, and fold
//! the results into a `SolvedSchedule`.

use vstd::prelude::*;

use crate::allocator::{
    allocate_resources, assigned_used, consumable_demand_fits, consumable_entry_exact,
    crit_flags, display_name, effective_caps, entries_match_upto, is_delay_warning,
    is_shortage_warning, is_step_warning, msg_delayed, need_counts, needs_fit_capacities,
    override_warnings, rep_idx, steps_usage_at, template_demand, total_ints,
};
use crate::cpm::{
    cpm, durations, es_respects_edges, sum_durs, to_ints, CpmResult,
};
use crate::graph::dep_edges;
use crate::model::{
    DependencyType, ResourceInventory, ResourceKind, ScheduleSummary, ScheduleTemplate,
    SolvedSchedule, SolvedStep,
};
use crate::validator::str_views;

verus! {

/// A fatal condition met while solving.
#[derive(Debug)]
pub enum SolveError {
    /// The dependency graph has a cycle; carries the IDs of the steps that
    /// declare dependencies.
    CyclicDependency(String),
    /// A step references a predecessor that does not exist; carries the
    /// step ID and the missing predecessor ID.
    UnknownDependency(String, String),
    /// A step has a zero duration; carries the step ID.
    MissingDuration(String),
    /// A caller-side wrapper for an aggregated validation error list.
    ValidationFailed(String),
}

pub open spec fn solve_error_message(e: SolveError) -> Seq<char> {
    match e {
        SolveError::CyclicDependency(s) => "Circular dependency detected involving steps: "@
            + s@,
        SolveError::UnknownDependency(a, b) => "Step '"@ + a@
            + "' references unknown dependency step '"@ + b@ + "'"@,
        SolveError::MissingDuration(a) => "Step '"@ + a@ + "' has no duration"@,
        SolveError::ValidationFailed(s) => s@,
    }
}

impl SolveError {
    /// The human-readable description of this error.
    pub fn message(&self) -> (r: String)
        ensures
            r@ == solve_error_message(*self),
    {
        match self {
            SolveError::CyclicDependency(s) => {
                let mut m = String::new();
                m.append("Circular dependency detected involving steps: ");
                m.append(s.as_str());
                proof {
                    assert(m@ =~= solve_error_message(*self));
                }
                m
            }
            SolveError::UnknownDependency(a, b) => {
                let mut m = String::new();
                m.append("Step '");
                m.append(a.as_str());
                m.append("' references unknown dependency step '");
                m.append(b.as_str());
                m.append("'");
                proof {
                    assert(m@ =~= solve_error_message(*self));
                }
                m
            }
            SolveError::MissingDuration(a) => {
                let mut m = String::new();
                m.append("Step '");
                m.append(a.as_str());
                m.append("' has no duration");
                proof {
                    assert(m@ =~= solve_error_message(*self));
                }
                m
            }
            SolveError::ValidationFailed(s) => {
                let m = s.clone();
                m
            }
        }
    }
}

/// The IDs of the critical steps among the first `j` solved steps.
pub open spec fn critical_ids_upto(steps: Seq<SolvedStep>, j: int) -> Seq<Seq<char>>
    decreases j,
{
    if j <= 0 {
        Seq::empty()
    } else {
        critical_ids_upto(steps, j - 1) + (if steps[j - 1].is_critical {
            seq![steps[j - 1].step_id@]
        } else {
            Seq::empty()
        })
    }
}

/// Whether `c` is a chain of steps linked by finish-to-start dependencies.
pub open spec fn fs_chain(t: ScheduleTemplate, c: Seq<int>) -> bool {
    &&& c.len() >= 1
    &&& forall|i: int| 0 <= i < c.len() ==> 0 <= #[trigger] c[i] < t.steps@.len()
    &&& forall|i: int|
        0 <= i < c.len() - 1 ==> exists|k: int|
            0 <= k < dep_edges(t.steps@).len() && (#[trigger] dep_edges(t.steps@)[k]).pred as int
                == #[trigger] c[i] && dep_edges(t.steps@)[k].succ as int == c[i + 1] && dep_edges(
                t.steps@,
            )[k].dep == DependencyType::FinishToStart
}

/// The summed duration along a chain of step indices.
pub open spec fn chain_duration(t: ScheduleTemplate, c: Seq<int>) -> int
    decreases c.len(),
{
    if c.len() == 0 {
        0
    } else {
        chain_duration(t, c.drop_last()) + durations(t)[c[c.len() - 1]]
    }
}

/// Along a finish-to-start chain, each prefix's duration fits below the
/// early finish of the prefix's last step: every link's early start
/// absorbs everything before it.
proof fn lemma_chain_early_finish(t: ScheduleTemplate, es: Seq<int>, c: Seq<int>, m: int)
    requires
        es.len() == t.steps@.len(),
        forall|v: int| 0 <= v < es.len() ==> #[trigger] es[v] >= 0,
        es_respects_edges(durations(t), dep_edges(t.steps@), es),
        fs_chain(t, c),
        1 <= m <= c.len(),
    ensures
        es[c[m - 1]] + durations(t)[c[m - 1]] >= chain_duration(t, c.take(m)),
    decreases m,
{
    assert(c.take(m).drop_last() =~= c.take(m - 1));
    assert(c.take(m)[m - 1] == c[m - 1]);
    if m == 1 {
        assert(chain_duration(t, c.take(0)) == 0);
    } else {
        lemma_chain_early_finish(t, es, c, m - 1);
        let u = c[m - 2];
        let v = c[m - 1];
        assert(0 <= m - 2 < c.len() - 1);
        let k = choose|k: int|
            0 <= k < dep_edges(t.steps@).len() && (#[trigger] dep_edges(t.steps@)[k]).pred as int
                == u && dep_edges(t.steps@)[k].succ as int == v && dep_edges(t.steps@)[k].dep
                == DependencyType::FinishToStart;
        assert(es[v] >= crate::cpm::clamp0(
            crate::cpm::fwd_candidate(
                es[dep_edges(t.steps@)[k].pred as int],
                durations(t)[dep_edges(t.steps@)[k].pred as int] as int,
                durations(t)[dep_edges(t.steps@)[k].succ as int] as int,
                dep_edges(t.steps@)[k].dep,
            ),
        ));
        assert(es[v] >= es[u] + durations(t)[u]);
        assert(c.take(m - 1)[m - 2] == c[m - 2]);
    }
}

/// Whether the typed start-time inequality of dependency edge `k` holds in
/// the solved steps.
pub open spec fn dep_satisfied(t: ScheduleTemplate, steps: Seq<SolvedStep>, k: int) -> bool {
    let e = dep_edges(t.steps@)[k];
    let su = steps[e.pred as int].start_offset_mins as int;
    let sv = steps[e.succ as int].start_offset_mins as int;
    let du = durations(t)[e.pred as int];
    let dv = durations(t)[e.succ as int];
    match e.dep {
        DependencyType::FinishToStart => sv >= su + du,
        DependencyType::StartToStart => sv >= su,
        DependencyType::FinishToFinish => sv + dv >= su + du,
        DependencyType::StartToFinish => sv + dv >= su,
    }
}

/// Everything `solve` promises of a successful schedule.
pub open spec fn solve_ok_post(
    t: ScheduleTemplate,
    inv: Option<&ResourceInventory>,
    s: SolvedSchedule,
) -> bool {
    let n = t.steps@.len() as int;
    let ds = durations(t);
    &&& s.template_id@ == t.id@
    &&& s.solved_steps@.len() == n
    &&& forall|i: int|
        0 <= i < n ==> (#[trigger] s.solved_steps@[i]).step_id@ == t.steps@[i].id@
    &&& forall|i: int|
        0 <= i < n ==> (#[trigger] s.solved_steps@[i]).end_offset_mins as int == s.solved_steps@[
            i
        ].start_offset_mins as int + ds[i]
    &&& forall|i: int|
        0 <= i < n ==> ((#[trigger] s.solved_steps@[i]).is_critical <==> s.solved_steps@[
            i
        ].total_float_mins == 0)
    &&& forall|i: int|
        0 <= i < n ==> (#[trigger] s.solved_steps@[i]).end_offset_mins
            <= s.summary.total_duration_mins
    &&& n > 0 ==> exists|i: int|
        0 <= i < n && (#[trigger] s.solved_steps@[i]).end_offset_mins
            == s.summary.total_duration_mins
    &&& str_views(s.summary.critical_path_step_ids@) == critical_ids_upto(s.solved_steps@, n)
    &&& t.resources@.len() == 0 ==> s.warnings@.len() == 0
    &&& str_views(s.warnings@).take(override_warnings(t, inv).len() as int) == override_warnings(
        t,
        inv,
    )
    &&& s.warnings@.len() >= override_warnings(t, inv).len()
    &&& forall|j: int|
        0 <= j < t.resources@.len() && (#[trigger] t.resources@[j]).kind
            == ResourceKind::Consumable && rep_idx(t, t.resources@[j].id@) == j ==> assigned_used(
            s.solved_steps@,
            t.resources@[j].id@,
        ) == (if template_demand(t, n, j) <= effective_caps(t, inv)[j] as int {
            template_demand(t, n, j)
        } else {
            effective_caps(t, inv)[j] as int
        })
    &&& (t.resources@.len() == 0 && (forall|i: int|
        0 <= i < n ==> !crate::validator::is_alap(#[trigger] t.steps@[i]))) ==> forall|k: int|
        0 <= k < dep_edges(t.steps@).len() ==> dep_satisfied(t, s.solved_steps@, #[trigger] (k
            + 0))
    &&& forall|c: Seq<int>|
        #[trigger] fs_chain(t, c) ==> chain_duration(t, c)
            <= s.summary.total_duration_mins as int
    &&& forall|i: int|
        0 <= i < n ==> entries_match_upto(
            t,
            t.steps@[i].resource_needs@,
            t.steps@[i].resource_needs@.len() as int,
            (#[trigger] s.solved_steps@[i]).assigned_resources@,
        )
    &&& forall|widx: int|
        override_warnings(t, inv).len() <= widx < s.warnings@.len() ==> is_step_warning(
            #[trigger] str_views(s.warnings@)[widx],
        )
    &&& consumable_demand_fits(t, effective_caps(t, inv)) ==> forall|widx: int|
        override_warnings(t, inv).len() <= widx < s.warnings@.len() ==> is_delay_warning(
            #[trigger] str_views(s.warnings@)[widx],
        )
    &&& needs_fit_capacities(t, effective_caps(t, inv)) ==> forall|j: int, x: int|
        0 <= j < t.resources@.len() && t.resources@[j].kind != ResourceKind::Consumable
            && rep_idx(t, t.resources@[j].id@) == j ==> #[trigger] steps_usage_at(
            t,
            s.solved_steps@,
            n,
            j,
            x,
        ) <= effective_caps(t, inv)[j] as int
    &&& exists|es: Seq<u32>, ls: Seq<u32>|
        {
            &&& #[trigger] crate::cpm::cpm_values_ok(t, es, ls)
            &&& forall|i: int|
                0 <= i < n ==> {
                    &&& (#[trigger] s.solved_steps@[i]).total_float_mins as int == ls[i] as int
                        - es[i] as int
                    &&& (s.solved_steps@[i].is_critical <==> ls[i] == es[i])
                    &&& s.solved_steps@[i].start_offset_mins >= es[i]
                    &&& crate::cpm::opt_str_matches(
                        s.solved_steps@[i].start_time,
                        crate::cpm::wall_time_spec(
                            t,
                            crate::cpm::max_ef_upto(es, ds, n),
                            (if crate::validator::is_alap(t.steps@[i]) {
                                ls[i]
                            } else {
                                es[i]
                            }) as int,
                        ),
                    )
                    &&& crate::cpm::opt_str_matches(
                        s.solved_steps@[i].end_time,
                        crate::cpm::wall_time_spec(
                            t,
                            crate::cpm::max_ef_upto(es, ds, n),
                            (if crate::validator::is_alap(t.steps@[i]) {
                                ls[i]
                            } else {
                                es[i]
                            }) as int + ds[i],
                        ),
                    )
                }
            &&& forall|i: int|
                0 <= i < n && (#[trigger] s.solved_steps@[i]).start_offset_mins > ls[i]
                    ==> exists|widx: int, nj: int|
                    {
                        &&& override_warnings(t, inv).len() <= widx < s.warnings@.len()
                        &&& 0 <= nj < t.steps@[i].resource_needs@.len()
                        &&& (#[trigger] str_views(s.warnings@)[widx]) == msg_delayed(
                            t.steps@[i].title@,
                            display_name(
                                t,
                                (#[trigger] t.steps@[i].resource_needs@[nj]).resource_id@,
                            ),
                        )
                    }
            &&& (t.resources@.len() == 0 ==> forall|i: int|
                0 <= i < n ==> (#[trigger] s.solved_steps@[i]).start_offset_mins == (
                if crate::validator::is_alap(t.steps@[i]) {
                    ls[i]
                } else {
                    es[i]
                }))
            &&& (n == 0 ==> s.summary.total_duration_mins as int == crate::cpm::project_end_spec(
                t,
                es,
            ))
            &&& forall|i: int, k: int|
                #![trigger t.steps@[i].resource_needs@[k]]
                0 <= i < n && 0 <= k < t.steps@[i].resource_needs@.len() && rep_idx(
                    t,
                    t.steps@[i].resource_needs@[k].resource_id@,
                ) >= 0 && t.resources@[rep_idx(
                    t,
                    t.steps@[i].resource_needs@[k].resource_id@,
                )].kind == ResourceKind::Consumable ==> consumable_entry_exact(
                    t,
                    crit_flags(s.solved_steps@),
                    es,
                    effective_caps(t, inv),
                    i,
                    k,
                    s.solved_steps@[i].assigned_resources@,
                )
            &&& (forall|i: int|
                0 <= i < n ==> (#[trigger] s.solved_steps@[i]).start_offset_mins <= ls[i])
                ==> forall|widx: int|
                override_warnings(t, inv).len() <= widx < s.warnings@.len()
                    ==> is_shortage_warning(#[trigger] str_views(s.warnings@)[widx])
        }
}

/// Solves a schedule template: the critical-path pass assigns timing and
/// float, then — when the template declares resources — the allocator
/// shifts steps under the capacity limits and collects warnings. The
/// summary carries the total duration and the critical path.
#[verifier::rlimit(100)]
#[verifier::spinoff_prover]
pub fn solve(template: &ScheduleTemplate, inventory: Option<&ResourceInventory>) -> (r: Result<
    SolvedSchedule,
    SolveError,
>)
    requires
        template.steps@.len() <= 0x7FFF_FFFF,
        sum_durs(durations(*template)) <= 0x7FFF_FFFF,
        total_ints(need_counts(template.steps@)) <= 0x7FFF_FFFF,
        crate::graph::dep_total(template.steps@, template.steps@.len() as int) <= 0x7FFF_FFFF,
    ensures
        match r {
            Result::Ok(s) => crate::validator::template_valid(*template) && solve_ok_post(
                *template,
                inventory,
                s,
            ),
            Result::Err(e) => match e {
                SolveError::ValidationFailed(m) => {
                    &&& !crate::validator::template_valid(*template)
                    &&& m@ == crate::strutil::join_with(
                        crate::validator::validation_errors(*template),
                        "; "@,
                    )
                },
                _ => false,
            },
        },
{
    let ghost t = *template;
    let ghost ds = durations(t);

    // Validation gates solving: any structural error fails the call with
    // the consolidated error list.
    let vr = crate::validator::validate(template);
    if !vr.is_ok() {
        let joined = crate::strutil::join_strings(&vr.errors, "; ");
        proof {
            assert(vr.errors@.map(|_i: int, s2: String| s2@) =~= crate::validator::str_views(
                vr.errors@,
            ));
        }
        return Err(SolveError::ValidationFailed(joined));
    }

    let mut result: CpmResult = match cpm(template) {
        Ok(res) => res,
        Err(e) => {
            // A valid template cannot fail the critical-path pass: its
            // rechecks test exactly what validation already ruled out.
            proof {
                let ids = crate::model::step_id_seq(t.steps@);
                crate::cpm::lemma_first_zero_duration(t.steps@);
                assert forall|i: int|
                    0 <= i < t.steps@.len() implies crate::cpm::first_bad_dep(
                    ids,
                    (#[trigger] t.steps@[i]).dependencies@,
                ) == -1 by {
                    crate::cpm::lemma_first_bad_dep(ids, t.steps@[i].dependencies@);
                }
                crate::cpm::lemma_first_unresolved_step(ids, t.steps@);
                assert(false);
            }
            return Err(e);
        }
    };
    let n = result.solved_steps.len();
    proof {
        crate::cpm::lemma_cpm_values_from_post(t, result);
        assert forall|i: int| 0 <= i < n implies {
            &&& (#[trigger] result.solved_steps@[i]).end_offset_mins as int == result.solved_steps@[
                i
            ].start_offset_mins as int + ds[i]
            &&& result.solved_steps@[i].start_offset_mins >= result.early_starts@[i]
            &&& result.solved_steps@[i].start_offset_mins <= result.late_starts@[i]
            &&& result.solved_steps@[i].assigned_resources@.len() == 0
            &&& result.solved_steps@[i].step_id@ == t.steps@[i].id@
            &&& (result.solved_steps@[i].is_critical <==> result.solved_steps@[
                i
            ].total_float_mins == 0)
        } by {
            assert(crate::cpm::solved_step_matches(
                t,
                result.solved_steps@[i],
                result.early_starts@[i],
                result.late_starts@[i],
                crate::cpm::max_ef_upto(result.early_starts@, ds, n as int),
                i,
            ));
        }
    }

    let ghost steps0 = result.solved_steps@;
    let mut alloc_warnings: Vec<String> = Vec::new();
    if template.resources.len() > 0 {
        proof {
            assert forall|i: int|
                0 <= i < template.steps@.len() implies #[trigger] result.early_starts@[i]
                <= result.late_starts@[i] by {
                assert(to_ints(result.early_starts@)[i] == result.early_starts@[i] as int);
                assert(to_ints(result.late_starts@)[i] == result.late_starts@[i] as int);
            }
            assert forall|i: int|
                0 <= i < template.steps@.len() implies (#[trigger] result.late_starts@[i]) as int
                + durations(*template)[i] <= 0x7FFF_FFFF by {
                assert(to_ints(result.early_starts@)[i] == result.early_starts@[i] as int);
                assert(to_ints(result.late_starts@)[i] == result.late_starts@[i] as int);
            }
        }
        alloc_warnings = allocate_resources(
            template,
            &mut result.solved_steps,
            &result.early_starts,
            &result.late_starts,
            inventory,
        );
    } else {
        proof {
            match inventory {
                Option::Some(_) => {}
                Option::None => {}
            }
        }
    }
    proof {
        let ges = result.early_starts@;
        let gls = result.late_starts@;
        assert(crate::cpm::cpm_values_ok(t, ges, gls));
        if template.resources@.len() == 0 {
            crate::allocator::lemma_overrides_empty_without_resources(t, inventory);
            assert forall|i: int| 0 <= i < t.steps@.len() implies entries_match_upto(
                t,
                t.steps@[i].resource_needs@,
                t.steps@[i].resource_needs@.len() as int,
                (#[trigger] result.solved_steps@[i]).assigned_resources@,
            ) by {
                crate::allocator::lemma_entries_match_no_resources(
                    t,
                    t.steps@[i].resource_needs@,
                    t.steps@[i].resource_needs@.len() as int,
                    result.solved_steps@[i].assigned_resources@,
                );
            }
            assert forall|i: int| 0 <= i < t.steps@.len() implies (
            #[trigger] result.solved_steps@[i]).start_offset_mins == (
            if crate::validator::is_alap(t.steps@[i]) {
                gls[i]
            } else {
                ges[i]
            }) by {
                assert(crate::cpm::solved_step_matches(
                    t,
                    result.solved_steps@[i],
                    ges[i],
                    gls[i],
                    crate::cpm::max_ef_upto(ges, ds, t.steps@.len() as int),
                    i,
                ));
            }

        }
    }

    proof {
        assert(str_views(alloc_warnings@).take(override_warnings(t, inventory).len() as int)
            =~= override_warnings(t, inventory));
        if consumable_demand_fits(t, effective_caps(t, inventory)) {
            assert forall|widx: int|
                override_warnings(t, inventory).len() <= widx < alloc_warnings@.len() implies
                is_delay_warning(#[trigger] str_views(alloc_warnings@)[widx]) by {
                if template.resources@.len() == 0 {
                    assert(alloc_warnings@.len() == 0);
                    assert(false);
                }
            }
        }
    }
    let s = finish_schedule(template, inventory, result, alloc_warnings, Ghost(steps0));
    Ok(s)
}

/// Builds the final schedule from the placed steps: the total duration is
/// the largest end offset, the critical path lists the zero-float steps,
/// and the allocator's warnings ride along.
#[verifier::rlimit(100)]
#[verifier::spinoff_prover]
fn finish_schedule(
    template: &ScheduleTemplate,
    inventory: Option<&ResourceInventory>,
    result: CpmResult,
    alloc_warnings: Vec<String>,
    Ghost(steps0): Ghost<Seq<SolvedStep>>,
) -> (s: SolvedSchedule)
    requires
        result.solved_steps@.len() == template.steps@.len(),
        result.early_starts@.len() == template.steps@.len(),
        result.late_starts@.len() == template.steps@.len(),
        steps0.len() == template.steps@.len(),
        crate::cpm::cpm_values_ok(*template, result.early_starts@, result.late_starts@),
        result.project_end as int == crate::cpm::project_end_spec(
            *template,
            result.early_starts@,
        ),
        forall|i: int|
            0 <= i < template.steps@.len() ==> crate::cpm::solved_step_matches(
                *template,
                #[trigger] steps0[i],
                result.early_starts@[i],
                result.late_starts@[i],
                crate::cpm::max_ef_upto(
                    result.early_starts@,
                    durations(*template),
                    template.steps@.len() as int,
                ),
                i,
            ),
        forall|i: int|
            0 <= i < template.steps@.len() ==> {
                &&& (#[trigger] result.solved_steps@[i]).step_id == steps0[i].step_id
                &&& result.solved_steps@[i].is_critical == steps0[i].is_critical
                &&& result.solved_steps@[i].total_float_mins == steps0[i].total_float_mins
                &&& result.solved_steps@[i].end_offset_mins as int == result.solved_steps@[
                    i
                ].start_offset_mins as int + durations(*template)[i]
                &&& result.solved_steps@[i].start_offset_mins >= result.early_starts@[i]
                &&& result.solved_steps@[i].start_time == steps0[i].start_time
                &&& result.solved_steps@[i].end_time == steps0[i].end_time
            },
        forall|i: int|
            0 <= i < template.steps@.len() ==> entries_match_upto(
                *template,
                template.steps@[i].resource_needs@,
                template.steps@[i].resource_needs@.len() as int,
                (#[trigger] result.solved_steps@[i]).assigned_resources@,
            ),
        forall|i: int|
            0 <= i < template.steps@.len() && (#[trigger] result.solved_steps@[
                i
            ]).start_offset_mins > result.late_starts@[i] ==> exists|widx: int, nj: int|
                {
                    &&& override_warnings(*template, inventory).len() <= widx
                        < alloc_warnings@.len()
                    &&& 0 <= nj < template.steps@[i].resource_needs@.len()
                    &&& (#[trigger] str_views(alloc_warnings@)[widx]) == msg_delayed(
                        template.steps@[i].title@,
                        display_name(
                            *template,
                            (#[trigger] template.steps@[i].resource_needs@[nj]).resource_id@,
                        ),
                    )
                },
        str_views(alloc_warnings@).take(override_warnings(*template, inventory).len() as int)
            == override_warnings(*template, inventory),
        alloc_warnings@.len() >= override_warnings(*template, inventory).len(),
        forall|widx: int|
            override_warnings(*template, inventory).len() <= widx < alloc_warnings@.len()
                ==> is_step_warning(#[trigger] str_views(alloc_warnings@)[widx]),
        consumable_demand_fits(*template, effective_caps(*template, inventory)) ==> forall|
            widx: int,
        |
            override_warnings(*template, inventory).len() <= widx < alloc_warnings@.len()
                ==> is_delay_warning(#[trigger] str_views(alloc_warnings@)[widx]),
        forall|i: int, k: int|
            #![trigger template.steps@[i].resource_needs@[k]]
            0 <= i < template.steps@.len() && 0 <= k < template.steps@[
                i
            ].resource_needs@.len() && rep_idx(
                *template,
                template.steps@[i].resource_needs@[k].resource_id@,
            ) >= 0 && template.resources@[rep_idx(
                *template,
                template.steps@[i].resource_needs@[k].resource_id@,
            )].kind == ResourceKind::Consumable ==> consumable_entry_exact(
                *template,
                crit_flags(steps0),
                result.early_starts@,
                effective_caps(*template, inventory),
                i,
                k,
                result.solved_steps@[i].assigned_resources@,
            ),
        (forall|i: int|
            0 <= i < template.steps@.len() ==> (#[trigger] result.solved_steps@[
                i
            ]).start_offset_mins <= result.late_starts@[i]) ==> forall|widx: int|
            override_warnings(*template, inventory).len() <= widx < alloc_warnings@.len()
                ==> is_shortage_warning(#[trigger] str_views(alloc_warnings@)[widx]),
        template.resources@.len() == 0 ==> alloc_warnings@.len() == 0 && (forall|i: int|
            0 <= i < template.steps@.len() ==> (#[trigger] result.solved_steps@[
                i
            ]).start_offset_mins == (if crate::validator::is_alap(template.steps@[i]) {
                result.late_starts@[i]
            } else {
                result.early_starts@[i]
            })),
        forall|j: int|
            0 <= j < template.resources@.len() && (#[trigger] template.resources@[j]).kind
                == ResourceKind::Consumable && rep_idx(*template, template.resources@[j].id@)
                == j ==> assigned_used(result.solved_steps@, template.resources@[j].id@) == (
            if template_demand(*template, template.steps@.len() as int, j) <= effective_caps(
                *template,
                inventory,
            )[j] as int {
                template_demand(*template, template.steps@.len() as int, j)
            } else {
                effective_caps(*template, inventory)[j] as int
            }),
        needs_fit_capacities(*template, effective_caps(*template, inventory)) ==> forall|
            j: int,
            x: int,
        |
            0 <= j < template.resources@.len() && template.resources@[j].kind
                != ResourceKind::Consumable && rep_idx(*template, template.resources@[j].id@)
                == j ==> #[trigger] steps_usage_at(
                *template,
                result.solved_steps@,
                template.steps@.len() as int,
                j,
                x,
            ) <= effective_caps(*template, inventory)[j] as int,
    ensures
        solve_ok_post(*template, inventory, s),
{
    let ghost t = *template;
    let ghost ds = durations(t);
    let ghost ges = result.early_starts@;
    let ghost gls = result.late_starts@;
    let n = result.solved_steps.len();
    proof {
        assert forall|i: int| 0 <= i < n implies {
            &&& (#[trigger] result.solved_steps@[i]).step_id@ == t.steps@[i].id@
            &&& (result.solved_steps@[i].is_critical <==> result.solved_steps@[
                i
            ].total_float_mins == 0)
            &&& result.solved_steps@[i].total_float_mins as int == gls[i] as int - ges[i] as int
            &&& (result.solved_steps@[i].is_critical <==> gls[i] == ges[i])
        } by {
            assert(crate::cpm::solved_step_matches(
                t,
                steps0[i],
                ges[i],
                gls[i],
                crate::cpm::max_ef_upto(ges, ds, n as int),
                i,
            ));
        }
    }

    // Total duration: the largest end offset after allocation.
    let mut total: u32 = result.project_end;
    if n > 0 {
        total = result.solved_steps[0].end_offset_mins;
        let mut i: usize = 1;
        while i < n
            invariant
                1 <= i <= n,
                n == result.solved_steps@.len(),
                forall|j: int|
                    0 <= j < i ==> (#[trigger] result.solved_steps@[j]).end_offset_mins <= total,
                exists|j: int|
                    0 <= j < i && (#[trigger] result.solved_steps@[j]).end_offset_mins == total,
            decreases n - i,
        {
            if result.solved_steps[i].end_offset_mins > total {
                total = result.solved_steps[i].end_offset_mins;
            }
            i = i + 1;
        }
    }

    // The critical path: every step the critical-path pass marked.
    let mut critical_path_step_ids: Vec<String> = Vec::new();
    let mut i: usize = 0;
    while i < n
        invariant
            0 <= i <= n,
            n == result.solved_steps@.len(),
            str_views(critical_path_step_ids@) =~= critical_ids_upto(
                result.solved_steps@,
                i as int,
            ),
        decreases n - i,
    {
        if result.solved_steps[i].is_critical {
            let c = result.solved_steps[i].step_id.clone();
            proof {
                assert(str_views(critical_path_step_ids@.push(c)) =~= str_views(
                    critical_path_step_ids@,
                ).push(c@));
            }
            critical_path_step_ids.push(c);
        }
        proof {
            assert(str_views(critical_path_step_ids@) =~= critical_ids_upto(
                result.solved_steps@,
                i as int + 1,
            ));
        }
        i = i + 1;
    }

    let summary = ScheduleSummary { total_duration_mins: total, critical_path_step_ids };
    let s = SolvedSchedule {
        template_id: template.id.clone(),
        solved_steps: result.solved_steps,
        summary,
        warnings: alloc_warnings,
    };
    proof {
        assert(str_views(s.warnings@).take(override_warnings(t, inventory).len() as int)
            =~= override_warnings(t, inventory));
        assert forall|c: Seq<int>| #[trigger] fs_chain(t, c) implies chain_duration(t, c)
            <= s.summary.total_duration_mins as int by {
            let es_ints = to_ints(ges);
            assert forall|v: int| 0 <= v < es_ints.len() implies #[trigger] es_ints[v] >= 0
                by {}
            lemma_chain_early_finish(t, es_ints, c, c.len() as int);
            assert(c.take(c.len() as int) =~= c);
            let last = c[c.len() - 1];
            assert(s.solved_steps@[last].start_offset_mins >= ges[last]);
            assert(s.solved_steps@[last].end_offset_mins as int >= es_ints[last] + ds[last]);
        }
        if t.resources@.len() == 0 && (forall|i2: int|
            0 <= i2 < t.steps@.len() ==> !crate::validator::is_alap(#[trigger] t.steps@[i2])) {
            assert forall|k: int| 0 <= k < dep_edges(t.steps@).len() implies dep_satisfied(
                t,
                s.solved_steps@,
                #[trigger] (k + 0),
            ) by {
                crate::graph::lemma_dep_edges_in_range(t.steps@, t.steps@.len() as int);
                let e = dep_edges(t.steps@)[k];
                let es_ints = to_ints(ges);
                assert(!crate::validator::is_alap(t.steps@[e.pred as int]));
                assert(!crate::validator::is_alap(t.steps@[e.succ as int]));
                assert(es_ints[e.succ as int] >= crate::cpm::clamp0(
                    crate::cpm::fwd_candidate(
                        es_ints[e.pred as int],
                        ds[e.pred as int] as int,
                        ds[e.succ as int] as int,
                        e.dep,
                    ),
                ));
                assert(to_ints(ges)[e.pred as int] == ges[e.pred as int] as int);
                assert(to_ints(ges)[e.succ as int] == ges[e.succ as int] as int);
                assert(to_ints(gls)[e.pred as int] == gls[e.pred as int] as int);
                assert(to_ints(gls)[e.succ as int] == gls[e.succ as int] as int);
            }
        }
        assert(crate::cpm::cpm_values_ok(t, ges, gls));
        assert(crit_flags(s.solved_steps@) =~= crit_flags(steps0));
        assert forall|i2: int, k2: int|
            #![trigger t.steps@[i2].resource_needs@[k2]]
            0 <= i2 < t.steps@.len() && 0 <= k2 < t.steps@[i2].resource_needs@.len() && rep_idx(
                t,
                t.steps@[i2].resource_needs@[k2].resource_id@,
            ) >= 0 && t.resources@[rep_idx(
                t,
                t.steps@[i2].resource_needs@[k2].resource_id@,
            )].kind == ResourceKind::Consumable implies consumable_entry_exact(
            t,
            crit_flags(s.solved_steps@),
            ges,
            effective_caps(t, inventory),
            i2,
            k2,
            s.solved_steps@[i2].assigned_resources@,
        ) by {
            assert(consumable_entry_exact(
                t,
                crit_flags(steps0),
                ges,
                effective_caps(t, inventory),
                i2,
                k2,
                result.solved_steps@[i2].assigned_resources@,
            ));
        }
        assert forall|i: int| 0 <= i < t.steps@.len() implies {
            &&& crate::cpm::opt_str_matches(
                (#[trigger] s.solved_steps@[i]).start_time,
                crate::cpm::wall_time_spec(
                    t,
                    crate::cpm::max_ef_upto(ges, ds, t.steps@.len() as int),
                    (if crate::validator::is_alap(t.steps@[i]) {
                        gls[i]
                    } else {
                        ges[i]
                    }) as int,
                ),
            )
            &&& crate::cpm::opt_str_matches(
                s.solved_steps@[i].end_time,
                crate::cpm::wall_time_spec(
                    t,
                    crate::cpm::max_ef_upto(ges, ds, t.steps@.len() as int),
                    (if crate::validator::is_alap(t.steps@[i]) {
                        gls[i]
                    } else {
                        ges[i]
                    }) as int + ds[i],
                ),
            )
        } by {
            assert(crate::cpm::solved_step_matches(
                t,
                steps0[i],
                ges[i],
                gls[i],
                crate::cpm::max_ef_upto(ges, ds, t.steps@.len() as int),
                i,
            ));
            assert(steps0[i].start_offset_mins as int == (
            if crate::validator::is_alap(t.steps@[i]) {
                gls[i]
            } else {
                ges[i]
            }) as int);
            assert(steps0[i].end_offset_mins as int == steps0[i].start_offset_mins as int + ds[
                i
            ]);
            assert(s.solved_steps@[i].start_time == steps0[i].start_time);
            assert(s.solved_steps@[i].end_time == steps0[i].end_time);
        }
        if t.steps@.len() == 0 {
            assert(s.summary.total_duration_mins as int == crate::cpm::project_end_spec(t, ges));
        }
    }
    s
}


} // verus!
