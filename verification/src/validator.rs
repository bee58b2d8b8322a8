//! Structural validation of a schedule template: duplicate IDs, missing
//! durations, dangling references and dependency cycles are errors that
//! block solving; a handful of advisory conditions become warnings.

use vstd::prelude::*;

use crate::graph::{dep_edges, edge_pairs, has_cycle};
use crate::model::{
    first_index_of, resource_id_seq, step_id_seq, ScheduleTemplate, Step, TimingPolicy,
};
use crate::strutil::join_with;

verus! {

/// The outcome of validating a template: fatal errors first, then advisory
/// warnings, each as human-readable text.
#[derive(Debug, Clone)]
pub struct ValidationResult {
    pub errors: Vec<String>,
    pub warnings: Vec<String>,
}

impl ValidationResult {
    /// A template is fit for solving exactly when validation found no error.
    pub fn is_ok(&self) -> (r: bool)
        ensures
            r == (self.errors@.len() == 0),
    {
        self.errors.is_empty()
    }
}

/// The views of a sequence of strings.
pub open spec fn str_views(ss: Seq<String>) -> Seq<Seq<char>> {
    ss.map(|_i: int, s: String| s@)
}

pub open spec fn msg_duplicate_step(id: Seq<char>) -> Seq<char> {
    "Duplicate step ID '"@ + id + "' -- each step must have a unique ID"@
}

pub open spec fn msg_no_duration(title: Seq<char>) -> Seq<char> {
    "Step '"@ + title + "' has no duration -- every step needs a duration in minutes"@
}

pub open spec fn msg_unknown_dependency(title: Seq<char>, dep: Seq<char>) -> Seq<char> {
    "Step '"@ + title + "' depends on '"@ + dep + "' which doesn't exist"@
}

pub open spec fn msg_unknown_resource(title: Seq<char>, rid: Seq<char>) -> Seq<char> {
    "Step '"@ + title + "' requires resource '"@ + rid + "' which isn't defined"@
}

pub open spec fn msg_cycle(joined: Seq<char>) -> Seq<char> {
    "Circular dependency: "@ + joined + " -- steps have a dependency cycle"@
}

pub open spec fn msg_no_dependencies() -> Seq<char> {
    "No dependencies found -- all steps will run in parallel. Add dependencies if steps need ordering."@
}

pub open spec fn msg_no_resources() -> Seq<char> {
    "No resources defined -- solving without resource constraints"@
}

pub open spec fn msg_no_needs(title: Seq<char>) -> Seq<char> {
    "Step '"@ + title + "' has no resource requirements -- it won't be resource-constrained"@
}

pub open spec fn msg_alap_detached(title: Seq<char>) -> Seq<char> {
    "Step '"@ + title + "' is set to ALAP but has no dependencies -- it will be pushed to the very end"@
}

/// Whether some step before index `j` carries the same ID as step `j`.
pub open spec fn has_earlier_duplicate(steps: Seq<Step>, j: int) -> bool {
    exists|i: int| 0 <= i < j && steps[i].id@ == steps[j].id@
}

/// The duplicate-ID errors of the first `j` steps, in step order.
pub open spec fn duplicate_errors_upto(steps: Seq<Step>, j: int) -> Seq<Seq<char>>
    decreases j,
{
    if j <= 0 {
        Seq::empty()
    } else {
        duplicate_errors_upto(steps, j - 1) + (if has_earlier_duplicate(steps, j - 1) {
            seq![msg_duplicate_step(steps[j - 1].id@)]
        } else {
            Seq::empty()
        })
    }
}

/// The unknown-dependency errors of the first `k` dependencies of a step.
pub open spec fn dep_errors_upto(
    ids: Seq<Seq<char>>,
    step: Step,
    k: int,
) -> Seq<Seq<char>>
    decreases k,
{
    if k <= 0 {
        Seq::empty()
    } else {
        dep_errors_upto(ids, step, k - 1) + (if first_index_of(
            ids,
            step.dependencies@[k - 1].step_id@,
        ) == -1 {
            seq![msg_unknown_dependency(step.title@, step.dependencies@[k - 1].step_id@)]
        } else {
            Seq::empty()
        })
    }
}

/// The unknown-resource errors of the first `k` needs of a step.
pub open spec fn need_errors_upto(
    rids: Seq<Seq<char>>,
    step: Step,
    k: int,
) -> Seq<Seq<char>>
    decreases k,
{
    if k <= 0 {
        Seq::empty()
    } else {
        need_errors_upto(rids, step, k - 1) + (if first_index_of(
            rids,
            step.resource_needs@[k - 1].resource_id@,
        ) == -1 {
            seq![msg_unknown_resource(step.title@, step.resource_needs@[k - 1].resource_id@)]
        } else {
            Seq::empty()
        })
    }
}

/// All per-step errors of one step: missing duration, then unknown
/// dependencies, then unknown resources, in declaration order.
pub open spec fn step_errors(
    ids: Seq<Seq<char>>,
    rids: Seq<Seq<char>>,
    step: Step,
) -> Seq<Seq<char>> {
    (if step.duration_mins == 0 {
        seq![msg_no_duration(step.title@)]
    } else {
        Seq::empty()
    }) + dep_errors_upto(ids, step, step.dependencies@.len() as int) + need_errors_upto(
        rids,
        step,
        step.resource_needs@.len() as int,
    )
}

/// The per-step errors of the first `j` steps.
pub open spec fn per_step_errors_upto(t: ScheduleTemplate, j: int) -> Seq<Seq<char>>
    decreases j,
{
    if j <= 0 {
        Seq::empty()
    } else {
        per_step_errors_upto(t, j - 1) + step_errors(
            step_id_seq(t.steps@),
            resource_id_seq(t.resources@),
            t.steps@[j - 1],
        )
    }
}

/// The IDs of the first `j` steps that carry at least one dependency.
pub open spec fn dep_carrier_ids_upto(steps: Seq<Step>, j: int) -> Seq<Seq<char>>
    decreases j,
{
    if j <= 0 {
        Seq::empty()
    } else {
        dep_carrier_ids_upto(steps, j - 1) + (if steps[j - 1].dependencies@.len() > 0 {
            seq![steps[j - 1].id@]
        } else {
            Seq::empty()
        })
    }
}

/// The cycle error, present exactly when the resolved dependency edges form
/// a cycle; it names every step that carries a dependency.
pub open spec fn cycle_errors(t: ScheduleTemplate) -> Seq<Seq<char>> {
    if has_cycle(edge_pairs(dep_edges(t.steps@))) {
        seq![
            msg_cycle(
                join_with(dep_carrier_ids_upto(t.steps@, t.steps@.len() as int), " -> "@),
            ),
        ]
    } else {
        Seq::empty()
    }
}

/// Every validation error of a template, in the order they are reported.
pub open spec fn validation_errors(t: ScheduleTemplate) -> Seq<Seq<char>> {
    duplicate_errors_upto(t.steps@, t.steps@.len() as int) + per_step_errors_upto(
        t,
        t.steps@.len() as int,
    ) + cycle_errors(t)
}

/// Whether any step of the template declares a dependency.
pub open spec fn has_any_deps(steps: Seq<Step>) -> bool {
    exists|i: int| 0 <= i < steps.len() && (#[trigger] steps[i]).dependencies@.len() > 0
}

/// Whether some step's dependency list mentions `id` as a predecessor.
pub open spec fn id_is_referenced(steps: Seq<Step>, id: Seq<char>) -> bool {
    exists|i: int, k: int|
        0 <= i < steps.len() && 0 <= k < steps[i].dependencies@.len() && (#[trigger] steps[
            i
        ].dependencies@[k]).step_id@ == id
}

/// Whether a step declares the as-late-as-possible policy.
pub open spec fn is_alap(step: Step) -> bool {
    step.timing_policy == Some(TimingPolicy::Alap)
}

/// The empty-needs warnings of the first `j` steps (only reported when the
/// template declares resources).
pub open spec fn no_needs_warnings_upto(steps: Seq<Step>, j: int) -> Seq<Seq<char>>
    decreases j,
{
    if j <= 0 {
        Seq::empty()
    } else {
        no_needs_warnings_upto(steps, j - 1) + (if steps[j - 1].resource_needs@.len() == 0 {
            seq![msg_no_needs(steps[j - 1].title@)]
        } else {
            Seq::empty()
        })
    }
}

/// The detached-ALAP warnings of the first `j` steps: ALAP steps with no
/// dependencies that no other step references.
pub open spec fn alap_warnings_upto(steps: Seq<Step>, j: int) -> Seq<Seq<char>>
    decreases j,
{
    if j <= 0 {
        Seq::empty()
    } else {
        alap_warnings_upto(steps, j - 1) + (if is_alap(steps[j - 1]) && steps[j
            - 1].dependencies@.len() == 0 && !id_is_referenced(steps, steps[j - 1].id@) {
            seq![msg_alap_detached(steps[j - 1].title@)]
        } else {
            Seq::empty()
        })
    }
}

/// Every validation warning of a template, in the order they are reported.
pub open spec fn validation_warnings(t: ScheduleTemplate) -> Seq<Seq<char>> {
    (if !has_any_deps(t.steps@) {
        seq![msg_no_dependencies()]
    } else {
        Seq::empty()
    }) + (if t.resources@.len() == 0 {
        seq![msg_no_resources()]
    } else {
        no_needs_warnings_upto(t.steps@, t.steps@.len() as int)
    }) + alap_warnings_upto(t.steps@, t.steps@.len() as int)
}

/// Whether a template passes every structural check: unique step IDs,
/// positive durations, resolvable references, and an acyclic dependency
/// graph.
pub open spec fn template_valid(t: ScheduleTemplate) -> bool {
    &&& forall|i: int, j: int|
        0 <= i < j < t.steps@.len() ==> (#[trigger] t.steps@[i]).id@ != (
        #[trigger] t.steps@[j]).id@
    &&& forall|i: int| 0 <= i < t.steps@.len() ==> (#[trigger] t.steps@[i]).duration_mins > 0
    &&& forall|i: int, k: int|
        0 <= i < t.steps@.len() && 0 <= k < t.steps@[i].dependencies@.len() ==> first_index_of(
            step_id_seq(t.steps@),
            (#[trigger] t.steps@[i].dependencies@[k]).step_id@,
        ) >= 0
    &&& forall|i: int, k: int|
        0 <= i < t.steps@.len() && 0 <= k < t.steps@[i].resource_needs@.len()
            ==> first_index_of(
            resource_id_seq(t.resources@),
            (#[trigger] t.steps@[i].resource_needs@[k]).resource_id@,
        ) >= 0
    &&& !has_cycle(edge_pairs(dep_edges(t.steps@)))
}

/// Builds `pre + mid + post` as one string.
fn build_msg3(pre: &str, mid: &str, post: &str) -> (r: String)
    ensures
        r@ == pre@ + mid@ + post@,
{
    let mut s = String::new();
    s.append(pre);
    s.append(mid);
    s.append(post);
    proof {
        assert(s@ =~= pre@ + mid@ + post@);
    }
    s
}

/// Builds `pre + a + mid + b + post` as one string.
fn build_msg5(pre: &str, a: &str, mid: &str, b: &str, post: &str) -> (r: String)
    ensures
        r@ == pre@ + a@ + mid@ + b@ + post@,
{
    let mut s = String::new();
    s.append(pre);
    s.append(a);
    s.append(mid);
    s.append(b);
    s.append(post);
    proof {
        assert(s@ =~= pre@ + a@ + mid@ + b@ + post@);
    }
    s
}

/// Whether any dependency list in `steps` names `id` as a predecessor.
fn is_referenced(steps: &Vec<Step>, id: &String) -> (r: bool)
    ensures
        r == id_is_referenced(steps@, id@),
{
    let n = steps.len();
    let mut i: usize = 0;
    while i < n
        invariant
            0 <= i <= n,
            n == steps@.len(),
            forall|i2: int, k: int|
                0 <= i2 < i && 0 <= k < steps@[i2].dependencies@.len() ==> (#[trigger] steps@[
                    i2
                ].dependencies@[k]).step_id@ != id@,
        decreases n - i,
    {
        let deps = &steps[i].dependencies;
        let m = deps.len();
        let mut k: usize = 0;
        while k < m
            invariant
                0 <= k <= m,
                0 <= i < n,
                n == steps@.len(),
                deps@ == steps@[i as int].dependencies@,
                m == deps@.len(),
                forall|k2: int| 0 <= k2 < k ==> deps@[k2].step_id@ != id@,
            decreases m - k,
        {
            if deps[k].step_id == *id {
                proof {
                    assert(0 <= i < steps@.len() && 0 <= k < steps@[
                        i as int
                    ].dependencies@.len() && steps@[i as int].dependencies@[k as int].step_id@
                        == id@);
                }
                return true;
            }
            k = k + 1;
        }
        i = i + 1;
    }
    false
}

/// Validates a template: errors (which block solving) first, then warnings,
/// exactly as `validation_errors` and `validation_warnings` describe them.
/// The result is clean exactly when the template is structurally valid.
pub fn validate(template: &ScheduleTemplate) -> (r: ValidationResult)
    requires
        template.steps@.len() <= 0x7FFF_FFFF,
        crate::graph::dep_total(template.steps@, template.steps@.len() as int) <= 0x7FFF_FFFF,
    ensures
        str_views(r.errors@) == validation_errors(*template),
        str_views(r.warnings@) == validation_warnings(*template),
        r.errors@.len() == 0 <==> template_valid(*template),
{
    let steps = &template.steps;
    let n = steps.len();
    let ghost t = *template;
    let mut errors: Vec<String> = Vec::new();
    let mut warnings: Vec<String> = Vec::new();

    // Duplicate step IDs.
    let mut j: usize = 0;
    while j < n
        invariant
            0 <= j <= n,
            n == steps@.len(),
            steps@ == t.steps@,
            t == *template,
            str_views(errors@) =~= duplicate_errors_upto(steps@, j as int),
        decreases n - j,
    {
        let mut dup = false;
        let mut i: usize = 0;
        while i < j
            invariant
                0 <= i <= j < n,
                n == steps@.len(),
                dup <==> exists|i2: int| 0 <= i2 < i && (#[trigger] steps@[i2]).id@ == steps@[
                    j as int
                ].id@,
            decreases j - i,
        {
            if steps[i].id == steps[j].id {
                dup = true;
                proof {
                    assert(0 <= i < j && steps@[i as int].id@ == steps@[j as int].id@);
                }
            }
            i = i + 1;
        }
        if dup {
            let m = build_msg3("Duplicate step ID '", steps[j].id.as_str(),
                "' -- each step must have a unique ID");
            proof {
                assert(str_views(errors@.push(m)) =~= str_views(errors@).push(m@));
            }
            errors.push(m);
        }
        proof {
            assert(duplicate_errors_upto(steps@, j as int + 1) == duplicate_errors_upto(
                steps@,
                j as int,
            ) + (if has_earlier_duplicate(steps@, j as int) {
                seq![msg_duplicate_step(steps@[j as int].id@)]
            } else {
                Seq::<Seq<char>>::empty()
            }));
            assert(str_views(errors@) =~= duplicate_errors_upto(steps@, j as int + 1));
        }
        j = j + 1;
    }

    // Per-step errors: missing duration, unknown dependencies, unknown
    // resource references.
    let ghost dup_all = duplicate_errors_upto(steps@, n as int);
    let mut j: usize = 0;
    while j < n
        invariant
            0 <= j <= n,
            n == steps@.len(),
            steps@ == t.steps@,
            t == *template,
            dup_all == duplicate_errors_upto(steps@, n as int),
            str_views(errors@) =~= dup_all + per_step_errors_upto(t, j as int),
        decreases n - j,
    {
        let ghost ids = step_id_seq(t.steps@);
        let ghost rids = resource_id_seq(t.resources@);
        let ghost before = str_views(errors@);
        if steps[j].duration_mins == 0 {
            let m = build_msg3("Step '", steps[j].title.as_str(),
                "' has no duration -- every step needs a duration in minutes");
            proof {
                assert(str_views(errors@.push(m)) =~= str_views(errors@).push(m@));
            }
            errors.push(m);
        }
        proof {
            assert(str_views(errors@) =~= before + (if t.steps@[j as int].duration_mins == 0 {
                seq![msg_no_duration(t.steps@[j as int].title@)]
            } else {
                Seq::<Seq<char>>::empty()
            }));
        }
        let ghost durpart = (if t.steps@[j as int].duration_mins == 0 {
            seq![msg_no_duration(t.steps@[j as int].title@)]
        } else {
            Seq::<Seq<char>>::empty()
        });
        let deps = &steps[j].dependencies;
        let dm = deps.len();
        let mut k: usize = 0;
        while k < dm
            invariant
                0 <= k <= dm,
                0 <= j < n,
                n == steps@.len(),
                steps@ == t.steps@,
                t == *template,
                deps@ == t.steps@[j as int].dependencies@,
                dm == deps@.len(),
                ids == step_id_seq(t.steps@),
                str_views(errors@) =~= before + durpart + dep_errors_upto(
                    ids,
                    t.steps@[j as int],
                    k as int,
                ),
            decreases dm - k,
        {
            match crate::model::find_step_index(steps, &deps[k].step_id) {
                Some(_) => {}
                None => {
                    let m = build_msg5("Step '", steps[j].title.as_str(), "' depends on '",
                        deps[k].step_id.as_str(), "' which doesn't exist");
                    proof {
                        assert(str_views(errors@.push(m)) =~= str_views(errors@).push(m@));
                    }
                    errors.push(m);
                }
            }
            proof {
                assert(str_views(errors@) =~= before + durpart + dep_errors_upto(
                    ids,
                    t.steps@[j as int],
                    k as int + 1,
                ));
            }
            k = k + 1;
        }
        let needs = &steps[j].resource_needs;
        let nm = needs.len();
        let ghost deppart = dep_errors_upto(
            ids,
            t.steps@[j as int],
            t.steps@[j as int].dependencies@.len() as int,
        );
        let mut k: usize = 0;
        while k < nm
            invariant
                0 <= k <= nm,
                0 <= j < n,
                n == steps@.len(),
                steps@ == t.steps@,
                t == *template,
                needs@ == t.steps@[j as int].resource_needs@,
                nm == needs@.len(),
                rids == resource_id_seq(t.resources@),
                deppart == dep_errors_upto(
                    step_id_seq(t.steps@),
                    t.steps@[j as int],
                    t.steps@[j as int].dependencies@.len() as int,
                ),
                str_views(errors@) =~= before + durpart + deppart + need_errors_upto(
                    rids,
                    t.steps@[j as int],
                    k as int,
                ),
            decreases nm - k,
        {
            let ghost ne_k = need_errors_upto(rids, t.steps@[j as int], k as int);
            match crate::model::find_resource_index(&template.resources, &needs[k].resource_id) {
                Some(_) => {
                    proof {
                        assert(first_index_of(rids, needs@[k as int].resource_id@) >= 0);
                        assert(need_errors_upto(rids, t.steps@[j as int], k as int + 1) =~= ne_k);
                    }
                }
                None => {
                    proof {
                        assert(first_index_of(rids, needs@[k as int].resource_id@) == -1);
                    }
                    let m = build_msg5("Step '", steps[j].title.as_str(),
                        "' requires resource '", needs[k].resource_id.as_str(),
                        "' which isn't defined");
                    proof {
                        assert(m@ == msg_unknown_resource(
                            t.steps@[j as int].title@,
                            t.steps@[j as int].resource_needs@[k as int].resource_id@,
                        ));
                        assert(need_errors_upto(rids, t.steps@[j as int], k as int + 1) =~= ne_k
                            + seq![m@]);
                        assert(str_views(errors@.push(m)) =~= str_views(errors@).push(m@));
                    }
                    errors.push(m);
                }
            }
            proof {
                assert(str_views(errors@) =~= before + durpart + deppart + need_errors_upto(
                    rids,
                    t.steps@[j as int],
                    k as int + 1,
                ));
            }
            k = k + 1;
        }
        proof {
            assert(str_views(errors@) =~= before + step_errors(ids, rids, t.steps@[j as int]));
            assert(str_views(errors@) =~= dup_all + per_step_errors_upto(t, j as int + 1));
        }
        j = j + 1;
    }

    // Cycle detection over the resolved dependency edges.
    let cyclic = crate::graph::detect_cycle(steps);
    if cyclic {
        let mut carriers: Vec<String> = Vec::new();
        let mut j: usize = 0;
        while j < n
            invariant
                0 <= j <= n,
                n == steps@.len(),
                steps@ == t.steps@,
                t == *template,
                str_views(carriers@) =~= dep_carrier_ids_upto(steps@, j as int),
            decreases n - j,
        {
            if steps[j].dependencies.len() > 0 {
                let c = steps[j].id.clone();
                proof {
                    assert(str_views(carriers@.push(c)) =~= str_views(carriers@).push(c@));
                }
                carriers.push(c);
            }
            proof {
                assert(str_views(carriers@) =~= dep_carrier_ids_upto(steps@, j as int + 1));
            }
            j = j + 1;
        }
        let joined = crate::strutil::join_strings(&carriers, " -> ");
        proof {
            assert(carriers@.map(|_i: int, s: String| s@) =~= str_views(carriers@));
        }
        let m = build_msg3("Circular dependency: ", joined.as_str(),
            " -- steps have a dependency cycle");
        proof {
            assert(str_views(errors@.push(m)) =~= str_views(errors@).push(m@));
        }
        errors.push(m);
    }
    proof {
        assert(str_views(errors@) =~= validation_errors(t));
    }

    // Warnings.
    let mut hd = false;
    let mut i: usize = 0;
    while i < n
        invariant
            0 <= i <= n,
            n == steps@.len(),
            hd <==> exists|i2: int|
                0 <= i2 < i && (#[trigger] steps@[i2]).dependencies@.len() > 0,
        decreases n - i,
    {
        if steps[i].dependencies.len() > 0 {
            hd = true;
            proof {
                assert(0 <= i < steps@.len() && steps@[i as int].dependencies@.len() > 0);
            }
        }
        i = i + 1;
    }
    if !hd {
        let m = String::from_str(
            "No dependencies found -- all steps will run in parallel. Add dependencies if steps need ordering.",
        );
        proof {
            assert(str_views(warnings@.push(m)) =~= str_views(warnings@).push(m@));
        }
        warnings.push(m);
    }
    let ghost w1 = (if !has_any_deps(t.steps@) {
        seq![msg_no_dependencies()]
    } else {
        Seq::<Seq<char>>::empty()
    });
    proof {
        assert(str_views(warnings@) =~= w1);
    }
    if template.resources.len() == 0 {
        let m = String::from_str("No resources defined -- solving without resource constraints");
        proof {
            assert(str_views(warnings@.push(m)) =~= str_views(warnings@).push(m@));
        }
        warnings.push(m);
        proof {
            assert(str_views(warnings@) =~= w1 + seq![msg_no_resources()]);
        }
    } else {
        let mut j: usize = 0;
        while j < n
            invariant
                0 <= j <= n,
                n == steps@.len(),
                steps@ == t.steps@,
                t == *template,
                w1 == (if !has_any_deps(t.steps@) {
                    seq![msg_no_dependencies()]
                } else {
                    Seq::<Seq<char>>::empty()
                }),
                str_views(warnings@) =~= w1 + no_needs_warnings_upto(steps@, j as int),
            decreases n - j,
        {
            if steps[j].resource_needs.len() == 0 {
                let m = build_msg3("Step '", steps[j].title.as_str(),
                    "' has no resource requirements -- it won't be resource-constrained");
                proof {
                    assert(str_views(warnings@.push(m)) =~= str_views(warnings@).push(m@));
                }
                warnings.push(m);
            }
            proof {
                assert(str_views(warnings@) =~= w1 + no_needs_warnings_upto(
                    steps@,
                    j as int + 1,
                ));
            }
            j = j + 1;
        }
    }
    let ghost w12 = str_views(warnings@);

    // Detached ALAP steps.
    let mut j: usize = 0;
    while j < n
        invariant
            0 <= j <= n,
            n == steps@.len(),
            steps@ == t.steps@,
            t == *template,
            str_views(warnings@) =~= w12 + alap_warnings_upto(steps@, j as int),
        decreases n - j,
    {
        let alap = match &steps[j].timing_policy {
            Some(TimingPolicy::Alap) => true,
            _ => false,
        };
        if alap && steps[j].dependencies.len() == 0 && !is_referenced(steps, &steps[j].id) {
            let m = build_msg3("Step '", steps[j].title.as_str(),
                "' is set to ALAP but has no dependencies -- it will be pushed to the very end");
            proof {
                assert(str_views(warnings@.push(m)) =~= str_views(warnings@).push(m@));
            }
            warnings.push(m);
        }
        proof {
            assert(str_views(warnings@) =~= w12 + alap_warnings_upto(steps@, j as int + 1));
        }
        j = j + 1;
    }
    proof {
        assert(str_views(warnings@) =~= validation_warnings(t));
        lemma_errors_empty_iff_valid(t);
        assert(str_views(errors@).len() == errors@.len());
    }

    ValidationResult { errors, warnings }
}

/// Each duplicate-ID error list is empty exactly when the first `j` step IDs
/// are pairwise distinct.
proof fn lemma_dup_errors_empty(steps: Seq<Step>, j: int)
    requires
        j <= steps.len(),
    ensures
        duplicate_errors_upto(steps, j).len() == 0 <==> (forall|a: int, b: int|
            0 <= a < b < j ==> (#[trigger] steps[a]).id@ != (#[trigger] steps[b]).id@),
    decreases j,
{
    if j > 0 {
        lemma_dup_errors_empty(steps, j - 1);
        if duplicate_errors_upto(steps, j).len() == 0 {
            assert(!has_earlier_duplicate(steps, j - 1));
            assert forall|a: int, b: int|
                0 <= a < b < j implies (#[trigger] steps[a]).id@ != (
            #[trigger] steps[b]).id@ by {
                if b == j - 1 {
                    assert(!(0 <= a < j - 1 && steps[a].id@ == steps[j - 1].id@));
                }
            }
        } else {
            if duplicate_errors_upto(steps, j - 1).len() > 0 {
            } else {
                assert(has_earlier_duplicate(steps, j - 1));
                let a = choose|a: int| 0 <= a < j - 1 && (#[trigger] steps[a]).id@ == steps[j - 1].id@;
                assert(0 <= a < j - 1 < j && steps[a].id@ == steps[j - 1].id@);
            }
        }
    }
}

/// A step's dependency-error list is empty exactly when its first `k`
/// dependencies resolve.
proof fn lemma_dep_errors_empty(ids: Seq<Seq<char>>, step: Step, k: int)
    requires
        k <= step.dependencies@.len(),
    ensures
        dep_errors_upto(ids, step, k).len() == 0 <==> (forall|k2: int|
            0 <= k2 < k ==> first_index_of(ids, (#[trigger] step.dependencies@[k2]).step_id@)
                >= 0),
    decreases k,
{
    if k > 0 {
        lemma_dep_errors_empty(ids, step, k - 1);
        crate::model::lemma_first_index_of(ids, step.dependencies@[k - 1].step_id@);
    }
}

/// A step's resource-error list is empty exactly when its first `k` needs
/// resolve.
proof fn lemma_need_errors_empty(rids: Seq<Seq<char>>, step: Step, k: int)
    requires
        k <= step.resource_needs@.len(),
    ensures
        need_errors_upto(rids, step, k).len() == 0 <==> (forall|k2: int|
            0 <= k2 < k ==> first_index_of(rids, (#[trigger] step.resource_needs@[k2]).resource_id@)
                >= 0),
    decreases k,
{
    if k > 0 {
        lemma_need_errors_empty(rids, step, k - 1);
        crate::model::lemma_first_index_of(rids, step.resource_needs@[k - 1].resource_id@);
    }
}

/// The per-step error list is empty exactly when the first `j` steps have
/// positive durations and fully resolvable references.
proof fn lemma_per_step_errors_empty(t: ScheduleTemplate, j: int)
    requires
        j <= t.steps@.len(),
    ensures
        per_step_errors_upto(t, j).len() == 0 <==> (forall|i: int|
            0 <= i < j ==> {
                &&& (#[trigger] t.steps@[i]).duration_mins > 0
                &&& forall|k: int|
                    0 <= k < t.steps@[i].dependencies@.len() ==> first_index_of(
                        step_id_seq(t.steps@),
                        (#[trigger] t.steps@[i].dependencies@[k]).step_id@,
                    ) >= 0
                &&& forall|k: int|
                    0 <= k < t.steps@[i].resource_needs@.len() ==> first_index_of(
                        resource_id_seq(t.resources@),
                        (#[trigger] t.steps@[i].resource_needs@[k]).resource_id@,
                    ) >= 0
            }),
    decreases j,
{
    if j > 0 {
        lemma_per_step_errors_empty(t, j - 1);
        let step = t.steps@[j - 1];
        lemma_dep_errors_empty(step_id_seq(t.steps@), step, step.dependencies@.len() as int);
        lemma_need_errors_empty(
            resource_id_seq(t.resources@),
            step,
            step.resource_needs@.len() as int,
        );
    }
}

/// The full error list is empty exactly when the template is valid.
proof fn lemma_errors_empty_iff_valid(t: ScheduleTemplate)
    ensures
        validation_errors(t).len() == 0 <==> template_valid(t),
{
    lemma_dup_errors_empty(t.steps@, t.steps@.len() as int);
    lemma_per_step_errors_empty(t, t.steps@.len() as int);
}

} // verus!
