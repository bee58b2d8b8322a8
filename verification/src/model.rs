//! The data model: templates on the input side, solved schedules on the
//! output side, and the spec-level lookups that the other modules' contracts
//! are written over.

use vstd::prelude::*;

verus! {

/// Per-step scheduling policy: place the step as soon as possible or as late
/// as possible within its float window.
#[derive(Debug, Clone, Copy, PartialEq, Eq)]
pub enum TimingPolicy {
    Asap,
    Alap,
}

/// The four standard precedence relations of project scheduling.
#[derive(Debug, Clone, Copy, PartialEq, Eq)]
pub enum DependencyType {
    /// Successor starts after the predecessor finishes (the common case).
    FinishToStart,
    /// Successor starts after the predecessor starts.
    StartToStart,
    /// Successor finishes after the predecessor finishes.
    FinishToFinish,
    /// Successor finishes after the predecessor starts.
    StartToFinish,
}

/// Category of a resource; decides how capacity and quantity are read.
#[derive(Debug, Clone, Copy, PartialEq, Eq)]
pub enum ResourceKind {
    /// Physical asset with an integer number of simultaneous slots.
    Equipment,
    /// Human resources; capacity is the headcount available at one time.
    People,
    /// A draining budget: quantity decreases as steps consume it.
    Consumable,
}

/// A directed dependency from a predecessor step to the step that lists it.
#[derive(Debug, Clone)]
pub struct StepDependency {
    /// The ID of the predecessor step.
    pub step_id: String,
    pub dependency_type: DependencyType,
}

/// What a single step requires from a resource.
#[derive(Debug, Clone)]
pub struct ResourceNeed {
    /// References a `Resource` by its ID.
    pub resource_id: String,
    /// How many units, slots or people are needed.
    pub quantity: u32,
    /// For People resources: optional lower bound. Carried but not enforced.
    pub min_people: Option<u32>,
    /// For People resources: optional upper bound. Carried but not enforced.
    pub max_people: Option<u32>,
}

/// A single work unit in a schedule template.
#[derive(Debug, Clone)]
pub struct Step {
    pub id: String,
    pub title: String,
    pub description: Option<String>,
    /// Duration of this step in minutes. Must be positive.
    pub duration_mins: u32,
    /// Predecessor dependencies with their relation type.
    pub dependencies: Vec<StepDependency>,
    /// Optional membership in a `Track`.
    pub track_id: Option<String>,
    /// Scheduling policy for this step; `None` means as soon as possible.
    pub timing_policy: Option<TimingPolicy>,
    /// Resource requirements for this step.
    pub resource_needs: Vec<ResourceNeed>,
}

/// Organizational grouping of steps.
#[derive(Debug, Clone)]
pub struct Track {
    pub id: String,
    pub name: String,
}

/// A resource defined by a schedule template.
#[derive(Debug, Clone)]
pub struct Resource {
    pub id: String,
    pub name: String,
    pub kind: ResourceKind,
    /// Equipment: simultaneous slots. People: headcount. Consumable: budget.
    pub capacity: u32,
    /// Named roles within a People resource. Empty by default.
    pub roles: Vec<String>,
}

/// Schedule-level time constraint driving forward or backward scheduling.
#[derive(Debug, Clone)]
pub struct TimeConstraint {
    /// ISO 8601 datetime string: drives forward scheduling from this point.
    pub start_time: Option<String>,
    /// ISO 8601 datetime string: drives backward scheduling from this point.
    pub end_time: Option<String>,
}

/// The user-defined schedule template. Contains no concrete wall-clock times.
#[derive(Debug, Clone)]
pub struct ScheduleTemplate {
    pub id: String,
    pub name: String,
    pub description: Option<String>,
    pub steps: Vec<Step>,
    pub tracks: Vec<Track>,
    pub resources: Vec<Resource>,
    pub time_constraint: Option<TimeConstraint>,
    /// Fallback headcount for steps without an explicit people need.
    pub default_num_people: Option<u32>,
}

/// How many of one resource the caller actually has at solve time.
#[derive(Debug, Clone)]
pub struct ResourceInventoryItem {
    /// References a `Resource` by its ID.
    pub resource_id: String,
    pub available_quantity: u32,
}

/// The complete set of solve-time resource availability overrides.
#[derive(Debug, Clone)]
pub struct ResourceInventory {
    pub items: Vec<ResourceInventoryItem>,
}

/// Records which resource a solved step uses, and how much of it.
#[derive(Debug, Clone)]
pub struct AssignedResource {
    pub resource_id: String,
    pub quantity_used: u32,
}

/// A step in a solved schedule with concrete timing information.
#[derive(Debug, Clone)]
pub struct SolvedStep {
    /// References a `Step` from the template.
    pub step_id: String,
    /// Minutes from schedule start (always non-negative).
    pub start_offset_mins: u32,
    pub end_offset_mins: u32,
    /// Wall-clock start (ISO 8601), when the template declares a start time.
    pub start_time: Option<String>,
    /// Wall-clock end (ISO 8601), populated alongside `start_time`.
    pub end_time: Option<String>,
    pub assigned_resources: Vec<AssignedResource>,
    /// Slack available to this step without delaying the project end, as
    /// computed by the critical-path pass.
    pub total_float_mins: u32,
    /// Whether the critical-path pass found zero float for this step.
    pub is_critical: bool,
}

/// Schedule-level metadata produced alongside the solved steps.
#[derive(Debug, Clone)]
pub struct ScheduleSummary {
    pub total_duration_mins: u32,
    pub critical_path_step_ids: Vec<String>,
}

/// The complete solver output: concrete timing for every step, summary
/// metadata, and the warnings gathered while solving.
#[derive(Debug, Clone)]
pub struct SolvedSchedule {
    /// References the originating `ScheduleTemplate` by ID.
    pub template_id: String,
    pub solved_steps: Vec<SolvedStep>,
    pub summary: ScheduleSummary,
    /// Human-readable warnings, in the order they were produced.
    pub warnings: Vec<String>,
}

/// The IDs of a sequence of steps, as character sequences.
pub open spec fn step_id_seq(steps: Seq<Step>) -> Seq<Seq<char>> {
    steps.map(|_i: int, s: Step| s.id@)
}

/// The IDs of a sequence of resources, as character sequences.
pub open spec fn resource_id_seq(resources: Seq<Resource>) -> Seq<Seq<char>> {
    resources.map(|_i: int, r: Resource| r.id@)
}

/// Index of the first occurrence of `id` in `ids`, or -1 when absent.
pub open spec fn first_index_of(ids: Seq<Seq<char>>, id: Seq<char>) -> int
    decreases ids.len(),
{
    if ids.len() == 0 {
        -1
    } else if ids[0] == id {
        0
    } else {
        let rest = first_index_of(ids.drop_first(), id);
        if rest < 0 {
            -1
        } else {
            rest + 1
        }
    }
}

/// Index of the last occurrence of `id` in `ids`, or -1 when absent.
pub open spec fn last_index_of(ids: Seq<Seq<char>>, id: Seq<char>) -> int
    decreases ids.len(),
{
    if ids.len() == 0 {
        -1
    } else if ids[ids.len() - 1] == id {
        ids.len() - 1
    } else {
        last_index_of(ids.drop_last(), id)
    }
}

/// The basic sanity of `first_index_of`: a non-negative result points at a
/// matching entry, every match lies at or after it, and -1 means nothing
/// matches.
pub proof fn lemma_first_index_of(ids: Seq<Seq<char>>, id: Seq<char>)
    ensures
        first_index_of(ids, id) >= -1,
        first_index_of(ids, id) >= 0 ==> {
            &&& first_index_of(ids, id) < ids.len()
            &&& ids[first_index_of(ids, id)] == id
        },
        forall|j: int|
            0 <= j < ids.len() && ids[j] == id ==> 0 <= first_index_of(ids, id) <= j,
        first_index_of(ids, id) == -1 <==> (forall|j: int| 0 <= j < ids.len() ==> ids[j] != id),
    decreases ids.len(),
{
    if ids.len() == 0 {
    } else if ids[0] == id {
        assert(ids[0] == id);
    } else {
        lemma_first_index_of(ids.drop_first(), id);
        let rest = first_index_of(ids.drop_first(), id);
        assert forall|j: int| 0 <= j < ids.drop_first().len() implies ids.drop_first()[j]
            == ids[j + 1] by {}
        if rest >= 0 {
            assert(ids[rest + 1] == ids.drop_first()[rest]);
        }
        assert forall|j: int|
            0 <= j < ids.len() && ids[j] == id implies 0 <= first_index_of(ids, id) <= j by {
            assert(j > 0);
            assert(ids.drop_first()[j - 1] == ids[j]);
        }
        if rest == -1 {
            assert forall|j: int| 0 <= j < ids.len() implies ids[j] != id by {
                if j > 0 {
                    assert(ids[j] == ids.drop_first()[j - 1]);
                }
            }
        }
    }
}

/// The basic sanity of `last_index_of`: a non-negative result points at a
/// matching entry, every match lies at or before it, and -1 means nothing
/// matches.
pub proof fn lemma_last_index_of(ids: Seq<Seq<char>>, id: Seq<char>)
    ensures
        last_index_of(ids, id) >= -1,
        last_index_of(ids, id) >= 0 ==> {
            &&& last_index_of(ids, id) < ids.len()
            &&& ids[last_index_of(ids, id)] == id
        },
        forall|j: int|
            0 <= j < ids.len() && ids[j] == id ==> j <= last_index_of(ids, id),
        last_index_of(ids, id) == -1 <==> (forall|j: int| 0 <= j < ids.len() ==> ids[j] != id),
    decreases ids.len(),
{
    if ids.len() == 0 {
    } else if ids[ids.len() - 1] == id {
        assert(ids[ids.len() - 1] == id);
    } else {
        lemma_last_index_of(ids.drop_last(), id);
        let rest = last_index_of(ids.drop_last(), id);
        assert forall|j: int| 0 <= j < ids.drop_last().len() implies ids.drop_last()[j]
            == ids[j] by {}
        if rest >= 0 {
            assert(ids[rest] == ids.drop_last()[rest]);
        }
        assert forall|j: int|
            0 <= j < ids.len() && ids[j] == id implies j <= last_index_of(ids, id) by {
            assert(j < ids.len() - 1);
            assert(ids.drop_last()[j] == ids[j]);
        }
        if rest == -1 {
            assert forall|j: int| 0 <= j < ids.len() implies ids[j] != id by {
                if j < ids.len() - 1 {
                    assert(ids[j] == ids.drop_last()[j]);
                }
            }
        }
    }
}

/// Finds the first step whose ID equals `id`, as `first_index_of` specifies.
pub fn find_step_index(steps: &Vec<Step>, id: &String) -> (r: Option<usize>)
    ensures
        match r {
            Some(i) => i == first_index_of(step_id_seq(steps@), id@),
            None => first_index_of(step_id_seq(steps@), id@) == -1,
        },
{
    proof {
        lemma_first_index_of(step_id_seq(steps@), id@);
    }
    let n = steps.len();
    let mut i: usize = 0;
    while i < n
        invariant
            0 <= i <= n,
            n == steps@.len(),
            forall|j: int| 0 <= j < i ==> step_id_seq(steps@)[j] != id@,
        decreases n - i,
    {
        if steps[i].id == *id {
            proof {
                assert(step_id_seq(steps@)[i as int] == steps@[i as int].id@);
                lemma_first_index_of(step_id_seq(steps@), id@);
            }
            return Some(i);
        }
        i = i + 1;
    }
    None
}

/// Finds the first resource whose ID equals `id`.
pub fn find_resource_index(resources: &Vec<Resource>, id: &String) -> (r: Option<usize>)
    ensures
        match r {
            Some(i) => i == first_index_of(resource_id_seq(resources@), id@),
            None => first_index_of(resource_id_seq(resources@), id@) == -1,
        },
{
    proof {
        lemma_first_index_of(resource_id_seq(resources@), id@);
    }
    let n = resources.len();
    let mut i: usize = 0;
    while i < n
        invariant
            0 <= i <= n,
            n == resources@.len(),
            forall|j: int| 0 <= j < i ==> resource_id_seq(resources@)[j] != id@,
        decreases n - i,
    {
        if resources[i].id == *id {
            proof {
                assert(resource_id_seq(resources@)[i as int] == resources@[i as int].id@);
                lemma_first_index_of(resource_id_seq(resources@), id@);
            }
            return Some(i);
        }
        i = i + 1;
    }
    None
}

/// Finds the last resource whose ID equals `id`. Capacity and kind lookups go
/// through this index, so that when IDs repeat the latest definition wins.
pub fn find_resource_index_last(resources: &Vec<Resource>, id: &String) -> (r: Option<usize>)
    ensures
        match r {
            Some(i) => i == last_index_of(resource_id_seq(resources@), id@),
            None => last_index_of(resource_id_seq(resources@), id@) == -1,
        },
{
    proof {
        lemma_last_index_of(resource_id_seq(resources@), id@);
    }
    let n = resources.len();
    let mut i: usize = n;
    while i > 0
        invariant
            0 <= i <= n,
            n == resources@.len(),
            forall|j: int| i <= j < n ==> resource_id_seq(resources@)[j] != id@,
        decreases i,
    {
        i = i - 1;
        if resources[i].id == *id {
            proof {
                assert(resources@[i as int].id@ == id@);
                assert(resource_id_seq(resources@)[i as int] == resources@[i as int].id@);
                lemma_last_index_of(resource_id_seq(resources@), id@);
                let l = last_index_of(resource_id_seq(resources@), id@);
                assert(l >= 0);
                if l > i as int {
                    assert(resource_id_seq(resources@)[l] == id@);
                    assert(false);
                }
                if l < i as int {
                    assert(resource_id_seq(resources@)[i as int] != id@);
                }
            }
            return Some(i);
        }
    }
    None
}

/// Index of the first entry whose name equals `name` exactly, or -1.
pub open spec fn first_exact_entry(entries: Seq<(String, u32)>, name: Seq<char>) -> int
    decreases entries.len(),
{
    if entries.len() == 0 {
        -1
    } else if entries[0].0@ == name {
        0
    } else {
        let rest = first_exact_entry(entries.drop_first(), name);
        if rest < 0 {
            -1
        } else {
            rest + 1
        }
    }
}

/// Index of the first entry whose name equals `name` up to ASCII case,
/// or -1.
pub open spec fn first_fold_entry(entries: Seq<(String, u32)>, name: Seq<char>) -> int
    decreases entries.len(),
{
    if entries.len() == 0 {
        -1
    } else if crate::strutil::ascii_eq(entries[0].0@, name) {
        0
    } else {
        let rest = first_fold_entry(entries.drop_first(), name);
        if rest < 0 {
            -1
        } else {
            rest + 1
        }
    }
}

proof fn lemma_first_exact_entry(entries: Seq<(String, u32)>, name: Seq<char>)
    ensures
        first_exact_entry(entries, name) >= 0 ==> first_exact_entry(entries, name)
            < entries.len() && entries[first_exact_entry(entries, name)].0@ == name,
        forall|j: int|
            0 <= j < entries.len() && (#[trigger] entries[j]).0@ == name ==> 0
                <= first_exact_entry(entries, name) <= j,
        first_exact_entry(entries, name) == -1 <==> (forall|j: int|
            0 <= j < entries.len() ==> (#[trigger] entries[j]).0@ != name),
    decreases entries.len(),
{
    if entries.len() == 0 {
    } else if entries[0].0@ == name {
        assert(entries[0].0@ == name);
    } else {
        lemma_first_exact_entry(entries.drop_first(), name);
        assert forall|j: int| 0 <= j < entries.drop_first().len() implies entries.drop_first()[j]
            == entries[j + 1] by {}
        let rest = first_exact_entry(entries.drop_first(), name);
        if rest >= 0 {
            assert(entries[rest + 1] == entries.drop_first()[rest]);
        }
        assert forall|j: int|
            0 <= j < entries.len() && (#[trigger] entries[j]).0@ == name implies 0
            <= first_exact_entry(entries, name) <= j by {
            assert(j > 0);
            assert(entries.drop_first()[j - 1] == entries[j]);
        }
        if rest == -1 {
            assert forall|j: int| 0 <= j < entries.len() implies (#[trigger] entries[j]).0@
                != name by {
                if j > 0 {
                    assert(entries[j] == entries.drop_first()[j - 1]);
                }
            }
        }
    }
}

proof fn lemma_first_fold_entry(entries: Seq<(String, u32)>, name: Seq<char>)
    ensures
        first_fold_entry(entries, name) >= 0 ==> first_fold_entry(entries, name) < entries.len()
            && crate::strutil::ascii_eq(entries[first_fold_entry(entries, name)].0@, name),
        forall|j: int|
            0 <= j < entries.len() && crate::strutil::ascii_eq((#[trigger] entries[j]).0@, name)
                ==> 0 <= first_fold_entry(entries, name) <= j,
        first_fold_entry(entries, name) == -1 <==> (forall|j: int|
            0 <= j < entries.len() ==> !crate::strutil::ascii_eq(
                (#[trigger] entries[j]).0@,
                name,
            )),
    decreases entries.len(),
{
    if entries.len() == 0 {
    } else if crate::strutil::ascii_eq(entries[0].0@, name) {
        assert(crate::strutil::ascii_eq(entries[0].0@, name));
    } else {
        lemma_first_fold_entry(entries.drop_first(), name);
        assert forall|j: int| 0 <= j < entries.drop_first().len() implies entries.drop_first()[j]
            == entries[j + 1] by {}
        let rest = first_fold_entry(entries.drop_first(), name);
        if rest >= 0 {
            assert(entries[rest + 1] == entries.drop_first()[rest]);
        }
        assert forall|j: int|
            0 <= j < entries.len() && crate::strutil::ascii_eq((#[trigger] entries[j]).0@, name)
            implies 0 <= first_fold_entry(entries, name) <= j by {
            assert(j > 0);
            assert(entries.drop_first()[j - 1] == entries[j]);
        }
        if rest == -1 {
            assert forall|j: int| 0 <= j < entries.len() implies !crate::strutil::ascii_eq(
                (#[trigger] entries[j]).0@,
                name,
            ) by {
                if j > 0 {
                    assert(entries[j] == entries.drop_first()[j - 1]);
                }
            }
        }
    }
}

/// The count an inventory table assigns to a resource name: the first
/// exactly matching entry wins, then the first entry matching up to ASCII
/// case, else none.
pub open spec fn inventory_entry_qty(entries: Seq<(String, u32)>, name: Seq<char>) -> Option<
    u32,
> {
    if first_exact_entry(entries, name) >= 0 {
        Option::Some(entries[first_exact_entry(entries, name)].1)
    } else if first_fold_entry(entries, name) >= 0 {
        Option::Some(entries[first_fold_entry(entries, name)].1)
    } else {
        Option::None
    }
}

/// The inventory items built from the first `j` resources: one item per
/// resource whose display name matches an entry, carrying that entry's
/// count, keyed by the resource's ID.
pub open spec fn built_inventory_upto(
    resources: Seq<Resource>,
    entries: Seq<(String, u32)>,
    j: int,
) -> Seq<(Seq<char>, u32)>
    decreases j,
{
    if j <= 0 {
        Seq::empty()
    } else {
        let rest = built_inventory_upto(resources, entries, j - 1);
        match inventory_entry_qty(entries, resources[j - 1].name@) {
            Option::Some(q) => rest.push((resources[j - 1].id@, q)),
            Option::None => rest,
        }
    }
}

/// Converts a name-to-count table into a `ResourceInventory` by matching
/// resource display names, exactly first and then up to ASCII case.
/// Entries matching no resource name are ignored.
pub fn build_inventory(
    template: &ScheduleTemplate,
    entries: &Vec<(String, u32)>,
) -> (r: ResourceInventory)
    ensures
        r.items@.map(|_i: int, it: ResourceInventoryItem| (it.resource_id@, it.available_quantity))
            == built_inventory_upto(
            template.resources@,
            entries@,
            template.resources@.len() as int,
        ),
{
    let ghost t = *template;
    let rn = template.resources.len();
    let en = entries.len();
    let mut items: Vec<ResourceInventoryItem> = Vec::new();
    let mut j: usize = 0;
    while j < rn
        invariant
            0 <= j <= rn,
            rn == template.resources@.len(),
            t == *template,
            en == entries@.len(),
            items@.map(|_i: int, it: ResourceInventoryItem| (it.resource_id@, it.available_quantity))
                =~= built_inventory_upto(t.resources@, entries@, j as int),
        decreases rn - j,
    {
        let name = &template.resources[j].name;
        let mut found: Option<u32> = None;
        let mut k: usize = 0;
        while k < en
            invariant
                0 <= k <= en,
                0 <= j < rn,
                rn == template.resources@.len(),
                t == *template,
                en == entries@.len(),
                name@ == t.resources@[j as int].name@,
                match found {
                    Option::Some(q) => first_exact_entry(entries@, name@) >= 0 && q == entries@[
                        first_exact_entry(entries@, name@)
                    ].1,
                    Option::None => forall|k2: int|
                        0 <= k2 < k ==> (#[trigger] entries@[k2]).0@ != name@,
                },
                found is Some ==> k == en,
            decreases en - k,
        {
            if entries[k].0 == *name {
                proof {
                    lemma_first_exact_entry(entries@, name@);
                    assert(first_exact_entry(entries@, name@) == k as int);
                }
                found = Some(entries[k].1);
                k = en;
            } else {
                k = k + 1;
            }
        }
        proof {
            if found is None {
                lemma_first_exact_entry(entries@, name@);
            }
        }
        if found.is_none() {
            let mut k: usize = 0;
            while k < en
                invariant
                    0 <= k <= en,
                    0 <= j < rn,
                    rn == template.resources@.len(),
                    t == *template,
                    en == entries@.len(),
                    name@ == t.resources@[j as int].name@,
                    first_exact_entry(entries@, name@) == -1,
                    match found {
                        Option::Some(q) => first_fold_entry(entries@, name@) >= 0 && q
                            == entries@[first_fold_entry(entries@, name@)].1,
                        Option::None => forall|k2: int|
                            0 <= k2 < k ==> !crate::strutil::ascii_eq(
                                (#[trigger] entries@[k2]).0@,
                                name@,
                            ),
                    },
                    found is Some ==> k == en,
                decreases en - k,
            {
                if crate::strutil::eq_ignore_ascii_case(entries[k].0.as_str(), name.as_str()) {
                    proof {
                        lemma_first_fold_entry(entries@, name@);
                        assert(first_fold_entry(entries@, name@) == k as int);
                    }
                    found = Some(entries[k].1);
                    k = en;
                } else {
                    k = k + 1;
                }
            }
            proof {
                if found is None {
                    lemma_first_fold_entry(entries@, name@);
                }
            }
        }
        match found {
            Some(q) => {
                let it = ResourceInventoryItem {
                    resource_id: template.resources[j].id.clone(),
                    available_quantity: q,
                };
                proof {
                    assert(inventory_entry_qty(entries@, t.resources@[j as int].name@)
                        == Option::Some(q));
                    assert(items@.push(it).map(
                        |_i: int, it2: ResourceInventoryItem|
                            (it2.resource_id@, it2.available_quantity),
                    ) =~= items@.map(
                        |_i: int, it2: ResourceInventoryItem|
                            (it2.resource_id@, it2.available_quantity),
                    ).push((it.resource_id@, it.available_quantity)));
                }
                items.push(it);
            }
            None => {
                proof {
                    assert(inventory_entry_qty(entries@, t.resources@[j as int].name@)
                        is None);
                }
            }
        }
        proof {
            assert(items@.map(
                |_i: int, it2: ResourceInventoryItem| (it2.resource_id@, it2.available_quantity),
            ) =~= built_inventory_upto(t.resources@, entries@, j as int + 1));
        }
        j = j + 1;
    }
    proof {
        assert(items@.map(
            |_i: int, it2: ResourceInventoryItem| (it2.resource_id@, it2.available_quantity),
        ) =~= built_inventory_upto(t.resources@, entries@, rn as int));
    }
    ResourceInventory { items }
}

} // verus!
