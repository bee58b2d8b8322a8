//! The greedy resource allocator: steps are taken in priority order —
//! critical first, then smaller early start, then larger duration — and
//! each is shifted within its float window to the first start at which
//! every Equipment and People need fits under capacity, falling back past
//! the window with a warning. Consumables are drained from a budget.

use vstd::prelude::*;

use crate::cpm::{durations, lemma_sum_picked_bound, lemma_sum_picked_mono, lemma_sum_picked_nonneg, sum_durs, sum_picked};
use crate::model::{
    last_index_of, resource_id_seq, AssignedResource, Resource, ResourceInventory,
    ResourceInventoryItem, ResourceKind, ResourceNeed, ScheduleTemplate, SolvedStep,
    TimingPolicy,
};

verus! {

/// One reserved interval on a resource timeline, on the half-open range
/// `[start, end)`.
#[derive(Debug, Clone, Copy)]
pub struct Reservation {
    pub start: u32,
    pub end: u32,
    pub quantity: u32,
}

/// Per-resource interval list for Equipment and People: append-only
/// reservations supporting range usage queries.
#[derive(Debug, Clone)]
pub struct ResourceTimeline {
    pub reservations: Vec<Reservation>,
}

/// The summed quantity of the reservations that overlap `[a, b)`.
pub open spec fn range_used(rs: Seq<Reservation>, a: int, b: int) -> int
    decreases rs.len(),
{
    if rs.len() == 0 {
        0
    } else {
        range_used(rs.drop_last(), a, b) + (if rs[rs.len() - 1].start < b && rs[rs.len()
            - 1].end > a {
            rs[rs.len() - 1].quantity as int
        } else {
            0
        })
    }
}

proof fn lemma_range_used_nonneg(rs: Seq<Reservation>, a: int, b: int)
    ensures
        range_used(rs, a, b) >= 0,
    decreases rs.len(),
{
    if rs.len() > 0 {
        lemma_range_used_nonneg(rs.drop_last(), a, b);
    }
}

proof fn lemma_range_used_bound(rs: Seq<Reservation>, a: int, b: int)
    ensures
        range_used(rs, a, b) <= rs.len() * 0x1_0000_0000,
    decreases rs.len(),
{
    if rs.len() > 0 {
        lemma_range_used_bound(rs.drop_last(), a, b);
        assert((rs.len() - 1) * 0x1_0000_0000 + 0x1_0000_0000 == rs.len() * 0x1_0000_0000)
            by (nonlinear_arith);
    }
}

impl ResourceTimeline {
    /// The summed quantity of the reservations overlapping the half-open
    /// range `[start, end)`, exactly as `range_used` states it.
    pub fn used_at_range(&self, start: u32, end: u32) -> (r: u64)
        requires
            self.reservations@.len() <= 0x7FFF_FFFF,
        ensures
            r as int == range_used(self.reservations@, start as int, end as int),
    {
        proof {
            lemma_range_used_nonneg(self.reservations@, start as int, end as int);
        }
        let n = self.reservations.len();
        let mut sum: u64 = 0;
        let mut i: usize = 0;
        while i < n
            invariant
                0 <= i <= n,
                n == self.reservations@.len(),
                n <= 0x7FFF_FFFF,
                sum as int == range_used(
                    self.reservations@.take(i as int),
                    start as int,
                    end as int,
                ),
                sum as int <= i * 0x1_0000_0000,
            decreases n - i,
        {
            proof {
                let pre = self.reservations@.take(i as int + 1);
                assert(pre.drop_last() =~= self.reservations@.take(i as int));
                assert(pre[pre.len() - 1] == self.reservations@[i as int]);
                assert((i as int) * 0x1_0000_0000 + 0x1_0000_0000 == (i as int + 1)
                    * 0x1_0000_0000) by (nonlinear_arith);
                assert((i as int + 1) * 0x1_0000_0000 <= 0x8000_0000_0000_0000) by {
                    assert((i as int + 1) <= 0x8000_0000);
                    assert((i as int + 1) * 0x1_0000_0000 <= 0x8000_0000 * 0x1_0000_0000)
                        by (nonlinear_arith)
                        requires
                            (i as int + 1) <= 0x8000_0000,
                    ;
                }
            }
            let r = &self.reservations[i];
            if r.start < end && r.end > start {
                sum = sum + r.quantity as u64;
            }
            i = i + 1;
        }
        proof {
            assert(self.reservations@.take(n as int) =~= self.reservations@);
        }
        sum
    }

    /// Appends the reservation `[start, end)` with the given quantity.
    pub fn reserve(&mut self, start: u32, end: u32, quantity: u32)
        ensures
            final(self).reservations@ == old(self).reservations@.push(
                Reservation { start, end, quantity },
            ),
    {
        self.reservations.push(Reservation { start, end, quantity });
    }
}

/// The canonical index of a resource ID: the last resource declared with
/// that ID, or -1 when none carries it. Capacity, kind, timeline and
/// budget lookups all go through this index.
pub open spec fn rep_idx(t: ScheduleTemplate, id: Seq<char>) -> int {
    last_index_of(resource_id_seq(t.resources@), id)
}

/// The display name a warning uses for a resource ID: the first resource
/// declared with that ID.
pub open spec fn display_name(t: ScheduleTemplate, id: Seq<char>) -> Seq<char> {
    let f = crate::model::first_index_of(resource_id_seq(t.resources@), id);
    if f >= 0 {
        t.resources@[f].name@
    } else {
        id
    }
}

pub open spec fn msg_override(name: Seq<char>, newcap: u32, oldcap: u32) -> Seq<char> {
    "Inventory override: '"@ + name + "' limited to "@ + crate::strutil::dec_str(newcap as int)
        + " (template defines "@ + crate::strutil::dec_str(oldcap as int) + ")"@
}

pub open spec fn msg_shortage(name: Seq<char>, needed: u32, remaining: u32) -> Seq<char> {
    "Consumable '"@ + name + "' may run out -- "@ + crate::strutil::dec_str(needed as int)
        + " needed but only "@ + crate::strutil::dec_str(remaining as int) + " available"@
}

pub open spec fn msg_delayed(title: Seq<char>, rname: Seq<char>) -> Seq<char> {
    "Step '"@ + title + "' was delayed beyond its available slack due to resource conflict with '"@
        + rname + "'"@
}

/// The capacities and override warnings after applying the first `j`
/// inventory items: a matching item replaces the capacity at its
/// resource's canonical index and adds one warning; unknown IDs are
/// ignored.
pub open spec fn apply_inventory_caps(
    t: ScheduleTemplate,
    caps: Seq<u32>,
    items: Seq<ResourceInventoryItem>,
    j: int,
) -> Seq<u32>
    decreases j,
{
    if j <= 0 {
        caps
    } else {
        let c = apply_inventory_caps(t, caps, items, j - 1);
        let r = rep_idx(t, items[j - 1].resource_id@);
        if r >= 0 {
            c.update(r, items[j - 1].available_quantity)
        } else {
            c
        }
    }
}

/// The override warnings produced by the first `j` inventory items.
pub open spec fn apply_inventory_warnings(
    t: ScheduleTemplate,
    caps: Seq<u32>,
    items: Seq<ResourceInventoryItem>,
    j: int,
) -> Seq<Seq<char>>
    decreases j,
{
    if j <= 0 {
        Seq::empty()
    } else {
        let w = apply_inventory_warnings(t, caps, items, j - 1);
        let c = apply_inventory_caps(t, caps, items, j - 1);
        let r = rep_idx(t, items[j - 1].resource_id@);
        if r >= 0 {
            w.push(
                msg_override(
                    display_name(t, items[j - 1].resource_id@),
                    items[j - 1].available_quantity,
                    c[r],
                ),
            )
        } else {
            w
        }
    }
}

/// The template's declared capacities, by resource index.
pub open spec fn template_caps(t: ScheduleTemplate) -> Seq<u32> {
    t.resources@.map(|_i: int, r: Resource| r.capacity)
}

/// The effective capacities after every inventory override.
pub open spec fn effective_caps(t: ScheduleTemplate, inv: Option<&ResourceInventory>) -> Seq<
    u32,
> {
    match inv {
        Option::Some(iv) => apply_inventory_caps(
            t,
            template_caps(t),
            iv.items@,
            iv.items@.len() as int,
        ),
        Option::None => template_caps(t),
    }
}

/// The override warnings the allocator emits before placing any step.
pub open spec fn override_warnings(t: ScheduleTemplate, inv: Option<&ResourceInventory>) -> Seq<
    Seq<char>,
> {
    match inv {
        Option::Some(iv) => apply_inventory_warnings(
            t,
            template_caps(t),
            iv.items@,
            iv.items@.len() as int,
        ),
        Option::None => Seq::empty(),
    }
}

/// The summed `quantity_used` that the entries of `ars` record for the
/// resource ID `rid`.
pub open spec fn entries_used(ars: Seq<AssignedResource>, rid: Seq<char>) -> int
    decreases ars.len(),
{
    if ars.len() == 0 {
        0
    } else {
        entries_used(ars.drop_last(), rid) + (if ars[ars.len() - 1].resource_id@ == rid {
            ars[ars.len() - 1].quantity_used as int
        } else {
            0
        })
    }
}

/// The summed `quantity_used` recorded for `rid` across all solved steps.
pub open spec fn assigned_used(steps: Seq<SolvedStep>, rid: Seq<char>) -> int
    decreases steps.len(),
{
    if steps.len() == 0 {
        0
    } else {
        assigned_used(steps.drop_last(), rid) + entries_used(
            steps[steps.len() - 1].assigned_resources@,
            rid,
        )
    }
}

proof fn lemma_entries_used_nonneg(ars: Seq<AssignedResource>, rid: Seq<char>)
    ensures
        entries_used(ars, rid) >= 0,
    decreases ars.len(),
{
    if ars.len() > 0 {
        lemma_entries_used_nonneg(ars.drop_last(), rid);
    }
}

proof fn lemma_assigned_used_nonneg(steps: Seq<SolvedStep>, rid: Seq<char>)
    ensures
        assigned_used(steps, rid) >= 0,
    decreases steps.len(),
{
    if steps.len() > 0 {
        lemma_assigned_used_nonneg(steps.drop_last(), rid);
        lemma_entries_used_nonneg(steps[steps.len() - 1].assigned_resources@, rid);
    }
}

/// How one step changes the used total for `rid`: only its own entries.
proof fn lemma_assigned_used_update(
    steps: Seq<SolvedStep>,
    i: int,
    st: SolvedStep,
    rid: Seq<char>,
)
    requires
        0 <= i < steps.len(),
    ensures
        assigned_used(steps.update(i, st), rid) == assigned_used(steps, rid) - entries_used(
            steps[i].assigned_resources@,
            rid,
        ) + entries_used(st.assigned_resources@, rid),
    decreases steps.len(),
{
    if steps.len() > 0 {
        if i == steps.len() - 1 {
            assert(steps.update(i, st).drop_last() =~= steps.drop_last());
        } else {
            lemma_assigned_used_update(steps.drop_last(), i, st, rid);
            assert(steps.update(i, st).drop_last() =~= steps.drop_last().update(i, st));
        }
    }
}

/// The needs counts of the steps, as integers.
pub open spec fn need_counts(steps: Seq<crate::model::Step>) -> Seq<int> {
    steps.map(|_i: int, s: crate::model::Step| s.resource_needs@.len() as int)
}

/// The total of an integer sequence.
pub open spec fn total_ints(s: Seq<int>) -> int
    decreases s.len(),
{
    if s.len() == 0 {
        0
    } else {
        total_ints(s.drop_last()) + s[s.len() - 1]
    }
}

/// The total picked by the first `k` entries of `order`.
pub open spec fn picked_ints(s: Seq<int>, order: Seq<usize>, k: int) -> int
    decreases k,
{
    if k <= 0 {
        0
    } else {
        picked_ints(s, order, k - 1) + s[order[k - 1] as int]
    }
}

proof fn lemma_total_ints_nonneg(s: Seq<int>)
    requires
        forall|i: int| 0 <= i < s.len() ==> (#[trigger] s[i]) >= 0,
    ensures
        total_ints(s) >= 0,
    decreases s.len(),
{
    if s.len() > 0 {
        assert forall|i: int| 0 <= i < s.drop_last().len() implies (#[trigger] s.drop_last()[i])
            >= 0 by {
            assert(s.drop_last()[i] == s[i]);
        }
        lemma_total_ints_nonneg(s.drop_last());
    }
}

proof fn lemma_picked_ints_nonneg(s: Seq<int>, order: Seq<usize>, k: int)
    requires
        forall|i: int| 0 <= i < s.len() ==> (#[trigger] s[i]) >= 0,
        forall|i: int| 0 <= i < k ==> (#[trigger] order[i]) < s.len(),
    ensures
        picked_ints(s, order, k) >= 0,
    decreases k,
{
    if k > 0 {
        lemma_picked_ints_nonneg(s, order, k - 1);
    }
}

proof fn lemma_picked_ints_mono(s: Seq<int>, order: Seq<usize>, k1: int, k2: int)
    requires
        0 <= k1 <= k2,
        forall|i: int| 0 <= i < s.len() ==> (#[trigger] s[i]) >= 0,
        forall|i: int| 0 <= i < k2 ==> (#[trigger] order[i]) < s.len(),
    ensures
        picked_ints(s, order, k1) <= picked_ints(s, order, k2),
    decreases k2 - k1,
{
    if k1 < k2 {
        lemma_picked_ints_mono(s, order, k1, k2 - 1);
    }
}

proof fn lemma_picked_ints_update_disjoint(s: Seq<int>, order: Seq<usize>, k: int, j: int)
    requires
        forall|i: int| 0 <= i < k ==> (#[trigger] order[i]) as int != j,
        forall|i: int| 0 <= i < k ==> (#[trigger] order[i]) < s.len(),
        0 <= j < s.len(),
    ensures
        picked_ints(s.update(j, 0), order, k) == picked_ints(s, order, k),
    decreases k,
{
    if k > 0 {
        lemma_picked_ints_update_disjoint(s, order, k - 1, j);
    }
}

proof fn lemma_total_ints_update_zero(s: Seq<int>, j: int)
    requires
        0 <= j < s.len(),
    ensures
        total_ints(s.update(j, 0)) == total_ints(s) - s[j],
    decreases s.len(),
{
    if j == s.len() - 1 {
        assert(s.update(j, 0).drop_last() =~= s.drop_last());
    } else {
        lemma_total_ints_update_zero(s.drop_last(), j);
        assert(s.update(j, 0).drop_last() =~= s.drop_last().update(j, 0));
    }
}

/// Distinct picks never total past the whole.
proof fn lemma_picked_ints_bound(s: Seq<int>, order: Seq<usize>, k: int)
    requires
        forall|i: int| 0 <= i < s.len() ==> (#[trigger] s[i]) >= 0,
        forall|i: int| 0 <= i < k ==> (#[trigger] order[i]) < s.len(),
        forall|i: int, i2: int| 0 <= i < i2 < k ==> order[i] != order[i2],
        k >= 0,
    ensures
        picked_ints(s, order, k) <= total_ints(s),
    decreases k,
{
    if k == 0 {
        lemma_total_ints_nonneg(s);
    } else {
        let j = order[k - 1] as int;
        let s2 = s.update(j, 0);
        lemma_picked_ints_update_disjoint(s, order, k - 1, j);
        assert forall|i: int| 0 <= i < s2.len() implies (#[trigger] s2[i]) >= 0 by {}
        lemma_picked_ints_bound(s2, order, k - 1);
        lemma_total_ints_update_zero(s, j);
    }
}

/// The strict total priority order on step indices: critical steps first,
/// then smaller early start, then larger duration, and finally the index
/// itself, so that no two distinct steps tie.
pub open spec fn prio_lt(
    crit: Seq<bool>,
    es: Seq<u32>,
    ds: Seq<u32>,
    a: int,
    b: int,
) -> bool {
    if crit[a] != crit[b] {
        crit[a]
    } else if es[a] != es[b] {
        es[a] < es[b]
    } else if ds[a] != ds[b] {
        ds[a] > ds[b]
    } else {
        a < b
    }
}

/// The criticality flags of the solved steps.
pub open spec fn crit_flags(steps: Seq<SolvedStep>) -> Seq<bool> {
    steps.map(|_i: int, s: SolvedStep| s.is_critical)
}

/// Sorts the step indices into the allocator's priority order.
fn priority_order(
    solved_steps: &Vec<SolvedStep>,
    early_starts: &Vec<u32>,
    Ghost(ds): Ghost<Seq<u32>>,
) -> (order: Vec<usize>)
    requires
        early_starts@.len() == solved_steps@.len(),
        ds.len() == solved_steps@.len(),
        forall|i: int|
            0 <= i < solved_steps@.len() ==> (#[trigger] solved_steps@[i]).end_offset_mins as int
                == solved_steps@[i].start_offset_mins as int + ds[i],
    ensures
        order@.len() == solved_steps@.len(),
        forall|i: int| 0 <= i < order@.len() ==> (#[trigger] order@[i]) < order@.len(),
        forall|i: int, j: int| 0 <= i < j < order@.len() ==> order@[i] != order@[j],
        forall|v: usize| v < order@.len() ==> #[trigger] order@.contains(v),
        forall|p: int, q: int|
            0 <= p < q < order@.len() ==> prio_lt(
                crit_flags(solved_steps@),
                early_starts@,
                ds,
                order@[p] as int,
                order@[q] as int,
            ),
{
    let ghost crit = crit_flags(solved_steps@);
    let n = solved_steps.len();
    let mut order: Vec<usize> = Vec::new();
    let mut i: usize = 0;
    while i < n
        invariant
            0 <= i <= n,
            order@.len() == i,
            forall|j: int| 0 <= j < i ==> (#[trigger] order@[j]) as int == j,
        decreases n - i,
    {
        order.push(i);
        i = i + 1;
    }
    proof {
        assert forall|v: usize| v < order@.len() implies #[trigger] order@.contains(v) by {
            assert(order@[v as int] == v);
        }
    }
    let mut i: usize = 0;
    while i < n
        invariant
            0 <= i <= n,
            n == solved_steps@.len(),
            early_starts@.len() == n,
            ds.len() == n,
            crit == crit_flags(solved_steps@),
            forall|v: int|
                0 <= v < n ==> (#[trigger] solved_steps@[v]).end_offset_mins as int
                    == solved_steps@[v].start_offset_mins as int + ds[v],
            order@.len() == n,
            forall|j: int| 0 <= j < n ==> (#[trigger] order@[j]) < n,
            forall|p: int, q: int| 0 <= p < q < n ==> order@[p] != order@[q],
            forall|v: usize| v < n ==> #[trigger] order@.contains(v),
            forall|p: int, q: int|
                0 <= p < q < i ==> prio_lt(crit, early_starts@, ds, order@[p] as int, order@[
                    q
                ] as int),
            forall|p: int, q: int|
                0 <= p < i <= q < n ==> prio_lt(crit, early_starts@, ds, order@[p] as int, order@[
                    q
                ] as int),
        decreases n - i,
    {
        let mut m: usize = i;
        let mut j: usize = i + 1;
        while j < n
            invariant
                i <= m < j <= n,
                0 <= i < n,
                n == solved_steps@.len(),
                early_starts@.len() == n,
                ds.len() == n,
                crit == crit_flags(solved_steps@),
                forall|v: int|
                    0 <= v < n ==> (#[trigger] solved_steps@[v]).end_offset_mins as int
                        == solved_steps@[v].start_offset_mins as int + ds[v],
                order@.len() == n,
                forall|j2: int| 0 <= j2 < n ==> (#[trigger] order@[j2]) < n,
                forall|p: int, q: int| 0 <= p < q < n ==> order@[p] != order@[q],
                forall|j2: int|
                    i <= j2 < j && j2 != m ==> prio_lt(
                        crit,
                        early_starts@,
                        ds,
                        order@[m as int] as int,
                        (#[trigger] order@[j2]) as int,
                    ),
            decreases n - j,
        {
            let a = order[j];
            let b = order[m];
            let lt = if solved_steps[a].is_critical != solved_steps[b].is_critical {
                solved_steps[a].is_critical
            } else if early_starts[a] != early_starts[b] {
                early_starts[a] < early_starts[b]
            } else {
                let da = solved_steps[a].end_offset_mins - solved_steps[a].start_offset_mins;
                let db = solved_steps[b].end_offset_mins - solved_steps[b].start_offset_mins;
                if da != db {
                    da > db
                } else {
                    a < b
                }
            };
            proof {
                assert(lt == prio_lt(crit, early_starts@, ds, a as int, b as int));
            }
            if lt {
                m = j;
            }
            j = j + 1;
        }
        if m != i {
            let ghost before = order@;
            let a = order[i];
            let b = order[m];
            order.set(i, b);
            order.set(m, a);
            proof {
                assert forall|v: usize| v < n implies #[trigger] order@.contains(v) by {
                    assert(before.contains(v));
                    let w = choose|w: int| 0 <= w < before.len() && before[w] == v;
                    if w == i as int {
                        assert(order@[m as int] == v);
                    } else if w == m as int {
                        assert(order@[i as int] == v);
                    } else {
                        assert(order@[w] == v);
                    }
                }
            }
        }
        proof {
            assert forall|p: int, q: int| 0 <= p < q < n implies order@[p] != order@[q] by {}
        }
        i = i + 1;
    }
    order
}


/// The assignment entries recorded for the first `k` needs of a step: one
/// entry per need whose resource ID resolves, in need order; Equipment and
/// People needs are assigned their full quantity, consumable needs at most
/// theirs (clipped to the remaining budget).
pub open spec fn entries_match_upto(
    t: ScheduleTemplate,
    needs: Seq<ResourceNeed>,
    k: int,
    ars: Seq<AssignedResource>,
) -> bool
    decreases k,
{
    if k <= 0 {
        ars.len() == 0
    } else {
        let r = rep_idx(t, needs[k - 1].resource_id@);
        if r == -1 {
            entries_match_upto(t, needs, k - 1, ars)
        } else {
            &&& ars.len() > 0
            &&& entries_match_upto(t, needs, k - 1, ars.drop_last())
            &&& ars[ars.len() - 1].resource_id@ == needs[k - 1].resource_id@
            &&& (t.resources@[r].kind == ResourceKind::Consumable ==> ars[ars.len()
                - 1].quantity_used <= needs[k - 1].quantity)
            &&& (t.resources@[r].kind != ResourceKind::Consumable ==> ars[ars.len()
                - 1].quantity_used == needs[k - 1].quantity)
        }
    }
}


pub proof fn lemma_entries_match_no_resources(
    t: ScheduleTemplate,
    needs: Seq<ResourceNeed>,
    k: int,
    ars: Seq<AssignedResource>,
)
    requires
        t.resources@.len() == 0,
        ars.len() == 0,
    ensures
        entries_match_upto(t, needs, k, ars),
    decreases k,
{
    if k > 0 {
        crate::model::lemma_last_index_of(resource_id_seq(t.resources@), needs[k - 1].resource_id@);
        lemma_entries_match_no_resources(t, needs, k - 1, ars);
    }
}

/// Whether a warning is one of the two the allocator can raise while
/// placing steps: a consumable shortage or a past-float delay.
pub open spec fn is_step_warning(w: Seq<char>) -> bool {
    ||| exists|name: Seq<char>, a: u32, b: u32| w == msg_shortage(name, a, b)
    ||| exists|a: Seq<char>, b: Seq<char>| w == msg_delayed(a, b)
}


/// The summed quantity that the first `k` needs of a step ask of the
/// resource at canonical index `rep`.
pub open spec fn step_need_qty(
    t: ScheduleTemplate,
    needs: Seq<ResourceNeed>,
    k: int,
    rep: int,
) -> int
    decreases k,
{
    if k <= 0 {
        0
    } else {
        step_need_qty(t, needs, k - 1, rep) + (if rep_idx(t, needs[k - 1].resource_id@) == rep {
            needs[k - 1].quantity as int
        } else {
            0
        })
    }
}

/// The quantity a placed step occupies on the resource at canonical index
/// `rep` at the instant `x`: its needs' total while `x` lies inside its
/// interval.
pub open spec fn step_timed_usage(
    t: ScheduleTemplate,
    st: SolvedStep,
    i: int,
    rep: int,
    x: int,
) -> int {
    if st.start_offset_mins as int <= x < st.end_offset_mins as int {
        step_need_qty(
            t,
            t.steps@[i].resource_needs@,
            t.steps@[i].resource_needs@.len() as int,
            rep,
        )
    } else {
        0
    }
}

/// The summed usage at instant `x` on the resource at canonical index
/// `rep`, over the first `m` solved steps.
pub open spec fn steps_usage_at(
    t: ScheduleTemplate,
    steps: Seq<SolvedStep>,
    m: int,
    rep: int,
    x: int,
) -> int
    decreases m,
{
    if m <= 0 {
        0
    } else {
        steps_usage_at(t, steps, m - 1, rep, x) + step_timed_usage(t, steps[m - 1], m - 1, rep, x)
    }
}

/// As `steps_usage_at`, but counting only the steps already placed.
pub open spec fn placed_usage_at(
    t: ScheduleTemplate,
    steps: Seq<SolvedStep>,
    done: Seq<bool>,
    m: int,
    rep: int,
    x: int,
) -> int
    decreases m,
{
    if m <= 0 {
        0
    } else {
        placed_usage_at(t, steps, done, m - 1, rep, x) + (if done[m - 1] {
            step_timed_usage(t, steps[m - 1], m - 1, rep, x)
        } else {
            0
        })
    }
}


/// The total quantity the first `m` template steps demand of the resource
/// at canonical index `rep`, of any kind.
pub open spec fn template_demand(t: ScheduleTemplate, m: int, rep: int) -> int
    decreases m,
{
    if m <= 0 {
        0
    } else {
        template_demand(t, m - 1, rep) + step_need_qty(
            t,
            t.steps@[m - 1].resource_needs@,
            t.steps@[m - 1].resource_needs@.len() as int,
            rep,
        )
    }
}

/// As `template_demand`, but counting only the steps already placed.
pub open spec fn placed_demand(t: ScheduleTemplate, done: Seq<bool>, m: int, rep: int) -> int
    decreases m,
{
    if m <= 0 {
        0
    } else {
        placed_demand(t, done, m - 1, rep) + (if done[m - 1] {
            step_need_qty(
                t,
                t.steps@[m - 1].resource_needs@,
                t.steps@[m - 1].resource_needs@.len() as int,
                rep,
            )
        } else {
            0
        })
    }
}

proof fn lemma_placed_demand_done_agree(
    t: ScheduleTemplate,
    d1: Seq<bool>,
    d2: Seq<bool>,
    m: int,
    rep: int,
)
    requires
        forall|m2: int| 0 <= m2 < m ==> d1[m2] == d2[m2],
    ensures
        placed_demand(t, d1, m, rep) == placed_demand(t, d2, m, rep),
    decreases m,
{
    if m > 0 {
        lemma_placed_demand_done_agree(t, d1, d2, m - 1, rep);
    }
}

proof fn lemma_placed_demand_mark_done(
    t: ScheduleTemplate,
    done: Seq<bool>,
    m: int,
    i: int,
    rep: int,
)
    requires
        0 <= i < m,
        m <= done.len(),
        !done[i],
    ensures
        placed_demand(t, done.update(i, true), m, rep) == placed_demand(t, done, m, rep)
            + step_need_qty(
            t,
            t.steps@[i].resource_needs@,
            t.steps@[i].resource_needs@.len() as int,
            rep,
        ),
    decreases m,
{
    if m > 0 {
        if i == m - 1 {
            assert forall|m2: int| 0 <= m2 < m - 1 implies done.update(i, true)[m2] == done[
                m2
            ] by {}
            lemma_placed_demand_done_agree(t, done, done.update(i, true), m - 1, rep);
        } else {
            lemma_placed_demand_mark_done(t, done, m - 1, i, rep);
        }
    }
}

proof fn lemma_placed_demand_all_done(t: ScheduleTemplate, done: Seq<bool>, m: int, rep: int)
    requires
        forall|i: int| 0 <= i < m ==> done[i],
    ensures
        placed_demand(t, done, m, rep) == template_demand(t, m, rep),
    decreases m,
{
    if m > 0 {
        lemma_placed_demand_all_done(t, done, m - 1, rep);
    }
}

proof fn lemma_placed_demand_none_done(t: ScheduleTemplate, done: Seq<bool>, m: int, rep: int)
    requires
        forall|i: int| 0 <= i < m ==> !done[i],
    ensures
        placed_demand(t, done, m, rep) == 0,
    decreases m,
{
    if m > 0 {
        lemma_placed_demand_none_done(t, done, m - 1, rep);
    }
}

/// Whether every timed need of every step can fit its resource's
/// effective capacity at all, with no step asking twice for one resource.
/// Outside this condition the allocator still places every step, but a
/// need beyond capacity never fits anywhere and is placed over capacity.
pub open spec fn needs_fit_capacities(t: ScheduleTemplate, caps: Seq<u32>) -> bool {
    &&& forall|i: int, k: int|
        0 <= i < t.steps@.len() && 0 <= k < t.steps@[i].resource_needs@.len() ==> {
            let r = rep_idx(t, (#[trigger] t.steps@[i].resource_needs@[k]).resource_id@);
            &&& (r == -1 ==> t.steps@[i].resource_needs@[k].quantity == 0)
            &&& (r >= 0 && t.resources@[r].kind != ResourceKind::Consumable
                ==> t.steps@[i].resource_needs@[k].quantity <= caps[r])
        }
    &&& forall|i: int, k1: int, k2: int|
        #![trigger t.steps@[i].resource_needs@[k1], t.steps@[i].resource_needs@[k2]]
        0 <= i < t.steps@.len() && 0 <= k1 < k2 < t.steps@[i].resource_needs@.len()
            && rep_idx(t, t.steps@[i].resource_needs@[k1].resource_id@) >= 0 ==> rep_idx(
            t,
            t.steps@[i].resource_needs@[k1].resource_id@,
        ) != rep_idx(t, t.steps@[i].resource_needs@[k2].resource_id@)
}




/// Whether a warning is a consumable shortage message.
pub open spec fn is_shortage_warning(w: Seq<char>) -> bool {
    exists|name: Seq<char>, a: u32, b: u32| w == msg_shortage(name, a, b)
}

/// Whether a warning is a past-float delay message.
pub open spec fn is_delay_warning(w: Seq<char>) -> bool {
    exists|a: Seq<char>, b: Seq<char>| w == msg_delayed(a, b)
}


/// How many of the first `k` needs resolve to a resource (and so get an
/// assignment entry).
pub open spec fn resolved_count(t: ScheduleTemplate, needs: Seq<ResourceNeed>, k: int) -> int
    decreases k,
{
    if k <= 0 {
        0
    } else {
        resolved_count(t, needs, k - 1) + (if rep_idx(t, needs[k - 1].resource_id@) >= 0 {
            1int
        } else {
            0int
        })
    }
}


/// The exact value of a consumable assignment: need `k` of step `i` gets
/// its full quantity or whatever was left of the resource's effective
/// budget at its turn — after every step ahead in the priority order, and
/// after the step's own earlier needs.
pub open spec fn consumable_entry_exact(
    t: ScheduleTemplate,
    crit: Seq<bool>,
    es_seq: Seq<u32>,
    caps: Seq<u32>,
    i: int,
    k: int,
    ars: Seq<AssignedResource>,
) -> bool {
    let needs = t.steps@[i].resource_needs@;
    let rep = rep_idx(t, needs[k].resource_id@);
    let rem = crate::cpm::clamp0(
        caps[rep] as int - hp_demand(t, crit, es_seq, i, rep) - step_need_qty(t, needs, k, rep),
    );
    &&& 0 <= resolved_count(t, needs, k) < ars.len()
    &&& ars[resolved_count(t, needs, k)].quantity_used as int == (
    if needs[k].quantity as int <= rem {
        needs[k].quantity as int
    } else {
        rem
    })
}

/// The steps placed before step `i`: those ahead of it in the priority
/// order, read off the template, the criticality flags and the early
/// starts.
pub open spec fn hp_flags(
    t: ScheduleTemplate,
    crit: Seq<bool>,
    es_seq: Seq<u32>,
    i: int,
) -> Seq<bool> {
    Seq::new(t.steps@.len() as nat, |j: int| prio_lt(crit, es_seq, durations(t), j, i))
}

/// The consumable demand charged before step `i`'s turn: the summed ask of
/// every step ahead of it in the priority order.
pub open spec fn hp_demand(
    t: ScheduleTemplate,
    crit: Seq<bool>,
    es_seq: Seq<u32>,
    i: int,
    rep: int,
) -> int {
    placed_demand(t, hp_flags(t, crit, es_seq, i), t.steps@.len() as int, rep)
}

/// At a step's turn, the placed set is exactly the set of steps ahead of
/// it in the priority order.
proof fn lemma_done_is_hp(
    t: ScheduleTemplate,
    crit: Seq<bool>,
    es_seq: Seq<u32>,
    order: Seq<usize>,
    done: Seq<bool>,
    q: int,
    idx: int,
)
    requires
        order.len() == t.steps@.len(),
        done.len() == t.steps@.len(),
        t.steps@.len() <= usize::MAX,
        forall|p: int| 0 <= p < order.len() ==> (#[trigger] order[p]) < order.len(),
        forall|p: int, p2: int| 0 <= p < p2 < order.len() ==> order[p] != order[p2],
        forall|v: usize| v < order.len() ==> #[trigger] order.contains(v),
        forall|p: int, p2: int|
            0 <= p < p2 < order.len() ==> prio_lt(
                crit,
                es_seq,
                durations(t),
                order[p] as int,
                order[p2] as int,
            ),
        0 <= q < order.len(),
        order[q] as int == idx,
        forall|p: int| 0 <= p < q ==> done[(#[trigger] order[p]) as int],
        forall|p: int| q <= p < order.len() ==> !done[(#[trigger] order[p]) as int],
    ensures
        forall|j: int| 0 <= j < done.len() ==> #[trigger] done[j] == hp_flags(t, crit, es_seq, idx)[j],
{
    let ds = durations(t);
    assert forall|j: int| 0 <= j < done.len() implies #[trigger] done[j] == hp_flags(
        t,
        crit,
        es_seq,
        idx,
    )[j] by {
        assert(order.contains(j as usize));
        let p = choose|p: int| 0 <= p < order.len() && order[p] == j as usize;
        assert(order[p] as int == j);
        if p < q {
            assert(done[j]);
            assert(prio_lt(crit, es_seq, ds, order[p] as int, order[q] as int));
        } else if p == q {
            assert(!done[j]);
            assert(j == idx);
            assert(!prio_lt(crit, es_seq, ds, idx, idx));
        } else {
            assert(!done[j]);
            assert(prio_lt(crit, es_seq, ds, order[q] as int, order[p] as int));
            assert(!prio_lt(crit, es_seq, ds, j, idx));
        }
    }
}

/// Whether every Consumable's total demand fits its capacity.
pub open spec fn consumable_demand_fits(t: ScheduleTemplate, caps: Seq<u32>) -> bool {
    forall|j: int|
        0 <= j < t.resources@.len() && (#[trigger] t.resources@[j]).kind
            == ResourceKind::Consumable && rep_idx(t, t.resources@[j].id@) == j
            ==> template_demand(t, t.steps@.len() as int, j) <= caps[j] as int
}

proof fn lemma_step_need_qty_nonneg(t: ScheduleTemplate, needs: Seq<ResourceNeed>, k: int, rep: int)
    ensures
        step_need_qty(t, needs, k, rep) >= 0,
    decreases k,
{
    if k > 0 {
        lemma_step_need_qty_nonneg(t, needs, k - 1, rep);
    }
}

/// One need's quantity never exceeds its step's total ask of the resource.
proof fn lemma_step_need_qty_lower(
    t: ScheduleTemplate,
    needs: Seq<ResourceNeed>,
    k: int,
    m: int,
    rep: int,
)
    requires
        0 <= k < m,
        rep_idx(t, needs[k].resource_id@) == rep,
    ensures
        needs[k].quantity <= step_need_qty(t, needs, m, rep),
    decreases m,
{
    if m - 1 == k {
        lemma_step_need_qty_nonneg(t, needs, m - 1, rep);
    } else {
        lemma_step_need_qty_lower(t, needs, k, m - 1, rep);
    }
}

proof fn lemma_placed_demand_le_template(
    t: ScheduleTemplate,
    done: Seq<bool>,
    m: int,
    rep: int,
)
    ensures
        placed_demand(t, done, m, rep) <= template_demand(t, m, rep),
    decreases m,
{
    if m > 0 {
        lemma_placed_demand_le_template(t, done, m - 1, rep);
        lemma_step_need_qty_nonneg(
            t,
            t.steps@[m - 1].resource_needs@,
            t.steps@[m - 1].resource_needs@.len() as int,
            rep,
        );
    }
}

/// An unplaced step's whole ask still fits between what is placed and the
/// template total.
proof fn lemma_placed_demand_headroom(
    t: ScheduleTemplate,
    done: Seq<bool>,
    m: int,
    i: int,
    rep: int,
)
    requires
        0 <= i < m,
        !done[i],
    ensures
        placed_demand(t, done, m, rep) + step_need_qty(
            t,
            t.steps@[i].resource_needs@,
            t.steps@[i].resource_needs@.len() as int,
            rep,
        ) <= template_demand(t, m, rep),
    decreases m,
{
    if m - 1 == i {
        lemma_placed_demand_le_template(t, done, m - 1, rep);
    } else {
        lemma_placed_demand_headroom(t, done, m - 1, i, rep);
        lemma_step_need_qty_nonneg(
            t,
            t.steps@[m - 1].resource_needs@,
            t.steps@[m - 1].resource_needs@.len() as int,
            rep,
        );
    }
}

proof fn lemma_placed_usage_step_update(
    t: ScheduleTemplate,
    steps: Seq<SolvedStep>,
    done: Seq<bool>,
    m: int,
    i: int,
    st: SolvedStep,
    rep: int,
    x: int,
)
    requires
        0 <= i < steps.len(),
        m <= steps.len(),
        !done[i],
    ensures
        placed_usage_at(t, steps.update(i, st), done, m, rep, x) == placed_usage_at(
            t,
            steps,
            done,
            m,
            rep,
            x,
        ),
    decreases m,
{
    if m > 0 {
        lemma_placed_usage_step_update(t, steps, done, m - 1, i, st, rep, x);
    }
}

proof fn lemma_placed_usage_mark_done(
    t: ScheduleTemplate,
    steps: Seq<SolvedStep>,
    done: Seq<bool>,
    m: int,
    i: int,
    rep: int,
    x: int,
)
    requires
        0 <= i < m,
        m <= done.len(),
        !done[i],
    ensures
        placed_usage_at(t, steps, done.update(i, true), m, rep, x) == placed_usage_at(
            t,
            steps,
            done,
            m,
            rep,
            x,
        ) + step_timed_usage(t, steps[i], i, rep, x),
    decreases m,
{
    if m > 0 {
        if i == m - 1 {
            assert forall|m2: int| 0 <= m2 < m - 1 implies done.update(i, true)[m2] == done[
                m2
            ] by {}
            lemma_placed_usage_done_agree(t, steps, done, done.update(i, true), m - 1, rep, x);
        } else {
            lemma_placed_usage_mark_done(t, steps, done, m - 1, i, rep, x);
        }
    }
}

proof fn lemma_placed_usage_done_agree(
    t: ScheduleTemplate,
    steps: Seq<SolvedStep>,
    d1: Seq<bool>,
    d2: Seq<bool>,
    m: int,
    rep: int,
    x: int,
)
    requires
        forall|m2: int| 0 <= m2 < m ==> d1[m2] == d2[m2],
    ensures
        placed_usage_at(t, steps, d1, m, rep, x) == placed_usage_at(t, steps, d2, m, rep, x),
    decreases m,
{
    if m > 0 {
        lemma_placed_usage_done_agree(t, steps, d1, d2, m - 1, rep, x);
    }
}

proof fn lemma_placed_usage_all_done(
    t: ScheduleTemplate,
    steps: Seq<SolvedStep>,
    done: Seq<bool>,
    m: int,
    rep: int,
    x: int,
)
    requires
        forall|i: int| 0 <= i < m ==> done[i],
    ensures
        placed_usage_at(t, steps, done, m, rep, x) == steps_usage_at(t, steps, m, rep, x),
    decreases m,
{
    if m > 0 {
        lemma_placed_usage_all_done(t, steps, done, m - 1, rep, x);
    }
}

proof fn lemma_placed_usage_none_done(
    t: ScheduleTemplate,
    steps: Seq<SolvedStep>,
    done: Seq<bool>,
    m: int,
    rep: int,
    x: int,
)
    requires
        forall|i: int| 0 <= i < m ==> !done[i],
    ensures
        placed_usage_at(t, steps, done, m, rep, x) == 0,
    decreases m,
{
    if m > 0 {
        lemma_placed_usage_none_done(t, steps, done, m - 1, rep, x);
    }
}

/// A step whose needs all land on other canonical indices occupies
/// nothing on this one.
proof fn lemma_step_need_qty_zero(
    t: ScheduleTemplate,
    needs: Seq<ResourceNeed>,
    k: int,
    rep: int,
)
    requires
        forall|k2: int|
            0 <= k2 < k ==> rep_idx(t, (#[trigger] needs[k2]).resource_id@) != rep,
    ensures
        step_need_qty(t, needs, k, rep) == 0,
    decreases k,
{
    if k > 0 {
        lemma_step_need_qty_zero(t, needs, k - 1, rep);
    }
}

/// Whether a need is a timed (Equipment or People) need: its canonical
/// resource is not a consumable. A need whose ID resolves to nothing also
/// counts as timed and can never be satisfied (its capacity reads as
/// zero).
pub open spec fn is_timed_need(t: ScheduleTemplate, need: ResourceNeed) -> bool {
    let r = rep_idx(t, need.resource_id@);
    r == -1 || t.resources@[r].kind != ResourceKind::Consumable
}

/// Whether one timed need fits at `[t0, t0 + d)` under the capacities.
pub open spec fn need_ok(
    t: ScheduleTemplate,
    tls: Seq<ResourceTimeline>,
    caps: Seq<u32>,
    need: ResourceNeed,
    t0: int,
    d: int,
) -> bool {
    let r = rep_idx(t, need.resource_id@);
    if r >= 0 {
        range_used(tls[r].reservations@, t0, t0 + d) + need.quantity <= caps[r]
    } else {
        need.quantity == 0
    }
}

/// Whether every listed timed need fits at `[t0, t0 + d)`.
pub open spec fn slot_feasible(
    t: ScheduleTemplate,
    tls: Seq<ResourceTimeline>,
    caps: Seq<u32>,
    needs: Seq<ResourceNeed>,
    timed: Seq<usize>,
    t0: int,
    d: int,
) -> bool {
    forall|j: int|
        0 <= j < timed.len() ==> need_ok(t, tls, caps, needs[(#[trigger] timed[j]) as int], t0, d)
}

/// Whether some reservation on a listed need's timeline ends at `e`.
pub open spec fn is_reservation_end(
    t: ScheduleTemplate,
    tls: Seq<ResourceTimeline>,
    needs: Seq<ResourceNeed>,
    timed: Seq<usize>,
    e: int,
) -> bool {
    exists|j: int, i: int|
        0 <= j < timed.len() && rep_idx(t, needs[(#[trigger] timed[j]) as int].resource_id@) >= 0
            && 0 <= i < tls[rep_idx(t, needs[timed[j] as int].resource_id@)].reservations@.len()
            && (#[trigger] tls[rep_idx(
            t,
            needs[timed[j] as int].resource_id@,
        )].reservations@[i]).end as int == e
}


/// Whether every listed timed need could ever fit: its quantity is within
/// its resource's effective capacity, and an unresolvable need asks for
/// nothing.
pub open spec fn timed_needs_fit(
    t: ScheduleTemplate,
    caps: Seq<u32>,
    needs: Seq<ResourceNeed>,
    timed: Seq<usize>,
) -> bool {
    forall|j: int|
        0 <= j < timed.len() ==> {
            let r = rep_idx(t, needs[(#[trigger] timed[j]) as int].resource_id@);
            if r >= 0 {
                needs[timed[j] as int].quantity <= caps[r]
            } else {
                needs[timed[j] as int].quantity == 0
            }
        }
}

/// The largest reservation end on one timeline, or zero when it is empty.
pub open spec fn max_res_end(rs: Seq<Reservation>) -> int
    decreases rs.len(),
{
    if rs.len() == 0 {
        0
    } else {
        let m = max_res_end(rs.drop_last());
        if rs[rs.len() - 1].end as int > m {
            rs[rs.len() - 1].end as int
        } else {
            m
        }
    }
}

proof fn lemma_max_res_end(rs: Seq<Reservation>)
    ensures
        max_res_end(rs) >= 0,
        forall|i: int| 0 <= i < rs.len() ==> (#[trigger] rs[i]).end as int <= max_res_end(rs),
        rs.len() > 0 ==> exists|i: int|
            0 <= i < rs.len() && (#[trigger] rs[i]).end as int == max_res_end(rs),
    decreases rs.len(),
{
    if rs.len() > 0 {
        lemma_max_res_end(rs.drop_last());
        assert forall|i: int| 0 <= i < rs.len() implies (#[trigger] rs[i]).end as int
            <= max_res_end(rs) by {
            if i < rs.len() - 1 {
                assert(rs.drop_last()[i] == rs[i]);
            }
        }
        if rs.len() - 1 >= 1 && max_res_end(rs.drop_last()) >= rs[rs.len() - 1].end as int {
            let i0 = choose|i0: int|
                0 <= i0 < rs.drop_last().len() && (#[trigger] rs.drop_last()[i0]).end as int
                    == max_res_end(rs.drop_last());
            assert(rs[i0] == rs.drop_last()[i0]);
        }
    }
}

/// The largest reservation end on the timelines of the first `j` listed
/// needs, or zero when they have none.
pub open spec fn max_needed_end(
    t: ScheduleTemplate,
    tls: Seq<ResourceTimeline>,
    needs: Seq<ResourceNeed>,
    timed: Seq<usize>,
    j: int,
) -> int
    decreases j,
{
    if j <= 0 {
        0
    } else {
        let m = max_needed_end(t, tls, needs, timed, j - 1);
        let r = rep_idx(t, needs[timed[j - 1] as int].resource_id@);
        if r >= 0 && max_res_end(tls[r].reservations@) > m {
            max_res_end(tls[r].reservations@)
        } else {
            m
        }
    }
}

proof fn lemma_max_needed_end(
    t: ScheduleTemplate,
    tls: Seq<ResourceTimeline>,
    needs: Seq<ResourceNeed>,
    timed: Seq<usize>,
    j: int,
)
    requires
        0 <= j <= timed.len(),
    ensures
        max_needed_end(t, tls, needs, timed, j) >= 0,
        forall|j2: int, i2: int|
            #![trigger timed[j2], tls[rep_idx(t, needs[timed[j2] as int].resource_id@)].reservations@[i2]]
            0 <= j2 < j && rep_idx(t, needs[timed[j2] as int].resource_id@) >= 0 && 0 <= i2
                < tls[rep_idx(t, needs[timed[j2] as int].resource_id@)].reservations@.len()
                ==> tls[rep_idx(t, needs[timed[j2] as int].resource_id@)].reservations@[i2].end
                as int <= max_needed_end(t, tls, needs, timed, j),
        max_needed_end(t, tls, needs, timed, j) > 0 ==> exists|j2: int, i2: int|
            #![trigger timed[j2], tls[rep_idx(t, needs[timed[j2] as int].resource_id@)].reservations@[i2]]
            0 <= j2 < j && rep_idx(t, needs[timed[j2] as int].resource_id@) >= 0 && 0 <= i2
                < tls[rep_idx(t, needs[timed[j2] as int].resource_id@)].reservations@.len()
                && tls[rep_idx(t, needs[timed[j2] as int].resource_id@)].reservations@[i2].end
                as int == max_needed_end(t, tls, needs, timed, j),
    decreases j,
{
    if j > 0 {
        lemma_max_needed_end(t, tls, needs, timed, j - 1);
        let r = rep_idx(t, needs[timed[j - 1] as int].resource_id@);
        if r >= 0 {
            lemma_max_res_end(tls[r].reservations@);
        }
    }
}

/// No reservation ending at or before `a` overlaps `[a, b)`.
proof fn lemma_range_used_past_ends(rs: Seq<Reservation>, a: int, b: int)
    requires
        forall|i: int| 0 <= i < rs.len() ==> (#[trigger] rs[i]).end as int <= a,
    ensures
        range_used(rs, a, b) == 0,
    decreases rs.len(),
{
    if rs.len() > 0 {
        assert forall|i: int| 0 <= i < rs.drop_last().len() implies (
        #[trigger] rs.drop_last()[i]).end as int <= a by {
            assert(rs.drop_last()[i] == rs[i]);
        }
        lemma_range_used_past_ends(rs.drop_last(), a, b);
    }
}

/// A slot starting at or after every reservation end of the listed needs'
/// timelines is feasible whenever the needs fit their capacities at all.
proof fn lemma_clear_slot_feasible(
    t: ScheduleTemplate,
    tls: Seq<ResourceTimeline>,
    caps: Seq<u32>,
    needs: Seq<ResourceNeed>,
    timed: Seq<usize>,
    c: int,
    d: int,
)
    requires
        timed_needs_fit(t, caps, needs, timed),
        forall|j2: int, i2: int|
            #![trigger timed[j2], tls[rep_idx(t, needs[timed[j2] as int].resource_id@)].reservations@[i2]]
            0 <= j2 < timed.len() && rep_idx(t, needs[timed[j2] as int].resource_id@) >= 0 && 0
                <= i2 < tls[rep_idx(t, needs[timed[j2] as int].resource_id@)].reservations@.len()
                ==> tls[rep_idx(t, needs[timed[j2] as int].resource_id@)].reservations@[i2].end
                as int <= c,
    ensures
        slot_feasible(t, tls, caps, needs, timed, c, d),
{
    assert forall|j: int| 0 <= j < timed.len() implies need_ok(
        t,
        tls,
        caps,
        needs[(#[trigger] timed[j]) as int],
        c,
        d,
    ) by {
        let r = rep_idx(t, needs[timed[j] as int].resource_id@);
        if r >= 0 {
            assert forall|i2: int|
                0 <= i2 < tls[r].reservations@.len() implies (#[trigger] tls[r].reservations@[
                i2
            ]).end as int <= c by {
                assert(tls[rep_idx(t, needs[timed[j] as int].resource_id@)].reservations@[i2].end
                    as int <= c);
            }
            lemma_range_used_past_ends(tls[r].reservations@, c, c + d);
        }
    }
}


/// Whether some reservation on a listed need's timeline starts at `c + d`
/// (so `c` is the latest start that finishes just before it).
pub open spec fn is_reservation_start_gap(
    t: ScheduleTemplate,
    tls: Seq<ResourceTimeline>,
    needs: Seq<ResourceNeed>,
    timed: Seq<usize>,
    d: int,
    c: int,
) -> bool {
    exists|j: int, i: int|
        0 <= j < timed.len() && rep_idx(t, needs[(#[trigger] timed[j]) as int].resource_id@) >= 0
            && 0 <= i < tls[rep_idx(t, needs[timed[j] as int].resource_id@)].reservations@.len()
            && (#[trigger] tls[rep_idx(
            t,
            needs[timed[j] as int].resource_id@,
        )].reservations@[i]).start as int >= d && tls[rep_idx(
            t,
            needs[timed[j] as int].resource_id@,
        )].reservations@[i].start as int - d == c
}

/// The boundary-aligned starts the late placement tries inside `[es, ls]`:
/// the window bounds, reservation ends, and latest starts finishing just
/// before a reservation. The set is complete for this interval model: a
/// start between two candidates sees every reservation the next candidate
/// down sees.
pub open spec fn is_alap_candidate(
    t: ScheduleTemplate,
    tls: Seq<ResourceTimeline>,
    needs: Seq<ResourceNeed>,
    timed: Seq<usize>,
    es: int,
    ls: int,
    d: int,
    c: int,
) -> bool {
    ||| c == es
    ||| c == ls
    ||| (is_reservation_end(t, tls, needs, timed, c) && es <= c <= ls)
    ||| (is_reservation_start_gap(t, tls, needs, timed, d, c) && es <= c <= ls)
}

/// Tests every listed timed need at `[t0, t0 + d)`; on failure also hands
/// back the first need that blocked.
fn check_all_timed(
    template: &ScheduleTemplate,
    tls: &Vec<ResourceTimeline>,
    caps: &Vec<u32>,
    needs: &Vec<ResourceNeed>,
    timed: &Vec<usize>,
    t0: u32,
    d: u32,
) -> (r: (bool, Option<usize>))
    requires
        tls@.len() == template.resources@.len(),
        caps@.len() == template.resources@.len(),
        forall|j: int| 0 <= j < timed@.len() ==> (#[trigger] timed@[j]) < needs@.len(),
        forall|j: int| 0 <= j < tls@.len() ==> (#[trigger] tls@[j]).reservations@.len() <= 0x7FFF_FFFF,
        t0 as int + d as int <= 0xFFFF_FFFF,
    ensures
        r.0 == slot_feasible(*template, tls@, caps@, needs@, timed@, t0 as int, d as int),
        !r.0 ==> r.1 is Some && r.1.unwrap() < timed@.len() && !need_ok(
            *template,
            tls@,
            caps@,
            needs@[timed@[r.1.unwrap() as int] as int],
            t0 as int,
            d as int,
        ) && (forall|j2: int|
            0 <= j2 < r.1.unwrap() ==> need_ok(
                *template,
                tls@,
                caps@,
                needs@[(#[trigger] timed@[j2]) as int],
                t0 as int,
                d as int,
            )),
        r.0 ==> r.1 is None,
{
    let ghost t = *template;
    let m = timed.len();
    let mut j: usize = 0;
    while j < m
        invariant
            0 <= j <= m,
            m == timed@.len(),
            t == *template,
            tls@.len() == template.resources@.len(),
            caps@.len() == template.resources@.len(),
            forall|j2: int| 0 <= j2 < m ==> (#[trigger] timed@[j2]) < needs@.len(),
            forall|j2: int|
                0 <= j2 < tls@.len() ==> (#[trigger] tls@[j2]).reservations@.len()
                    <= 0x7FFF_FFFF,
            t0 as int + d as int <= 0xFFFF_FFFF,
            forall|j2: int|
                0 <= j2 < j ==> need_ok(
                    t,
                    tls@,
                    caps@,
                    needs@[(#[trigger] timed@[j2]) as int],
                    t0 as int,
                    d as int,
                ),
        decreases m - j,
    {
        let need = &needs[timed[j]];
        let end = t0 + d;
        match crate::model::find_resource_index_last(&template.resources, &need.resource_id) {
            Some(rep) => {
                proof {
                    crate::model::lemma_last_index_of(
                        resource_id_seq(template.resources@),
                        need.resource_id@,
                    );
                }
                let used = tls[rep].used_at_range(t0, end);
                proof {
                    lemma_range_used_bound(tls@[rep as int].reservations@, t0 as int, end as int);
                    assert(tls@[rep as int].reservations@.len() * 0x1_0000_0000 <= 0x7FFF_FFFF
                        * 0x1_0000_0000) by (nonlinear_arith)
                        requires
                            tls@[rep as int].reservations@.len() <= 0x7FFF_FFFF,
                    ;
                }
                if used + need.quantity as u64 > caps[rep] as u64 {
                    return (false, Some(j));
                }
            }
            None => {
                if need.quantity > 0 {
                    return (false, Some(j));
                }
            }
        }
        j = j + 1;
    }
    (true, None)
}

/// Finds the earliest start at or after `sf` where every listed timed need
/// fits, jumping between reservation boundaries; when no boundary works,
/// falls back to `sf` itself. The second result names the first need that
/// blocked `sf`, for the delay warning.
fn find_earliest_feasible(
    template: &ScheduleTemplate,
    tls: &Vec<ResourceTimeline>,
    caps: &Vec<u32>,
    needs: &Vec<ResourceNeed>,
    timed: &Vec<usize>,
    sf: u32,
    d: u32,
) -> (r: (u32, Option<usize>))
    requires
        tls@.len() == template.resources@.len(),
        caps@.len() == template.resources@.len(),
        forall|j: int| 0 <= j < timed@.len() ==> (#[trigger] timed@[j]) < needs@.len(),
        forall|j: int| 0 <= j < tls@.len() ==> (#[trigger] tls@[j]).reservations@.len() <= 0x7FFF_FFFF,
        sf as int + d as int <= 0xFFFF_FFFF,
        forall|j: int, i: int|
            0 <= j < tls@.len() && 0 <= i < tls@[j].reservations@.len() ==> (#[trigger] tls@[
                j
            ].reservations@[i]).end as int + d as int <= 0xFFFF_FFFF,
    ensures
        r.0 >= sf,
        slot_feasible(*template, tls@, caps@, needs@, timed@, r.0 as int, d as int) || r.0 == sf,
        r.0 == sf || is_reservation_end(*template, tls@, needs@, timed@, r.0 as int),
        forall|e: int|
            sf as int <= e < r.0 as int && #[trigger] is_reservation_end(
                *template,
                tls@,
                needs@,
                timed@,
                e,
            ) ==> !slot_feasible(*template, tls@, caps@, needs@, timed@, e, d as int),
        slot_feasible(*template, tls@, caps@, needs@, timed@, sf as int, d as int) ==> r.0 == sf
            && r.1 is None,
        !slot_feasible(*template, tls@, caps@, needs@, timed@, sf as int, d as int) ==> r.1
            is Some && r.1.unwrap() < timed@.len() && !need_ok(
            *template,
            tls@,
            caps@,
            needs@[timed@[r.1.unwrap() as int] as int],
            sf as int,
            d as int,
        ) && (forall|j2: int|
            0 <= j2 < r.1.unwrap() ==> need_ok(
                *template,
                tls@,
                caps@,
                needs@[(#[trigger] timed@[j2]) as int],
                sf as int,
                d as int,
            )),
        timed_needs_fit(*template, caps@, needs@, timed@) ==> slot_feasible(
            *template,
            tls@,
            caps@,
            needs@,
            timed@,
            r.0 as int,
            d as int,
        ),
{
    let ghost t = *template;
    let (ok0, blk0) = check_all_timed(template, tls, caps, needs, timed, sf, d);
    if ok0 {
        return (sf, None);
    }
    let m = timed.len();
    let mut best: Option<u32> = None;
    let mut j: usize = 0;
    while j < m
        invariant
            0 <= j <= m,
            m == timed@.len(),
            t == *template,
            tls@.len() == template.resources@.len(),
            caps@.len() == template.resources@.len(),
            forall|j2: int| 0 <= j2 < m ==> (#[trigger] timed@[j2]) < needs@.len(),
            forall|j2: int|
                0 <= j2 < tls@.len() ==> (#[trigger] tls@[j2]).reservations@.len()
                    <= 0x7FFF_FFFF,
            sf as int + d as int <= 0xFFFF_FFFF,
            forall|j2: int, i: int|
                0 <= j2 < tls@.len() && 0 <= i < tls@[j2].reservations@.len() ==> (
                #[trigger] tls@[j2].reservations@[i]).end as int + d as int <= 0xFFFF_FFFF,
            match best {
                Option::Some(v) => v >= sf && slot_feasible(
                    t,
                    tls@,
                    caps@,
                    needs@,
                    timed@,
                    v as int,
                    d as int,
                ) && is_reservation_end(t, tls@, needs@, timed@, v as int),
                Option::None => true,
            },
            best is None ==> forall|j2: int, i2: int|
                #![trigger timed@[j2], tls@[rep_idx(t, needs@[timed@[j2] as int].resource_id@)].reservations@[i2]]
                0 <= j2 < j && rep_idx(t, needs@[timed@[j2] as int].resource_id@) >= 0 && 0 <= i2
                    < tls@[rep_idx(t, needs@[timed@[j2] as int].resource_id@)].reservations@.len()
                    && tls@[rep_idx(t, needs@[timed@[j2] as int].resource_id@)].reservations@[
                    i2
                ].end >= sf ==> !slot_feasible(
                    t,
                    tls@,
                    caps@,
                    needs@,
                    timed@,
                    tls@[rep_idx(t, needs@[timed@[j2] as int].resource_id@)].reservations@[
                        i2
                    ].end as int,
                    d as int,
                ),
            match best {
                Option::Some(v) => forall|j2: int, i2: int|
                    #![trigger timed@[j2], tls@[rep_idx(t, needs@[timed@[j2] as int].resource_id@)].reservations@[i2]]
                    0 <= j2 < j && rep_idx(t, needs@[timed@[j2] as int].resource_id@) >= 0 && 0
                        <= i2 < tls@[rep_idx(
                        t,
                        needs@[timed@[j2] as int].resource_id@,
                    )].reservations@.len() && tls@[rep_idx(
                        t,
                        needs@[timed@[j2] as int].resource_id@,
                    )].reservations@[i2].end >= sf && (tls@[rep_idx(
                        t,
                        needs@[timed@[j2] as int].resource_id@,
                    )].reservations@[i2].end as int) < v as int ==> !slot_feasible(
                        t,
                        tls@,
                        caps@,
                        needs@,
                        timed@,
                        tls@[rep_idx(t, needs@[timed@[j2] as int].resource_id@)].reservations@[
                            i2
                        ].end as int,
                        d as int,
                    ),
                Option::None => true,
            },
        decreases m - j,
    {
        let need = &needs[timed[j]];
        match crate::model::find_resource_index_last(&template.resources, &need.resource_id) {
            Some(rep) => {
                proof {
                    crate::model::lemma_last_index_of(
                        resource_id_seq(template.resources@),
                        need.resource_id@,
                    );
                }
                let rn = tls[rep].reservations.len();
                let mut i: usize = 0;
                while i < rn
                    invariant
                        0 <= i <= rn,
                        0 <= j < m,
                        m == timed@.len(),
                        t == *template,
                        tls@.len() == template.resources@.len(),
                        caps@.len() == template.resources@.len(),
                        rep < tls@.len(),
                        rep as int == rep_idx(t, needs@[timed@[j as int] as int].resource_id@),
                        rn == tls@[rep as int].reservations@.len(),
                        forall|j2: int| 0 <= j2 < m ==> (#[trigger] timed@[j2]) < needs@.len(),
                        forall|j2: int|
                            0 <= j2 < tls@.len() ==> (#[trigger] tls@[j2]).reservations@.len()
                                <= 0x7FFF_FFFF,
                        sf as int + d as int <= 0xFFFF_FFFF,
                        forall|j2: int, i2: int|
                            0 <= j2 < tls@.len() && 0 <= i2 < tls@[j2].reservations@.len() ==> (
                            #[trigger] tls@[j2].reservations@[i2]).end as int + d as int
                                <= 0xFFFF_FFFF,
                        match best {
                            Option::Some(v) => v >= sf && slot_feasible(
                                t,
                                tls@,
                                caps@,
                                needs@,
                                timed@,
                                v as int,
                                d as int,
                            ) && is_reservation_end(t, tls@, needs@, timed@, v as int),
                            Option::None => true,
                        },
                        best is None ==> forall|j2: int, i2: int|
                            #![trigger timed@[j2], tls@[rep_idx(t, needs@[timed@[j2] as int].resource_id@)].reservations@[i2]]
                            0 <= j2 < j && rep_idx(t, needs@[timed@[j2] as int].resource_id@)
                                >= 0 && 0 <= i2 < tls@[rep_idx(
                                t,
                                needs@[timed@[j2] as int].resource_id@,
                            )].reservations@.len() && tls@[rep_idx(
                                t,
                                needs@[timed@[j2] as int].resource_id@,
                            )].reservations@[i2].end >= sf ==> !slot_feasible(
                                t,
                                tls@,
                                caps@,
                                needs@,
                                timed@,
                                tls@[rep_idx(t, needs@[timed@[j2] as int].resource_id@)].reservations@[
                                    i2
                                ].end as int,
                                d as int,
                            ),
                        best is None ==> forall|i2: int|
                            0 <= i2 < i && (#[trigger] tls@[rep as int].reservations@[i2]).end
                                >= sf ==> !slot_feasible(
                                t,
                                tls@,
                                caps@,
                                needs@,
                                timed@,
                                tls@[rep as int].reservations@[i2].end as int,
                                d as int,
                            ),
                        match best {
                            Option::Some(v) => forall|j2: int, i2: int|
                                #![trigger timed@[j2], tls@[rep_idx(t, needs@[timed@[j2] as int].resource_id@)].reservations@[i2]]
                                0 <= j2 < j && rep_idx(
                                    t,
                                    needs@[timed@[j2] as int].resource_id@,
                                ) >= 0 && 0 <= i2 < tls@[rep_idx(
                                    t,
                                    needs@[timed@[j2] as int].resource_id@,
                                )].reservations@.len() && tls@[rep_idx(
                                    t,
                                    needs@[timed@[j2] as int].resource_id@,
                                )].reservations@[i2].end >= sf && (tls@[rep_idx(
                                    t,
                                    needs@[timed@[j2] as int].resource_id@,
                                )].reservations@[i2].end as int) < v as int ==> !slot_feasible(
                                    t,
                                    tls@,
                                    caps@,
                                    needs@,
                                    timed@,
                                    tls@[rep_idx(
                                        t,
                                        needs@[timed@[j2] as int].resource_id@,
                                    )].reservations@[i2].end as int,
                                    d as int,
                                ),
                            Option::None => true,
                        },
                        match best {
                            Option::Some(v) => forall|i2: int|
                                0 <= i2 < i && (#[trigger] tls@[rep as int].reservations@[
                                    i2
                                ]).end >= sf && (tls@[rep as int].reservations@[i2].end as int)
                                    < v as int ==> !slot_feasible(
                                    t,
                                    tls@,
                                    caps@,
                                    needs@,
                                    timed@,
                                    tls@[rep as int].reservations@[i2].end as int,
                                    d as int,
                                ),
                            Option::None => true,
                        },
                    decreases rn - i,
                {
                    let e = tls[rep].reservations[i].end;
                    if e >= sf {
                        let better = match best {
                            Some(v) => e < v,
                            None => true,
                        };
                        if better {
                            let (ok, _) = check_all_timed(template, tls, caps, needs, timed, e, d);
                            if ok {
                                proof {
                                    assert(is_reservation_end(t, tls@, needs@, timed@, e as int));
                                }
                                best = Some(e);
                            }
                        }
                    }
                    i = i + 1;
                }
            }
            None => {}
        }
        j = j + 1;
    }
    proof {
        match best {
            Option::Some(v) => {
                assert forall|e: int|
                    sf as int <= e < v as int && #[trigger] is_reservation_end(
                        t,
                        tls@,
                        needs@,
                        timed@,
                        e,
                    ) implies !slot_feasible(t, tls@, caps@, needs@, timed@, e, d as int) by {
                    let (j2, i2) = choose|j2: int, i2: int|
                        0 <= j2 < timed@.len() && rep_idx(
                            t,
                            needs@[(#[trigger] timed@[j2]) as int].resource_id@,
                        ) >= 0 && 0 <= i2 < tls@[rep_idx(
                            t,
                            needs@[timed@[j2] as int].resource_id@,
                        )].reservations@.len() && (#[trigger] tls@[rep_idx(
                            t,
                            needs@[timed@[j2] as int].resource_id@,
                        )].reservations@[i2]).end as int == e;
                    assert(tls@[rep_idx(t, needs@[timed@[j2] as int].resource_id@)].reservations@[
                        i2
                    ].end >= sf);
                }
            }
            Option::None => {}
        }
    }
    match best {
        Some(v) => (v, blk0),
        None => {
            proof {
                if timed_needs_fit(t, caps@, needs@, timed@) {
                    lemma_max_needed_end(t, tls@, needs@, timed@, m as int);
                    let mx = max_needed_end(t, tls@, needs@, timed@, m as int);
                    if mx <= sf as int {
                        lemma_clear_slot_feasible(t, tls@, caps@, needs@, timed@, sf as int, d as int);
                        assert(false);
                    } else {
                        let (j2, i2) = choose|j2: int, i2: int|
                            #![trigger timed@[j2], tls@[rep_idx(t, needs@[timed@[j2] as int].resource_id@)].reservations@[i2]]
                            0 <= j2 < m && rep_idx(t, needs@[timed@[j2] as int].resource_id@)
                                >= 0 && 0 <= i2 < tls@[rep_idx(
                                t,
                                needs@[timed@[j2] as int].resource_id@,
                            )].reservations@.len() && tls@[rep_idx(
                                t,
                                needs@[timed@[j2] as int].resource_id@,
                            )].reservations@[i2].end as int == mx;
                        lemma_clear_slot_feasible(t, tls@, caps@, needs@, timed@, mx, d as int);
                        assert(false);
                    }
                }
            }
            (sf, blk0)
        }
    }
}

/// Finds the latest start inside `[es, ls]` where every listed timed need
/// fits, trying the window bounds and the reservation-aligned points.
fn find_latest_feasible_in_window(
    template: &ScheduleTemplate,
    tls: &Vec<ResourceTimeline>,
    caps: &Vec<u32>,
    needs: &Vec<ResourceNeed>,
    timed: &Vec<usize>,
    es: u32,
    ls: u32,
    d: u32,
) -> (r: Option<u32>)
    requires
        tls@.len() == template.resources@.len(),
        caps@.len() == template.resources@.len(),
        forall|j: int| 0 <= j < timed@.len() ==> (#[trigger] timed@[j]) < needs@.len(),
        forall|j: int| 0 <= j < tls@.len() ==> (#[trigger] tls@[j]).reservations@.len() <= 0x7FFF_FFFF,
        es <= ls,
        ls as int + d as int <= 0xFFFF_FFFF,
    ensures
        match r {
            Option::Some(v) => es <= v <= ls && slot_feasible(
                *template,
                tls@,
                caps@,
                needs@,
                timed@,
                v as int,
                d as int,
            ) && (forall|c: int|
                (v as int) < c <= ls as int && #[trigger] is_alap_candidate(
                    *template,
                    tls@,
                    needs@,
                    timed@,
                    es as int,
                    ls as int,
                    d as int,
                    c,
                ) ==> !slot_feasible(*template, tls@, caps@, needs@, timed@, c, d as int)),
            Option::None => forall|c: int|
                es as int <= c <= ls as int && #[trigger] is_alap_candidate(
                    *template,
                    tls@,
                    needs@,
                    timed@,
                    es as int,
                    ls as int,
                    d as int,
                    c,
                ) ==> !slot_feasible(*template, tls@, caps@, needs@, timed@, c, d as int),
        },
{
    let ghost t = *template;
    let mut best: Option<u32> = None;
    let (ok_ls, _) = check_all_timed(template, tls, caps, needs, timed, ls, d);
    if ok_ls {
        proof {
            assert forall|c: int|
                (ls as int) < c <= ls as int && is_alap_candidate(
                    t,
                    tls@,
                    needs@,
                    timed@,
                    es as int,
                    ls as int,
                    d as int,
                    c,
                ) implies !slot_feasible(t, tls@, caps@, needs@, timed@, c, d as int) by {}
        }
        return Some(ls);
    }
    let (ok_es, _) = check_all_timed(template, tls, caps, needs, timed, es, d);
    if ok_es {
        best = Some(es);
    }
    let m = timed.len();
    let mut j: usize = 0;
    while j < m
        invariant
            0 <= j <= m,
            m == timed@.len(),
            t == *template,
            tls@.len() == template.resources@.len(),
            caps@.len() == template.resources@.len(),
            forall|j2: int| 0 <= j2 < m ==> (#[trigger] timed@[j2]) < needs@.len(),
            forall|j2: int|
                0 <= j2 < tls@.len() ==> (#[trigger] tls@[j2]).reservations@.len()
                    <= 0x7FFF_FFFF,
            es <= ls,
            ls as int + d as int <= 0xFFFF_FFFF,
            !slot_feasible(t, tls@, caps@, needs@, timed@, ls as int, d as int),
            best is None ==> !slot_feasible(t, tls@, caps@, needs@, timed@, es as int, d as int),
            forall|j2: int, i2: int|
                #![trigger timed@[j2], tls@[rep_idx(t, needs@[timed@[j2] as int].resource_id@)].reservations@[i2]]
                0 <= j2 < j && rep_idx(t, needs@[timed@[j2] as int].resource_id@) >= 0 && 0 <= i2
                    < tls@[rep_idx(t, needs@[timed@[j2] as int].resource_id@)].reservations@.len()
                    && es <= tls@[rep_idx(
                    t,
                    needs@[timed@[j2] as int].resource_id@,
                )].reservations@[i2].end <= ls && (best is None || (tls@[rep_idx(
                    t,
                    needs@[timed@[j2] as int].resource_id@,
                )].reservations@[i2].end as int) > best.unwrap() as int) ==> !slot_feasible(
                    t,
                    tls@,
                    caps@,
                    needs@,
                    timed@,
                    tls@[rep_idx(t, needs@[timed@[j2] as int].resource_id@)].reservations@[
                        i2
                    ].end as int,
                    d as int,
                ),
            forall|j2: int, i2: int|
                #![trigger timed@[j2], tls@[rep_idx(t, needs@[timed@[j2] as int].resource_id@)].reservations@[i2]]
                0 <= j2 < j && rep_idx(t, needs@[timed@[j2] as int].resource_id@) >= 0 && 0 <= i2
                    < tls@[rep_idx(t, needs@[timed@[j2] as int].resource_id@)].reservations@.len()
                    && tls@[rep_idx(t, needs@[timed@[j2] as int].resource_id@)].reservations@[
                    i2
                ].start as int >= d as int && es as int <= tls@[rep_idx(
                    t,
                    needs@[timed@[j2] as int].resource_id@,
                )].reservations@[i2].start as int - d as int <= ls as int && (best is None || tls@[
                    rep_idx(t, needs@[timed@[j2] as int].resource_id@)
                ].reservations@[i2].start as int - d as int > best.unwrap() as int)
                    ==> !slot_feasible(
                    t,
                    tls@,
                    caps@,
                    needs@,
                    timed@,
                    tls@[rep_idx(t, needs@[timed@[j2] as int].resource_id@)].reservations@[
                        i2
                    ].start as int - d as int,
                    d as int,
                ),
            match best {
                Option::Some(v) => es <= v <= ls && slot_feasible(
                    t,
                    tls@,
                    caps@,
                    needs@,
                    timed@,
                    v as int,
                    d as int,
                ),
                Option::None => true,
            },
        decreases m - j,
    {
        let need = &needs[timed[j]];
        match crate::model::find_resource_index_last(&template.resources, &need.resource_id) {
            Some(rep) => {
                proof {
                    crate::model::lemma_last_index_of(
                        resource_id_seq(template.resources@),
                        need.resource_id@,
                    );
                }
                let rn = tls[rep].reservations.len();
                let mut i: usize = 0;
                while i < rn
                    invariant
                        0 <= i <= rn,
                        0 <= j < m,
                        m == timed@.len(),
                        t == *template,
                        tls@.len() == template.resources@.len(),
                        caps@.len() == template.resources@.len(),
                        rep < tls@.len(),
                        rn == tls@[rep as int].reservations@.len(),
                        forall|j2: int| 0 <= j2 < m ==> (#[trigger] timed@[j2]) < needs@.len(),
                        forall|j2: int|
                            0 <= j2 < tls@.len() ==> (#[trigger] tls@[j2]).reservations@.len()
                                <= 0x7FFF_FFFF,
                        es <= ls,
                        ls as int + d as int <= 0xFFFF_FFFF,
                    !slot_feasible(t, tls@, caps@, needs@, timed@, ls as int, d as int),
                    best is None ==> !slot_feasible(t, tls@, caps@, needs@, timed@, es as int, d as int),
                    forall|j2: int, i2: int|
                        #![trigger timed@[j2], tls@[rep_idx(t, needs@[timed@[j2] as int].resource_id@)].reservations@[i2]]
                        0 <= j2 < j && rep_idx(t, needs@[timed@[j2] as int].resource_id@) >= 0 && 0 <= i2
                            < tls@[rep_idx(t, needs@[timed@[j2] as int].resource_id@)].reservations@.len()
                            && es <= tls@[rep_idx(
                            t,
                            needs@[timed@[j2] as int].resource_id@,
                        )].reservations@[i2].end <= ls && (best is None || (tls@[rep_idx(
                            t,
                            needs@[timed@[j2] as int].resource_id@,
                        )].reservations@[i2].end as int) > best.unwrap() as int) ==> !slot_feasible(
                            t,
                            tls@,
                            caps@,
                            needs@,
                            timed@,
                            tls@[rep_idx(t, needs@[timed@[j2] as int].resource_id@)].reservations@[
                                i2
                            ].end as int,
                            d as int,
                        ),
                    forall|j2: int, i2: int|
                        #![trigger timed@[j2], tls@[rep_idx(t, needs@[timed@[j2] as int].resource_id@)].reservations@[i2]]
                        0 <= j2 < j && rep_idx(t, needs@[timed@[j2] as int].resource_id@) >= 0 && 0 <= i2
                            < tls@[rep_idx(t, needs@[timed@[j2] as int].resource_id@)].reservations@.len()
                            && tls@[rep_idx(t, needs@[timed@[j2] as int].resource_id@)].reservations@[
                            i2
                        ].start as int >= d as int && es as int <= tls@[rep_idx(
                            t,
                            needs@[timed@[j2] as int].resource_id@,
                        )].reservations@[i2].start as int - d as int <= ls as int && (best is None || tls@[
                            rep_idx(t, needs@[timed@[j2] as int].resource_id@)
                        ].reservations@[i2].start as int - d as int > best.unwrap() as int)
                            ==> !slot_feasible(
                            t,
                            tls@,
                            caps@,
                            needs@,
                            timed@,
                            tls@[rep_idx(t, needs@[timed@[j2] as int].resource_id@)].reservations@[
                                i2
                            ].start as int - d as int,
                            d as int,
                        ),
                    forall|i2: int|
                        0 <= i2 < i && es <= (#[trigger] tls@[rep as int].reservations@[i2]).end <= ls
                            && (best is None || (tls@[rep as int].reservations@[i2].end as int)
                            > best.unwrap() as int) ==> !slot_feasible(
                            t,
                            tls@,
                            caps@,
                            needs@,
                            timed@,
                            tls@[rep as int].reservations@[i2].end as int,
                            d as int,
                        ),
                    forall|i2: int|
                        0 <= i2 < i && (#[trigger] tls@[rep as int].reservations@[i2]).start as int
                            >= d as int && es as int <= tls@[rep as int].reservations@[i2].start as int
                            - d as int <= ls as int && (best is None || tls@[rep as int].reservations@[
                            i2
                        ].start as int - d as int > best.unwrap() as int) ==> !slot_feasible(
                            t,
                            tls@,
                            caps@,
                            needs@,
                            timed@,
                            tls@[rep as int].reservations@[i2].start as int - d as int,
                            d as int,
                        ),
                        match best {
                            Option::Some(v) => es <= v <= ls && slot_feasible(
                                t,
                                tls@,
                                caps@,
                                needs@,
                                timed@,
                                v as int,
                                d as int,
                            ),
                            Option::None => true,
                        },
                    decreases rn - i,
                {
                    let rsv = tls[rep].reservations[i];
                    if rsv.end >= es && rsv.end <= ls {
                        let better = match best {
                            Some(v) => rsv.end > v,
                            None => true,
                        };
                        if better {
                            let (ok, _) = check_all_timed(
                                template,
                                tls,
                                caps,
                                needs,
                                timed,
                                rsv.end,
                                d,
                            );
                            if ok {
                                best = Some(rsv.end);
                            }
                        }
                    }
                    if rsv.start >= d {
                        let c = rsv.start - d;
                        if c >= es && c <= ls {
                            let better = match best {
                                Some(v) => c > v,
                                None => true,
                            };
                            if better {
                                let (ok, _) = check_all_timed(template, tls, caps, needs, timed, c, d);
                                if ok {
                                    best = Some(c);
                                }
                            }
                        }
                    }
                    i = i + 1;
                }
            }
            None => {}
        }
        j = j + 1;
    }
    proof {
        match best {
            Option::Some(v) => {
                assert forall|c: int|
                    (v as int) < c <= ls as int && #[trigger] is_alap_candidate(
                        t,
                        tls@,
                        needs@,
                        timed@,
                        es as int,
                        ls as int,
                        d as int,
                        c,
                    ) implies !slot_feasible(t, tls@, caps@, needs@, timed@, c, d as int) by {
                    if c == ls as int {
                    } else if c == es as int {
                        assert(es <= v);
                        assert(false);
                    } else if is_reservation_end(t, tls@, needs@, timed@, c) && es as int <= c
                        <= ls as int {
                        let (j2, i2) = choose|j2: int, i2: int|
                            0 <= j2 < timed@.len() && rep_idx(
                                t,
                                needs@[(#[trigger] timed@[j2]) as int].resource_id@,
                            ) >= 0 && 0 <= i2 < tls@[rep_idx(
                                t,
                                needs@[timed@[j2] as int].resource_id@,
                            )].reservations@.len() && (#[trigger] tls@[rep_idx(
                                t,
                                needs@[timed@[j2] as int].resource_id@,
                            )].reservations@[i2]).end as int == c;
                        assert(es <= tls@[rep_idx(
                            t,
                            needs@[timed@[j2] as int].resource_id@,
                        )].reservations@[i2].end <= ls);
                    } else {
                        let (j2, i2) = choose|j2: int, i2: int|
                            0 <= j2 < timed@.len() && rep_idx(
                                t,
                                needs@[(#[trigger] timed@[j2]) as int].resource_id@,
                            ) >= 0 && 0 <= i2 < tls@[rep_idx(
                                t,
                                needs@[timed@[j2] as int].resource_id@,
                            )].reservations@.len() && (#[trigger] tls@[rep_idx(
                                t,
                                needs@[timed@[j2] as int].resource_id@,
                            )].reservations@[i2]).start as int >= d as int && tls@[rep_idx(
                                t,
                                needs@[timed@[j2] as int].resource_id@,
                            )].reservations@[i2].start as int - d as int == c;
                        assert(es as int <= tls@[rep_idx(
                            t,
                            needs@[timed@[j2] as int].resource_id@,
                        )].reservations@[i2].start as int - d as int <= ls as int);
                    }
                }
            }
            Option::None => {
                assert forall|c: int|
                    es as int <= c <= ls as int && #[trigger] is_alap_candidate(
                        t,
                        tls@,
                        needs@,
                        timed@,
                        es as int,
                        ls as int,
                        d as int,
                        c,
                    ) implies !slot_feasible(t, tls@, caps@, needs@, timed@, c, d as int) by {
                    if c == ls as int {
                    } else if c == es as int {
                    } else if is_reservation_end(t, tls@, needs@, timed@, c) && es as int <= c
                        <= ls as int {
                        let (j2, i2) = choose|j2: int, i2: int|
                            0 <= j2 < timed@.len() && rep_idx(
                                t,
                                needs@[(#[trigger] timed@[j2]) as int].resource_id@,
                            ) >= 0 && 0 <= i2 < tls@[rep_idx(
                                t,
                                needs@[timed@[j2] as int].resource_id@,
                            )].reservations@.len() && (#[trigger] tls@[rep_idx(
                                t,
                                needs@[timed@[j2] as int].resource_id@,
                            )].reservations@[i2]).end as int == c;
                        assert(es <= tls@[rep_idx(
                            t,
                            needs@[timed@[j2] as int].resource_id@,
                        )].reservations@[i2].end <= ls);
                    } else {
                        let (j2, i2) = choose|j2: int, i2: int|
                            0 <= j2 < timed@.len() && rep_idx(
                                t,
                                needs@[(#[trigger] timed@[j2]) as int].resource_id@,
                            ) >= 0 && 0 <= i2 < tls@[rep_idx(
                                t,
                                needs@[timed@[j2] as int].resource_id@,
                            )].reservations@.len() && (#[trigger] tls@[rep_idx(
                                t,
                                needs@[timed@[j2] as int].resource_id@,
                            )].reservations@[i2]).start as int >= d as int && tls@[rep_idx(
                                t,
                                needs@[timed@[j2] as int].resource_id@,
                            )].reservations@[i2].start as int - d as int == c;
                        assert(es as int <= tls@[rep_idx(
                            t,
                            needs@[timed@[j2] as int].resource_id@,
                        )].reservations@[i2].start as int - d as int <= ls as int);
                    }
                }
            }
        }
    }
    best
}

/// Clones an optional string.
fn clone_opt_string(o: &Option<String>) -> (r: Option<String>)
    ensures
        r == *o,
{
    match o {
        Some(s) => Some(s.clone()),
        None => None,
    }
}

fn msg_override_exec(name: &str, newcap: u32, oldcap: u32) -> (r: String)
    ensures
        r@ == msg_override(name@, newcap, oldcap),
{
    let mut m = String::new();
    m.append("Inventory override: '");
    m.append(name);
    m.append("' limited to ");
    crate::strutil::append_u32(&mut m, newcap);
    m.append(" (template defines ");
    crate::strutil::append_u32(&mut m, oldcap);
    m.append(")");
    proof {
        assert(m@ =~= msg_override(name@, newcap, oldcap));
    }
    m
}

fn msg_shortage_exec(name: &str, needed: u32, remaining: u32) -> (r: String)
    ensures
        r@ == msg_shortage(name@, needed, remaining),
{
    let mut m = String::new();
    m.append("Consumable '");
    m.append(name);
    m.append("' may run out -- ");
    crate::strutil::append_u32(&mut m, needed);
    m.append(" needed but only ");
    crate::strutil::append_u32(&mut m, remaining);
    m.append(" available");
    proof {
        assert(m@ =~= msg_shortage(name@, needed, remaining));
    }
    m
}

fn msg_delayed_exec(title: &str, rname: &str) -> (r: String)
    ensures
        r@ == msg_delayed(title@, rname@),
{
    let mut m = String::new();
    m.append("Step '");
    m.append(title);
    m.append("' was delayed beyond its available slack due to resource conflict with '");
    m.append(rname);
    m.append("'");
    proof {
        assert(m@ =~= msg_delayed(title@, rname@));
    }
    m
}

proof fn lemma_assigned_used_all_empty(steps: Seq<SolvedStep>, rid: Seq<char>)
    requires
        forall|i: int|
            0 <= i < steps.len() ==> (#[trigger] steps[i]).assigned_resources@.len() == 0,
    ensures
        assigned_used(steps, rid) == 0,
    decreases steps.len(),
{
    if steps.len() > 0 {
        assert forall|i: int| 0 <= i < steps.drop_last().len() implies (
        #[trigger] steps.drop_last()[i]).assigned_resources@.len() == 0 by {
            assert(steps.drop_last()[i] == steps[i]);
        }
        lemma_assigned_used_all_empty(steps.drop_last(), rid);
    }
}

pub proof fn lemma_overrides_without_resources(
    t: ScheduleTemplate,
    caps: Seq<u32>,
    items: Seq<ResourceInventoryItem>,
    j: int,
)
    requires
        t.resources@.len() == 0,
        j >= 0,
    ensures
        apply_inventory_warnings(t, caps, items, j) =~= Seq::<Seq<char>>::empty(),
    decreases j,
{
    if j > 0 {
        lemma_overrides_without_resources(t, caps, items, j - 1);
        crate::model::lemma_last_index_of(
            resource_id_seq(t.resources@),
            items[j - 1].resource_id@,
        );
    }
}

/// With no resources declared, no inventory item can match: there are no
/// override warnings.
pub proof fn lemma_overrides_empty_without_resources(
    t: ScheduleTemplate,
    inv: Option<&ResourceInventory>,
)
    requires
        t.resources@.len() == 0,
    ensures
        override_warnings(t, inv) =~= Seq::<Seq<char>>::empty(),
{
    match inv {
        Option::Some(iv) => {
            lemma_overrides_without_resources(t, template_caps(t), iv.items@, iv.items@.len() as int);
        }
        Option::None => {}
    }
}

/// The display name of a resource ID, as warnings spell it.
fn display_name_exec<'a>(template: &'a ScheduleTemplate, id: &'a String) -> (r: &'a str)
    ensures
        r@ == display_name(*template, id@),
{
    proof {
        crate::model::lemma_first_index_of(resource_id_seq(template.resources@), id@);
    }
    match crate::model::find_resource_index(&template.resources, id) {
        Some(f) => template.resources[f].name.as_str(),
        None => id.as_str(),
    }
}

/// Places every step with resource needs: critical steps first, then by
/// early start, then by duration. Each step moves to a start where its
/// Equipment and People needs fit under the effective capacities, within
/// its float window when possible; consumable budgets are drained and
/// shortages warned about. Inventory overrides are applied first, each
/// with a warning.
#[verifier::rlimit(100)]
#[verifier::spinoff_prover]
pub fn allocate_resources(
    template: &ScheduleTemplate,
    solved_steps: &mut Vec<SolvedStep>,
    early_starts: &Vec<u32>,
    late_starts: &Vec<u32>,
    inventory: Option<&ResourceInventory>,
) -> (warnings: Vec<String>)
    requires
        template.steps@.len() <= 0x7FFF_FFFF,
        old(solved_steps)@.len() == template.steps@.len(),
        early_starts@.len() == template.steps@.len(),
        late_starts@.len() == template.steps@.len(),
        sum_durs(durations(*template)) <= 0x7FFF_FFFF,
        total_ints(need_counts(template.steps@)) <= 0x7FFF_FFFF,
        forall|i: int|
            0 <= i < template.steps@.len() ==> #[trigger] early_starts@[i] <= late_starts@[i],
        forall|i: int|
            0 <= i < template.steps@.len() ==> (#[trigger] late_starts@[i]) as int + durations(
                *template,
            )[i] <= 0x7FFF_FFFF,
        forall|i: int|
            0 <= i < template.steps@.len() ==> {
                &&& (#[trigger] old(solved_steps)@[i]).end_offset_mins as int == old(solved_steps)@[i].start_offset_mins as int + durations(*template)[i]
                &&& old(solved_steps)@[i].start_offset_mins >= early_starts@[i]
                &&& old(solved_steps)@[i].start_offset_mins <= late_starts@[i]
                &&& old(solved_steps)@[i].assigned_resources@.len() == 0
            },
    ensures
        final(solved_steps)@.len() == template.steps@.len(),
        forall|i: int|
            0 <= i < template.steps@.len() ==> {
                &&& (#[trigger] final(solved_steps)@[i]).step_id == old(solved_steps)@[i].step_id
                &&& final(solved_steps)@[i].is_critical == old(solved_steps)@[i].is_critical
                &&& final(solved_steps)@[i].total_float_mins == old(solved_steps)@[i].total_float_mins
                &&& final(solved_steps)@[i].start_time == old(solved_steps)@[i].start_time
                &&& final(solved_steps)@[i].end_time == old(solved_steps)@[i].end_time
                &&& final(solved_steps)@[i].end_offset_mins as int == final(solved_steps)@[i].start_offset_mins as int + durations(*template)[i]
                &&& final(solved_steps)@[i].start_offset_mins >= early_starts@[i]
            },
        crate::validator::str_views(warnings@).take(
            override_warnings(*template, inventory).len() as int,
        ) =~= override_warnings(*template, inventory),
        warnings@.len() >= override_warnings(*template, inventory).len(),
        forall|j: int|
            0 <= j < template.resources@.len() && (#[trigger] template.resources@[j]).kind
                == ResourceKind::Consumable && rep_idx(*template, template.resources@[j].id@) == j
                ==> assigned_used(final(solved_steps)@, template.resources@[j].id@)
                <= effective_caps(*template, inventory)[j] as int,
        forall|i: int|
            0 <= i < template.steps@.len() ==> entries_match_upto(
                *template,
                template.steps@[i].resource_needs@,
                template.steps@[i].resource_needs@.len() as int,
                (#[trigger] final(solved_steps)@[i]).assigned_resources@,
            ),
        forall|i: int|
            0 <= i < template.steps@.len() && (#[trigger] final(solved_steps)@[i]).start_offset_mins
                > late_starts@[i] ==> exists|widx: int, nj: int|
                {
                    &&& override_warnings(*template, inventory).len() <= widx < warnings@.len()
                    &&& 0 <= nj < template.steps@[i].resource_needs@.len()
                    &&& (#[trigger] crate::validator::str_views(warnings@)[widx]) == msg_delayed(
                        template.steps@[i].title@,
                        display_name(
                            *template,
                            (#[trigger] template.steps@[i].resource_needs@[nj]).resource_id@,
                        ),
                    )
                },
        forall|widx: int|
            override_warnings(*template, inventory).len() <= widx < warnings@.len()
                ==> is_step_warning(#[trigger] crate::validator::str_views(warnings@)[widx]),
        needs_fit_capacities(*template, effective_caps(*template, inventory)) ==> forall|
            j: int,
            x: int,
        |
            0 <= j < template.resources@.len() && template.resources@[j].kind
                != ResourceKind::Consumable && rep_idx(*template, template.resources@[j].id@)
                == j ==> #[trigger] steps_usage_at(
                *template,
                final(solved_steps)@,
                template.steps@.len() as int,
                j,
                x,
            ) <= effective_caps(*template, inventory)[j] as int,
        forall|j: int|
            0 <= j < template.resources@.len() && (#[trigger] template.resources@[j]).kind
                == ResourceKind::Consumable && rep_idx(*template, template.resources@[j].id@)
                == j ==> assigned_used(final(solved_steps)@, template.resources@[j].id@) == (
            if template_demand(*template, template.steps@.len() as int, j) <= effective_caps(
                *template,
                inventory,
            )[j] as int {
                template_demand(*template, template.steps@.len() as int, j)
            } else {
                effective_caps(*template, inventory)[j] as int
            }),
        template.resources@.len() == 0 ==> warnings@.len() == 0 && final(solved_steps)@ == old(solved_steps)@,
        forall|i: int|
            0 <= i < template.steps@.len() && (forall|k: int|
                0 <= k < template.steps@[i].resource_needs@.len() ==> !is_timed_need(
                    *template,
                    #[trigger] template.steps@[i].resource_needs@[k],
                )) ==> (#[trigger] final(solved_steps)@[i]).start_offset_mins == old(
                solved_steps,
            )@[i].start_offset_mins,
        consumable_demand_fits(*template, effective_caps(*template, inventory)) ==> forall|
            widx: int,
        |
            override_warnings(*template, inventory).len() <= widx < warnings@.len()
                ==> is_delay_warning(#[trigger] crate::validator::str_views(warnings@)[widx]),
        forall|i: int, k: int|
            #![trigger template.steps@[i].resource_needs@[k]]
            0 <= i < template.steps@.len() && 0 <= k < template.steps@[
                i
            ].resource_needs@.len() && rep_idx(
                *template,
                template.steps@[i].resource_needs@[k].resource_id@,
            ) >= 0 && template.resources@[rep_idx(
                *template,
                template.steps@[i].resource_needs@[k].resource_id@,
            )].kind == ResourceKind::Consumable ==> consumable_entry_exact(
                *template,
                crit_flags(old(solved_steps)@),
                early_starts@,
                effective_caps(*template, inventory),
                i,
                k,
                final(solved_steps)@[i].assigned_resources@,
            ),
        (forall|i: int|
            0 <= i < template.steps@.len() ==> (#[trigger] final(solved_steps)@[
                i
            ]).start_offset_mins <= late_starts@[i]) ==> forall|widx: int|
            override_warnings(*template, inventory).len() <= widx < warnings@.len()
                ==> is_shortage_warning(#[trigger] crate::validator::str_views(warnings@)[widx]),
{
    let ghost t = *template;
    let ghost ds = durations(t);
    let ghost input_steps = solved_steps@;
    let n = solved_steps.len();
    let rcount = template.resources.len();
    let mut warnings: Vec<String> = Vec::new();

    if rcount == 0 {
        proof {
            match inventory {
                Option::Some(iv) => {
                    lemma_overrides_without_resources(
                        t,
                        template_caps(t),
                        iv.items@,
                        iv.items@.len() as int,
                    );
                }
                Option::None => {}
            }
            assert forall|i: int| 0 <= i < n implies entries_match_upto(
                t,
                t.steps@[i].resource_needs@,
                t.steps@[i].resource_needs@.len() as int,
                (#[trigger] solved_steps@[i]).assigned_resources@,
            ) by {
                lemma_entries_match_no_resources(
                    t,
                    t.steps@[i].resource_needs@,
                    t.steps@[i].resource_needs@.len() as int,
                    solved_steps@[i].assigned_resources@,
                );
            }
        }
        return warnings;
    }

    // Effective capacities: template values, then inventory overrides.
    let mut caps: Vec<u32> = Vec::new();
    let mut j: usize = 0;
    while j < rcount
        invariant
            0 <= j <= rcount,
            rcount == template.resources@.len(),
            t == *template,
            caps@ =~= template_caps(t).take(j as int),
        decreases rcount - j,
    {
        caps.push(template.resources[j].capacity);
        proof {
            assert(template_caps(t).take(j as int + 1) =~= template_caps(t).take(
                j as int,
            ).push(template.resources@[j as int].capacity));
        }
        j = j + 1;
    }
    proof {
        assert(template_caps(t).take(rcount as int) =~= template_caps(t));
    }
    match inventory {
        Some(inv) => {
            let icount = inv.items.len();
            let mut j: usize = 0;
            while j < icount
                invariant
                    0 <= j <= icount,
                    rcount == template.resources@.len(),
                    t == *template,
                    icount == inv.items@.len(),
                    caps@.len() == rcount,
                    caps@ == apply_inventory_caps(t, template_caps(t), inv.items@, j as int),
                    crate::validator::str_views(warnings@) =~= apply_inventory_warnings(
                        t,
                        template_caps(t),
                        inv.items@,
                        j as int,
                    ),
                decreases icount - j,
            {
                let item = &inv.items[j];
                match crate::model::find_resource_index_last(
                    &template.resources,
                    &item.resource_id,
                ) {
                    Some(rep) => {
                        proof {
                            crate::model::lemma_last_index_of(
                                resource_id_seq(template.resources@),
                                item.resource_id@,
                            );
                        }
                        let oldcap = caps[rep];
                        let name = display_name_exec(template, &item.resource_id);
                        let m = msg_override_exec(name, item.available_quantity, oldcap);
                        proof {
                            assert(crate::validator::str_views(warnings@.push(m))
                                =~= crate::validator::str_views(warnings@).push(m@));
                        }
                        warnings.push(m);
                        caps.set(rep, item.available_quantity);
                    }
                    None => {}
                }
                j = j + 1;
            }
        }
        None => {}
    }
    let ghost eff = effective_caps(t, inventory);
    let ghost ow = override_warnings(t, inventory);
    proof {
        assert(caps@ == eff);
        assert(crate::validator::str_views(warnings@) =~= ow);
        assert(crate::validator::str_views(warnings@).take(ow.len() as int) =~= ow);
    }

    // Consumable budgets start from the effective capacities.
    let mut remaining: Vec<u32> = Vec::new();
    let mut j: usize = 0;
    while j < rcount
        invariant
            0 <= j <= rcount,
            caps@.len() == rcount,
            remaining@.len() == j,
            forall|j2: int| 0 <= j2 < j ==> (#[trigger] remaining@[j2]) == caps@[j2],
        decreases rcount - j,
    {
        remaining.push(caps[j]);
        j = j + 1;
    }

    // One empty timeline per resource.
    let mut timelines: Vec<ResourceTimeline> = Vec::new();
    let mut j: usize = 0;
    while j < rcount
        invariant
            0 <= j <= rcount,
            timelines@.len() == j,
            forall|j2: int|
                0 <= j2 < j ==> (#[trigger] timelines@[j2]).reservations@.len() == 0,
        decreases rcount - j,
    {
        timelines.push(ResourceTimeline { reservations: Vec::new() });
        j = j + 1;
    }

    let order = priority_order(solved_steps, early_starts, Ghost(ds));
    let ghost crit0 = crit_flags(input_steps);
    let ghost ncounts = need_counts(t.steps@);
    let ghost mut done: Seq<bool> = Seq::new(n as nat, |i: int| false);
    proof {
        assert forall|j2: int, x: int|
            0 <= j2 < rcount && t.resources@[j2].kind != ResourceKind::Consumable implies
            #[trigger] usage_at(timelines@[j2].reservations@, x) == placed_usage_at(
            t,
            solved_steps@,
            done,
            n as int,
            j2,
            x,
        ) by {
            assert(timelines@[j2].reservations@.len() == 0);
            lemma_placed_usage_none_done(t, solved_steps@, done, n as int, j2, x);
        }
        assert forall|j2: int, x: int|
            0 <= j2 < rcount implies #[trigger] usage_at(timelines@[j2].reservations@, x)
            <= caps@[j2] as int by {
            assert(timelines@[j2].reservations@.len() == 0);
        }
        assert forall|j2: int|
            0 <= j2 < rcount && (#[trigger] t.resources@[j2]).kind == ResourceKind::Consumable
                && rep_idx(t, t.resources@[j2].id@) == j2 implies remaining@[j2] as int
            == crate::cpm::clamp0(eff[j2] as int - placed_demand(t, done, n as int, j2)) by {
            lemma_placed_demand_none_done(t, done, n as int, j2);
        }
        assert forall|j2: int|
            0 <= j2 < rcount && (#[trigger] t.resources@[j2]).kind == ResourceKind::Consumable
                && rep_idx(t, t.resources@[j2].id@) == j2 implies remaining@[j2] as int == eff[
            j2
        ] as int - assigned_used(solved_steps@, t.resources@[j2].id@) by {
            lemma_assigned_used_all_empty(solved_steps@, t.resources@[j2].id@);
        }
    }

    let mut q: usize = 0;
    while q < n
        invariant
            0 <= q <= n,
            n == template.steps@.len(),
            t == *template,
            ds == durations(t),
            ncounts == need_counts(t.steps@),
            sum_durs(ds) <= 0x7FFF_FFFF,
            total_ints(ncounts) <= 0x7FFF_FFFF,
            n <= 0x7FFF_FFFF,
            rcount == template.resources@.len(),
            solved_steps@.len() == n,
            early_starts@.len() == n,
            late_starts@.len() == n,
            input_steps.len() == n,
            caps@.len() == rcount,
            remaining@.len() == rcount,
            timelines@.len() == rcount,
            caps@ == eff,
            eff == effective_caps(t, inventory),
            ow == override_warnings(t, inventory),
            order@.len() == n,
            forall|i: int| 0 <= i < n ==> (#[trigger] order@[i]) < n,
            forall|i: int, i2: int| 0 <= i < i2 < n ==> order@[i] != order@[i2],
            forall|i: int| 0 <= i < n ==> #[trigger] early_starts@[i] <= late_starts@[i],
            forall|i: int|
                0 <= i < n ==> (#[trigger] late_starts@[i]) as int + ds[i] <= 0x7FFF_FFFF,
            forall|i: int|
                0 <= i < n ==> {
                    &&& (#[trigger] input_steps[i]).end_offset_mins as int == input_steps[
                        i
                    ].start_offset_mins as int + ds[i]
                    &&& input_steps[i].start_offset_mins >= early_starts@[i]
                    &&& input_steps[i].start_offset_mins <= late_starts@[i]
                    &&& input_steps[i].assigned_resources@.len() == 0
                },
            forall|v: usize| v < n ==> #[trigger] order@.contains(v),
            crit0 == crit_flags(input_steps),
            forall|p: int, p2: int|
                0 <= p < p2 < n ==> prio_lt(crit0, early_starts@, ds, order@[p] as int, order@[
                    p2
                ] as int),
            forall|p: int|
                q <= p < n ==> solved_steps@[(#[trigger] order@[p]) as int] == input_steps[order@[
                    p
                ] as int],
            forall|p: int|
                0 <= p < q && (forall|k: int|
                    0 <= k < t.steps@[order@[p] as int].resource_needs@.len()
                        ==> !is_timed_need(
                        t,
                        #[trigger] t.steps@[order@[p] as int].resource_needs@[k],
                    )) ==> solved_steps@[(#[trigger] order@[p]) as int].start_offset_mins
                    == input_steps[order@[p] as int].start_offset_mins,
            forall|p: int|
                0 <= p < q ==> entries_match_upto(
                    t,
                    t.steps@[order@[p] as int].resource_needs@,
                    t.steps@[order@[p] as int].resource_needs@.len() as int,
                    solved_steps@[(#[trigger] order@[p]) as int].assigned_resources@,
                ),
            forall|p: int, k2: int|
                #![trigger order@[p], t.steps@[order@[p] as int].resource_needs@[k2]]
                0 <= p < q && 0 <= k2 < t.steps@[order@[p] as int].resource_needs@.len()
                    && rep_idx(
                    t,
                    t.steps@[order@[p] as int].resource_needs@[k2].resource_id@,
                ) >= 0 && t.resources@[rep_idx(
                    t,
                    t.steps@[order@[p] as int].resource_needs@[k2].resource_id@,
                )].kind == ResourceKind::Consumable ==> consumable_entry_exact(
                    t,
                    crit0,
                    early_starts@,
                    eff,
                    order@[p] as int,
                    k2,
                    solved_steps@[order@[p] as int].assigned_resources@,
                ),
            forall|p: int|
                0 <= p < q && solved_steps@[(#[trigger] order@[p]) as int].start_offset_mins
                    > late_starts@[order@[p] as int] ==> exists|widx: int, nj: int|
                    {
                        &&& ow.len() <= widx < warnings@.len()
                        &&& 0 <= nj < t.steps@[order@[p] as int].resource_needs@.len()
                        &&& (#[trigger] crate::validator::str_views(warnings@)[widx])
                            == msg_delayed(
                            t.steps@[order@[p] as int].title@,
                            display_name(
                                t,
                                (#[trigger] t.steps@[order@[p] as int].resource_needs@[
                                    nj
                                ]).resource_id@,
                            ),
                        )
                    },
            forall|widx: int|
                ow.len() <= widx < warnings@.len() ==> is_step_warning(
                    #[trigger] crate::validator::str_views(warnings@)[widx],
                ),
            consumable_demand_fits(t, eff) ==> forall|widx: int|
                ow.len() <= widx < warnings@.len() ==> is_delay_warning(
                    #[trigger] crate::validator::str_views(warnings@)[widx],
                ),
            forall|widx: int|
                ow.len() <= widx < warnings@.len() ==> is_shortage_warning(
                    #[trigger] crate::validator::str_views(warnings@)[widx],
                ) || (exists|p: int|
                    0 <= p < q && solved_steps@[(#[trigger] order@[p]) as int].start_offset_mins
                        > late_starts@[order@[p] as int]),
            forall|i: int|
                0 <= i < n ==> {
                    &&& (#[trigger] solved_steps@[i]).step_id == input_steps[i].step_id
                    &&& solved_steps@[i].is_critical == input_steps[i].is_critical
                    &&& solved_steps@[i].total_float_mins == input_steps[i].total_float_mins
                    &&& solved_steps@[i].start_time == input_steps[i].start_time
                    &&& solved_steps@[i].end_time == input_steps[i].end_time
                    &&& solved_steps@[i].end_offset_mins as int == solved_steps@[
                        i
                    ].start_offset_mins as int + ds[i]
                    &&& solved_steps@[i].start_offset_mins >= early_starts@[i]
                },
            crate::validator::str_views(warnings@).take(ow.len() as int) =~= ow,
            warnings@.len() >= ow.len(),
            forall|j2: int|
                0 <= j2 < rcount && (#[trigger] t.resources@[j2]).kind == ResourceKind::Consumable
                    && rep_idx(t, t.resources@[j2].id@) == j2 ==> remaining@[j2] as int == eff[
                    j2
                ] as int - assigned_used(solved_steps@, t.resources@[j2].id@),
            forall|j2: int|
                0 <= j2 < rcount && (#[trigger] t.resources@[j2]).kind == ResourceKind::Consumable
                    && rep_idx(t, t.resources@[j2].id@) == j2 ==> remaining@[j2] as int
                    == crate::cpm::clamp0(eff[j2] as int - placed_demand(t, done, n as int, j2)),
            forall|j2: int|
                0 <= j2 < rcount ==> (#[trigger] timelines@[j2]).reservations@.len() as int
                    <= picked_ints(ncounts, order@, q as int),
            forall|j2: int, i2: int|
                0 <= j2 < rcount && 0 <= i2 < timelines@[j2].reservations@.len() ==> (
                #[trigger] timelines@[j2].reservations@[i2]).end as int <= 0x7FFF_FFFF
                    + sum_picked(ds, order@, q as int),
            done.len() == n,
            forall|p: int| 0 <= p < q ==> done[(#[trigger] order@[p]) as int],
            forall|p: int| q <= p < n ==> !done[(#[trigger] order@[p]) as int],
            forall|j2: int, x: int|
                0 <= j2 < rcount && t.resources@[j2].kind != ResourceKind::Consumable
                    ==> #[trigger] usage_at(timelines@[j2].reservations@, x) == placed_usage_at(
                    t,
                    solved_steps@,
                    done,
                    n as int,
                    j2,
                    x,
                ),
            needs_fit_capacities(t, eff) ==> forall|j2: int, x: int|
                0 <= j2 < rcount ==> #[trigger] usage_at(timelines@[j2].reservations@, x)
                    <= caps@[j2] as int,
        decreases n - q,
    {
        let idx = order[q];
        let needs = &template.steps[idx].resource_needs;
        let ncount = needs.len();
        proof {
            assert(ncounts[idx as int] == t.steps@[idx as int].resource_needs@.len() as int);
            assert(picked_ints(ncounts, order@, q as int + 1) == picked_ints(
                ncounts,
                order@,
                q as int,
            ) + ncounts[order@[q as int] as int]);
            assert(sum_picked(ds, order@, q as int + 1) == sum_picked(ds, order@, q as int)
                + ds[order@[q as int] as int]);
            assert forall|i: int| 0 <= i < ncounts.len() implies (#[trigger] ncounts[i]) >= 0
                by {}
            lemma_picked_ints_mono(ncounts, order@, q as int, q as int + 1);
            lemma_sum_picked_mono(ds, order@, q as int, q as int + 1);
        }
        if ncount > 0 {
            let ghost warn0 = warnings@;
            let es_i = early_starts[idx];
            let ls_i = late_starts[idx];
            let start0 = solved_steps[idx].start_offset_mins;
            let end0 = solved_steps[idx].end_offset_mins;
            let duration = end0 - start0;
            proof {
                assert(duration as int == ds[idx as int]);
                lemma_sum_picked_bound(ds, order@, q as int + 1);
                lemma_sum_picked_nonneg(ds, order@, q as int);
                lemma_picked_ints_bound(ncounts, order@, q as int + 1);
                lemma_picked_ints_nonneg(ncounts, order@, q as int);
            }
            let alap = match &template.steps[idx].timing_policy {
                Some(TimingPolicy::Alap) => true,
                _ => false,
            };

            // Consumable budget warnings come before placement.
            let mut k: usize = 0;
            while k < ncount
                invariant
                    0 <= k <= ncount,
                    0 <= idx < n,
                    n == template.steps@.len(),
                    t == *template,
                    rcount == template.resources@.len(),
                    remaining@.len() == rcount,
                    ncount == template.steps@[idx as int].resource_needs@.len(),
                    needs@ == template.steps@[idx as int].resource_needs@,
                    ow == override_warnings(t, inventory),
                    crate::validator::str_views(warnings@).take(ow.len() as int) =~= ow,
                    warnings@.len() >= ow.len(),
                    forall|widx: int|
                        ow.len() <= widx < warnings@.len() ==> is_step_warning(
                            #[trigger] crate::validator::str_views(warnings@)[widx],
                        ),
                    consumable_demand_fits(t, eff) ==> forall|widx: int|
                        ow.len() <= widx < warnings@.len() ==> is_delay_warning(
                            #[trigger] crate::validator::str_views(warnings@)[widx],
                        ),
                    0 <= q < n,
                    order@.len() == n,
                    late_starts@.len() == n,
                    solved_steps@.len() == n,
                    forall|widx: int|
                        ow.len() <= widx < warnings@.len() ==> is_shortage_warning(
                            #[trigger] crate::validator::str_views(warnings@)[widx],
                        ) || (exists|p: int|
                            0 <= p < q && solved_steps@[(#[trigger] order@[p]) as int].start_offset_mins
                                > late_starts@[order@[p] as int]),
                    eff == effective_caps(t, inventory),
                    caps@ == eff,
                    caps@.len() == rcount,
                    n == t.steps@.len(),
                    0 <= idx < n,
                    done.len() == n,
                    !done[idx as int],
                    forall|j2: int|
                        0 <= j2 < rcount && (#[trigger] t.resources@[j2]).kind
                            == ResourceKind::Consumable && rep_idx(t, t.resources@[j2].id@) == j2
                            ==> remaining@[j2] as int == crate::cpm::clamp0(
                            eff[j2] as int - placed_demand(t, done, n as int, j2),
                        ),
                    warn0.len() <= warnings@.len(),
                    forall|widx: int|
                        0 <= widx < warn0.len() ==> #[trigger] warnings@[widx] == warn0[widx],
                decreases ncount - k,
            {
                let need = &needs[k];
                match crate::model::find_resource_index_last(
                    &template.resources,
                    &need.resource_id,
                ) {
                    Some(rep) => {
                        proof {
                            crate::model::lemma_last_index_of(
                                resource_id_seq(template.resources@),
                                need.resource_id@,
                            );
                        }
                        let is_cons = match template.resources[rep].kind {
                            ResourceKind::Consumable => true,
                            _ => false,
                        };
                        if is_cons {
                            let rem = remaining[rep];
                            if rem < need.quantity {
                                let name = display_name_exec(template, &need.resource_id);
                                let m = msg_shortage_exec(name, need.quantity, rem);
                                proof {
                                    if consumable_demand_fits(t, eff) {
                                        assert(t.resources@[rep as int].id@
                                            == need.resource_id@);
                                        assert(rep_idx(t, t.resources@[rep as int].id@)
                                            == rep as int);
                                        assert(template_demand(t, n as int, rep as int) <= eff[
                                            rep as int
                                        ] as int);
                                        lemma_placed_demand_headroom(
                                            t,
                                            done,
                                            n as int,
                                            idx as int,
                                            rep as int,
                                        );
                                        lemma_step_need_qty_lower(
                                            t,
                                            t.steps@[idx as int].resource_needs@,
                                            k as int,
                                            t.steps@[idx as int].resource_needs@.len() as int,
                                            rep as int,
                                        );
                                        assert(false);
                                    }
                                    assert(crate::validator::str_views(warnings@.push(m)).take(
                                        ow.len() as int,
                                    ) =~= crate::validator::str_views(warnings@).take(
                                        ow.len() as int,
                                    ));
                                    assert(is_step_warning(m@));
                                    assert(is_shortage_warning(m@));
                                    assert forall|widx: int|
                                        ow.len() <= widx < warnings@.push(m).len() implies
                                        is_shortage_warning(
                                        #[trigger] crate::validator::str_views(
                                            warnings@.push(m),
                                        )[widx],
                                    ) || (exists|p: int|
                                        0 <= p < q && solved_steps@[(
                                        #[trigger] order@[p]) as int].start_offset_mins
                                            > late_starts@[order@[p] as int]) by {
                                        if widx < warnings@.len() {
                                            assert(crate::validator::str_views(
                                                warnings@.push(m),
                                            )[widx] == crate::validator::str_views(warnings@)[
                                                widx
                                            ]);
                                        } else {
                                            assert(crate::validator::str_views(
                                                warnings@.push(m),
                                            )[widx] == m@);
                                        }
                                    }
                                    assert forall|widx: int|
                                        ow.len() <= widx < warnings@.push(m).len() implies
                                        is_step_warning(
                                        #[trigger] crate::validator::str_views(
                                            warnings@.push(m),
                                        )[widx],
                                    ) by {
                                        if widx < warnings@.len() {
                                            assert(crate::validator::str_views(
                                                warnings@.push(m),
                                            )[widx] == crate::validator::str_views(warnings@)[
                                                widx
                                            ]);
                                        } else {
                                            assert(crate::validator::str_views(
                                                warnings@.push(m),
                                            )[widx] == m@);
                                        }
                                    }
                                }
                                warnings.push(m);
                            }
                        }
                    }
                    None => {}
                }
                k = k + 1;
            }

            // The timed needs: Equipment and People, and unresolvable IDs.
            let mut timed: Vec<usize> = Vec::new();
            let mut k: usize = 0;
            while k < ncount
                invariant
                    0 <= k <= ncount,
                    0 <= idx < n,
                    n == template.steps@.len(),
                    t == *template,
                    rcount == template.resources@.len(),
                    ncount == template.steps@[idx as int].resource_needs@.len(),
                    needs@ == template.steps@[idx as int].resource_needs@,
                    forall|j2: int| 0 <= j2 < timed@.len() ==> (#[trigger] timed@[j2]) < ncount,
                    forall|j2: int|
                        0 <= j2 < timed@.len() ==> is_timed_need(
                            t,
                            needs@[(#[trigger] timed@[j2]) as int],
                        ),
                    forall|k2: usize|
                        k2 < k && is_timed_need(t, needs@[k2 as int]) ==> #[trigger] timed@.contains(
                            k2,
                        ),
                decreases ncount - k,
            {
                let need = &needs[k];
                let ghost timed_old = timed@;
                match crate::model::find_resource_index_last(
                    &template.resources,
                    &need.resource_id,
                ) {
                    Some(rep) => {
                        proof {
                            crate::model::lemma_last_index_of(
                                resource_id_seq(template.resources@),
                                need.resource_id@,
                            );
                        }
                        match template.resources[rep].kind {
                            ResourceKind::Consumable => {
                                proof {
                                    assert(!is_timed_need(t, needs@[k as int]));
                                }
                            }
                            _ => {
                                timed.push(k);
                            }
                        }
                    }
                    None => {
                        timed.push(k);
                    }
                }
                proof {
                    assert forall|k2: usize|
                        k2 < k + 1 && is_timed_need(t, needs@[k2 as int]) implies
                        #[trigger] timed@.contains(k2) by {
                        if k2 < k {
                            assert(timed_old.contains(k2));
                            let w = choose|w: int| 0 <= w < timed_old.len() && timed_old[w] == k2;
                            assert(timed@[w] == k2);
                        } else {
                            assert(timed@[timed@.len() - 1] == k2);
                        }
                    }
                }
                k = k + 1;
            }

            // Choose the start.
            let mut fs: u32;
            let mut blocker: Option<usize> = None;
            if timed.len() == 0 {
                fs = start0;
            } else {
                proof {
                    assert(es_i as int + duration as int <= 0xFFFF_FFFF);
                    assert(ls_i as int + duration as int <= 0xFFFF_FFFF);
                    assert forall|j2: int, i2: int|
                        0 <= j2 < timelines@.len() && 0 <= i2 < timelines@[
                            j2
                        ].reservations@.len() implies (#[trigger] timelines@[
                        j2
                    ].reservations@[i2]).end as int + duration as int <= 0xFFFF_FFFF by {
                        assert(timelines@[j2].reservations@[i2].end as int <= 0x7FFF_FFFF
                            + sum_picked(ds, order@, q as int));
                    }
                    assert forall|j2: int|
                        0 <= j2 < timelines@.len() implies (#[trigger] timelines@[
                        j2
                    ]).reservations@.len() <= 0x7FFF_FFFF by {
                        assert(timelines@[j2].reservations@.len() as int <= picked_ints(
                            ncounts,
                            order@,
                            q as int,
                        ));
                        lemma_picked_ints_mono(ncounts, order@, q as int, q as int + 1);
                    }
                }
                if alap {
                    match find_latest_feasible_in_window(
                        template,
                        &timelines,
                        &caps,
                        needs,
                        &timed,
                        es_i,
                        ls_i,
                        duration,
                    ) {
                        Some(v) => {
                            fs = v;
                        }
                        None => {
                            let (f, b) = find_earliest_feasible(
                                template,
                                &timelines,
                                &caps,
                                needs,
                                &timed,
                                es_i,
                                duration,
                            );
                            fs = f;
                            blocker = b;
                        }
                    }
                } else {
                    let (f, b) = find_earliest_feasible(
                        template,
                        &timelines,
                        &caps,
                        needs,
                        &timed,
                        es_i,
                        duration,
                    );
                    fs = f;
                    blocker = b;
                }
            }

            // Past the float window: warn, naming the first blocking need.
            let ghost mut delay_widx: int = 0;
            let ghost mut delay_nj: int = 0;
            if fs > ls_i {
                // A start past the window can only come out of the
                // earliest-feasible search, after the early start itself
                // failed its capacity test: the blocker is always there.
                proof {
                    if timed@.len() == 0 {
                        assert(fs == start0);
                        assert(false);
                    }
                    assert(blocker is Some && blocker.unwrap() < timed@.len());
                }
                let bj = blocker.unwrap();
                let rname = display_name_exec(template, &needs[timed[bj]].resource_id);
                let m = msg_delayed_exec(template.steps[idx].title.as_str(), rname);
                proof {
                    delay_widx = warnings@.len() as int;
                    delay_nj = timed@[bj as int] as int;
                    assert(crate::validator::str_views(warnings@.push(m)).take(ow.len() as int)
                        =~= crate::validator::str_views(warnings@).take(ow.len() as int));
                    assert(is_step_warning(m@));
                    assert forall|widx: int|
                        ow.len() <= widx < warnings@.push(m).len() implies is_step_warning(
                        #[trigger] crate::validator::str_views(warnings@.push(m))[widx],
                    ) by {
                        if widx < warnings@.len() {
                            assert(crate::validator::str_views(warnings@.push(m))[widx]
                                == crate::validator::str_views(warnings@)[widx]);
                        } else {
                            assert(crate::validator::str_views(warnings@.push(m))[widx] == m@);
                        }
                    }
                    if consumable_demand_fits(t, eff) {
                        assert(is_delay_warning(m@)) by {
                            assert(m@ == msg_delayed(
                                template.steps@[idx as int].title@,
                                display_name(
                                    t,
                                    needs@[timed@[bj as int] as int].resource_id@,
                                ),
                            ));
                        }
                        assert forall|widx: int|
                            ow.len() <= widx < warnings@.push(m).len() implies is_delay_warning(
                            #[trigger] crate::validator::str_views(warnings@.push(m))[widx],
                        ) by {
                            if widx < warnings@.len() {
                                assert(crate::validator::str_views(warnings@.push(m))[widx]
                                    == crate::validator::str_views(warnings@)[widx]);
                            } else {
                                assert(crate::validator::str_views(warnings@.push(m))[widx]
                                    == m@);
                            }
                        }
                    }
                }
                warnings.push(m);
                proof {
                    assert(crate::validator::str_views(warnings@)[delay_widx] == m@);
                    assert(m@ == msg_delayed(
                        t.steps@[idx as int].title@,
                        display_name(
                            t,
                            t.steps@[idx as int].resource_needs@[delay_nj].resource_id@,
                        ),
                    ));
                    assert(0 <= delay_nj < t.steps@[idx as int].resource_needs@.len());
                }
            }

            // Commit: move the step, reserve timed needs, drain consumables.
            let ghost tls_search = timelines@;
            proof {
                if needs_fit_capacities(t, eff) && timed@.len() > 0 {
                    assert(timed_needs_fit(t, caps@, needs@, timed@)) by {
                        assert forall|j3: int| 0 <= j3 < timed@.len() implies {
                            let r = rep_idx(
                                t,
                                needs@[(#[trigger] timed@[j3]) as int].resource_id@,
                            );
                            if r >= 0 {
                                needs@[timed@[j3] as int].quantity <= caps@[r]
                            } else {
                                needs@[timed@[j3] as int].quantity == 0
                            }
                        } by {
                            let kk = timed@[j3] as int;
                            assert(0 <= kk < ncount);
                            crate::model::lemma_last_index_of(
                                resource_id_seq(t.resources@),
                                needs@[kk].resource_id@,
                            );
                            assert(is_timed_need(t, needs@[kk]));
                            assert(needs@[kk] == t.steps@[idx as int].resource_needs@[kk]);
                            let r = rep_idx(
                                t,
                                t.steps@[idx as int].resource_needs@[kk].resource_id@,
                            );
                            assert((r == -1 ==> t.steps@[idx as int].resource_needs@[
                                kk
                            ].quantity == 0) && (r >= 0 && t.resources@[r].kind
                                != ResourceKind::Consumable ==> t.steps@[
                                idx as int
                            ].resource_needs@[kk].quantity <= eff[r]));
                            if r >= 0 {
                                assert(t.resources@[r].kind != ResourceKind::Consumable);
                                assert(caps@[r] == eff[r]);
                                assert(needs@[kk].quantity <= caps@[r]);
                            } else {
                                assert(r == -1);
                                assert(needs@[kk].quantity == 0);
                            }
                        }
                    }
                    assert(slot_feasible(
                        t,
                        tls_search,
                        caps@,
                        needs@,
                        timed@,
                        fs as int,
                        duration as int,
                    ));
                }
                assert(fs as int <= 0x7FFF_FFFF + sum_picked(ds, order@, q as int)) by {
                    lemma_sum_picked_nonneg(ds, order@, q as int);
                    if fs as int > ls_i as int {
                        assert(is_reservation_end(t, timelines@, needs@, timed@, fs as int));
                        let (j2, i2) = choose|j2: int, i2: int|
                            0 <= j2 < timed@.len() && rep_idx(
                                t,
                                needs@[(#[trigger] timed@[j2]) as int].resource_id@,
                            ) >= 0 && 0 <= i2 < timelines@[rep_idx(
                                t,
                                needs@[timed@[j2] as int].resource_id@,
                            )].reservations@.len() && (#[trigger] timelines@[rep_idx(
                                t,
                                needs@[timed@[j2] as int].resource_id@,
                            )].reservations@[i2]).end as int == fs as int;
                        crate::model::lemma_last_index_of(
                            resource_id_seq(t.resources@),
                            needs@[timed@[j2] as int].resource_id@,
                        );
                        assert(rep_idx(t, needs@[timed@[j2] as int].resource_id@) < rcount as int);
                    }
                }
                assert(fs as int + duration as int <= 0x7FFF_FFFF + sum_picked(
                    ds,
                    order@,
                    q as int + 1,
                ));
                assert(fs as int + duration as int <= 0xFFFF_FFFE);
            }
            let newend = fs + duration;
            let mut assigned: Vec<AssignedResource> = Vec::new();
            let mut k: usize = 0;
            while k < ncount
                invariant
                    0 <= k <= ncount,
                    0 <= idx < n,
                    n == template.steps@.len(),
                    t == *template,
                    ds == durations(t),
                    ncounts == need_counts(t.steps@),
                    rcount == template.resources@.len(),
                    remaining@.len() == rcount,
                    timelines@.len() == rcount,
                    caps@.len() == rcount,
                    caps@ == eff,
                    solved_steps@.len() == n,
                    ncount == template.steps@[idx as int].resource_needs@.len(),
                    needs@ == template.steps@[idx as int].resource_needs@,
                    newend as int == fs as int + ds[idx as int],
                    newend as int <= 0x7FFF_FFFF + sum_picked(ds, order@, q as int + 1),
                    entries_match_upto(t, needs@, k as int, assigned@),
                    assigned@.len() == resolved_count(t, needs@, k as int),
                    forall|k2: int|
                        0 <= k2 < k && rep_idx(t, (#[trigger] needs@[k2]).resource_id@) >= 0
                            && t.resources@[rep_idx(t, needs@[k2].resource_id@)].kind
                            == ResourceKind::Consumable ==> {
                            let rep2 = rep_idx(t, needs@[k2].resource_id@);
                            let rem2 = crate::cpm::clamp0(
                                eff[rep2] as int - placed_demand(t, done, n as int, rep2)
                                    - step_need_qty(t, needs@, k2, rep2),
                            );
                            &&& 0 <= resolved_count(t, needs@, k2) < assigned@.len()
                            &&& assigned@[resolved_count(t, needs@, k2)].quantity_used as int
                                == (if needs@[k2].quantity as int <= rem2 {
                                needs@[k2].quantity as int
                            } else {
                                rem2
                            })
                        },
                    tls_search.len() == rcount,
                    forall|k2: int|
                        0 <= k2 < timed@.len() ==> is_timed_need(
                            t,
                            needs@[(#[trigger] timed@[k2]) as int],
                        ) && timed@[k2] < ncount,
                    forall|k2: usize|
                        k2 < ncount && is_timed_need(t, needs@[k2 as int])
                            ==> #[trigger] timed@.contains(k2),
                    needs_fit_capacities(t, eff) && timed@.len() > 0 ==> slot_feasible(
                        t,
                        tls_search,
                        caps@,
                        needs@,
                        timed@,
                        fs as int,
                        duration as int,
                    ),
                    duration as int == ds[idx as int],
                    forall|j2: int|
                        0 <= j2 < rcount && (forall|k2: int|
                            0 <= k2 < k ==> rep_idx(
                                t,
                                (#[trigger] needs@[k2]).resource_id@,
                            ) != j2) ==> #[trigger] timelines@[j2] == tls_search[j2],
                    forall|j2: int, x: int|
                        0 <= j2 < rcount && t.resources@[j2].kind != ResourceKind::Consumable
                            ==> #[trigger] usage_at(timelines@[j2].reservations@, x) == usage_at(
                            tls_search[j2].reservations@,
                            x,
                        ) + (if fs as int <= x < newend as int {
                            step_need_qty(t, needs@, k as int, j2)
                        } else {
                            0
                        }),
                    needs_fit_capacities(t, eff) ==> forall|j2: int, x: int|
                        0 <= j2 < rcount ==> #[trigger] usage_at(timelines@[j2].reservations@, x)
                            <= caps@[j2] as int,
                    forall|j2: int|
                        0 <= j2 < rcount && (#[trigger] t.resources@[j2]).kind
                            == ResourceKind::Consumable && rep_idx(t, t.resources@[j2].id@) == j2
                            ==> remaining@[j2] as int == eff[j2] as int - assigned_used(
                            solved_steps@,
                            t.resources@[j2].id@,
                        ) - entries_used(assigned@, t.resources@[j2].id@),
                    forall|j2: int|
                        0 <= j2 < rcount && (#[trigger] t.resources@[j2]).kind
                            == ResourceKind::Consumable && rep_idx(t, t.resources@[j2].id@) == j2
                            ==> remaining@[j2] as int == crate::cpm::clamp0(
                            eff[j2] as int - placed_demand(t, done, n as int, j2)
                                - step_need_qty(t, needs@, k as int, j2),
                        ),
                    forall|j2: int|
                        0 <= j2 < rcount ==> (#[trigger] timelines@[j2]).reservations@.len() as int
                            <= picked_ints(ncounts, order@, q as int) + k,
                    picked_ints(ncounts, order@, q as int) + ncount == picked_ints(
                        ncounts,
                        order@,
                        q as int + 1,
                    ),
                    forall|j2: int, i2: int|
                        0 <= j2 < rcount && 0 <= i2 < timelines@[j2].reservations@.len() ==> (
                        #[trigger] timelines@[j2].reservations@[i2]).end as int <= 0x7FFF_FFFF
                            + sum_picked(ds, order@, q as int + 1),
                decreases ncount - k,
            {
                let need = &needs[k];
                match crate::model::find_resource_index_last(
                    &template.resources,
                    &need.resource_id,
                ) {
                    Some(rep) => {
                        proof {
                            crate::model::lemma_last_index_of(
                                resource_id_seq(template.resources@),
                                need.resource_id@,
                            );
                        }
                        let is_cons = match template.resources[rep].kind {
                            ResourceKind::Consumable => true,
                            _ => false,
                        };
                        if is_cons {
                            let rem = remaining[rep];
                            let used = if need.quantity < rem {
                                need.quantity
                            } else {
                                rem
                            };
                            let ghost assigned_old = assigned@;
                            remaining.set(rep, rem - used);
                            assigned.push(
                                AssignedResource {
                                    resource_id: need.resource_id.clone(),
                                    quantity_used: used,
                                },
                            );
                            proof {
                                assert(t.resources@[rep as int].id@ == need.resource_id@);
                                assert(assigned@.drop_last() =~= assigned_old);
                                assert(assigned@[assigned@.len() - 1].resource_id@
                                    == need.resource_id@);
                                assert(entries_match_upto(t, needs@, k as int + 1, assigned@));
                                assert forall|j2: int, x: int|
                                    0 <= j2 < rcount && t.resources@[j2].kind
                                        != ResourceKind::Consumable implies #[trigger] usage_at(
                                    timelines@[j2].reservations@,
                                    x,
                                ) == usage_at(tls_search[j2].reservations@, x) + (
                                if fs as int <= x < newend as int {
                                    step_need_qty(t, needs@, k as int + 1, j2)
                                } else {
                                    0
                                }) by {
                                    assert(rep_idx(t, needs@[k as int].resource_id@)
                                        == rep as int);
                                    assert(t.resources@[rep as int].kind
                                        == ResourceKind::Consumable);
                                    assert(rep_idx(t, needs@[k as int].resource_id@) != j2);
                                }
                                assert forall|j2: int|
                                    0 <= j2 < rcount && (#[trigger] t.resources@[j2]).kind
                                        == ResourceKind::Consumable && rep_idx(
                                        t,
                                        t.resources@[j2].id@,
                                    ) == j2 implies remaining@[j2] as int
                                    == crate::cpm::clamp0(
                                    eff[j2] as int - placed_demand(t, done, n as int, j2)
                                        - step_need_qty(t, needs@, k as int + 1, j2),
                                ) by {
                                    if j2 == rep as int {
                                        assert(rep_idx(t, needs@[k as int].resource_id@)
                                            == j2);
                                    } else {
                                        assert(rep_idx(t, needs@[k as int].resource_id@)
                                            != j2) by {
                                            if rep_idx(t, needs@[k as int].resource_id@)
                                                == j2 {
                                                assert(rep_idx(t, t.resources@[j2].id@)
                                                    == rep as int);
                                                assert(false);
                                            }
                                        }
                                    }
                                }
                                assert forall|j2: int|
                                    0 <= j2 < rcount && (#[trigger] t.resources@[j2]).kind
                                        == ResourceKind::Consumable && rep_idx(
                                        t,
                                        t.resources@[j2].id@,
                                    ) == j2 implies remaining@[j2] as int == eff[j2] as int
                                    - assigned_used(solved_steps@, t.resources@[j2].id@)
                                    - entries_used(assigned@, t.resources@[j2].id@) by {
                                    assert(assigned@.drop_last() =~= assigned_old);
                                    assert(assigned@[assigned@.len() - 1].resource_id@
                                        == need.resource_id@);
                                    assert(entries_used(assigned@, t.resources@[j2].id@)
                                        == entries_used(assigned_old, t.resources@[j2].id@) + (
                                    if need.resource_id@ == t.resources@[j2].id@ {
                                        used as int
                                    } else {
                                        0
                                    }));
                                    if j2 != rep as int {
                                        if t.resources@[j2].id@ == need.resource_id@ {
                                            assert(rep_idx(t, t.resources@[j2].id@)
                                                == rep as int);
                                            assert(false);
                                        }
                                    }
                                }
                            }
                        } else {
                            let ghost assigned_old = assigned@;
                            let ghost tls_old = timelines@;
                            timelines[rep].reserve(fs, newend, need.quantity);
                            assigned.push(
                                AssignedResource {
                                    resource_id: need.resource_id.clone(),
                                    quantity_used: need.quantity,
                                },
                            );
                            proof {
                                let res = Reservation {
                                    start: fs,
                                    end: newend,
                                    quantity: need.quantity,
                                };
                                assert(timelines@[rep as int].reservations@ == tls_old[
                                    rep as int
                                ].reservations@.push(res));
                                assert forall|j2: int, x: int|
                                    0 <= j2 < rcount && t.resources@[j2].kind
                                        != ResourceKind::Consumable implies #[trigger] usage_at(
                                    timelines@[j2].reservations@,
                                    x,
                                ) == usage_at(tls_search[j2].reservations@, x) + (
                                if fs as int <= x < newend as int {
                                    step_need_qty(t, needs@, k as int + 1, j2)
                                } else {
                                    0
                                }) by {
                                    if j2 == rep as int {
                                        lemma_usage_at_push(
                                            tls_old[j2].reservations@,
                                            res,
                                            x,
                                        );
                                    } else {
                                        assert(timelines@[j2] == tls_old[j2]);
                                        assert(rep_idx(t, needs@[k as int].resource_id@) != j2);
                                    }
                                }
                                if needs_fit_capacities(t, eff) {
                                    assert(is_timed_need(t, needs@[k as int]));
                                    assert(timed@.contains(k as usize));
                                    let jt = choose|jt: int|
                                        0 <= jt < timed@.len() && timed@[jt] == k as usize;
                                    assert(need_ok(
                                        t,
                                        tls_search,
                                        caps@,
                                        needs@[timed@[jt] as int],
                                        fs as int,
                                        duration as int,
                                    ));
                                    assert forall|k2: int|
                                        0 <= k2 < k implies rep_idx(
                                        t,
                                        (#[trigger] needs@[k2]).resource_id@,
                                    ) != rep as int by {
                                        assert(needs@[k2] == t.steps@[
                                            idx as int
                                        ].resource_needs@[k2]);
                                        assert(needs@[k as int] == t.steps@[
                                            idx as int
                                        ].resource_needs@[k as int]);
                                        if rep_idx(t, needs@[k2].resource_id@) >= 0 {
                                            assert(rep_idx(t, needs@[k2].resource_id@)
                                                != rep_idx(
                                                t,
                                                needs@[k as int].resource_id@,
                                            ));
                                        }
                                    }
                                    assert(tls_old[rep as int] == tls_search[rep as int]);
                                    assert(range_used(
                                        tls_old[rep as int].reservations@,
                                        fs as int,
                                        newend as int,
                                    ) + need.quantity <= caps@[rep as int]);
                                    assert forall|j2: int, x: int|
                                        0 <= j2 < rcount implies #[trigger] usage_at(
                                        timelines@[j2].reservations@,
                                        x,
                                    ) <= caps@[j2] as int by {
                                        if j2 == rep as int {
                                            lemma_reserve_keeps_instant_capacity(
                                                tls_old[j2].reservations@,
                                                res,
                                                caps@[j2],
                                                x,
                                            );
                                        } else {
                                            assert(timelines@[j2] == tls_old[j2]);
                                        }
                                    }
                                }
                                assert(t.resources@[rep as int].id@ == need.resource_id@);
                                assert(assigned@.drop_last() =~= assigned_old);
                                assert(assigned@[assigned@.len() - 1].resource_id@
                                    == need.resource_id@);
                                assert(entries_match_upto(t, needs@, k as int + 1, assigned@));
                                assert forall|j2: int|
                                    0 <= j2 < rcount && (#[trigger] t.resources@[j2]).kind
                                        == ResourceKind::Consumable && rep_idx(
                                        t,
                                        t.resources@[j2].id@,
                                    ) == j2 implies remaining@[j2] as int == eff[j2] as int
                                    - assigned_used(solved_steps@, t.resources@[j2].id@)
                                    - entries_used(assigned@, t.resources@[j2].id@) by {
                                    assert(assigned@.drop_last() =~= assigned_old);
                                    assert(assigned@[assigned@.len() - 1].resource_id@
                                        == need.resource_id@);
                                    if t.resources@[j2].id@ == need.resource_id@ {
                                        assert(rep_idx(t, t.resources@[j2].id@) == rep as int);
                                        assert(t.resources@[rep as int].kind
                                            != ResourceKind::Consumable);
                                        assert(false);
                                    }
                                    assert(entries_used(assigned@, t.resources@[j2].id@)
                                        == entries_used(assigned_old, t.resources@[j2].id@));
                                }
                                assert forall|j2: int|
                                    0 <= j2 < rcount && (#[trigger] t.resources@[j2]).kind
                                        == ResourceKind::Consumable && rep_idx(
                                        t,
                                        t.resources@[j2].id@,
                                    ) == j2 implies remaining@[j2] as int
                                    == crate::cpm::clamp0(
                                    eff[j2] as int - placed_demand(t, done, n as int, j2)
                                        - step_need_qty(t, needs@, k as int + 1, j2),
                                ) by {
                                    assert(rep_idx(t, needs@[k as int].resource_id@)
                                        == rep as int);
                                    assert(rep_idx(t, needs@[k as int].resource_id@) != j2) by {
                                        if rep_idx(t, needs@[k as int].resource_id@) == j2 {
                                            assert(t.resources@[j2].kind
                                                != ResourceKind::Consumable);
                                        }
                                    }
                                }
                            }
                        }
                    }
                    None => {
                        proof {
                            crate::model::lemma_last_index_of(
                                resource_id_seq(t.resources@),
                                need.resource_id@,
                            );
                            assert(rep_idx(t, needs@[k as int].resource_id@) == -1);
                            assert(entries_match_upto(t, needs@, k as int + 1, assigned@));
                            assert forall|j2: int|
                                0 <= j2 < rcount && (#[trigger] t.resources@[j2]).kind
                                    == ResourceKind::Consumable && rep_idx(
                                    t,
                                    t.resources@[j2].id@,
                                ) == j2 implies remaining@[j2] as int == crate::cpm::clamp0(
                                eff[j2] as int - placed_demand(t, done, n as int, j2)
                                    - step_need_qty(t, needs@, k as int + 1, j2),
                            ) by {
                                assert(rep_idx(t, needs@[k as int].resource_id@) != j2);
                            }
                            assert forall|j2: int, x: int|
                                0 <= j2 < rcount && t.resources@[j2].kind
                                    != ResourceKind::Consumable implies #[trigger] usage_at(
                                timelines@[j2].reservations@,
                                x,
                            ) == usage_at(tls_search[j2].reservations@, x) + (
                            if fs as int <= x < newend as int {
                                step_need_qty(t, needs@, k as int + 1, j2)
                            } else {
                                0
                            }) by {
                                assert(rep_idx(t, needs@[k as int].resource_id@) != j2);
                            }
                        }
                    }
                }
                k = k + 1;
            }

            // Write the shifted step back.
            let new_st = SolvedStep {
                step_id: solved_steps[idx].step_id.clone(),
                start_offset_mins: fs,
                end_offset_mins: newend,
                start_time: clone_opt_string(&solved_steps[idx].start_time),
                end_time: clone_opt_string(&solved_steps[idx].end_time),
                assigned_resources: assigned,
                total_float_mins: solved_steps[idx].total_float_mins,
                is_critical: solved_steps[idx].is_critical,
            };
            let ghost steps_before = solved_steps@;
            let ghost new_st_g = new_st;
            solved_steps.set(idx, new_st);
            proof {
                assert forall|j2: int|
                    0 <= j2 < rcount && (#[trigger] t.resources@[j2]).kind
                        == ResourceKind::Consumable && rep_idx(t, t.resources@[j2].id@) == j2
                    implies remaining@[j2] as int == eff[j2] as int - assigned_used(
                    solved_steps@,
                    t.resources@[j2].id@,
                ) by {
                    lemma_assigned_used_update(
                        steps_before,
                        idx as int,
                        new_st_g,
                        t.resources@[j2].id@,
                    );
                    assert(steps_before[idx as int].assigned_resources@.len() == 0);
                }
                let done_old = done;
                done = done.update(idx as int, true);
                assert forall|j2: int|
                    0 <= j2 < rcount && (#[trigger] t.resources@[j2]).kind
                        == ResourceKind::Consumable && rep_idx(t, t.resources@[j2].id@) == j2
                    implies remaining@[j2] as int == crate::cpm::clamp0(
                    eff[j2] as int - placed_demand(t, done, n as int, j2),
                ) by {
                    lemma_placed_demand_mark_done(t, done_old, n as int, idx as int, j2);
                }
                assert forall|j2: int, x: int|
                    0 <= j2 < rcount && t.resources@[j2].kind != ResourceKind::Consumable
                    implies #[trigger] usage_at(timelines@[j2].reservations@, x)
                    == placed_usage_at(t, solved_steps@, done, n as int, j2, x) by {
                    assert(usage_at(timelines@[j2].reservations@, x) == usage_at(
                        tls_search[j2].reservations@,
                        x,
                    ) + (if fs as int <= x < newend as int {
                        step_need_qty(t, needs@, ncount as int, j2)
                    } else {
                        0
                    }));
                    assert(usage_at(tls_search[j2].reservations@, x) == placed_usage_at(
                        t,
                        steps_before,
                        done_old,
                        n as int,
                        j2,
                        x,
                    ));
                    lemma_placed_usage_step_update(
                        t,
                        steps_before,
                        done_old,
                        n as int,
                        idx as int,
                        new_st_g,
                        j2,
                        x,
                    );
                    lemma_placed_usage_mark_done(
                        t,
                        solved_steps@,
                        done_old,
                        n as int,
                        idx as int,
                        j2,
                        x,
                    );
                    assert(step_timed_usage(t, new_st_g, idx as int, j2, x) == (
                    if fs as int <= x < newend as int {
                        step_need_qty(t, needs@, ncount as int, j2)
                    } else {
                        0
                    }));
                }
                assert forall|widx: int|
                    ow.len() <= widx < warnings@.len() implies is_shortage_warning(
                    #[trigger] crate::validator::str_views(warnings@)[widx],
                ) || (exists|p: int|
                    0 <= p < q + 1 && solved_steps@[(#[trigger] order@[p]) as int].start_offset_mins
                        > late_starts@[order@[p] as int]) by {
                    if fs > ls_i {
                        assert(order@[q as int] as int == idx as int);
                        assert(solved_steps@[order@[q as int] as int].start_offset_mins
                            > late_starts@[order@[q as int] as int]);
                    }
                }
                lemma_done_is_hp(t, crit0, early_starts@, order@, done_old, q as int, idx as int);
                assert forall|p: int, k2: int|
                    #![trigger order@[p], t.steps@[order@[p] as int].resource_needs@[k2]]
                    0 <= p < q + 1 && 0 <= k2 < t.steps@[order@[p] as int].resource_needs@.len()
                        && rep_idx(
                        t,
                        t.steps@[order@[p] as int].resource_needs@[k2].resource_id@,
                    ) >= 0 && t.resources@[rep_idx(
                        t,
                        t.steps@[order@[p] as int].resource_needs@[k2].resource_id@,
                    )].kind == ResourceKind::Consumable implies consumable_entry_exact(
                    t,
                    crit0,
                    early_starts@,
                    eff,
                    order@[p] as int,
                    k2,
                    solved_steps@[order@[p] as int].assigned_resources@,
                ) by {
                    if p == q as int {
                        let rep2 = rep_idx(t, needs@[k2].resource_id@);
                        assert(needs@[k2] == t.steps@[idx as int].resource_needs@[k2]);
                        lemma_placed_demand_done_agree(
                            t,
                            done_old,
                            hp_flags(t, crit0, early_starts@, idx as int),
                            n as int,
                            rep2,
                        );
                        assert(placed_demand(t, done_old, n as int, rep2) == hp_demand(
                            t,
                            crit0,
                            early_starts@,
                            idx as int,
                            rep2,
                        ));
                        assert(solved_steps@[idx as int].assigned_resources@
                            == new_st_g.assigned_resources@);
                    } else {
                        assert(order@[p] != order@[q as int]);
                    }
                }
                assert forall|p: int|
                    0 <= p < q + 1 && (forall|k2: int|
                        0 <= k2 < t.steps@[order@[p] as int].resource_needs@.len()
                            ==> !is_timed_need(
                            t,
                            #[trigger] t.steps@[order@[p] as int].resource_needs@[k2],
                        )) implies solved_steps@[(#[trigger] order@[p]) as int].start_offset_mins
                    == input_steps[order@[p] as int].start_offset_mins by {
                    if p == q as int {
                        if timed@.len() > 0 {
                            assert(is_timed_need(t, needs@[timed@[0] as int]));
                            assert(0 <= timed@[0] < t.steps@[idx as int].resource_needs@.len());
                        } else {
                            assert(fs == start0);
                        }
                    } else {
                        assert(order@[p] != order@[q as int]);
                    }
                }
                assert forall|p: int|
                    0 <= p < q + 1 implies entries_match_upto(
                    t,
                    t.steps@[order@[p] as int].resource_needs@,
                    t.steps@[order@[p] as int].resource_needs@.len() as int,
                    solved_steps@[(#[trigger] order@[p]) as int].assigned_resources@,
                ) by {
                    if p < q as int {
                        assert(order@[p] != order@[q as int]);
                    } else {
                        assert(solved_steps@[idx as int].assigned_resources@ == new_st_g.assigned_resources@);
                    }
                }
                assert forall|p: int|
                    0 <= p < q + 1 && solved_steps@[(#[trigger] order@[p]) as int].start_offset_mins
                        > late_starts@[order@[p] as int] implies exists|widx: int, nj: int|
                    {
                        &&& ow.len() <= widx < warnings@.len()
                        &&& 0 <= nj < t.steps@[order@[p] as int].resource_needs@.len()
                        &&& (#[trigger] crate::validator::str_views(warnings@)[widx])
                            == msg_delayed(
                            t.steps@[order@[p] as int].title@,
                            display_name(
                                t,
                                (#[trigger] t.steps@[order@[p] as int].resource_needs@[
                                    nj
                                ]).resource_id@,
                            ),
                        )
                    } by {
                    if p == q as int {
                        assert(fs > ls_i);
                        assert(crate::validator::str_views(warnings@)[delay_widx] == msg_delayed(
                            t.steps@[idx as int].title@,
                            display_name(
                                t,
                                t.steps@[idx as int].resource_needs@[delay_nj].resource_id@,
                            ),
                        ));
                        assert(ow.len() <= delay_widx < warnings@.len());
                    } else {
                        assert(order@[p] != order@[q as int]);
                        let (widx0, nj0) = choose|widx0: int, nj0: int|
                            {
                                &&& ow.len() <= widx0 < warn0.len()
                                &&& 0 <= nj0 < t.steps@[order@[p] as int].resource_needs@.len()
                                &&& (#[trigger] crate::validator::str_views(warn0)[widx0])
                                    == msg_delayed(
                                    t.steps@[order@[p] as int].title@,
                                    display_name(
                                        t,
                                        (#[trigger] t.steps@[order@[p] as int].resource_needs@[
                                            nj0
                                        ]).resource_id@,
                                    ),
                                )
                            };
                        assert(warnings@[widx0] == warn0[widx0]);
                        assert(crate::validator::str_views(warnings@)[widx0]
                            == crate::validator::str_views(warn0)[widx0]);
                    }
                }
            }
        } else {
            proof {
                let ghost done_old = done;
                done = done.update(idx as int, true);
                assert forall|j2: int|
                    0 <= j2 < rcount && (#[trigger] t.resources@[j2]).kind
                        == ResourceKind::Consumable && rep_idx(t, t.resources@[j2].id@) == j2
                    implies remaining@[j2] as int == crate::cpm::clamp0(
                    eff[j2] as int - placed_demand(t, done, n as int, j2),
                ) by {
                    lemma_placed_demand_mark_done(t, done_old, n as int, idx as int, j2);
                    lemma_step_need_qty_zero(
                        t,
                        t.steps@[idx as int].resource_needs@,
                        t.steps@[idx as int].resource_needs@.len() as int,
                        j2,
                    );
                }
                assert forall|j2: int, x: int|
                    0 <= j2 < rcount && t.resources@[j2].kind != ResourceKind::Consumable
                    implies #[trigger] usage_at(timelines@[j2].reservations@, x)
                    == placed_usage_at(t, solved_steps@, done, n as int, j2, x) by {
                    lemma_placed_usage_mark_done(
                        t,
                        solved_steps@,
                        done_old,
                        n as int,
                        idx as int,
                        j2,
                        x,
                    );
                    lemma_step_need_qty_zero(
                        t,
                        t.steps@[idx as int].resource_needs@,
                        t.steps@[idx as int].resource_needs@.len() as int,
                        j2,
                    );
                    assert(step_timed_usage(t, solved_steps@[idx as int], idx as int, j2, x)
                        == 0);
                }
            }
        }
        q = q + 1;
    }
    proof {
        assert forall|j2: int|
            0 <= j2 < template.resources@.len() && (#[trigger] template.resources@[j2]).kind
                == ResourceKind::Consumable && rep_idx(t, template.resources@[j2].id@) == j2
            implies assigned_used(solved_steps@, template.resources@[j2].id@) <= eff[
            j2
        ] as int by {}
        assert forall|i: int| 0 <= i < n implies entries_match_upto(
            t,
            t.steps@[i].resource_needs@,
            t.steps@[i].resource_needs@.len() as int,
            (#[trigger] solved_steps@[i]).assigned_resources@,
        ) by {
            assert(order@.contains(i as usize));
            let p = choose|p: int| 0 <= p < order@.len() && order@[p] == i as usize;
            assert(entries_match_upto(
                t,
                t.steps@[order@[p] as int].resource_needs@,
                t.steps@[order@[p] as int].resource_needs@.len() as int,
                solved_steps@[order@[p] as int].assigned_resources@,
            ));
        }
        assert forall|j2: int|
            0 <= j2 < rcount && (#[trigger] t.resources@[j2]).kind == ResourceKind::Consumable
                && rep_idx(t, t.resources@[j2].id@) == j2 implies assigned_used(
            solved_steps@,
            t.resources@[j2].id@,
        ) == (if template_demand(t, n as int, j2) <= eff[j2] as int {
            template_demand(t, n as int, j2)
        } else {
            eff[j2] as int
        }) by {
            assert forall|i2: int| 0 <= i2 < n implies done[i2] by {
                assert(order@.contains(i2 as usize));
                let p = choose|p: int| 0 <= p < order@.len() && order@[p] == i2 as usize;
                assert(done[(order@[p]) as int]);
            }
            lemma_placed_demand_all_done(t, done, n as int, j2);
            assert(remaining@[j2] as int == eff[j2] as int - assigned_used(
                solved_steps@,
                t.resources@[j2].id@,
            ));
            assert(remaining@[j2] as int == crate::cpm::clamp0(
                eff[j2] as int - template_demand(t, n as int, j2),
            ));
        }
        if needs_fit_capacities(t, eff) {
            assert forall|i2: int| 0 <= i2 < n implies done[i2] by {
                assert(order@.contains(i2 as usize));
                let p = choose|p: int| 0 <= p < order@.len() && order@[p] == i2 as usize;
                assert(done[(order@[p]) as int]);
            }
            assert forall|j2: int, x: int|
                0 <= j2 < rcount && t.resources@[j2].kind != ResourceKind::Consumable && rep_idx(
                    t,
                    t.resources@[j2].id@,
                ) == j2 implies #[trigger] steps_usage_at(t, solved_steps@, n as int, j2, x)
                <= eff[j2] as int by {
                lemma_placed_usage_all_done(t, solved_steps@, done, n as int, j2, x);
                assert(usage_at(timelines@[j2].reservations@, x) <= caps@[j2] as int);
            }
        }
        assert forall|i: int|
            0 <= i < n && (forall|k: int|
                0 <= k < t.steps@[i].resource_needs@.len() ==> !is_timed_need(
                    t,
                    #[trigger] t.steps@[i].resource_needs@[k],
                )) implies (#[trigger] solved_steps@[i]).start_offset_mins == input_steps[
            i
        ].start_offset_mins by {
            assert(order@.contains(i as usize));
            let p = choose|p: int| 0 <= p < order@.len() && order@[p] == i as usize;
        }
        if forall|i: int|
            0 <= i < n ==> (#[trigger] solved_steps@[i]).start_offset_mins <= late_starts@[i] {
            assert forall|widx: int|
                ow.len() <= widx < warnings@.len() implies is_shortage_warning(
                #[trigger] crate::validator::str_views(warnings@)[widx],
            ) by {
                if !is_shortage_warning(crate::validator::str_views(warnings@)[widx]) {
                    let p = choose|p: int|
                        0 <= p < q && solved_steps@[(#[trigger] order@[p]) as int].start_offset_mins
                            > late_starts@[order@[p] as int];
                    assert(solved_steps@[order@[p] as int].start_offset_mins <= late_starts@[
                        order@[p] as int
                    ]);
                }
            }
        }
        assert forall|i: int, k: int|
            #![trigger t.steps@[i].resource_needs@[k]]
            0 <= i < n && 0 <= k < t.steps@[i].resource_needs@.len() && rep_idx(
                t,
                t.steps@[i].resource_needs@[k].resource_id@,
            ) >= 0 && t.resources@[rep_idx(
                t,
                t.steps@[i].resource_needs@[k].resource_id@,
            )].kind == ResourceKind::Consumable implies consumable_entry_exact(
            t,
            crit0,
            early_starts@,
            eff,
            i,
            k,
            solved_steps@[i].assigned_resources@,
        ) by {
            assert(order@.contains(i as usize));
            let p = choose|p: int| 0 <= p < order@.len() && order@[p] == i as usize;
            assert(consumable_entry_exact(
                t,
                crit0,
                early_starts@,
                eff,
                order@[p] as int,
                k,
                solved_steps@[order@[p] as int].assigned_resources@,
            ));
        }
        assert forall|i: int|
            0 <= i < n && (#[trigger] solved_steps@[i]).start_offset_mins > late_starts@[i]
            implies exists|widx: int, nj: int|
            {
                &&& ow.len() <= widx < warnings@.len()
                &&& 0 <= nj < t.steps@[i].resource_needs@.len()
                &&& (#[trigger] crate::validator::str_views(warnings@)[widx]) == msg_delayed(
                    t.steps@[i].title@,
                    display_name(t, (#[trigger] t.steps@[i].resource_needs@[nj]).resource_id@),
                )
            } by {
            assert(order@.contains(i as usize));
            let p = choose|p: int| 0 <= p < order@.len() && order@[p] == i as usize;
            assert(solved_steps@[order@[p] as int].start_offset_mins > late_starts@[order@[
                p
            ] as int]);
        }
    }
    warnings
}

/// The summed quantity of the reservations covering the instant `x`.
pub open spec fn usage_at(rs: Seq<Reservation>, x: int) -> int
    decreases rs.len(),
{
    if rs.len() == 0 {
        0
    } else {
        usage_at(rs.drop_last(), x) + (if rs[rs.len() - 1].start <= x && x < rs[rs.len()
            - 1].end {
            rs[rs.len() - 1].quantity as int
        } else {
            0
        })
    }
}


proof fn lemma_usage_at_push(rs: Seq<Reservation>, res: Reservation, x: int)
    ensures
        usage_at(rs.push(res), x) == usage_at(rs, x) + (if res.start as int <= x < res.end as int {
            res.quantity as int
        } else {
            0
        }),
{
    assert(rs.push(res).drop_last() =~= rs);
}

/// An instant inside a range is covered by no more than the range: every
/// reservation covering `x` also overlaps `[a, b)` when `a <= x < b`.
pub proof fn lemma_usage_at_within_range(rs: Seq<Reservation>, a: int, b: int, x: int)
    requires
        a <= x < b,
    ensures
        usage_at(rs, x) <= range_used(rs, a, b),
    decreases rs.len(),
{
    if rs.len() > 0 {
        lemma_usage_at_within_range(rs.drop_last(), a, b, x);
    }
}

/// The capacity law behind the allocator's feasibility test: when a
/// timeline keeps every instant within capacity and a new reservation
/// passes the range test — the usage overlapping its whole interval plus
/// its own quantity stays within capacity — then after appending it every
/// instant still stays within capacity.
pub proof fn lemma_reserve_keeps_instant_capacity(
    rs: Seq<Reservation>,
    res: Reservation,
    cap: u32,
    x: int,
)
    requires
        range_used(rs, res.start as int, res.end as int) + res.quantity <= cap,
        usage_at(rs, x) <= cap,
    ensures
        usage_at(rs.push(res), x) <= cap,
{
    assert(rs.push(res).drop_last() =~= rs);
    if res.start as int <= x < res.end as int {
        lemma_usage_at_within_range(rs, res.start as int, res.end as int, x);
        lemma_range_used_nonneg(rs, res.start as int, res.end as int);
    }
}

} // verus!
