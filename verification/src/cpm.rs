//! The critical-path pass: a forward sweep over the dependency graph in
//! topological order assigns each step its early start, a backward sweep
//! assigns its late finish, and the two give float, criticality and the
//! initial placement that the allocator then works from.

use vstd::prelude::*;

use crate::graph::{dep_edges, DepEdge};
use crate::model::{DependencyType, ScheduleTemplate, SolvedStep, Step, TimingPolicy};
use crate::solver::SolveError;

verus! {

/// The durations of a sequence of steps, in order.
pub open spec fn durs_of(steps: Seq<Step>) -> Seq<u32> {
    steps.map(|_i: int, s: Step| s.duration_mins)
}

/// The durations of a template's steps, in step order.
pub open spec fn durations(t: ScheduleTemplate) -> Seq<u32> {
    durs_of(t.steps@)
}

/// A sequence of unsigned values as mathematical integers.
pub open spec fn to_ints(s: Seq<u32>) -> Seq<int> {
    s.map(|_i: int, x: u32| x as int)
}

/// A sequence of signed machine values as mathematical integers.
pub open spec fn to_ints64(s: Seq<i64>) -> Seq<int> {
    s.map(|_i: int, x: i64| x as int)
}

/// The sum of a sequence of durations.
pub open spec fn sum_durs(ds: Seq<u32>) -> int
    decreases ds.len(),
{
    if ds.len() == 0 {
        0
    } else {
        sum_durs(ds.drop_last()) + ds[ds.len() - 1]
    }
}

/// The sum of the durations picked by the first `k` entries of `order`.
pub open spec fn sum_picked(ds: Seq<u32>, order: Seq<usize>, k: int) -> int
    decreases k,
{
    if k <= 0 {
        0
    } else {
        sum_picked(ds, order, k - 1) + ds[order[k - 1] as int]
    }
}

pub proof fn lemma_sum_durs_nonneg(ds: Seq<u32>)
    ensures
        sum_durs(ds) >= 0,
    decreases ds.len(),
{
    if ds.len() > 0 {
        lemma_sum_durs_nonneg(ds.drop_last());
    }
}

pub proof fn lemma_sum_durs_update_zero(ds: Seq<u32>, j: int)
    requires
        0 <= j < ds.len(),
    ensures
        sum_durs(ds.update(j, 0u32)) == sum_durs(ds) - ds[j],
    decreases ds.len(),
{
    if j == ds.len() - 1 {
        assert(ds.update(j, 0u32).drop_last() =~= ds.drop_last());
    } else {
        lemma_sum_durs_update_zero(ds.drop_last(), j);
        assert(ds.update(j, 0u32).drop_last() =~= ds.drop_last().update(j, 0u32));
    }
}

pub proof fn lemma_sum_picked_nonneg(ds: Seq<u32>, order: Seq<usize>, k: int)
    ensures
        sum_picked(ds, order, k) >= 0,
    decreases k,
{
    if k > 0 {
        lemma_sum_picked_nonneg(ds, order, k - 1);
    }
}

pub proof fn lemma_sum_picked_mono(ds: Seq<u32>, order: Seq<usize>, k1: int, k2: int)
    requires
        0 <= k1 <= k2,
    ensures
        sum_picked(ds, order, k1) <= sum_picked(ds, order, k2),
    decreases k2 - k1,
{
    if k1 < k2 {
        lemma_sum_picked_mono(ds, order, k1, k2 - 1);
    }
}

pub proof fn lemma_sum_picked_update_disjoint(ds: Seq<u32>, order: Seq<usize>, k: int, j: int)
    requires
        forall|i: int| 0 <= i < k ==> (#[trigger] order[i]) as int != j,
        forall|i: int| 0 <= i < k ==> (#[trigger] order[i]) < ds.len(),
        0 <= j < ds.len(),
    ensures
        sum_picked(ds.update(j, 0u32), order, k) == sum_picked(ds, order, k),
    decreases k,
{
    if k > 0 {
        lemma_sum_picked_update_disjoint(ds, order, k - 1, j);
    }
}

/// Distinct picks never sum past the whole: the durations selected by the
/// first `k` entries of an injective order are at most the total.
pub proof fn lemma_sum_picked_bound(ds: Seq<u32>, order: Seq<usize>, k: int)
    requires
        forall|i: int| 0 <= i < k ==> (#[trigger] order[i]) < ds.len(),
        forall|i: int, i2: int| 0 <= i < i2 < k ==> order[i] != order[i2],
        k >= 0,
    ensures
        sum_picked(ds, order, k) <= sum_durs(ds),
    decreases k,
{
    if k == 0 {
        lemma_sum_durs_nonneg(ds);
    } else {
        let j = order[k - 1] as int;
        let ds2 = ds.update(j, 0u32);
        lemma_sum_picked_update_disjoint(ds, order, k - 1, j);
        lemma_sum_picked_bound(ds2, order, k - 1);
        lemma_sum_durs_update_zero(ds, j);
    }
}

/// Whether `order` and `pos` are mutually inverse permutations of the step
/// indices that place every edge's predecessor before its successor.
pub open spec fn order_valid(n: int, edges: Seq<DepEdge>, order: Seq<usize>, pos: Seq<usize>) -> bool {
    &&& order.len() == n
    &&& pos.len() == n
    &&& forall|i: int| 0 <= i < n ==> (#[trigger] order[i]) < n
    &&& forall|v: int| 0 <= v < n ==> (#[trigger] pos[v]) < n
    &&& forall|v: int| 0 <= v < n ==> order[(#[trigger] pos[v]) as int] as int == v
    &&& forall|i: int| 0 <= i < n ==> pos[(#[trigger] order[i]) as int] as int == i
    &&& forall|k: int|
        0 <= k < edges.len() ==> pos[(#[trigger] edges[k]).pred as int]
            < pos[edges[k].succ as int]
}

/// Inverts a topological order into a position table and establishes
/// `order_valid` from the facts `topological_order` gives.
fn build_positions(steps: &Vec<Step>, edges: &Vec<DepEdge>, order: &Vec<usize>) -> (pos: Vec<
    usize,
>)
    requires
        edges@ == dep_edges(steps@),
        order@.len() == steps@.len(),
        forall|i: int| 0 <= i < order@.len() ==> (#[trigger] order@[i]) < steps@.len(),
        forall|i: int, j: int| 0 <= i < j < order@.len() ==> order@[i] != order@[j],
        forall|v: usize| v < steps@.len() ==> #[trigger] order@.contains(v),
        forall|k: int, i: int, j: int|
            #![trigger dep_edges(steps@)[k], order@[i], order@[j]]
            0 <= k < dep_edges(steps@).len() && 0 <= i < steps@.len() && 0 <= j < steps@.len()
                && order@[i] == dep_edges(steps@)[k].pred && order@[j] == dep_edges(
                steps@,
            )[k].succ ==> i < j,
    ensures
        order_valid(steps@.len() as int, edges@, order@, pos@),
{
    let n = order.len();
    let mut pos: Vec<usize> = vec![0; n];
    let mut p: usize = 0;
    while p < n
        invariant
            0 <= p <= n,
            n == order@.len(),
            pos@.len() == n,
            forall|i: int| 0 <= i < order@.len() ==> (#[trigger] order@[i]) < n,
            forall|i: int, j: int| 0 <= i < j < order@.len() ==> order@[i] != order@[j],
            forall|p2: int| 0 <= p2 < p ==> pos@[(#[trigger] order@[p2]) as int] as int == p2,
            forall|v: int| 0 <= v < n ==> (#[trigger] pos@[v]) < n || pos@[v] == 0,
        decreases n - p,
    {
        pos.set(order[p], p);
        proof {
            assert forall|p2: int| 0 <= p2 < p + 1 implies pos@[(#[trigger] order@[p2]) as int]
                as int == p2 by {
                if p2 < p as int {
                    assert(order@[p2] != order@[p as int]);
                }
            }
        }
        p = p + 1;
    }
    proof {
        let nn = steps@.len() as int;
        assert forall|v: int| 0 <= v < nn implies (#[trigger] pos@[v]) < nn && order@[pos@[v] as int]
            as int == v by {
            assert(order@.contains(v as usize));
            let i = choose|i: int| 0 <= i < order@.len() && order@[i] == v as usize;
            assert(pos@[order@[i] as int] as int == i);
        }
        assert forall|k: int|
            0 <= k < edges@.len() implies pos@[(#[trigger] edges@[k]).pred as int] < pos@[edges@[
            k
        ].succ as int] by {
            crate::graph::lemma_dep_edges_in_range(steps@, steps@.len() as int);
            let u = edges@[k].pred as int;
            let v = edges@[k].succ as int;
            let pu = pos@[u] as int;
            let pv = pos@[v] as int;
            assert(order@[pu] as int == u && order@[pv] as int == v);
            assert(dep_edges(steps@)[k] == edges@[k]);
            assert(order@[pu] == dep_edges(steps@)[k].pred && order@[pv] == dep_edges(
                steps@,
            )[k].succ);
        }
    }
    pos
}

/// The clamp to non-negative time.
pub open spec fn clamp0(x: int) -> int {
    if x < 0 {
        0
    } else {
        x
    }
}

/// The early-start bound an edge imposes on its successor, from the
/// predecessor's early start: the successor may not start (or finish)
/// before the relation allows.
pub open spec fn fwd_candidate(es_u: int, ds_u: int, ds_v: int, dep: DependencyType) -> int {
    match dep {
        DependencyType::FinishToStart => es_u + ds_u,
        DependencyType::StartToStart => es_u,
        DependencyType::FinishToFinish => es_u + ds_u - ds_v,
        DependencyType::StartToFinish => es_u - ds_v,
    }
}

/// The late-finish bound an edge imposes on its predecessor, from the
/// successor's late start `ls_v` and duration `ds_v`.
pub open spec fn bwd_candidate(ls_v: int, ds_v: int, ds_u: int, dep: DependencyType) -> int {
    match dep {
        DependencyType::FinishToStart => ls_v,
        DependencyType::StartToStart => ls_v + ds_u,
        DependencyType::FinishToFinish => ls_v + ds_v,
        DependencyType::StartToFinish => ls_v + ds_v + ds_u,
    }
}

/// Every edge's early-start constraint holds (clamped to non-negative).
pub open spec fn es_respects_edges(ds: Seq<u32>, edges: Seq<DepEdge>, es: Seq<int>) -> bool {
    forall|k: int|
        0 <= k < edges.len() ==> es[(#[trigger] edges[k]).succ as int] >= clamp0(
            fwd_candidate(
                es[edges[k].pred as int],
                ds[edges[k].pred as int] as int,
                ds[edges[k].succ as int] as int,
                edges[k].dep,
            ),
        )
}

/// No early start is slack: each is zero or meets some incoming edge's
/// clamped bound exactly. Together with `es_respects_edges` this pins every
/// early start to the maximum of zero and its incoming candidates.
pub open spec fn es_tight(ds: Seq<u32>, edges: Seq<DepEdge>, es: Seq<int>) -> bool {
    forall|v: int|
        0 <= v < es.len() ==> (#[trigger] es[v]) == 0 || exists|k: int|
            0 <= k < edges.len() && (#[trigger] edges[k]).succ as int == v && es[v] == clamp0(
                fwd_candidate(
                    es[edges[k].pred as int],
                    ds[edges[k].pred as int] as int,
                    ds[edges[k].succ as int] as int,
                    edges[k].dep,
                ),
            )
}

/// Every edge's late-start constraint holds: the predecessor's late finish
/// stays within what the successor's late times allow.
pub open spec fn ls_respects_edges(ds: Seq<u32>, edges: Seq<DepEdge>, ls: Seq<int>) -> bool {
    forall|k: int|
        0 <= k < edges.len() ==> ls[(#[trigger] edges[k]).pred as int] + ds[edges[k].pred as int]
            <= bwd_candidate(
            ls[edges[k].succ as int],
            ds[edges[k].succ as int] as int,
            ds[edges[k].pred as int] as int,
            edges[k].dep,
        )
}

/// No late start is slack: each step's late finish is the project end or
/// meets some outgoing edge's bound exactly.
pub open spec fn ls_tight(ds: Seq<u32>, edges: Seq<DepEdge>, ls: Seq<int>, pe: int) -> bool {
    forall|v: int|
        0 <= v < ls.len() ==> (#[trigger] ls[v]) + ds[v] == pe || exists|k: int|
            0 <= k < edges.len() && (#[trigger] edges[k]).pred as int == v && ls[v] + ds[v]
                == bwd_candidate(
                ls[edges[k].succ as int],
                ds[edges[k].succ as int] as int,
                ds[edges[k].pred as int] as int,
                edges[k].dep,
            )
}

/// The early-start constraint of edge `k` holds in `es`.
pub open spec fn edge_es_ok(ds: Seq<u32>, edges: Seq<DepEdge>, es: Seq<i64>, k: int) -> bool {
    es[edges[k].succ as int] as int >= clamp0(
        fwd_candidate(
            es[edges[k].pred as int] as int,
            ds[edges[k].pred as int] as int,
            ds[edges[k].succ as int] as int,
            edges[k].dep,
        ),
    )
}

/// The early start of `v` meets the clamped bound of edge `k` exactly.
pub open spec fn edge_es_eq(ds: Seq<u32>, edges: Seq<DepEdge>, es: Seq<i64>, k: int, v: int) -> bool {
    edges[k].succ as int == v && es[v] as int == clamp0(
        fwd_candidate(
            es[edges[k].pred as int] as int,
            ds[edges[k].pred as int] as int,
            ds[edges[k].succ as int] as int,
            edges[k].dep,
        ),
    )
}

proof fn lemma_order_injective_pairs(n: int, edges: Seq<DepEdge>, order: Seq<usize>, pos: Seq<usize>)
    requires
        order_valid(n, edges, order, pos),
    ensures
        forall|i: int, j: int| 0 <= i < j < n ==> order[i] != order[j],
{
    assert forall|i: int, j: int| 0 <= i < j < n implies order[i] != order[j] by {
        if order[i] == order[j] {
            assert(pos[order[i] as int] as int == i);
            assert(pos[order[j] as int] as int == j);
        }
    }
}

/// The forward sweep: assigns each step the least non-negative early start
/// that satisfies every incoming edge constraint, visiting the steps in
/// topological order.
fn forward_pass(
    steps: &Vec<Step>,
    edges: &Vec<DepEdge>,
    order: &Vec<usize>,
    pos: &Vec<usize>,
) -> (es: Vec<i64>)
    requires
        order_valid(steps@.len() as int, edges@, order@, pos@),
        forall|k: int|
            0 <= k < edges@.len() ==> (#[trigger] edges@[k]).pred < steps@.len() && edges@[k].succ
                < steps@.len(),
        sum_durs(durs_of(steps@)) <= 0x7FFF_FFFF,
    ensures
        es@.len() == steps@.len(),
        forall|v: int|
            0 <= v < es@.len() ==> 0 <= (#[trigger] es@[v]) as int && es@[v] as int + durs_of(
                steps@,
            )[v] <= sum_durs(durs_of(steps@)),
        es_respects_edges(durs_of(steps@), edges@, to_ints64(es@)),
        es_tight(durs_of(steps@), edges@, to_ints64(es@)),
{
    let n = steps.len();
    let m = edges.len();
    let ghost ds = durs_of(steps@);
    let mut es: Vec<i64> = vec![0i64; n];
    proof {
        lemma_order_injective_pairs(n as int, edges@, order@, pos@);
        assert forall|v: int| 0 <= v < n implies 0 <= (#[trigger] es@[v]) as int && es@[v] as int
            + ds[v] <= sum_picked(ds, order@, pos@[v] as int + 1) by {
            lemma_sum_picked_nonneg(ds, order@, pos@[v] as int);
            assert(sum_picked(ds, order@, pos@[v] as int + 1) == sum_picked(
                ds,
                order@,
                pos@[v] as int,
            ) + ds[order@[pos@[v] as int] as int]);
            assert(order@[pos@[v] as int] as int == v);
        }
    }
    let mut p: usize = 0;
    while p < n
        invariant
            0 <= p <= n,
            n == steps@.len(),
            m == edges@.len(),
            es@.len() == n,
            ds == durs_of(steps@),
            sum_durs(ds) <= 0x7FFF_FFFF,
            order_valid(n as int, edges@, order@, pos@),
            forall|i: int, j: int| 0 <= i < j < n ==> order@[i] != order@[j],
            forall|k: int|
                0 <= k < m ==> (#[trigger] edges@[k]).pred < n && edges@[k].succ < n,
            forall|v: int|
                0 <= v < n ==> 0 <= (#[trigger] es@[v]) as int && es@[v] as int + ds[v]
                    <= sum_picked(ds, order@, pos@[v] as int + 1),
            forall|k: int|
                0 <= k < m && pos@[(#[trigger] edges@[k]).pred as int] < p ==> edge_es_ok(
                    ds,
                    edges@,
                    es@,
                    k,
                ),
            forall|v: int|
                0 <= v < n ==> (#[trigger] es@[v]) as int == 0 || exists|k: int|
                    0 <= k < m && pos@[(#[trigger] edges@[k]).pred as int] < p && edge_es_eq(
                        ds,
                        edges@,
                        es@,
                        k,
                        v,
                    ),
        decreases n - p,
    {
        let u = order[p];
        let du = steps[u].duration_mins;
        let ghost es_snap = es@;
        let mut k: usize = 0;
        while k < m
            invariant
                0 <= k <= m,
                0 <= p < n,
                n == steps@.len(),
                m == edges@.len(),
                es@.len() == n,
                ds == durs_of(steps@),
                sum_durs(ds) <= 0x7FFF_FFFF,
                order_valid(n as int, edges@, order@, pos@),
                forall|i: int, j: int| 0 <= i < j < n ==> order@[i] != order@[j],
                forall|k2: int|
                    0 <= k2 < m ==> (#[trigger] edges@[k2]).pred < n && edges@[k2].succ < n,
                u == order@[p as int],
                u < n,
                pos@[u as int] as int == p,
                du == ds[u as int],
                forall|v: int|
                    0 <= v < n ==> 0 <= (#[trigger] es@[v]) as int && es@[v] as int + ds[v]
                        <= sum_picked(ds, order@, pos@[v] as int + 1),
                forall|v: int|
                    0 <= v < n && pos@[v] <= p ==> (#[trigger] es@[v]) == es_snap[v],
                forall|k2: int|
                    0 <= k2 < m && pos@[(#[trigger] edges@[k2]).pred as int] < p ==> edge_es_ok(
                        ds,
                        edges@,
                        es@,
                        k2,
                    ),
                forall|k2: int|
                    0 <= k2 < k && (#[trigger] edges@[k2]).pred == u ==> edge_es_ok(
                        ds,
                        edges@,
                        es@,
                        k2,
                    ),
                forall|v: int|
                    0 <= v < n ==> (#[trigger] es@[v]) as int == 0 || exists|k2: int|
                        0 <= k2 < m && pos@[(#[trigger] edges@[k2]).pred as int] <= p
                            && edge_es_eq(ds, edges@, es@, k2, v),
            decreases m - k,
        {
            if edges[k].pred == u {
                let v = edges[k].succ;
                let dv = steps[v].duration_mins;
                proof {
                    assert(sum_picked(ds, order@, pos@[u as int] as int + 1) <= sum_durs(ds)) by {
                        lemma_sum_picked_bound(ds, order@, pos@[u as int] as int + 1);
                    }
                }
                let cand: i64 = match edges[k].dep {
                    DependencyType::FinishToStart => es[u] + du as i64,
                    DependencyType::StartToStart => es[u],
                    DependencyType::FinishToFinish => es[u] + du as i64 - dv as i64,
                    DependencyType::StartToFinish => es[u] - dv as i64,
                };
                proof {
                    assert(cand as int == fwd_candidate(
                        es@[u as int] as int,
                        ds[u as int] as int,
                        ds[v as int] as int,
                        edges@[k as int].dep,
                    ));
                }
                let nes: i64 = if cand < 0 {
                    0
                } else {
                    cand
                };
                if nes > es[v] {
                    proof {
                        let pu = pos@[u as int] as int;
                        let pv = pos@[v as int] as int;
                        assert(pu < pv);
                        lemma_sum_picked_mono(ds, order@, pu + 1, pv);
                        assert(sum_picked(ds, order@, pv + 1) == sum_picked(ds, order@, pv)
                            + ds[order@[pv] as int]);
                        assert(order@[pv] as int == v as int);
                        assert(nes as int + ds[v as int] <= sum_picked(ds, order@, pv + 1));
                        lemma_sum_picked_bound(ds, order@, pv + 1);
                    }
                    let ghost es_old = es@;
                    es.set(v, nes);
                    proof {
                        assert(edge_es_eq(ds, edges@, es@, k as int, v as int));
                        assert(pos@[v as int] > p);
                        assert forall|v2: int|
                            0 <= v2 < n implies (#[trigger] es@[v2]) as int == 0 || exists|k2: int|
                            0 <= k2 < m && pos@[(#[trigger] edges@[k2]).pred as int] <= p
                                && edge_es_eq(ds, edges@, es@, k2, v2) by {
                            if v2 == v as int {
                                assert(pos@[edges@[k as int].pred as int] <= p);
                                assert(edge_es_eq(ds, edges@, es@, k as int, v2));
                            } else if es@[v2] as int != 0 {
                                let k2 = choose|k2: int|
                                    0 <= k2 < m && pos@[(#[trigger] edges@[k2]).pred as int] <= p
                                        && edge_es_eq(ds, edges@, es_old, k2, v2);
                                assert(es@[edges@[k2].pred as int] == es_old[edges@[
                                    k2
                                ].pred as int]);
                                assert(edge_es_eq(ds, edges@, es@, k2, v2));
                            }
                        }
                    }
                }
                proof {
                    assert(edge_es_ok(ds, edges@, es@, k as int));
                }
            }
            k = k + 1;
        }
        proof {
            assert forall|k2: int|
                0 <= k2 < m && pos@[(#[trigger] edges@[k2]).pred as int] < p + 1 implies
                edge_es_ok(ds, edges@, es@, k2) by {
                if pos@[edges@[k2].pred as int] == p {
                    assert(order@[pos@[edges@[k2].pred as int] as int] as int == edges@[
                        k2
                    ].pred as int);
                    assert(edges@[k2].pred == u);
                }
            }
        }
        p = p + 1;
    }
    proof {
        assert forall|v: int| 0 <= v < es@.len() implies 0 <= (#[trigger] es@[v]) as int && es@[
            v
        ] as int + durs_of(steps@)[v] <= sum_durs(durs_of(steps@)) by {
            lemma_sum_picked_bound(ds, order@, pos@[v] as int + 1);
        }
        assert forall|k: int| 0 <= k < edges@.len() implies to_ints64(es@)[(#[trigger] edges@[
            k
        ]).succ as int] >= clamp0(
            fwd_candidate(
                to_ints64(es@)[edges@[k].pred as int],
                durs_of(steps@)[edges@[k].pred as int] as int,
                durs_of(steps@)[edges@[k].succ as int] as int,
                edges@[k].dep,
            ),
        ) by {
            assert(pos@[edges@[k].pred as int] < n as int);
            assert(edge_es_ok(ds, edges@, es@, k));
        }
        assert forall|v: int| 0 <= v < to_ints64(es@).len() implies (#[trigger] to_ints64(es@)[v])
            == 0 || exists|k: int|
            0 <= k < edges@.len() && (#[trigger] edges@[k]).succ as int == v && to_ints64(es@)[v]
                == clamp0(
                fwd_candidate(
                    to_ints64(es@)[edges@[k].pred as int],
                    durs_of(steps@)[edges@[k].pred as int] as int,
                    durs_of(steps@)[edges@[k].succ as int] as int,
                    edges@[k].dep,
                ),
            ) by {
            if to_ints64(es@)[v] != 0 {
                let k = choose|k: int|
                    0 <= k < m && pos@[(#[trigger] edges@[k]).pred as int] <= n && edge_es_eq(
                        ds,
                        edges@,
                        es@,
                        k,
                        v,
                    );
                assert(edge_es_eq(ds, edges@, es@, k, v));
                assert(edges@[k].succ as int == v && to_ints64(es@)[v] == clamp0(
                    fwd_candidate(
                        to_ints64(es@)[edges@[k].pred as int],
                        durs_of(steps@)[edges@[k].pred as int] as int,
                        durs_of(steps@)[edges@[k].succ as int] as int,
                        edges@[k].dep,
                    ),
                ));
            }
        }
    }
    es
}

/// The late-finish bound an edge imposes on its predecessor, written over
/// the successor's late finish.
pub open spec fn bwd_candidate_lf(lf_v: int, ds_v: int, ds_u: int, dep: DependencyType) -> int {
    match dep {
        DependencyType::FinishToStart => lf_v - ds_v,
        DependencyType::StartToStart => lf_v - ds_v + ds_u,
        DependencyType::FinishToFinish => lf_v,
        DependencyType::StartToFinish => lf_v + ds_u,
    }
}

/// The late-finish constraint of edge `k` holds in `lf`.
pub open spec fn edge_lf_ok(ds: Seq<u32>, edges: Seq<DepEdge>, lf: Seq<i64>, k: int) -> bool {
    lf[edges[k].pred as int] as int <= bwd_candidate_lf(
        lf[edges[k].succ as int] as int,
        ds[edges[k].succ as int] as int,
        ds[edges[k].pred as int] as int,
        edges[k].dep,
    )
}

/// The late finish of `v` meets the bound of edge `k` exactly.
pub open spec fn edge_lf_eq(ds: Seq<u32>, edges: Seq<DepEdge>, lf: Seq<i64>, k: int, v: int) -> bool {
    edges[k].pred as int == v && lf[v] as int == bwd_candidate_lf(
        lf[edges[k].succ as int] as int,
        ds[edges[k].succ as int] as int,
        ds[edges[k].pred as int] as int,
        edges[k].dep,
    )
}

/// The backward sweep: assigns each step the greatest late finish, at most
/// the project end, that satisfies every outgoing edge constraint. Late
/// finishes never undercut early finishes.
fn backward_pass(
    steps: &Vec<Step>,
    edges: &Vec<DepEdge>,
    order: &Vec<usize>,
    pos: &Vec<usize>,
    es: &Vec<i64>,
    project_end: u32,
) -> (lf: Vec<i64>)
    requires
        order_valid(steps@.len() as int, edges@, order@, pos@),
        forall|k: int|
            0 <= k < edges@.len() ==> (#[trigger] edges@[k]).pred < steps@.len() && edges@[k].succ
                < steps@.len(),
        es@.len() == steps@.len(),
        forall|v: int|
            0 <= v < es@.len() ==> 0 <= (#[trigger] es@[v]) as int && es@[v] as int + durs_of(
                steps@,
            )[v] <= project_end,
        es_respects_edges(durs_of(steps@), edges@, to_ints64(es@)),
        project_end <= 0x7FFF_FFFF,
    ensures
        lf@.len() == steps@.len(),
        forall|v: int|
            0 <= v < lf@.len() ==> es@[v] as int + durs_of(steps@)[v] <= (#[trigger] lf@[v]) as int
                <= project_end,
        forall|k: int| 0 <= k < edges@.len() ==> edge_lf_ok(durs_of(steps@), edges@, lf@, #[trigger] (k + 0)),
        forall|v: int|
            0 <= v < lf@.len() ==> (#[trigger] lf@[v]) as int == project_end || exists|k: int|
                0 <= k < edges@.len() && edge_lf_eq(durs_of(steps@), edges@, lf@, k, v),
{
    let n = steps.len();
    let m = edges.len();
    let ghost ds = durs_of(steps@);
    let pe64: i64 = project_end as i64;
    let mut lf: Vec<i64> = vec![pe64; n];
    let mut p: usize = n;
    while p > 0
        invariant
            0 <= p <= n,
            n == steps@.len(),
            m == edges@.len(),
            lf@.len() == n,
            ds == durs_of(steps@),
            pe64 == project_end as i64,
            project_end <= 0x7FFF_FFFF,
            order_valid(n as int, edges@, order@, pos@),
            forall|k: int|
                0 <= k < m ==> (#[trigger] edges@[k]).pred < n && edges@[k].succ < n,
            es@.len() == n,
            forall|v: int|
                0 <= v < n ==> 0 <= (#[trigger] es@[v]) as int && es@[v] as int + ds[v]
                    <= project_end,
            es_respects_edges(ds, edges@, to_ints64(es@)),
            forall|v: int|
                0 <= v < n ==> es@[v] as int + ds[v] <= (#[trigger] lf@[v]) as int <= project_end,
            forall|k: int|
                0 <= k < m && pos@[(#[trigger] edges@[k]).succ as int] >= p ==> edge_lf_ok(
                    ds,
                    edges@,
                    lf@,
                    k,
                ),
            forall|v: int|
                0 <= v < n ==> (#[trigger] lf@[v]) as int == project_end || exists|k: int|
                    0 <= k < m && pos@[(#[trigger] edges@[k]).succ as int] >= p && edge_lf_eq(
                        ds,
                        edges@,
                        lf@,
                        k,
                        v,
                    ),
        decreases p,
    {
        p = p - 1;
        let v = order[p];
        let dv = steps[v].duration_mins;
        let ghost lf_snap = lf@;
        let mut k: usize = 0;
        while k < m
            invariant
                0 <= k <= m,
                0 <= p < n,
                n == steps@.len(),
                m == edges@.len(),
                lf@.len() == n,
                ds == durs_of(steps@),
                pe64 == project_end as i64,
                project_end <= 0x7FFF_FFFF,
                order_valid(n as int, edges@, order@, pos@),
                forall|k2: int|
                    0 <= k2 < m ==> (#[trigger] edges@[k2]).pred < n && edges@[k2].succ < n,
                es@.len() == n,
                forall|v2: int|
                    0 <= v2 < n ==> 0 <= (#[trigger] es@[v2]) as int && es@[v2] as int + ds[v2]
                        <= project_end,
                es_respects_edges(ds, edges@, to_ints64(es@)),
                v == order@[p as int],
                v < n,
                pos@[v as int] as int == p,
                dv == ds[v as int],
                forall|v2: int|
                    0 <= v2 < n ==> es@[v2] as int + ds[v2] <= (#[trigger] lf@[v2]) as int
                        <= project_end,
                forall|v2: int|
                    0 <= v2 < n && pos@[v2] >= p ==> (#[trigger] lf@[v2]) == lf_snap[v2],
                forall|k2: int|
                    0 <= k2 < m && pos@[(#[trigger] edges@[k2]).succ as int] > p ==> edge_lf_ok(
                        ds,
                        edges@,
                        lf@,
                        k2,
                    ),
                forall|k2: int|
                    0 <= k2 < k && (#[trigger] edges@[k2]).succ == v ==> edge_lf_ok(
                        ds,
                        edges@,
                        lf@,
                        k2,
                    ),
                forall|v2: int|
                    0 <= v2 < n ==> (#[trigger] lf@[v2]) as int == project_end || exists|k2: int|
                        0 <= k2 < m && pos@[(#[trigger] edges@[k2]).succ as int] >= p
                            && edge_lf_eq(ds, edges@, lf@, k2, v2),
            decreases m - k,
        {
            if edges[k].succ == v {
                let u = edges[k].pred;
                let du = steps[u].duration_mins;
                let cand: i64 = match edges[k].dep {
                    DependencyType::FinishToStart => lf[v] - dv as i64,
                    DependencyType::StartToStart => lf[v] - dv as i64 + du as i64,
                    DependencyType::FinishToFinish => lf[v],
                    DependencyType::StartToFinish => lf[v] + du as i64,
                };
                proof {
                    assert(cand as int == bwd_candidate_lf(
                        lf@[v as int] as int,
                        ds[v as int] as int,
                        ds[u as int] as int,
                        edges@[k as int].dep,
                    ));
                    assert(edge_es_ok(ds, edges@, es@, k as int)) by {
                        assert(to_ints64(es@)[edges@[k as int].succ as int] == es@[v as int] as int);
                        assert(to_ints64(es@)[edges@[k as int].pred as int] == es@[u as int] as int);
                    }
                    assert(cand as int >= es@[u as int] as int + ds[u as int]) by {
                        assert(es@[v as int] as int >= clamp0(
                            fwd_candidate(
                                es@[u as int] as int,
                                ds[u as int] as int,
                                ds[v as int] as int,
                                edges@[k as int].dep,
                            ),
                        ));
                        assert(lf@[v as int] as int >= es@[v as int] as int + ds[v as int]);
                    }
                }
                if cand < lf[u] {
                    let ghost lf_old = lf@;
                    lf.set(u, cand);
                    proof {
                        assert(pos@[u as int] < p);
                        assert(edge_lf_eq(ds, edges@, lf@, k as int, u as int));
                        assert forall|v2: int|
                            0 <= v2 < n implies (#[trigger] lf@[v2]) as int == project_end
                            || exists|k2: int|
                            0 <= k2 < m && pos@[(#[trigger] edges@[k2]).succ as int] >= p
                                && edge_lf_eq(ds, edges@, lf@, k2, v2) by {
                            if v2 == u as int {
                                assert(pos@[edges@[k as int].succ as int] >= p);
                                assert(edge_lf_eq(ds, edges@, lf@, k as int, v2));
                            } else if lf@[v2] as int != project_end {
                                let k2 = choose|k2: int|
                                    0 <= k2 < m && pos@[(#[trigger] edges@[k2]).succ as int] >= p
                                        && edge_lf_eq(ds, edges@, lf_old, k2, v2);
                                assert(lf@[edges@[k2].succ as int] == lf_old[edges@[
                                    k2
                                ].succ as int]);
                                assert(edge_lf_eq(ds, edges@, lf@, k2, v2));
                            }
                        }
                    }
                }
                proof {
                    assert(edge_lf_ok(ds, edges@, lf@, k as int));
                }
            }
            k = k + 1;
        }
        proof {
            assert forall|k2: int|
                0 <= k2 < m && pos@[(#[trigger] edges@[k2]).succ as int] >= p implies edge_lf_ok(
                ds,
                edges@,
                lf@,
                k2,
            ) by {
                if pos@[edges@[k2].succ as int] == p {
                    assert(order@[pos@[edges@[k2].succ as int] as int] as int == edges@[
                        k2
                    ].succ as int);
                    assert(edges@[k2].succ == v);
                }
            }
        }
    }
    proof {
        assert forall|k: int| 0 <= k < edges@.len() implies edge_lf_ok(
            durs_of(steps@),
            edges@,
            lf@,
            #[trigger] (k + 0),
        ) by {
            assert(pos@[edges@[k].succ as int] >= 0);
            assert(edge_lf_ok(ds, edges@, lf@, k));
        }
    }
    lf
}

/// Index of the first step with a zero duration, or -1.
pub open spec fn first_zero_duration(steps: Seq<Step>) -> int
    decreases steps.len(),
{
    if steps.len() == 0 {
        -1
    } else if steps[0].duration_mins == 0 {
        0
    } else {
        let rest = first_zero_duration(steps.drop_first());
        if rest < 0 {
            -1
        } else {
            rest + 1
        }
    }
}

pub proof fn lemma_first_zero_duration(steps: Seq<Step>)
    ensures
        first_zero_duration(steps) >= 0 ==> first_zero_duration(steps) < steps.len() && steps[
            first_zero_duration(steps)
        ].duration_mins == 0,
        forall|j: int|
            0 <= j < steps.len() && (#[trigger] steps[j]).duration_mins == 0 ==> 0
                <= first_zero_duration(steps) <= j,
        first_zero_duration(steps) == -1 <==> (forall|j: int|
            0 <= j < steps.len() ==> (#[trigger] steps[j]).duration_mins > 0),
    decreases steps.len(),
{
    if steps.len() == 0 {
    } else if steps[0].duration_mins == 0 {
        assert(steps[0].duration_mins == 0);
    } else {
        lemma_first_zero_duration(steps.drop_first());
        assert forall|j: int| 0 <= j < steps.drop_first().len() implies steps.drop_first()[j]
            == steps[j + 1] by {}
        let rest = first_zero_duration(steps.drop_first());
        if rest >= 0 {
            assert(steps[rest + 1] == steps.drop_first()[rest]);
        }
        assert forall|j: int|
            0 <= j < steps.len() && (#[trigger] steps[j]).duration_mins == 0 implies 0
            <= first_zero_duration(steps) <= j by {
            assert(j > 0);
            assert(steps.drop_first()[j - 1] == steps[j]);
        }
        if rest == -1 {
            assert forall|j: int| 0 <= j < steps.len() implies (#[trigger] steps[j]).duration_mins
                > 0 by {
                if j > 0 {
                    assert(steps[j] == steps.drop_first()[j - 1]);
                }
            }
        }
    }
}

/// Index of the first dependency in `deps` whose step ID does not resolve
/// against `ids`, or -1.
pub open spec fn first_bad_dep(ids: Seq<Seq<char>>, deps: Seq<crate::model::StepDependency>) -> int
    decreases deps.len(),
{
    if deps.len() == 0 {
        -1
    } else if crate::model::first_index_of(ids, deps[0].step_id@) == -1 {
        0
    } else {
        let rest = first_bad_dep(ids, deps.drop_first());
        if rest < 0 {
            -1
        } else {
            rest + 1
        }
    }
}

pub proof fn lemma_first_bad_dep(ids: Seq<Seq<char>>, deps: Seq<crate::model::StepDependency>)
    ensures
        first_bad_dep(ids, deps) >= 0 ==> first_bad_dep(ids, deps) < deps.len()
            && crate::model::first_index_of(ids, deps[first_bad_dep(ids, deps)].step_id@) == -1,
        forall|j: int|
            0 <= j < deps.len() && crate::model::first_index_of(
                ids,
                (#[trigger] deps[j]).step_id@,
            ) == -1 ==> 0 <= first_bad_dep(ids, deps) <= j,
        first_bad_dep(ids, deps) == -1 <==> (forall|j: int|
            0 <= j < deps.len() ==> crate::model::first_index_of(
                ids,
                (#[trigger] deps[j]).step_id@,
            ) >= 0),
    decreases deps.len(),
{
    if deps.len() == 0 {
    } else if crate::model::first_index_of(ids, deps[0].step_id@) == -1 {
        assert(crate::model::first_index_of(ids, deps[0].step_id@) == -1);
    } else {
        crate::model::lemma_first_index_of(ids, deps[0].step_id@);
        lemma_first_bad_dep(ids, deps.drop_first());
        assert forall|j: int| 0 <= j < deps.drop_first().len() implies deps.drop_first()[j]
            == deps[j + 1] by {}
        let rest = first_bad_dep(ids, deps.drop_first());
        if rest >= 0 {
            assert(deps[rest + 1] == deps.drop_first()[rest]);
        }
        assert forall|j: int|
            0 <= j < deps.len() && crate::model::first_index_of(
                ids,
                (#[trigger] deps[j]).step_id@,
            ) == -1 implies 0 <= first_bad_dep(ids, deps) <= j by {
            assert(j > 0);
            assert(deps.drop_first()[j - 1] == deps[j]);
        }
        if rest == -1 {
            assert forall|j: int| 0 <= j < deps.len() implies crate::model::first_index_of(
                ids,
                (#[trigger] deps[j]).step_id@,
            ) >= 0 by {
                if j > 0 {
                    assert(deps[j] == deps.drop_first()[j - 1]);
                }
                crate::model::lemma_first_index_of(ids, deps[j].step_id@);
            }
        }
    }
}

/// Index of the first step with an unresolvable dependency, or -1.
pub open spec fn first_unresolved_step(ids: Seq<Seq<char>>, steps: Seq<Step>) -> int
    decreases steps.len(),
{
    if steps.len() == 0 {
        -1
    } else if first_bad_dep(ids, steps[0].dependencies@) >= 0 {
        0
    } else {
        let rest = first_unresolved_step(ids, steps.drop_first());
        if rest < 0 {
            -1
        } else {
            rest + 1
        }
    }
}

pub proof fn lemma_first_unresolved_step(ids: Seq<Seq<char>>, steps: Seq<Step>)
    ensures
        first_unresolved_step(ids, steps) >= 0 ==> first_unresolved_step(ids, steps) < steps.len()
            && first_bad_dep(ids, steps[first_unresolved_step(ids, steps)].dependencies@) >= 0,
        forall|j: int|
            0 <= j < steps.len() && first_bad_dep(ids, (#[trigger] steps[j]).dependencies@) >= 0
                ==> 0 <= first_unresolved_step(ids, steps) <= j,
        first_unresolved_step(ids, steps) == -1 <==> (forall|j: int|
            0 <= j < steps.len() ==> first_bad_dep(ids, (#[trigger] steps[j]).dependencies@)
                == -1),
    decreases steps.len(),
{
    if steps.len() == 0 {
    } else if first_bad_dep(ids, steps[0].dependencies@) >= 0 {
        assert(first_bad_dep(ids, steps[0].dependencies@) >= 0);
    } else {
        lemma_first_unresolved_step(ids, steps.drop_first());
        assert forall|j: int| 0 <= j < steps.drop_first().len() implies steps.drop_first()[j]
            == steps[j + 1] by {}
        let rest = first_unresolved_step(ids, steps.drop_first());
        if rest >= 0 {
            assert(steps[rest + 1] == steps.drop_first()[rest]);
        }
        assert forall|j: int|
            0 <= j < steps.len() && first_bad_dep(ids, (#[trigger] steps[j]).dependencies@) >= 0
            implies 0 <= first_unresolved_step(ids, steps) <= j by {
            assert(j > 0);
            assert(steps.drop_first()[j - 1] == steps[j]);
        }
        if rest == -1 {
            assert forall|j: int| 0 <= j < steps.len() implies first_bad_dep(
                ids,
                (#[trigger] steps[j]).dependencies@,
            ) == -1 by {
                if j > 0 {
                    assert(steps[j] == steps.drop_first()[j - 1]);
                }
            }
        }
    }
}

/// The largest early finish among the first `j` steps, or zero when there
/// are none.
pub open spec fn max_ef_upto(es: Seq<u32>, ds: Seq<u32>, j: int) -> int
    decreases j,
{
    if j <= 0 {
        0
    } else {
        let prev = max_ef_upto(es, ds, j - 1);
        let ef = es[j - 1] + ds[j - 1];
        if ef > prev {
            ef
        } else {
            prev
        }
    }
}

proof fn lemma_max_ef_upper(es: Seq<u32>, ds: Seq<u32>, j: int)
    ensures
        forall|v: int| 0 <= v < j ==> (#[trigger] es[v]) + ds[v] <= max_ef_upto(es, ds, j),
        max_ef_upto(es, ds, j) >= 0,
    decreases j,
{
    if j > 0 {
        lemma_max_ef_upper(es, ds, j - 1);
    }
}

/// The parse of the template's declared start time, when one is declared.
pub open spec fn parsed_start(t: ScheduleTemplate) -> Option<i64> {
    match t.time_constraint {
        Option::Some(tc) => match tc.start_time {
            Option::Some(s) => crate::timefmt::parse_datetime_spec(s@),
            Option::None => Option::None,
        },
        Option::None => Option::None,
    }
}

/// The parse of the template's declared end time, when one is declared.
pub open spec fn parsed_end(t: ScheduleTemplate) -> Option<i64> {
    match t.time_constraint {
        Option::Some(tc) => match tc.end_time {
            Option::Some(s) => crate::timefmt::parse_datetime_spec(s@),
            Option::None => Option::None,
        },
        Option::None => Option::None,
    }
}

/// Whether the template declares both a start and an end time.
pub open spec fn both_times_declared(t: ScheduleTemplate) -> bool {
    match t.time_constraint {
        Option::Some(tc) => tc.start_time is Some && tc.end_time is Some,
        Option::None => false,
    }
}

/// Whether wall-clock times are laid out backward from the declared end
/// time (an end time is declared without a start time).
pub open spec fn backward_mode(t: ScheduleTemplate) -> bool {
    match t.time_constraint {
        Option::Some(tc) => tc.start_time is None && tc.end_time is Some,
        Option::None => false,
    }
}

/// The declared window in whole minutes, non-negative and saturated at the
/// largest representable span, or zero when the window is absent or does
/// not parse.
pub open spec fn deadline_component(t: ScheduleTemplate) -> int {
    if both_times_declared(t) {
        match (parsed_start(t), parsed_end(t)) {
            (Option::Some(a), Option::Some(b)) => if b <= a {
                0
            } else {
                let d = (b - a) / 60;
                if d > 0x7FFF_FFFF {
                    0x7FFF_FFFF
                } else {
                    d
                }
            },
            _ => 0,
        }
    } else {
        0
    }
}

/// The project end: the largest early finish, raised to the declared
/// window when the template declares both a start and an end time.
pub open spec fn project_end_spec(t: ScheduleTemplate, es: Seq<u32>) -> int {
    let me = max_ef_upto(es, durations(t), t.steps@.len() as int);
    let dl = deadline_component(t);
    if me > dl {
        me
    } else {
        dl
    }
}

/// Whether an optional string carries exactly the optional expected text.
pub open spec fn opt_str_matches(o: Option<String>, v: Option<Seq<char>>) -> bool {
    match (o, v) {
        (Option::Some(s), Option::Some(w)) => s@ == w,
        (Option::None, Option::None) => true,
        _ => false,
    }
}

/// The wall-clock text for the moment `x` minutes after the schedule
/// start: laid out forward from the declared start time, or backward from
/// the declared end time when only that is given.
pub open spec fn wall_time_spec(t: ScheduleTemplate, max_ef: int, x: int) -> Option<Seq<char>> {
    if backward_mode(t) {
        match parsed_end(t) {
            Option::Some(e) => crate::timefmt::datetime_display_secs(e - (max_ef - x) * 60),
            Option::None => Option::None,
        }
    } else {
        match parsed_start(t) {
            Option::Some(b) => crate::timefmt::datetime_display_secs(b + x * 60),
            Option::None => Option::None,
        }
    }
}


/// The value-level content of a critical-path result: `es` and `ls` are
/// the unique early and late starts of the template's steps — they respect
/// every edge bound and are tight against them — and the project end is
/// determined by `es`.
pub open spec fn cpm_values_ok(t: ScheduleTemplate, es: Seq<u32>, ls: Seq<u32>) -> bool {
    let n = t.steps@.len() as int;
    let ds = durations(t);
    let edges = dep_edges(t.steps@);
    let pe = project_end_spec(t, es);
    &&& es.len() == n
    &&& ls.len() == n
    &&& forall|v: int|
        0 <= v < n ==> #[trigger] es[v] <= ls[v] && ls[v] as int + ds[v] <= pe
    &&& es_respects_edges(ds, edges, to_ints(es))
    &&& es_tight(ds, edges, to_ints(es))
    &&& ls_respects_edges(ds, edges, to_ints(ls))
    &&& ls_tight(ds, edges, to_ints(ls), pe)
}


/// A successful critical-path result carries exactly the unique early and
/// late start values.
pub proof fn lemma_cpm_values_from_post(t: ScheduleTemplate, r: CpmResult)
    requires
        cpm_post(t, r),
    ensures
        cpm_values_ok(t, r.early_starts@, r.late_starts@),
{
    let ges = r.early_starts@;
    let gls = r.late_starts@;
    assert forall|v: int| 0 <= v < t.steps@.len() implies #[trigger] ges[v] <= gls[v] && gls[
        v
    ] as int + durations(t)[v] <= project_end_spec(t, ges) by {
        assert(to_ints(ges)[v] == ges[v] as int);
        assert(to_ints(gls)[v] == gls[v] as int);
    }
}

/// What the critical-path pass hands to the allocator: the initially
/// placed steps, the early and late start of each step by index, and the
/// project end.
#[derive(Debug)]
pub struct CpmResult {
    pub solved_steps: Vec<SolvedStep>,
    pub early_starts: Vec<u32>,
    pub late_starts: Vec<u32>,
    pub project_end: u32,
}

/// The fields of one initially placed step: identity, placement by policy,
/// float, criticality and wall-clock texts.
pub open spec fn solved_step_matches(
    t: ScheduleTemplate,
    st: SolvedStep,
    es_i: u32,
    ls_i: u32,
    max_ef: int,
    i: int,
) -> bool {
    &&& st.step_id@ == t.steps@[i].id@
    &&& st.start_offset_mins == (if crate::validator::is_alap(t.steps@[i]) {
        ls_i
    } else {
        es_i
    })
    &&& st.end_offset_mins as int == st.start_offset_mins as int + durations(t)[i]
    &&& st.total_float_mins as int == ls_i as int - es_i as int
    &&& st.is_critical == (ls_i == es_i)
    &&& st.assigned_resources@.len() == 0
    &&& opt_str_matches(st.start_time, wall_time_spec(t, max_ef, st.start_offset_mins as int))
    &&& opt_str_matches(st.end_time, wall_time_spec(t, max_ef, st.end_offset_mins as int))
}

/// Everything the critical-path pass promises of a successful result.
pub open spec fn cpm_post(t: ScheduleTemplate, r: CpmResult) -> bool {
    let n = t.steps@.len() as int;
    let ds = durations(t);
    let edges = dep_edges(t.steps@);
    let es = to_ints(r.early_starts@);
    let ls = to_ints(r.late_starts@);
    &&& r.early_starts@.len() == n
    &&& r.late_starts@.len() == n
    &&& r.solved_steps@.len() == n
    &&& forall|v: int|
        0 <= v < n ==> 0 <= #[trigger] es[v] && es[v] <= ls[v] && ls[v] + ds[v]
            <= r.project_end as int
    &&& es_respects_edges(ds, edges, es)
    &&& es_tight(ds, edges, es)
    &&& ls_respects_edges(ds, edges, ls)
    &&& ls_tight(ds, edges, ls, r.project_end as int)
    &&& r.project_end as int == project_end_spec(t, r.early_starts@)
    &&& r.project_end <= 0x7FFF_FFFF
    &&& forall|i: int|
        0 <= i < n ==> solved_step_matches(
            t,
            #[trigger] r.solved_steps@[i],
            r.early_starts@[i],
            r.late_starts@[i],
            max_ef_upto(r.early_starts@, ds, n),
            i,
        )
}

/// What `cpm` promises: a successful result satisfies `cpm_post` on a
/// structurally sound template; otherwise exactly the first failure, in
/// the order zero duration, unresolvable dependency, cycle, is reported.
pub open spec fn cpm_ensures(t: ScheduleTemplate, r: Result<CpmResult, SolveError>) -> bool {
    let ids = crate::model::step_id_seq(t.steps@);
    match r {
        Result::Ok(res) => {
            &&& cpm_post(t, res)
            &&& first_zero_duration(t.steps@) == -1
            &&& first_unresolved_step(ids, t.steps@) == -1
            &&& !crate::graph::has_cycle(crate::graph::edge_pairs(dep_edges(t.steps@)))
        },
        Result::Err(e) => match e {
            SolveError::MissingDuration(id) => {
                &&& first_zero_duration(t.steps@) >= 0
                &&& id@ == t.steps@[first_zero_duration(t.steps@)].id@
            },
            SolveError::UnknownDependency(sid, did) => {
                let i = first_unresolved_step(ids, t.steps@);
                &&& first_zero_duration(t.steps@) == -1
                &&& i >= 0
                &&& sid@ == t.steps@[i].id@
                &&& did@ == t.steps@[i].dependencies@[first_bad_dep(
                    ids,
                    t.steps@[i].dependencies@,
                )].step_id@
            },
            SolveError::CyclicDependency(s) => {
                &&& first_zero_duration(t.steps@) == -1
                &&& first_unresolved_step(ids, t.steps@) == -1
                &&& crate::graph::has_cycle(crate::graph::edge_pairs(dep_edges(t.steps@)))
                &&& s@ == crate::strutil::join_with(
                    crate::validator::dep_carrier_ids_upto(t.steps@, t.steps@.len() as int),
                    ", "@,
                )
            },
            SolveError::ValidationFailed(_) => false,
        },
    }
}

/// Scans for the two per-step fatal conditions, in step order: a zero
/// duration first, then an unresolvable dependency.
fn scan_template_errors(template: &ScheduleTemplate) -> (r: Option<SolveError>)
    ensures
        match r {
            Option::None => {
                &&& first_zero_duration(template.steps@) == -1
                &&& first_unresolved_step(
                    crate::model::step_id_seq(template.steps@),
                    template.steps@,
                ) == -1
            },
            Option::Some(e) => match e {
                SolveError::MissingDuration(id) => {
                    &&& first_zero_duration(template.steps@) >= 0
                    &&& id@ == template.steps@[first_zero_duration(template.steps@)].id@
                },
                SolveError::UnknownDependency(sid, did) => {
                    let ids = crate::model::step_id_seq(template.steps@);
                    let i = first_unresolved_step(ids, template.steps@);
                    &&& first_zero_duration(template.steps@) == -1
                    &&& i >= 0
                    &&& sid@ == template.steps@[i].id@
                    &&& did@ == template.steps@[i].dependencies@[first_bad_dep(
                        ids,
                        template.steps@[i].dependencies@,
                    )].step_id@
                },
                _ => false,
            },
        },
{
    let ghost t = *template;
    let steps = &template.steps;
    let n = steps.len();
    let ghost ids = crate::model::step_id_seq(t.steps@);

    let mut i: usize = 0;
    while i < n
        invariant
            0 <= i <= n,
            n == steps@.len(),
            steps@ == t.steps@,
            t == *template,
            forall|j: int| 0 <= j < i ==> (#[trigger] steps@[j]).duration_mins > 0,
        decreases n - i,
    {
        if steps[i].duration_mins == 0 {
            proof {
                lemma_first_zero_duration(t.steps@);
                assert(first_zero_duration(t.steps@) == i as int);
            }
            return Some(SolveError::MissingDuration(steps[i].id.clone()));
        }
        i = i + 1;
    }
    proof {
        lemma_first_zero_duration(t.steps@);
    }

    let mut i: usize = 0;
    while i < n
        invariant
            0 <= i <= n,
            n == steps@.len(),
            steps@ == t.steps@,
            t == *template,
            ids == crate::model::step_id_seq(t.steps@),
            first_zero_duration(t.steps@) == -1,
            forall|j: int|
                0 <= j < i ==> first_bad_dep(ids, (#[trigger] steps@[j]).dependencies@) == -1,
        decreases n - i,
    {
        let deps = &steps[i].dependencies;
        let m = deps.len();
        let mut k: usize = 0;
        while k < m
            invariant
                0 <= k <= m,
                0 <= i < n,
                n == steps@.len(),
                steps@ == t.steps@,
                t == *template,
                ids == crate::model::step_id_seq(t.steps@),
                first_zero_duration(t.steps@) == -1,
                deps@ == steps@[i as int].dependencies@,
                m == deps@.len(),
                forall|j: int|
                    0 <= j < i ==> first_bad_dep(ids, (#[trigger] steps@[j]).dependencies@)
                        == -1,
                forall|j: int|
                    0 <= j < k ==> crate::model::first_index_of(
                        ids,
                        (#[trigger] deps@[j]).step_id@,
                    ) >= 0,
            decreases m - k,
        {
            match crate::model::find_step_index(steps, &deps[k].step_id) {
                Some(_) => {}
                None => {
                    proof {
                        lemma_first_bad_dep(ids, deps@);
                        assert(first_bad_dep(ids, deps@) == k as int);
                        lemma_first_unresolved_step(ids, t.steps@);
                        assert(first_unresolved_step(ids, t.steps@) == i as int);
                    }
                    return Some(
                        SolveError::UnknownDependency(
                            steps[i].id.clone(),
                            deps[k].step_id.clone(),
                        ),
                    );
                }
            }
            k = k + 1;
        }
        proof {
            lemma_first_bad_dep(ids, deps@);
        }
        i = i + 1;
    }
    proof {
        lemma_first_unresolved_step(ids, t.steps@);
    }
    None
}

/// The cycle error's text: the IDs of the steps that carry dependencies,
/// joined with commas.
fn cycle_error_text(steps: &Vec<Step>) -> (r: String)
    ensures
        r@ == crate::strutil::join_with(
            crate::validator::dep_carrier_ids_upto(steps@, steps@.len() as int),
            ", "@,
        ),
{
    let n = steps.len();
    let mut carriers: Vec<String> = Vec::new();
    let mut j: usize = 0;
    while j < n
        invariant
            0 <= j <= n,
            n == steps@.len(),
            crate::validator::str_views(carriers@) =~= crate::validator::dep_carrier_ids_upto(
                steps@,
                j as int,
            ),
        decreases n - j,
    {
        if steps[j].dependencies.len() > 0 {
            let c = steps[j].id.clone();
            proof {
                assert(crate::validator::str_views(carriers@.push(c))
                    =~= crate::validator::str_views(carriers@).push(c@));
            }
            carriers.push(c);
        }
        proof {
            assert(crate::validator::str_views(carriers@)
                =~= crate::validator::dep_carrier_ids_upto(steps@, j as int + 1));
        }
        j = j + 1;
    }
    let joined = crate::strutil::join_strings(&carriers, ", ");
    proof {
        assert(carriers@.map(|_i: int, s2: String| s2@) =~= crate::validator::str_views(
            carriers@,
        ));
    }
    joined
}

/// Builds the solved-step records from the early and late starts: the
/// policy-chosen placement, float, criticality and wall-clock texts.
#[verifier::spinoff_prover]
fn assemble_steps(
    template: &ScheduleTemplate,
    early_starts: &Vec<u32>,
    late_starts: &Vec<u32>,
    max_ef: u32,
) -> (solved: Vec<SolvedStep>)
    requires
        early_starts@.len() == template.steps@.len(),
        late_starts@.len() == template.steps@.len(),
        max_ef <= 0x7FFF_FFFF,
        forall|v: int|
            0 <= v < template.steps@.len() ==> #[trigger] early_starts@[v] <= late_starts@[v],
        forall|v: int|
            0 <= v < template.steps@.len() ==> (#[trigger] late_starts@[v]) as int + durations(
                *template,
            )[v] <= 0x7FFF_FFFF,
        forall|v: int|
            0 <= v < template.steps@.len() ==> (#[trigger] early_starts@[v]) as int + durations(
                *template,
            )[v] <= 0x7FFF_FFFF,
    ensures
        solved@.len() == template.steps@.len(),
        forall|j: int|
            0 <= j < solved@.len() ==> solved_step_matches(
                *template,
                #[trigger] solved@[j],
                early_starts@[j],
                late_starts@[j],
                max_ef as int,
                j,
            ),
{
    let ghost t = *template;
    let steps = &template.steps;
    let n = steps.len();
    let ghost ds = durations(t);
    let base_start: Option<i64> = match &template.time_constraint {
        Some(tc) => match &tc.start_time {
            Some(ss) => crate::timefmt::parse_datetime(ss.as_str()),
            None => None,
        },
        None => None,
    };
    let base_end: Option<i64> = match &template.time_constraint {
        Some(tc) => match &tc.end_time {
            Some(ee) => crate::timefmt::parse_datetime(ee.as_str()),
            None => None,
        },
        None => None,
    };
    let backward: bool = match &template.time_constraint {
        Some(tc) => tc.start_time.is_none() && tc.end_time.is_some(),
        None => false,
    };
    proof {
        assert(base_start == parsed_start(t));
        assert(base_end == parsed_end(t));
        assert(backward == backward_mode(t));
    }
    let mut solved_steps: Vec<SolvedStep> = Vec::new();
    let mut i: usize = 0;
    while i < n
        invariant
            0 <= i <= n,
            n == steps@.len(),
            steps@ == t.steps@,
            t == *template,
            ds == durations(t),
            early_starts@.len() == n,
            late_starts@.len() == n,
            max_ef <= 0x7FFF_FFFF,
            forall|v: int| 0 <= v < n ==> #[trigger] early_starts@[v] <= late_starts@[v],
            forall|v: int|
                0 <= v < n ==> (#[trigger] late_starts@[v]) as int + ds[v] <= 0x7FFF_FFFF,
            forall|v: int|
                0 <= v < n ==> (#[trigger] early_starts@[v]) as int + ds[v] <= 0x7FFF_FFFF,
            base_start == parsed_start(t),
            base_end == parsed_end(t),
            backward == backward_mode(t),
            base_start is Some ==> -0x800_0000_0000 < base_start.unwrap() < 0x800_0000_0000,
            base_end is Some ==> -0x800_0000_0000 < base_end.unwrap() < 0x800_0000_0000,
            solved_steps@.len() == i,
            forall|j: int|
                0 <= j < i ==> solved_step_matches(
                    t,
                    #[trigger] solved_steps@[j],
                    early_starts@[j],
                    late_starts@[j],
                    max_ef as int,
                    j,
                ),
        decreases n - i,
    {
        let es_i = early_starts[i];
        let ls_i = late_starts[i];
        let dur = steps[i].duration_mins;
        proof {
            assert(ds[i as int] == steps@[i as int].duration_mins);
        }
        let alap = match &steps[i].timing_policy {
            Some(TimingPolicy::Alap) => true,
            _ => false,
        };
        let start = if alap {
            ls_i
        } else {
            es_i
        };
        let endv = start + dur;
        let tf = ls_i - es_i;
        let (ws, we): (Option<String>, Option<String>) = if backward {
            match base_end {
                Some(e) => {
                    let ws = crate::timefmt::format_timestamp(
                        e - (max_ef as i64 - start as i64) * 60,
                    );
                    let we = crate::timefmt::format_timestamp(
                        e - (max_ef as i64 - endv as i64) * 60,
                    );
                    (ws, we)
                }
                None => (None, None),
            }
        } else {
            match base_start {
                Some(b) => {
                    let ws = crate::timefmt::format_timestamp(b + start as i64 * 60);
                    let we = crate::timefmt::format_timestamp(b + endv as i64 * 60);
                    (ws, we)
                }
                None => (None, None),
            }
        };
        let st = SolvedStep {
            step_id: steps[i].id.clone(),
            start_offset_mins: start,
            end_offset_mins: endv,
            start_time: ws,
            end_time: we,
            assigned_resources: Vec::new(),
            total_float_mins: tf,
            is_critical: tf == 0,
        };
        proof {
            assert(solved_step_matches(t, st, es_i, ls_i, max_ef as int, i as int));
        }
        solved_steps.push(st);
        i = i + 1;
    }
    solved_steps
}

/// Runs the critical-path pass over a template: rechecks durations,
/// dependency resolution and acyclicity, then computes early and late
/// starts, float, criticality, the policy-chosen initial placement and the
/// wall-clock texts.
#[verifier::spinoff_prover]
#[verifier::rlimit(100)]
pub fn cpm(template: &ScheduleTemplate) -> (r: Result<CpmResult, SolveError>)
    requires
        template.steps@.len() <= 0x7FFF_FFFF,
        sum_durs(durations(*template)) <= 0x7FFF_FFFF,
        crate::graph::dep_total(template.steps@, template.steps@.len() as int) <= 0x7FFF_FFFF,
    ensures
        cpm_ensures(*template, r),
{
    let ghost t = *template;
    let steps = &template.steps;
    let n = steps.len();
    let ghost ds = durations(t);

    match scan_template_errors(template) {
        Some(e) => {
            return Err(e);
        }
        None => {}
    }

    // Topological order; a cycle is fatal.
    let edges = crate::graph::build_dep_edges(steps);
    let order = match crate::graph::topological_order(steps) {
        Some(order) => order,
        None => {
            let joined = cycle_error_text(steps);
            return Err(SolveError::CyclicDependency(joined));
        }
    };
    let pos = build_positions(steps, &edges, &order);

    // Forward sweep, then the early starts as minutes.
    proof {
        crate::graph::lemma_dep_edges_in_range(t.steps@, t.steps@.len() as int);
    }
    let es64 = forward_pass(steps, &edges, &order, &pos);
    let mut early_starts: Vec<u32> = Vec::new();
    let mut i: usize = 0;
    while i < n
        invariant
            0 <= i <= n,
            n == steps@.len(),
            steps@ == t.steps@,
            ds == durations(t),
            sum_durs(ds) <= 0x7FFF_FFFF,
            es64@.len() == n,
            forall|v: int|
                0 <= v < n ==> 0 <= (#[trigger] es64@[v]) as int && es64@[v] as int + ds[v]
                    <= sum_durs(ds),
            early_starts@.len() == i,
            forall|v: int| 0 <= v < i ==> (#[trigger] early_starts@[v]) as int == es64@[v] as int,
        decreases n - i,
    {
        let x = es64[i];
        early_starts.push(x as u32);
        i = i + 1;
    }
    proof {
        assert(to_ints(early_starts@) =~= to_ints64(es64@));
    }

    // Largest early finish.
    let mut max_ef: u32 = 0;
    let mut i: usize = 0;
    while i < n
        invariant
            0 <= i <= n,
            n == steps@.len(),
            steps@ == t.steps@,
            ds == durations(t),
            sum_durs(ds) <= 0x7FFF_FFFF,
            early_starts@.len() == n,
            forall|v: int|
                0 <= v < n ==> 0 <= (#[trigger] early_starts@[v]) as int && early_starts@[v] as int
                    + ds[v] <= sum_durs(ds),
            max_ef as int == max_ef_upto(early_starts@, ds, i as int),
            max_ef <= 0x7FFF_FFFF,
        decreases n - i,
    {
        proof {
            assert(ds[i as int] == steps@[i as int].duration_mins);
        }
        let ef = early_starts[i] + steps[i].duration_mins;
        if ef > max_ef {
            max_ef = ef;
        }
        i = i + 1;
    }

    // The declared window, when both bounds are present and parse.
    let deadline: u32 = match &template.time_constraint {
        Some(tc) => match (&tc.start_time, &tc.end_time) {
            (Some(ss), Some(ee)) => {
                let pa = crate::timefmt::parse_datetime(ss.as_str());
                let pb = crate::timefmt::parse_datetime(ee.as_str());
                match (pa, pb) {
                    (Some(a), Some(b)) => {
                        if b <= a {
                            0
                        } else {
                            let d = (b - a) / 60;
                            if d > 0x7FFF_FFFF {
                                0x7FFF_FFFF
                            } else {
                                d as u32
                            }
                        }
                    }
                    _ => 0,
                }
            }
            _ => 0,
        },
        None => 0,
    };
    proof {
        assert(deadline as int == deadline_component(t));
    }
    let project_end: u32 = if max_ef > deadline {
        max_ef
    } else {
        deadline
    };
    proof {
        assert(project_end as int == project_end_spec(t, early_starts@));
    }

    // Backward sweep, then the late starts as minutes.
    proof {
        lemma_max_ef_upper(early_starts@, ds, n as int);
        assert forall|v: int| 0 <= v < es64@.len() implies 0 <= (#[trigger] es64@[v]) as int
            && es64@[v] as int + durs_of(steps@)[v] <= project_end as int by {
            assert(early_starts@[v] as int == es64@[v] as int);
            assert(early_starts@[v] + ds[v] <= max_ef_upto(early_starts@, ds, n as int));
        }
    }
    let lf = backward_pass(steps, &edges, &order, &pos, &es64, project_end);
    let mut late_starts: Vec<u32> = Vec::new();
    let mut i: usize = 0;
    while i < n
        invariant
            0 <= i <= n,
            n == steps@.len(),
            steps@ == t.steps@,
            ds == durations(t),
            es64@.len() == n,
            lf@.len() == n,
            project_end <= 0x7FFF_FFFF,
            forall|v: int|
                0 <= v < n ==> 0 <= (#[trigger] es64@[v]) as int && es64@[v] as int + ds[v]
                    <= project_end as int,
            forall|v: int|
                0 <= v < n ==> es64@[v] as int + ds[v] <= (#[trigger] lf@[v]) as int
                    <= project_end as int,
            late_starts@.len() == i,
            forall|v: int|
                0 <= v < i ==> (#[trigger] late_starts@[v]) as int == lf@[v] as int - ds[v],
        decreases n - i,
    {
        proof {
            assert(ds[i as int] == steps@[i as int].duration_mins);
        }
        let x = lf[i] - steps[i].duration_mins as i64;
        late_starts.push(x as u32);
        i = i + 1;
    }

    proof {
        assert forall|v: int| 0 <= v < n implies #[trigger] early_starts@[v] <= late_starts@[v]
            && late_starts@[v] as int + ds[v] <= project_end as int && early_starts@[v] as int
            + ds[v] <= 0x7FFF_FFFF by {
            assert(early_starts@[v] as int == es64@[v] as int);
            assert(late_starts@[v] as int == lf@[v] as int - ds[v]);
        }
    }
    let solved_steps = assemble_steps(template, &early_starts, &late_starts, max_ef);
    let result = CpmResult { solved_steps, early_starts, late_starts, project_end };
    proof {
        lemma_cpm_transfer(t, result, es64@, lf@, max_ef as int);
    }
    Ok(result)
}

/// Carries the sweep results over to the minute-valued vectors of the
/// final `CpmResult`.
proof fn lemma_cpm_transfer(
    t: ScheduleTemplate,
    result: CpmResult,
    es64: Seq<i64>,
    lf: Seq<i64>,
    max_ef: int,
)
    requires
        result.early_starts@.len() == t.steps@.len(),
        result.late_starts@.len() == t.steps@.len(),
        result.solved_steps@.len() == t.steps@.len(),
        es64.len() == t.steps@.len(),
        lf.len() == t.steps@.len(),
        forall|v: int|
            0 <= v < t.steps@.len() ==> (#[trigger] result.early_starts@[v]) as int == es64[
                v
            ] as int,
        forall|v: int|
            0 <= v < t.steps@.len() ==> (#[trigger] result.late_starts@[v]) as int == lf[v] as int
                - durations(t)[v],
        forall|v: int|
            0 <= v < t.steps@.len() ==> 0 <= (#[trigger] es64[v]) as int && es64[v] as int
                + durations(t)[v] <= result.project_end as int,
        forall|v: int|
            0 <= v < t.steps@.len() ==> es64[v] as int + durations(t)[v] <= (#[trigger] lf[
                v
            ]) as int <= result.project_end as int,
        es_respects_edges(durations(t), dep_edges(t.steps@), to_ints64(es64)),
        es_tight(durations(t), dep_edges(t.steps@), to_ints64(es64)),
        forall|k: int|
            0 <= k < dep_edges(t.steps@).len() ==> edge_lf_ok(
                durations(t),
                dep_edges(t.steps@),
                lf,
                #[trigger] (k + 0),
            ),
        forall|v: int|
            0 <= v < lf.len() ==> (#[trigger] lf[v]) as int == result.project_end as int
                || exists|k: int|
                0 <= k < dep_edges(t.steps@).len() && edge_lf_eq(
                    durations(t),
                    dep_edges(t.steps@),
                    lf,
                    k,
                    v,
                ),
        result.project_end as int == project_end_spec(t, result.early_starts@),
        forall|j: int|
            0 <= j < t.steps@.len() ==> solved_step_matches(
                t,
                #[trigger] result.solved_steps@[j],
                result.early_starts@[j],
                result.late_starts@[j],
                max_ef,
                j,
            ),
        max_ef == max_ef_upto(result.early_starts@, durations(t), t.steps@.len() as int),
        result.project_end <= 0x7FFF_FFFF,
    ensures
        cpm_post(t, result),
{
    let ds = durations(t);
    let edges = dep_edges(t.steps@);
    let n = t.steps@.len() as int;
    crate::graph::lemma_dep_edges_in_range(t.steps@, n);
    assert(to_ints(result.early_starts@) =~= to_ints64(es64));
    let ls = to_ints(result.late_starts@);
    assert forall|k: int| 0 <= k < edges.len() implies ls[(#[trigger] edges[k]).pred as int]
        + ds[edges[k].pred as int] <= bwd_candidate(
        ls[edges[k].succ as int],
        ds[edges[k].succ as int] as int,
        ds[edges[k].pred as int] as int,
        edges[k].dep,
    ) by {
        assert(edge_lf_ok(ds, edges, lf, k + 0));
        assert(ls[edges[k].pred as int] == lf[edges[k].pred as int] - ds[edges[k].pred as int]);
        assert(ls[edges[k].succ as int] == lf[edges[k].succ as int] - ds[edges[k].succ as int]);
    }
    assert forall|v: int| 0 <= v < ls.len() implies (#[trigger] ls[v]) + ds[v]
        == result.project_end as int || exists|k: int|
        0 <= k < edges.len() && (#[trigger] edges[k]).pred as int == v && ls[v] + ds[v]
            == bwd_candidate(
            ls[edges[k].succ as int],
            ds[edges[k].succ as int] as int,
            ds[edges[k].pred as int] as int,
            edges[k].dep,
        ) by {
        if ls[v] + ds[v] != result.project_end as int {
            assert(lf[v] as int != result.project_end as int);
            let k = choose|k: int|
                0 <= k < edges.len() && edge_lf_eq(ds, edges, lf, k, v);
            assert(edge_lf_eq(ds, edges, lf, k, v));
            assert(edges[k].pred as int == v);
            assert(ls[v] + ds[v] == bwd_candidate(
                ls[edges[k].succ as int],
                ds[edges[k].succ as int] as int,
                ds[edges[k].pred as int] as int,
                edges[k].dep,
            ));
        }
    }
}

} // verus!
