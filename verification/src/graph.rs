//! The dependency graph: extraction of typed edges from a template, the
//! spec-level notion of a cycle, and the trusted calls into petgraph that
//! detect cycles and produce a topological order.

use vstd::prelude::*;

use crate::model::{first_index_of, step_id_seq, DependencyType, Step, StepDependency};

verus! {

/// One dependency edge: the predecessor and successor step indices and the
/// relation type the dependency carries.
#[derive(Debug, Clone, Copy)]
pub struct DepEdge {
    pub pred: usize,
    pub succ: usize,
    pub dep: DependencyType,
}

/// Whether `edges` holds an edge from `u` to `v`.
pub open spec fn edge_in(edges: Seq<(usize, usize)>, u: int, v: int) -> bool {
    exists|k: int| 0 <= k < edges.len() && edges[k].0 == u && edges[k].1 == v
}

/// Whether `path` walks along `edges` from its first node back to itself.
pub open spec fn is_cycle_path(edges: Seq<(usize, usize)>, path: Seq<int>) -> bool {
    &&& path.len() >= 2
    &&& path[0] == path[path.len() - 1]
    &&& forall|i: int| 0 <= i < path.len() - 1 ==> edge_in(edges, #[trigger] path[i], path[i + 1])
}

/// Whether the directed graph given by `edges` contains a cycle.
pub open spec fn has_cycle(edges: Seq<(usize, usize)>) -> bool {
    exists|path: Seq<int>| is_cycle_path(edges, path)
}

/// The untyped (predecessor, successor) pairs of a typed edge sequence.
pub open spec fn edge_pairs(edges: Seq<DepEdge>) -> Seq<(usize, usize)> {
    edges.map(|_i: int, e: DepEdge| (e.pred, e.succ))
}

/// The edges contributed by the dependency list `deps` of the step at index
/// `succ`: one edge per dependency whose step ID resolves against `ids`, in
/// list order.
pub open spec fn resolved_edges_of_deps(
    ids: Seq<Seq<char>>,
    deps: Seq<StepDependency>,
    succ: usize,
) -> Seq<DepEdge>
    decreases deps.len(),
{
    if deps.len() == 0 {
        Seq::empty()
    } else {
        let rest = resolved_edges_of_deps(ids, deps.drop_last(), succ);
        let d = deps[deps.len() - 1];
        let p = first_index_of(ids, d.step_id@);
        if p >= 0 {
            rest.push(
                DepEdge { pred: p as usize, succ, dep: d.dependency_type },
            )
        } else {
            rest
        }
    }
}

/// The resolved dependency edges of the first `j` steps, in step order.
pub open spec fn dep_edges_upto(steps: Seq<Step>, j: int) -> Seq<DepEdge>
    decreases j,
{
    if j <= 0 {
        Seq::empty()
    } else {
        dep_edges_upto(steps, j - 1) + resolved_edges_of_deps(
            step_id_seq(steps),
            steps[j - 1].dependencies@,
            (j - 1) as usize,
        )
    }
}

/// All resolved dependency edges of a template's steps. Dependencies whose
/// predecessor ID does not resolve contribute no edge.
pub open spec fn dep_edges(steps: Seq<Step>) -> Seq<DepEdge> {
    dep_edges_upto(steps, steps.len() as int)
}

/// The total dependency count of the first `j` steps.
pub open spec fn dep_total(steps: Seq<Step>, j: int) -> int
    decreases j,
{
    if j <= 0 {
        0
    } else {
        dep_total(steps, j - 1) + steps[j - 1].dependencies@.len()
    }
}

proof fn lemma_resolved_edges_len(ids: Seq<Seq<char>>, deps: Seq<StepDependency>, succ: usize)
    ensures
        resolved_edges_of_deps(ids, deps, succ).len() <= deps.len(),
    decreases deps.len(),
{
    if deps.len() > 0 {
        lemma_resolved_edges_len(ids, deps.drop_last(), succ);
    }
}

/// There is at most one edge per declared dependency.
pub proof fn lemma_dep_edges_len(steps: Seq<Step>, j: int)
    ensures
        dep_edges_upto(steps, j).len() <= dep_total(steps, j),
        dep_total(steps, j) >= 0,
    decreases j,
{
    if j > 0 {
        lemma_dep_edges_len(steps, j - 1);
        lemma_resolved_edges_len(step_id_seq(steps), steps[j - 1].dependencies@, (j - 1) as usize);
    }
}

/// Every edge endpoint produced by `resolved_edges_of_deps` is in range.
proof fn lemma_resolved_edges_in_range(
    ids: Seq<Seq<char>>,
    deps: Seq<StepDependency>,
    succ: usize,
)
    requires
        succ < ids.len(),
    ensures
        forall|k: int|
            0 <= k < resolved_edges_of_deps(ids, deps, succ).len() ==> {
                &&& (#[trigger] resolved_edges_of_deps(ids, deps, succ)[k]).pred < ids.len()
                &&& resolved_edges_of_deps(ids, deps, succ)[k].succ == succ
            },
    decreases deps.len(),
{
    if deps.len() > 0 {
        lemma_resolved_edges_in_range(ids, deps.drop_last(), succ);
        let d = deps[deps.len() - 1];
        crate::model::lemma_first_index_of(ids, d.step_id@);
    }
}

/// Every edge endpoint in `dep_edges_upto` is in range.
pub proof fn lemma_dep_edges_in_range(steps: Seq<Step>, j: int)
    requires
        j <= steps.len(),
    ensures
        forall|k: int|
            0 <= k < dep_edges_upto(steps, j).len() ==> {
                &&& (#[trigger] dep_edges_upto(steps, j)[k]).pred < steps.len()
                &&& dep_edges_upto(steps, j)[k].succ < steps.len()
            },
    decreases j,
{
    if j > 0 {
        lemma_dep_edges_in_range(steps, j - 1);
        lemma_resolved_edges_in_range(step_id_seq(steps), steps[j - 1].dependencies@, (j - 1) as usize);
    }
}

/// Builds the resolved dependency edges of `steps`, exactly as `dep_edges`
/// describes them.
pub fn build_dep_edges(steps: &Vec<Step>) -> (edges: Vec<DepEdge>)
    ensures
        edges@ == dep_edges(steps@),
{
    let n = steps.len();
    let mut edges: Vec<DepEdge> = Vec::new();
    let mut j: usize = 0;
    while j < n
        invariant
            0 <= j <= n,
            n == steps@.len(),
            edges@ == dep_edges_upto(steps@, j as int),
        decreases n - j,
    {
        let deps = &steps[j].dependencies;
        let m = deps.len();
        let mut k: usize = 0;
        while k < m
            invariant
                0 <= k <= m,
                0 <= j < n,
                n == steps@.len(),
                m == steps@[j as int].dependencies@.len(),
                deps@ == steps@[j as int].dependencies@,
                edges@ == dep_edges_upto(steps@, j as int) + resolved_edges_of_deps(
                    step_id_seq(steps@),
                    steps@[j as int].dependencies@.take(k as int),
                    j,
                ),
            decreases m - k,
        {
            proof {
                assert(deps@.take(k as int + 1).drop_last() =~= deps@.take(k as int));
                assert(deps@.take(k as int + 1)[k as int] == deps@[k as int]);
            }
            match crate::model::find_step_index(steps, &deps[k].step_id) {
                Some(p) => {
                    edges.push(DepEdge { pred: p, succ: j, dep: deps[k].dependency_type });
                }
                None => {}
            }
            k = k + 1;
        }
        proof {
            assert(steps@[j as int].dependencies@.take(m as int) =~= steps@[
                j as int
            ].dependencies@);
        }
        j = j + 1;
    }
    edges
}

/// Builds the untyped pairs of an edge list, as `edge_pairs` describes.
pub fn build_edge_pairs(edges: &Vec<DepEdge>) -> (pairs: Vec<(usize, usize)>)
    ensures
        pairs@ == edge_pairs(edges@),
{
    let n = edges.len();
    let mut pairs: Vec<(usize, usize)> = Vec::new();
    let mut i: usize = 0;
    while i < n
        invariant
            0 <= i <= n,
            n == edges@.len(),
            pairs@ =~= edge_pairs(edges@.take(i as int)),
        decreases n - i,
    {
        proof {
            assert(edges@.take(i as int + 1)[i as int] == edges@[i as int]);
            assert(edge_pairs(edges@.take(i as int + 1)) =~= edge_pairs(edges@.take(i as int)).push(
                (edges@[i as int].pred, edges@[i as int].succ),
            ));
        }
        pairs.push((edges[i].pred, edges[i].succ));
        i = i + 1;
    }
    proof {
        assert(edges@.take(n as int) =~= edges@);
    }
    pairs
}

/// Relies on petgraph's `toposort`: on an acyclic graph it returns the nodes
/// in topological order — each node placed before its successors — and on a
/// cyclic graph it reports the cycle (a self loop counts as one). Nodes are
/// `0..n`; node indices are handed out sequentially, so they translate back
/// to positions directly. `toposort` is iterative, and the node and edge
/// counts are held below the graph's index bound, so the call returns
/// normally on every admitted input.
#[verifier::external_body]
fn petgraph_toposort(n: usize, edges: &Vec<(usize, usize)>) -> (r: Option<Vec<usize>>)
    requires
        n <= 0x7FFF_FFFF,
        edges@.len() <= 0x7FFF_FFFF,
        forall|k: int| 0 <= k < edges@.len() ==> (#[trigger] edges@[k]).0 < n && edges@[k].1 < n,
    ensures
        match r {
            Some(order) => {
                &&& order@.len() == n
                &&& forall|i: int| 0 <= i < order@.len() ==> (#[trigger] order@[i]) < n
                &&& forall|i: int, j: int|
                    0 <= i < j < order@.len() ==> order@[i] != order@[j]
                &&& forall|v: usize| v < n ==> #[trigger] order@.contains(v)
                &&& forall|k: int, i: int, j: int|
                    #![trigger edges@[k], order@[i], order@[j]]
                    0 <= k < edges@.len() && 0 <= i < n && 0 <= j < n && order@[i] == edges@[k].0
                        && order@[j] == edges@[k].1 ==> i < j
                &&& !has_cycle(edges@)
            },
            None => has_cycle(edges@),
        },
{
    let mut g: petgraph::graph::DiGraph<(), ()> =
        petgraph::graph::DiGraph::with_capacity(n, edges.len());
    let nodes: Vec<petgraph::graph::NodeIndex> = (0..n).map(|_| g.add_node(())).collect();
    for &(u, v) in edges.iter() {
        g.add_edge(nodes[u], nodes[v], ());
    }
    match petgraph::algo::toposort(&g, None) {
        Ok(order) => Some(order.into_iter().map(|ni| ni.index()).collect()),
        Err(_) => None,
    }
}

/// Whether the resolved dependency edges of `steps` form a cycle.
pub fn detect_cycle(steps: &Vec<Step>) -> (r: bool)
    requires
        steps@.len() <= 0x7FFF_FFFF,
        dep_total(steps@, steps@.len() as int) <= 0x7FFF_FFFF,
    ensures
        r == has_cycle(edge_pairs(dep_edges(steps@))),
{
    match topological_order(steps) {
        Some(_) => false,
        None => true,
    }
}

/// A topological order of the resolved dependency edges of `steps`, or
/// `None` when they form a cycle.
pub fn topological_order(steps: &Vec<Step>) -> (r: Option<Vec<usize>>)
    requires
        steps@.len() <= 0x7FFF_FFFF,
        dep_total(steps@, steps@.len() as int) <= 0x7FFF_FFFF,
    ensures
        match r {
            Some(order) => {
                &&& order@.len() == steps@.len()
                &&& forall|i: int| 0 <= i < order@.len() ==> (#[trigger] order@[i]) < steps@.len()
                &&& forall|i: int, j: int|
                    0 <= i < j < order@.len() ==> order@[i] != order@[j]
                &&& forall|v: usize| v < steps@.len() ==> #[trigger] order@.contains(v)
                &&& forall|k: int, i: int, j: int|
                    #![trigger dep_edges(steps@)[k], order@[i], order@[j]]
                    0 <= k < dep_edges(steps@).len() && 0 <= i < steps@.len() && 0 <= j
                        < steps@.len() && order@[i] == dep_edges(steps@)[k].pred
                        && order@[j] == dep_edges(steps@)[k].succ ==> i < j
                &&& !has_cycle(edge_pairs(dep_edges(steps@)))
            },
            None => has_cycle(edge_pairs(dep_edges(steps@))),
        },
{
    let edges = build_dep_edges(steps);
    let pairs = build_edge_pairs(&edges);
    proof {
        lemma_dep_edges_in_range(steps@, steps@.len() as int);
        lemma_dep_edges_len(steps@, steps@.len() as int);
    }
    let r = petgraph_toposort(steps.len(), &pairs);
    proof {
        if r is Some {
            let order = r.unwrap()@;
            assert forall|k: int, i: int, j: int|
                #![trigger dep_edges(steps@)[k], order[i], order[j]]
                0 <= k < dep_edges(steps@).len() && 0 <= i < steps@.len() && 0 <= j < steps@.len()
                    && order[i] == dep_edges(steps@)[k].pred
                    && order[j] == dep_edges(steps@)[k].succ implies i < j by {
                assert(edge_pairs(dep_edges(steps@))[k].0 == dep_edges(steps@)[k].pred);
                assert(edge_pairs(dep_edges(steps@))[k].1 == dep_edges(steps@)[k].succ);
            }
        }
    }
    r
}

} // verus!
