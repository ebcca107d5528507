use vstd::prelude::*;
use fera::graph::prelude::{DefaultVertexPropMut, StaticGraph, VertexList, WithBuilder, WithVertex};
use fera::graph::traverse::{OnDiscoverVertex, OnFinishVertex, RecursiveDfs, StampTime, Time};
use crate::problem::Graph;

verus! {

/// Discover and finish times of each vertex in a recursive depth-first search from
/// `root` over the graph on `n` vertices with the edges `ends`.
pub uninterp spec fn dfs_stamps(n: nat, ends: Seq<(usize, usize)>, root: nat) -> Seq<(u64, u64)>;

/// Relies on fera's `StaticGraph::new_with_edges` and `recursive_dfs` with `StampTime`
/// visitors: one (discover, finish) pair per vertex, in vertex order; the times depend
/// on the graph and the root alone.
#[verifier::external_body]
fn dfs_times(n: usize, ends: &Vec<(usize, usize)>, root: usize) -> (r: Vec<(u64, u64)>)
    requires
        root < n < u32::MAX,
        forall|i: int| 0 <= i < ends@.len() ==> #[trigger] ends@[i].0 < n && ends@[i].1 < n,
    ensures
        r@ == dfs_stamps(n as nat, ends@, root as nat),
        r@.len() == n,
{
    let g = StaticGraph::new_with_edges(n, ends.iter().cloned());
    let time = Time::default();
    let mut d: DefaultVertexPropMut<StaticGraph, u64> = g.vertex_prop(0);
    let mut f: DefaultVertexPropMut<StaticGraph, u64> = g.vertex_prop(0);
    let stamps = (OnDiscoverVertex(StampTime(&time, &mut d)), OnFinishVertex(StampTime(&time, &mut f)));
    g.recursive_dfs(stamps).root(root as u32).run();
    g.vertices().map(|v| (d[v], f[v])).collect()
}

/// The end points of the edges listed in `tree`.
pub open spec fn tree_ends(g: Graph, tree: Seq<usize>) -> Seq<(usize, usize)> {
    Seq::new(tree.len(), |i: int| g.ends@[tree[i] as int])
}

/// Whether `a` is an ancestor of `v` (or `v` itself) by the intervals of `stamps`.
pub open spec fn ancestor(stamps: Seq<(u64, u64)>, a: int, v: int) -> bool {
    stamps[a].0 <= stamps[v].0 && stamps[v].1 <= stamps[a].1
}

/// `n` zero stamps, before any search.
pub fn zero_stamps(n: usize) -> (r: Vec<(u64, u64)>)
    ensures
        r@.len() == n,
        forall|v: int| 0 <= v < n ==> #[trigger] r@[v] == (0u64, 0u64),
{
    let mut r: Vec<(u64, u64)> = Vec::with_capacity(n);
    let mut i: usize = 0;
    while i < n
        invariant
            0 <= i <= n,
            r@.len() == i,
            forall|v: int| 0 <= v < i ==> #[trigger] r@[v] == (0u64, 0u64),
        decreases n - i,
    {
        r.push((0, 0));
        i += 1;
    }
    r
}

/// Stamps of a depth-first search from vertex 0 over the edges `tree` of `g`.
pub fn tree_stamps(g: &Graph, tree: &[usize]) -> (r: Vec<(u64, u64)>)
    requires
        g.wf(),
        forall|i: int| 0 <= i < tree@.len() ==> #[trigger] tree@[i] < g.ends@.len(),
    ensures
        r@ == dfs_stamps(g.n as nat, tree_ends(*g, tree@), 0),
        r@.len() == g.n,
{
    let mut ends: Vec<(usize, usize)> = Vec::new();
    let mut i: usize = 0;
    while i < tree.len()
        invariant
            g.wf(),
            forall|j: int| 0 <= j < tree@.len() ==> #[trigger] tree@[j] < g.ends@.len(),
            0 <= i <= tree@.len(),
            ends@ == tree_ends(*g, tree@.take(i as int)),
        decreases tree@.len() - i,
    {
        ends.push(g.ends[tree[i]]);
        i += 1;
        proof {
            assert(ends@ =~= tree_ends(*g, tree@.take(i as int)));
        }
    }
    proof {
        assert(tree@.take(i as int) =~= tree@);
        assert forall|j: int| 0 <= j < ends@.len() implies #[trigger] ends@[j].0 < g.n && ends@[j].1 < g.n by {
            assert(ends@[j] == g.ends@[tree@[j] as int]);
        }
    }
    dfs_times(g.n, &ends, 0)
}

} // verus!
