use vstd::prelude::*;
use crate::dfs::{ancestor, dfs_stamps, tree_ends, tree_stamps, zero_stamps};
use crate::problem::{copy_edges, Graph};

verus! {

/// Connectivity of a spanning tree after the removal of one of its edges, answered
/// in constant time from depth-first search intervals.
pub struct TrackConnectivity1<'a> {
    g: &'a Graph,
    tree: Vec<usize>,
    stamps: Vec<(u64, u64)>,
    root: usize,
    sub: usize,
    cut: bool,
}

impl<'a> TrackConnectivity1<'a> {
    pub closed spec fn graph(&self) -> Graph {
        *self.g
    }

    /// The edges of the current tree.
    pub closed spec fn tree_edges(&self) -> Seq<usize> {
        self.tree@
    }

    /// (discover, finish) time of each vertex.
    pub closed spec fn stamps_spec(&self) -> Seq<(u64, u64)> {
        self.stamps@
    }

    /// The root of the cut-off subtree, if an edge is removed.
    pub closed spec fn cut_vertex(&self) -> Option<usize> {
        if self.cut {
            Some(self.sub)
        } else {
            None
        }
    }

    pub closed spec fn wf(&self) -> bool {
        &&& self.g.wf()
        &&& self.stamps@.len() == self.g.n
        &&& self.root == 0
        &&& self.sub < self.g.n
        &&& forall|i: int| 0 <= i < self.tree@.len() ==> #[trigger] self.tree@[i] < self.g.ends@.len()
    }

    pub open spec fn in_subtree(&self, a: int, v: int) -> bool {
        ancestor(self.stamps_spec(), a, v)
    }

    /// A tracker over `g` with no tree edges yet.
    pub fn new(g: &'a Graph) -> (r: Self)
        requires
            g.wf(),
        ensures
            r.wf(),
            r.graph() == *g,
            r.tree_edges().len() == 0,
            r.cut_vertex() is None,
    {
        TrackConnectivity1 { g, tree: Vec::new(), stamps: zero_stamps(g.n), root: 0, sub: 0, cut: false }
    }

    fn dfs(&mut self)
        requires
            old(self).wf(),
        ensures
            final(self).wf(),
            final(self).graph() == old(self).graph(),
            final(self).tree_edges() == old(self).tree_edges(),
            final(self).stamps_spec() == dfs_stamps(old(self).graph().n as nat, tree_ends(old(self).graph(), old(self).tree_edges()), 0),
            final(self).cut_vertex() is None,
    {
        self.stamps = tree_stamps(self.g, self.tree.as_slice());
        self.sub = self.root;
        self.cut = false;
    }

    fn is_ancestor_of(&self, ans: usize, v: usize) -> (r: bool)
        requires
            self.wf(),
            ans < self.graph().n,
            v < self.graph().n,
        ensures
            r == self.in_subtree(ans as int, v as int),
    {
        self.stamps[ans].0 <= self.stamps[v].0 && self.stamps[v].1 <= self.stamps[ans].1
    }

    /// Installs `edges` as the tree, recomputes the search intervals from vertex 0 and
    /// clears the cut.
    pub fn set_edges(&mut self, edges: &[usize])
        requires
            old(self).wf(),
            forall|i: int| 0 <= i < edges@.len() ==> #[trigger] edges@[i] < old(self).graph().ends@.len(),
        ensures
            final(self).wf(),
            final(self).graph() == old(self).graph(),
            final(self).tree_edges() == edges@,
            final(self).stamps_spec() == dfs_stamps(old(self).graph().n as nat, tree_ends(old(self).graph(), edges@), 0),
            final(self).cut_vertex() is None,
    {
        self.tree = copy_edges(edges);
        self.dfs();
    }

    /// Whether `u` and `v` lie on the same side of the cut; always true without a cut.
    pub fn is_connected(&self, u: usize, v: usize) -> (r: bool)
        requires
            self.wf(),
            u < self.graph().n,
            v < self.graph().n,
        ensures
            r == match self.cut_vertex() {
                None => true,
                Some(s) => self.in_subtree(s as int, u as int) == self.in_subtree(s as int, v as int),
            },
    {
        if !self.cut {
            return true;
        }
        if self.is_ancestor_of(self.sub, u) {
            self.is_ancestor_of(self.sub, v)
        } else {
            !self.is_ancestor_of(self.sub, v)
        }
    }

    /// Removes the tree edge `(u, v)`: the cut-off subtree is rooted at the deeper end.
    /// A cut made earlier is forgotten.
    pub fn disconnect(&mut self, u: usize, v: usize)
        requires
            old(self).wf(),
            u < old(self).graph().n,
            v < old(self).graph().n,
        ensures
            final(self).wf(),
            final(self).graph() == old(self).graph(),
            final(self).tree_edges() == old(self).tree_edges(),
            final(self).stamps_spec() == old(self).stamps_spec(),
            final(self).cut_vertex() == Some(if old(self).in_subtree(u as int, v as int) { v } else { u }),
    {
        self.sub = if self.is_ancestor_of(u, v) { v } else { u };
        self.cut = true;
    }

    /// Puts `ins` in place of `rem` in the tree and recomputes the search intervals.
    pub fn replace_edge(&mut self, rem: usize, ins: usize)
        requires
            old(self).wf(),
            ins < old(self).graph().ends@.len(),
        ensures
            final(self).wf(),
            final(self).graph() == old(self).graph(),
            final(self).tree_edges().len() == old(self).tree_edges().len(),
            forall|i: int|
                0 <= i < old(self).tree_edges().len() ==> #[trigger] final(self).tree_edges()[i] == if old(
                    self,
                ).tree_edges()[i] == rem {
                    ins
                } else {
                    old(self).tree_edges()[i]
                },
            final(self).stamps_spec() == dfs_stamps(
                old(self).graph().n as nat,
                tree_ends(old(self).graph(), final(self).tree_edges()),
                0,
            ),
            final(self).cut_vertex() is None,
    {
        let mut i: usize = 0;
        while i < self.tree.len()
            invariant
                self.wf(),
                self.g == old(self).g,
                ins < self.graph().ends@.len(),
                self.tree@.len() == old(self).tree@.len(),
                0 <= i <= self.tree@.len(),
                forall|j: int|
                    0 <= j < self.tree@.len() ==> #[trigger] self.tree@[j] == if j < i && old(self).tree@[j] == rem {
                        ins
                    } else {
                        old(self).tree@[j]
                    },
            decreases self.tree@.len() - i,
        {
            if self.tree[i] == rem {
                self.tree.set(i, ins);
            }
            i += 1;
        }
        self.dfs();
    }
}

} // verus!
