use vstd::prelude::*;
use crate::dfs::{ancestor, dfs_stamps, tree_ends, tree_stamps, zero_stamps};
use crate::problem::{copy_edges, Graph};

verus! {

/// Connectivity of a spanning tree after the removal of up to two of its edges: each
/// vertex falls in component 0 (the root's), 1 or 2.
pub struct TrackConnectivity2<'a> {
    g: &'a Graph,
    tree: Vec<usize>,
    stamps: Vec<(u64, u64)>,
    root: usize,
    sub_a: usize,
    sub_b: usize,
    // cuts made since the markers were last cleared
    cuts: usize,
}

/// Component of `v` given the two cut markers.
pub open spec fn comp_of(stamps: Seq<(u64, u64)>, sub_a: int, sub_b: int, v: int) -> usize {
    if ancestor(stamps, sub_b, v) {
        2
    } else if ancestor(stamps, sub_a, v) {
        1
    } else {
        0
    }
}

impl<'a> TrackConnectivity2<'a> {
    pub closed spec fn graph(&self) -> Graph {
        *self.g
    }

    pub closed spec fn tree_edges(&self) -> Seq<usize> {
        self.tree@
    }

    pub closed spec fn stamps_spec(&self) -> Seq<(u64, u64)> {
        self.stamps@
    }

    pub closed spec fn root_spec(&self) -> usize {
        self.root
    }

    /// How many cuts were made since the markers were last cleared.
    pub closed spec fn cut_count(&self) -> nat {
        self.cuts as nat
    }

    /// The two cut markers, `(sub_a, sub_b)`.
    pub closed spec fn markers(&self) -> (usize, usize) {
        (self.sub_a, self.sub_b)
    }

    pub closed spec fn wf(&self) -> bool {
        &&& self.g.wf()
        &&& self.stamps@.len() == self.g.n
        &&& self.root == 0
        &&& self.sub_a < self.g.n
        &&& self.sub_b < self.g.n
        &&& self.cuts <= 2
        &&& forall|i: int| 0 <= i < self.tree@.len() ==> #[trigger] self.tree@[i] < self.g.ends@.len()
    }

    pub open spec fn comp_spec(&self, v: int) -> usize {
        comp_of(self.stamps_spec(), self.markers().0 as int, self.markers().1 as int, v)
    }

    /// A tracker over `g` with no tree edges yet: all vertices share one component.
    pub fn new(g: &'a Graph) -> (r: Self)
        requires
            g.wf(),
        ensures
            r.wf(),
            r.graph() == *g,
            r.tree_edges().len() == 0,
            r.markers() == (0usize, 0usize),
            r.root_spec() == 0,
            r.cut_count() == 0,
            forall|v: int| 0 <= v < g.n ==> #[trigger] r.comp_spec(v) == 2,
    {
        TrackConnectivity2 {
            g,
            tree: Vec::new(),
            stamps: zero_stamps(g.n),
            root: 0,
            sub_a: 0,
            sub_b: 0,
            cuts: 0,
        }
    }

    fn dfs(&mut self)
        requires
            old(self).wf(),
        ensures
            final(self).wf(),
            final(self).graph() == old(self).graph(),
            final(self).tree_edges() == old(self).tree_edges(),
            final(self).stamps_spec() == dfs_stamps(old(self).graph().n as nat, tree_ends(old(self).graph(), old(self).tree_edges()), 0),
            final(self).markers() == (0usize, 0usize),
            final(self).root_spec() == 0,
            final(self).cut_count() == 0,
    {
        self.stamps = tree_stamps(self.g, self.tree.as_slice());
        self.reset();
    }

    fn is_ancestor_of(&self, ans: usize, v: usize) -> (r: bool)
        requires
            self.wf(),
            ans < self.graph().n,
            v < self.graph().n,
        ensures
            r == ancestor(self.stamps_spec(), ans as int, v as int),
    {
        self.stamps[ans].0 <= self.stamps[v].0 && self.stamps[v].1 <= self.stamps[ans].1
    }

    /// Installs `edges` as the tree, recomputes the search intervals from vertex 0 and
    /// clears both cuts.
    pub fn set_edges(&mut self, edges: &[usize])
        requires
            old(self).wf(),
            forall|i: int| 0 <= i < edges@.len() ==> #[trigger] edges@[i] < old(self).graph().ends@.len(),
        ensures
            final(self).wf(),
            final(self).graph() == old(self).graph(),
            final(self).tree_edges() == edges@,
            final(self).stamps_spec() == dfs_stamps(old(self).graph().n as nat, tree_ends(old(self).graph(), edges@), 0),
            final(self).markers() == (0usize, 0usize),
            final(self).root_spec() == 0,
            final(self).cut_count() == 0,
    {
        self.tree = copy_edges(edges);
        self.dfs();
    }

    /// Clears both cuts, then removes the tree edges `e1` and `e2` in turn; `false`, with
    /// the cuts made so far, as soon as an edge's ends already lie in different
    /// components.
    pub fn disconnect2(&mut self, e1: (usize, usize), e2: (usize, usize)) -> (r: bool)
        requires
            old(self).wf(),
            e1.0 < old(self).graph().n,
            e1.1 < old(self).graph().n,
            e2.0 < old(self).graph().n,
            e2.1 < old(self).graph().n,
        ensures
            final(self).wf(),
            final(self).graph() == old(self).graph(),
            final(self).tree_edges() == old(self).tree_edges(),
            final(self).stamps_spec() == old(self).stamps_spec(),
            final(self).root_spec() == old(self).root_spec(),
            r == Self::cuts_valid(old(self).stamps_spec(), old(self).root_spec(), e1, e2),
            r ==> final(self).markers() == Self::after_cut(
                old(self).stamps_spec(),
                old(self).root_spec(),
                Self::after_cut(
                    old(self).stamps_spec(),
                    old(self).root_spec(),
                    (old(self).root_spec(), old(self).root_spec()),
                    e1,
                ),
                e2,
            ),
    {
        self.reset();
        if !self.is_connected(e1.0, e1.1) {
            return false;
        }
        self.disconnect(e1.0, e1.1);
        if !self.is_connected(e2.0, e2.1) {
            return false;
        }
        self.disconnect(e2.0, e2.1);
        true
    }

    /// Whether, from uncut markers at `root`, the ends of `e1` share a component and,
    /// after cutting `e1`, the ends of `e2` do too.
    pub open spec fn cuts_valid(stamps: Seq<(u64, u64)>, root: usize, e1: (usize, usize), e2: (usize, usize)) -> bool {
        let m1 = Self::after_cut(stamps, root, (root, root), e1);
        &&& comp_of(stamps, root as int, root as int, e1.0 as int) == comp_of(stamps, root as int, root as int, e1.1 as int)
        &&& comp_of(stamps, m1.0 as int, m1.1 as int, e2.0 as int) == comp_of(stamps, m1.0 as int, m1.1 as int, e2.1 as int)
    }

    /// Whether an end point of `e1` or `e2` lies in component `c`.
    pub open spec fn touches(&self, e1: (usize, usize), e2: (usize, usize), c: usize) -> bool {
        c == self.comp_spec(e1.0 as int) || c == self.comp_spec(e1.1 as int) || c == self.comp_spec(e2.0 as int)
            || c == self.comp_spec(e2.1 as int)
    }

    /// Whether the four end points of the two candidate edges, each of which joins two
    /// components, meet all three components.
    pub fn check_reconnect(&mut self, e1: (usize, usize), e2: (usize, usize)) -> (r: bool)
        requires
            old(self).wf(),
            e1.0 < old(self).graph().n,
            e1.1 < old(self).graph().n,
            e2.0 < old(self).graph().n,
            e2.1 < old(self).graph().n,
            old(self).comp_spec(e1.0 as int) != old(self).comp_spec(e1.1 as int),
            old(self).comp_spec(e2.0 as int) != old(self).comp_spec(e2.1 as int),
        ensures
            *final(self) == *old(self),
            r == (old(self).touches(e1, e2, 0) && old(self).touches(e1, e2, 1) && old(self).touches(e1, e2, 2)),
    {
        let mut con: Vec<bool> = vec![false, false, false];
        let a = self.comp(e1.0);
        let b = self.comp(e1.1);
        let c = self.comp(e2.0);
        let d = self.comp(e2.1);
        con.set(a, true);
        con.set(b, true);
        con.set(c, true);
        con.set(d, true);
        let r = con[0] && con[1] && con[2];
        r
    }

    /// Whether `u` and `v` are in the same component.
    pub fn is_connected(&self, u: usize, v: usize) -> (r: bool)
        requires
            self.wf(),
            u < self.graph().n,
            v < self.graph().n,
        ensures
            r == (self.comp_spec(u as int) == self.comp_spec(v as int)),
    {
        self.comp(u) == self.comp(v)
    }

    /// The markers after removing the tree edge `e` (deeper end `r`), from markers
    /// `cur`: a cut inside component 0 becomes `sub_a` and pushes the old one to
    /// `sub_b`; a cut inside component 1 becomes `sub_b`; a cut inside component 2
    /// becomes `sub_b`, or both markers when no first cut is recorded.
    pub open spec fn after_cut(
        stamps: Seq<(u64, u64)>,
        root: usize,
        cur: (usize, usize),
        e: (usize, usize),
    ) -> (usize, usize) {
        let r = if ancestor(stamps, e.0 as int, e.1 as int) { e.1 } else { e.0 };
        let c = comp_of(stamps, cur.0 as int, cur.1 as int, r as int);
        if c == 0 {
            (r, cur.0)
        } else if c == 1 {
            (cur.0, r)
        } else if root == cur.0 {
            (r, r)
        } else {
            (cur.0, r)
        }
    }

    /// Removes the tree edge `(u, v)`, whose ends share a component, and reclassifies
    /// the components; at most two cuts stand between clearings.
    pub fn disconnect(&mut self, u: usize, v: usize)
        requires
            old(self).wf(),
            u < old(self).graph().n,
            v < old(self).graph().n,
            old(self).cut_count() < 2,
            old(self).comp_spec(u as int) == old(self).comp_spec(v as int),
        ensures
            final(self).cut_count() == old(self).cut_count() + 1,
            final(self).wf(),
            final(self).graph() == old(self).graph(),
            final(self).tree_edges() == old(self).tree_edges(),
            final(self).stamps_spec() == old(self).stamps_spec(),
            final(self).root_spec() == old(self).root_spec(),
            final(self).markers() == Self::after_cut(
                old(self).stamps_spec(),
                old(self).root_spec(),
                old(self).markers(),
                (u, v),
            ),
    {
        let r = if self.is_ancestor_of(u, v) { v } else { u };
        let comp = self.comp(r);
        self.cuts = self.cuts + 1;
        if comp == 0 {
            self.sub_b = self.sub_a;
            self.sub_a = r;
        } else if comp == 1 {
            self.sub_b = r;
        } else {
            if self.root == self.sub_a {
                self.sub_a = r;
                self.sub_b = r;
            } else {
                self.sub_b = r;
            }
        }
    }

    /// Component of `v`: 2 under `sub_b`, else 1 under `sub_a`, else 0.
    pub fn comp(&self, v: usize) -> (r: usize)
        requires
            self.wf(),
            v < self.graph().n,
        ensures
            r == self.comp_spec(v as int),
            r < 3,
    {
        if self.is_ancestor_of(self.sub_b, v) {
            2
        } else if self.is_ancestor_of(self.sub_a, v) {
            1
        } else {
            0
        }
    }

    /// Clears both cuts.
    pub fn reset(&mut self)
        requires
            old(self).wf(),
        ensures
            final(self).wf(),
            final(self).graph() == old(self).graph(),
            final(self).tree_edges() == old(self).tree_edges(),
            final(self).stamps_spec() == old(self).stamps_spec(),
            final(self).root_spec() == old(self).root_spec(),
            final(self).markers() == (old(self).root_spec(), old(self).root_spec()),
            final(self).cut_count() == 0,
    {
        self.sub_a = self.root;
        self.sub_b = self.root;
        self.cuts = 0;
    }
}

} // verus!
