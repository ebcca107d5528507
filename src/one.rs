use vstd::prelude::*;
use crate::conflicts::{conflict_count, lemma_add_one, pair_count, TrackConflicts};
use crate::counting::occ;
use crate::problem::lemma_occ_distinct;
use crate::connectivity1::TrackConnectivity1;
use crate::dfs::ancestor;
use crate::ils::LocalSearch;
use crate::utils::log_improvement;
use crate::counting::lemma_sum_point;
use crate::dfs::{dfs_stamps, tree_ends};
use crate::order::{distinct, sort_by_keys};
use crate::problem::{
    edge_set, weight_fn, Graph, lemma_obj_exchange, lemma_obj_nonneg, lemma_weight_bound, lemma_weight_change, weight_set,
    MstCcProblem,
};

verus! {

/// Objective of edge `e` on its own: its weight and its conflicts with the set `member`.
pub open spec fn edge_obj(p: MstCcProblem, member: Seq<bool>, e: int) -> int {
    p.obj_of(p.w@[e] as int, conflict_count(p, member, e))
}

/// Objective of the set `member`.
pub open spec fn set_obj(p: MstCcProblem, member: Seq<bool>) -> int {
    p.obj_of(weight_set(p, member), pair_count(p, member))
}

/// Whether the non-tree edge `ins` reconnects the two sides left by removing the tree
/// edge `rem`, by the search intervals `stamps`.
pub open spec fn crosses(stamps: Seq<(u64, u64)>, g: Graph, rem: int, ins: int) -> bool {
    let a = g.ends@[rem].0 as int;
    let b = g.ends@[rem].1 as int;
    let s = if ancestor(stamps, a, b) { b } else { a };
    ancestor(stamps, s, g.ends@[ins].0 as int) != ancestor(stamps, s, g.ends@[ins].1 as int)
}

/// With the tree `member` and its search intervals `stamps`, exchanging the tree edge
/// `rem` for `ins` lowers the objective and reconnects the tree.
pub open spec fn improving_in(p: MstCcProblem, member: Seq<bool>, stamps: Seq<(u64, u64)>, rem: int, ins: int) -> bool {
    let t1 = member.update(rem, false);
    &&& edge_obj(p, t1, ins) < edge_obj(p, t1, rem)
    &&& crosses(stamps, p.g, rem, ins)
}

/// The members of `member` below `e`.
pub open spec fn prefix_set(member: Seq<bool>, e: int) -> Seq<bool> {
    Seq::new(member.len(), |f: int| f < e && member[f])
}

/// Putting `rem` back into the set `t1` raises another edge's objective by at most
/// `beta` (one conflict), and never lowers it.
pub proof fn lemma_key_shift(p: MstCcProblem, t1: Seq<bool>, rem: int, x: int)
    requires
        p.wf(),
        t1.len() == p.m(),
        0 <= rem < p.m(),
        0 <= x < p.m(),
        !t1[rem],
    ensures
        edge_obj(p, t1, x) <= edge_obj(p, t1.update(rem, true), x) <= edge_obj(p, t1, x) + p.beta,
{
    lemma_add_one(p, t1, rem);
    lemma_occ_distinct(p.cc[rem]@, x as usize);
    let c = conflict_count(p, t1, x);
    let o = occ(p.cc[rem]@, x as usize) as int;
    assert(conflict_count(p, t1.update(rem, true), x) == c + o);
    let b = p.beta as int;
    assert(b * (c + o) == b * c + b * o) by (nonlinear_arith);
    assert(0 <= b * o <= b) by (nonlinear_arith)
        requires
            0 <= o <= 1,
            b >= 0,
    ;
}

/// Ascending between neighbours is ascending between any two.
pub proof fn lemma_sorted(f: spec_fn(int) -> int, n: int, i: int, j: int)
    requires
        forall|k: int| 0 <= k < n - 1 ==> #[trigger] f(k) <= f(k + 1),
        0 <= i <= j < n,
    ensures
        f(i) <= f(j),
    decreases j - i,
{
    if i < j {
        lemma_sorted(f, n, i, j - 1);
        assert(f(j - 1) <= f(j));
    }
}

/// Local search over the 1-exchange neighbourhood: take one edge out of the tree and
/// put one non-tree edge that reconnects it in, first improvement first.
pub struct OneEdgeReplacement<'a> {
    p: &'a MstCcProblem,
    non_tree: Vec<usize>,
    conflicts: TrackConflicts<'a>,
    connectivity: TrackConnectivity1<'a>,
    weight: u64,
    num_conflicts: u32,
    pub sort: bool,
    pub stop_on_feasible: bool,
}

impl<'a> OneEdgeReplacement<'a> {
    pub closed spec fn prob(&self) -> MstCcProblem {
        *self.p
    }

    /// The edges that are tracked as in the tree.
    pub closed spec fn members(&self) -> Seq<bool> {
        self.conflicts.members()
    }

    pub closed spec fn sorting(&self) -> bool {
        self.sort
    }

    pub closed spec fn stopping(&self) -> bool {
        self.stop_on_feasible
    }

    pub closed spec fn non_tree_spec(&self) -> Seq<usize> {
        self.non_tree@
    }

    pub closed spec fn weight_spec(&self) -> int {
        self.weight as int
    }

    pub closed spec fn num_conflicts_spec(&self) -> int {
        self.num_conflicts as int
    }

    pub closed spec fn inv(&self) -> bool {
        &&& self.p.wf()
        &&& self.conflicts.wf()
        &&& self.conflicts.prob() == *self.p
        &&& self.connectivity.wf()
        &&& self.connectivity.graph() == self.p.g
    }

    /// The engine is in step with `tree`: the trackers hold its edges, the non-tree
    /// list holds edges outside it, and the running totals are exact.
    pub open spec fn wf_with(&self, tree: Seq<usize>) -> bool {
        let p = self.prob();
        &&& self.inv()
        &&& distinct(tree)
        &&& forall|i: int| 0 <= i < tree.len() ==> #[trigger] tree[i] < p.m()
        &&& self.members() == edge_set(p.m(), tree)
        &&& distinct(self.non_tree_spec())
        &&& forall|j: int|
            0 <= j < self.non_tree_spec().len() ==> #[trigger] self.non_tree_spec()[j] < p.m()
                && !self.members()[self.non_tree_spec()[j] as int]
        &&& forall|e: int| 0 <= e < p.m() && !#[trigger] self.members()[e] ==> self.non_tree_spec().contains(e as usize)
        &&& edge_set(p.m(), self.conn_tree()) == self.members()
        &&& self.stamps() == dfs_stamps(p.g.n as nat, tree_ends(p.g, self.conn_tree()), 0)
        &&& self.weight_spec() == weight_set(p, self.members())
        &&& self.num_conflicts_spec() == pair_count(p, self.members())
    }

    pub open spec fn obj_spec(&self) -> int {
        set_obj(self.prob(), self.members())
    }

    /// An engine for `p`, with sorting and early stop off.
    pub fn new(p: &'a MstCcProblem) -> (r: Self)
        requires
            p.wf(),
        ensures
            r.inv(),
            r.prob() == *p,
            !r.sorting(),
            !r.stopping(),
    {
        OneEdgeReplacement {
            p,
            non_tree: Vec::with_capacity(p.g.ends.len()),
            conflicts: TrackConflicts::new(p),
            connectivity: TrackConnectivity1::new(&p.g),
            weight: 0,
            num_conflicts: 0,
            sort: false,
            stop_on_feasible: false,
        }
    }

    /// Runs 1-exchanges on `tree` until none improves (or, with `stop_on_feasible`, until
    /// no conflict is left) and returns the number of conflicting pairs in the final
    /// tree. The objective never grows and the running weight is the final tree's.
    pub fn run(&mut self, tree: &mut Vec<usize>) -> (r: u32)
        requires
            old(self).inv(),
            distinct(old(tree)@),
            forall|i: int| 0 <= i < old(tree)@.len() ==> #[trigger] old(tree)@[i] < old(self).prob().m(),
        ensures
            final(self).wf_with(final(tree)@),
            final(self).prob() == old(self).prob(),
            final(tree)@.len() == old(tree)@.len(),
            r == pair_count(final(self).prob(), edge_set(final(self).prob().m(), final(tree)@)),
            final(self).weight_spec() == weight_set(final(self).prob(), edge_set(final(self).prob().m(), final(tree)@)),
            set_obj(final(self).prob(), edge_set(final(self).prob().m(), final(tree)@)) <= set_obj(
                old(self).prob(),
                edge_set(old(self).prob().m(), old(tree)@),
            ),
            !final(self).stopping() || r != 0 ==> !final(self).improvable(),
            edge_set(final(self).prob().m(), final(tree)@) != edge_set(old(self).prob().m(), old(tree)@) ==> set_obj(
                final(self).prob(),
                edge_set(final(self).prob().m(), final(tree)@),
            ) < set_obj(old(self).prob(), edge_set(old(self).prob().m(), old(tree)@)),
            old(self).stopping() && pair_count(old(self).prob(), edge_set(old(self).prob().m(), old(tree)@)) == 0 ==> final(tree)@ == old(tree)@
                && r == 0,
    {
        self.setup(tree);
        let ghost start = self.obj_spec();
        let ghost start_set = self.members();
        let mut improved = true;
        while improved && !(self.stop_on_feasible && self.conflicts.total() == 0)
            invariant
                self.wf_with(tree@),
                self.prob() == old(self).prob(),
                tree@.len() == old(tree)@.len(),
                self.obj_spec() <= start,
                self.sorting() == old(self).sorting(),
                self.stopping() == old(self).stopping(),
                !improved ==> !self.improvable(),
                start_set == edge_set(self.prob().m(), old(tree)@),
                start == set_obj(self.prob(), start_set),
                self.members() != start_set ==> self.obj_spec() < start,
                self.stopping() && pair_count(self.prob(), start_set) == 0 ==> tree@ == old(tree)@,
            decreases self.obj_spec() + if improved { 1int } else { 0int },
        {
            improved = self.one_replacement(tree);
        }
        self.conflicts.total()
    }

    pub closed spec fn stamps(&self) -> Seq<(u64, u64)> {
        self.connectivity.stamps_spec()
    }

    /// The tree edges the connectivity tracker holds.
    pub closed spec fn conn_tree(&self) -> Seq<usize> {
        self.connectivity.tree_edges()
    }

    /// Exchanging the tree edge `rem` for `ins` lowers the objective and keeps a tree.
    pub open spec fn improving(&self, rem: int, ins: int) -> bool {
        improving_in(self.prob(), self.members(), self.stamps(), rem, ins)
    }

    /// Some tree edge and some listed non-tree edge make an improving exchange.
    pub open spec fn improvable(&self) -> bool {
        exists|rem: int, j: int|
            0 <= rem < self.prob().m() && #[trigger] self.members()[rem] && 0 <= j < self.non_tree_spec().len()
                && #[trigger] self.improving(rem, self.non_tree_spec()[j] as int)
    }

    /// One pass: the first improving exchange found is made, and then `true` is
    /// returned; `false` when the pass finds none.
    pub fn one_replacement(&mut self, tree: &mut Vec<usize>) -> (r: bool)
        requires
            old(self).wf_with(old(tree)@),
        ensures
            final(self).wf_with(final(tree)@),
            final(self).prob() == old(self).prob(),
            final(self).sorting() == old(self).sorting(),
            final(self).stopping() == old(self).stopping(),
            final(tree)@.len() == old(tree)@.len(),
            r ==> final(self).obj_spec() < old(self).obj_spec(),
            !r ==> final(self).obj_spec() == old(self).obj_spec(),
            !r ==> !final(self).improvable(),
            !r ==> final(self).members() == old(self).members(),
            !r && !old(self).sorting() ==> final(tree)@ == old(tree)@,
            r && !old(self).sorting() ==> exists|i: int, j: int|
                0 <= i < old(tree)@.len() && 0 <= j < old(self).non_tree_spec().len() && final(tree)@ == old(tree)@.update(
                    i,
                    old(self).non_tree_spec()[j],
                ) && old(self).improving(old(tree)@[i] as int, old(self).non_tree_spec()[j] as int) && forall|k: int, l: int|
                    0 <= k < i && 0 <= l < old(self).non_tree_spec().len() ==> !#[trigger] old(self).improving(
                        old(tree)@[k] as int,
                        old(self).non_tree_spec()[l] as int,
                    ),
    {
        self.sort(tree);
        let ghost tr0 = tree@;
        let ghost t0 = self.members();
        let ghost st0 = self.stamps();
        let ghost nt0 = self.non_tree_spec();
        let ghost p0 = self.prob();
        let mut i: usize = 0;
        while i < tree.len()
            invariant
                self.wf_with(tree@),
                self.prob() == old(self).prob(),
                self.sorting() == old(self).sorting(),
                self.stopping() == old(self).stopping(),
                tree@.len() == old(tree)@.len(),
                self.members() == t0,
                self.obj_spec() == old(self).obj_spec(),
                0 <= i <= tree@.len(),
                self.stamps() == st0,
                self.non_tree_spec() == nt0,
                p0 == self.prob(),
                tree@ == tr0,
                self.sorting() ==> forall|k: int|
                    0 <= k < nt0.len() - 1 ==> edge_obj(p0, t0, #[trigger] nt0[k] as int) <= edge_obj(p0, t0, nt0[k + 1] as int),
                !old(self).sorting() ==> tr0 == old(tree)@ && nt0 == old(self).non_tree_spec() && st0 == old(self).stamps()
                    && t0 == old(self).members(),
                forall|k: int, j: int|
                    0 <= k < i && 0 <= j < nt0.len() ==> !#[trigger] improving_in(
                        p0,
                        t0,
                        st0,
                        tree@[k] as int,
                        nt0[j] as int,
                    ),
            decreases tree@.len() - i,
        {
            let rem = tree[i];
            let (a, b) = self.p.g.ends(rem);
            proof {
                assert(tree@.contains(rem));
                assert(self.members()[rem as int]);
            }
            let ghost old_members = self.members();
            self.conflicts.remove_edge(rem);
            self.connectivity.disconnect(a, b);
            proof {
                assert(self.members().update(rem as int, true) =~= t0);
            }
            match self.find_replace(rem) {
                Some(j) => {
                    self.replace(tree, i, j);
                    proof {
                        if !old(self).sorting() {
                            assert(old_members.update(rem as int, false) == t0.update(rem as int, false));
                            assert(old(self).improving(tr0[i as int] as int, nt0[j as int] as int));
                            assert forall|k: int, l: int|
                                0 <= k < i && 0 <= l < nt0.len() implies !#[trigger] old(self).improving(
                                tr0[k] as int,
                                nt0[l] as int,
                            ) by {
                                assert(!improving_in(p0, t0, st0, tr0[k] as int, nt0[l] as int));
                            }
                        }
                    }
                    return true;
                },
                None => {},
            }
            self.conflicts.add_edge(rem);
            proof {
                assert(self.members() =~= t0);
                assert forall|k: int, j: int| 0 <= k < i + 1 && 0 <= j < nt0.len() implies !#[trigger] improving_in(
                    p0,
                    t0,
                    st0,
                    tree@[k] as int,
                    nt0[j] as int,
                ) by {
                    if k == i as int {
                        assert(t0.update(rem as int, false) == old_members.update(rem as int, false));
                    }
                }
            }
            i += 1;
        }
        proof {
            if self.improvable() {
                let (rem, j) = choose|rem: int, j: int|
                    0 <= rem < self.prob().m() && #[trigger] self.members()[rem] && 0 <= j < self.non_tree_spec().len()
                        && #[trigger] self.improving(rem, self.non_tree_spec()[j] as int);
                assert(tree@.contains(rem as usize));
                let k = choose|k: int| 0 <= k < tree@.len() && tree@[k] == rem as usize;
                assert(!improving_in(p0, t0, st0, tree@[k] as int, nt0[j] as int));
            }
        }
        false
    }

    /// With `sort` on: non-tree edges by ascending, tree edges by descending objective.
    fn sort(&mut self, tree: &mut Vec<usize>)
        requires
            old(self).wf_with(old(tree)@),
        ensures
            final(self).wf_with(final(tree)@),
            final(self).prob() == old(self).prob(),
            final(self).members() == old(self).members(),
            final(self).sorting() == old(self).sorting(),
            final(self).stopping() == old(self).stopping(),
            final(self).stamps() == old(self).stamps(),
            final(self).non_tree_spec().len() == old(self).non_tree_spec().len(),
            forall|x: usize| final(self).non_tree_spec().contains(x) <==> old(self).non_tree_spec().contains(x),
            final(tree)@.len() == old(tree)@.len(),
            final(self).weight_spec() == old(self).weight_spec(),
            final(self).num_conflicts_spec() == old(self).num_conflicts_spec(),
            !old(self).sorting() ==> final(tree)@ == old(tree)@ && final(self).non_tree_spec() == old(self).non_tree_spec(),
            final(self).conn_tree() == old(self).conn_tree(),
            final(self).stamps() == old(self).stamps(),
            old(self).sorting() ==> forall|i: int|
                0 <= i < final(self).non_tree_spec().len() - 1 ==> edge_obj(
                    final(self).prob(),
                    final(self).members(),
                    #[trigger] final(self).non_tree_spec()[i] as int,
                ) <= edge_obj(final(self).prob(), final(self).members(), final(self).non_tree_spec()[i + 1] as int),
    {
        if self.sort {
            let mut keys = self.keys_of(&self.non_tree);
            let ghost nt_before = self.non_tree@;
            let ghost keys_before = keys@;
            sort_by_keys(&mut self.non_tree, &mut keys);
            proof {
                assert forall|i: int| 0 <= i < self.non_tree@.len() implies keys@[i] == edge_obj(
                    self.prob(),
                    self.members(),
                    #[trigger] self.non_tree@[i] as int,
                ) by {
                    assert(crate::order::came_from(self.non_tree@, keys@, nt_before, keys_before, i));
                    let j = choose|j: int| 0 <= j < nt_before.len() && self.non_tree@[i] == #[trigger] nt_before[j] && keys@[i] == keys_before[j];
                }
                assert forall|i: int| 0 <= i < self.non_tree@.len() - 1 implies edge_obj(
                    self.prob(),
                    self.members(),
                    #[trigger] self.non_tree@[i] as int,
                ) <= edge_obj(self.prob(), self.members(), self.non_tree@[i + 1] as int) by {
                    assert(keys@[i] <= keys@[i + 1]);
                    assert(keys@[i] == edge_obj(self.prob(), self.members(), self.non_tree@[i] as int));
                    assert(keys@[i + 1] == edge_obj(self.prob(), self.members(), self.non_tree@[i + 1] as int));
                }
            }
            let mut tkeys = self.keys_of(tree);
            let ghost before = tree@;
            sort_by_keys(tree, &mut tkeys);
            let ghost sorted = tree@;
            reverse(tree);
            proof {
                assert forall|e: int| 0 <= e < self.prob().m() implies #[trigger] edge_set(self.prob().m(), tree@)[e]
                    == edge_set(self.prob().m(), before)[e] by {
                    assert(tree@.contains(e as usize) == sorted.contains(e as usize));
                    assert(sorted.contains(e as usize) == before.contains(e as usize));
                }
                assert(edge_set(self.prob().m(), tree@) =~= edge_set(self.prob().m(), before));
                assert forall|j: int| 0 <= j < self.non_tree@.len() implies #[trigger] self.non_tree@[j] < self.prob().m()
                    && !self.members()[self.non_tree@[j] as int] by {
                    assert(old(self).non_tree@.contains(self.non_tree@[j]));
                }
                assert forall|i: int| 0 <= i < tree@.len() implies #[trigger] tree@[i] < self.prob().m() by {
                    assert(before.contains(tree@[i]));
                }
            }
        }
    }

    /// The objective of each listed edge on its own.
    fn keys_of(&self, v: &Vec<usize>) -> (r: Vec<u128>)
        requires
            self.inv(),
            forall|i: int| 0 <= i < v@.len() ==> #[trigger] v@[i] < self.prob().m(),
        ensures
            r@.len() == v@.len(),
            forall|i: int| 0 <= i < v@.len() ==> #[trigger] r@[i] == edge_obj(self.prob(), self.members(), v@[i] as int),
    {
        let mut r: Vec<u128> = Vec::with_capacity(v.len());
        let mut i: usize = 0;
        while i < v.len()
            invariant
                self.inv(),
                forall|k: int| 0 <= k < v@.len() ==> #[trigger] v@[k] < self.prob().m(),
                0 <= i <= v@.len(),
                r@.len() == i,
                forall|k: int| 0 <= k < i ==> #[trigger] r@[k] == edge_obj(self.prob(), self.members(), v@[k] as int),
            decreases v@.len() - i,
        {
            r.push(self.obj_edge(v[i]));
            i += 1;
        }
        r
    }

    /// The first listed non-tree edge, up to the sorted cutoff, that improves on the
    /// removed edge `rem` and crosses the cut.
    fn find_replace(&self, rem: usize) -> (r: Option<usize>)
        requires
            self.inv(),
            rem < self.prob().m(),
            !self.members()[rem as int],
            self.sorting() ==> forall|i: int|
                0 <= i < self.non_tree@.len() - 1 ==> edge_obj(
                    self.prob(),
                    self.members().update(rem as int, true),
                    #[trigger] self.non_tree@[i] as int,
                ) <= edge_obj(self.prob(), self.members().update(rem as int, true), self.non_tree@[i + 1] as int),
            forall|j: int| 0 <= j < self.non_tree@.len() ==> #[trigger] self.non_tree@[j] < self.prob().m(),
            self.connectivity.cut_vertex() == Some(
                if ancestor(self.stamps(), self.prob().g.ends@[rem as int].0 as int, self.prob().g.ends@[rem as int].1 as int) {
                    self.prob().g.ends@[rem as int].1
                } else {
                    self.prob().g.ends@[rem as int].0
                },
            ),
        ensures
            match r {
                Some(j) => j < self.non_tree_spec().len() && edge_obj(self.prob(), self.members(), self.non_tree_spec()[j as int] as int)
                    < edge_obj(self.prob(), self.members(), rem as int) && crosses(
                    self.stamps(),
                    self.prob().g,
                    rem as int,
                    self.non_tree_spec()[j as int] as int,
                ),
                None => forall|j: int|
                    0 <= j < self.non_tree_spec().len() ==> !(edge_obj(self.prob(), self.members(), #[trigger] self.non_tree_spec()[j] as int)
                        < edge_obj(self.prob(), self.members(), rem as int) && crosses(
                        self.stamps(),
                        self.prob().g,
                        rem as int,
                        self.non_tree_spec()[j] as int,
                    )),
            },
    {
        let lim = self.non_tree_limit(rem);
        let orem = self.obj_edge(rem);
        let mut j: usize = 0;
        while j < lim
            invariant
                self.inv(),
                rem < self.prob().m(),
                forall|k: int| 0 <= k < self.non_tree@.len() ==> #[trigger] self.non_tree@[k] < self.prob().m(),
                lim <= self.non_tree@.len(),
                !self.sorting() ==> lim == self.non_tree@.len(),
                forall|k: int|
                    lim <= k < self.non_tree@.len() ==> edge_obj(self.prob(), self.members(), #[trigger] self.non_tree@[k] as int)
                        >= edge_obj(self.prob(), self.members(), rem as int),
                orem == edge_obj(self.prob(), self.members(), rem as int),
                self.connectivity.cut_vertex() == Some(
                    if ancestor(self.stamps(), self.prob().g.ends@[rem as int].0 as int, self.prob().g.ends@[rem as int].1 as int) {
                        self.prob().g.ends@[rem as int].1
                    } else {
                        self.prob().g.ends@[rem as int].0
                    },
                ),
                0 <= j <= lim,
                forall|k: int|
                    0 <= k < j ==> !(edge_obj(self.prob(), self.members(), #[trigger] self.non_tree_spec()[k] as int)
                        < edge_obj(self.prob(), self.members(), rem as int) && crosses(
                        self.stamps(),
                        self.prob().g,
                        rem as int,
                        self.non_tree_spec()[k] as int,
                    )),
            decreases lim - j,
        {
            let ins = self.non_tree[j];
            if self.obj_edge(ins) < orem {
                let (x, y) = self.p.g.ends(ins);
                if !self.connectivity.is_connected(x, y) {
                    return Some(j);
                }
            }
            j += 1;
        }
        None
    }

    /// With `sort` on, the candidates past the first non-tree edge whose objective reaches
    /// that of `rem` with one conflict more cannot improve; otherwise all are scanned.
    fn non_tree_limit(&self, rem: usize) -> (r: usize)
        requires
            self.inv(),
            rem < self.prob().m(),
            !self.members()[rem as int],
            forall|j: int| 0 <= j < self.non_tree@.len() ==> #[trigger] self.non_tree@[j] < self.prob().m(),
            self.sorting() ==> forall|i: int|
                0 <= i < self.non_tree@.len() - 1 ==> edge_obj(
                    self.prob(),
                    self.members().update(rem as int, true),
                    #[trigger] self.non_tree@[i] as int,
                ) <= edge_obj(self.prob(), self.members().update(rem as int, true), self.non_tree@[i + 1] as int),
        ensures
            r <= self.non_tree_spec().len(),
            !self.sorting() ==> r == self.non_tree_spec().len(),
            forall|j: int|
                r <= j < self.non_tree@.len() ==> edge_obj(self.prob(), self.members(), #[trigger] self.non_tree@[j] as int)
                    >= edge_obj(self.prob(), self.members(), rem as int),
    {
        if self.sort {
            let w = self.p.w[rem];
            let c = self.conflicts.conflict_count_of(rem);
            let key = self.p.obj(w as u64, c as u64 + 1);
            proof {
                let b = self.prob().beta as int;
                assert(b * (c as int + 1) == b * (c as int) + b) by (nonlinear_arith);
            }
            let mut lo: usize = 0;
            let mut hi: usize = self.non_tree.len();
            while lo < hi
                invariant
                    self.inv(),
                    forall|j: int| 0 <= j < self.non_tree@.len() ==> #[trigger] self.non_tree@[j] < self.prob().m(),
                    0 <= lo <= hi <= self.non_tree@.len(),
                    key as int == edge_obj(self.prob(), self.members(), rem as int) + self.prob().beta,
                    hi < self.non_tree@.len() ==> edge_obj(self.prob(), self.members(), self.non_tree@[hi as int] as int)
                        >= key as int,
                decreases hi - lo,
            {
                let mid = lo + (hi - lo) / 2;
                if self.obj_edge(self.non_tree[mid]) < key {
                    lo = mid + 1;
                } else {
                    hi = mid;
                }
            }
            proof {
                let p = self.prob();
                let t1 = self.members();
                let t = t1.update(rem as int, true);
                let nt = self.non_tree@;
                assert forall|j: int| lo <= j < nt.len() implies edge_obj(p, t1, #[trigger] nt[j] as int) >= edge_obj(p, t1, rem as int) by {
                    lemma_key_shift(p, t1, rem as int, nt[j] as int);
                    lemma_key_shift(p, t1, rem as int, nt[lo as int] as int);
                    let f = |i: int| edge_obj(p, t, nt[i] as int);
                    assert forall|k: int| 0 <= k < nt.len() - 1 implies #[trigger] f(k) <= f(k + 1) by {}
                    lemma_sorted(f, nt.len() as int, lo as int, j);
                }
            }
            lo
        } else {
            self.non_tree.len()
        }
    }

    /// Makes the exchange of `tree[i]` (already taken out of the conflict tracker and cut)
    /// for `non_tree[j]`.
    fn replace(&mut self, tree: &mut Vec<usize>, i: usize, j: usize)
        requires
            old(self).inv(),
            edge_set(old(self).prob().m(), old(self).conn_tree()) == edge_set(old(self).prob().m(), old(tree)@),
            0 <= i < old(tree)@.len(),
            0 <= j < old(self).non_tree_spec().len(),
            distinct(old(tree)@),
            forall|k: int| 0 <= k < old(tree)@.len() ==> #[trigger] old(tree)@[k] < old(self).prob().m(),
            old(self).members() == edge_set(old(self).prob().m(), old(tree)@).update(old(tree)@[i as int] as int, false),
            distinct(old(self).non_tree_spec()),
            forall|k: int|
                0 <= k < old(self).non_tree_spec().len() ==> #[trigger] old(self).non_tree_spec()[k] < old(self).prob().m()
                    && !edge_set(old(self).prob().m(), old(tree)@)[old(self).non_tree_spec()[k] as int],
            forall|e: int|
                0 <= e < old(self).prob().m() && !#[trigger] edge_set(old(self).prob().m(), old(tree)@)[e]
                    ==> old(self).non_tree_spec().contains(e as usize),
            old(self).weight_spec() == weight_set(old(self).prob(), edge_set(old(self).prob().m(), old(tree)@)),
            old(self).num_conflicts_spec() == pair_count(old(self).prob(), edge_set(old(self).prob().m(), old(tree)@)),
            old(self).conflicts.total_spec() == old(self).num_conflicts_spec() - conflict_count(
                old(self).prob(),
                old(self).members(),
                old(tree)@[i as int] as int,
            ),
            edge_obj(old(self).prob(), old(self).members(), old(self).non_tree_spec()[j as int] as int) < edge_obj(
                old(self).prob(),
                old(self).members(),
                old(tree)@[i as int] as int,
            ),
        ensures
            final(self).wf_with(final(tree)@),
            final(self).prob() == old(self).prob(),
            final(self).sorting() == old(self).sorting(),
            final(self).stopping() == old(self).stopping(),
            final(tree)@.len() == old(tree)@.len(),
            final(tree)@ == old(tree)@.update(i as int, old(self).non_tree_spec()[j as int]),
            final(self).obj_spec() < set_obj(old(self).prob(), edge_set(old(self).prob().m(), old(tree)@)),
    {
        let ghost p = self.prob();
        let ghost t0 = edge_set(p.m(), tree@);
        let ghost t1 = self.members();
        let rem = tree[i];
        let ins = self.non_tree[j];
        let ghost cr = conflict_count(p, t1, rem as int);
        let ghost ci = conflict_count(p, t1, ins as int);
        tree.set(i, ins);
        self.non_tree.set(j, rem);
        self.connectivity.replace_edge(rem, ins);
        proof {
            assert(!t1[ins as int]) by {
                assert(!t0[ins as int]);
            }
        }
        self.conflicts.add_edge(ins);
        let num_conflicts = self.conflicts.total();
        proof {
            lemma_weight_change(p, t0, rem as int, false);
            lemma_weight_change(p, t1, ins as int, true);
            lemma_weight_bound(p, t0);
            lemma_weight_bound(p, self.members());
            assert(t1 == t0.update(rem as int, false));
        }
        let weight = self.weight + self.p.w[ins] as u64 - self.p.w[rem] as u64;
        log_improvement("conflicts", self.num_conflicts, num_conflicts);
        log_improvement("weight   ", self.weight as u32, weight as u32);
        self.num_conflicts = num_conflicts;
        self.weight = weight;
        proof {
            let t2 = self.members();
            assert(t2 =~= edge_set(p.m(), tree@)) by {
                assert forall|e: int| 0 <= e < p.m() implies t2[e] == edge_set(p.m(), tree@)[e] by {
                    if e == ins as int {
                        assert(tree@[i as int] == ins);
                    } else if t0[e] && e != rem as int {
                        let k = choose|k: int| 0 <= k < old(tree)@.len() && old(tree)@[k] == e as usize;
                        assert(tree@[k] == e as usize);
                    } else if tree@.contains(e as usize) {
                        let k = choose|k: int| 0 <= k < tree@.len() && tree@[k] == e as usize;
                        if k != i as int {
                            assert(old(tree)@[k] == e as usize);
                            assert(old(tree)@[k] != old(tree)@[i as int]);
                        }
                    }
                }
            }
            assert forall|a: int, b: int| 0 <= a < b < tree@.len() implies #[trigger] tree@[a] != #[trigger] tree@[b] by {
                if a == i as int {
                    assert(t0[tree@[b] as int]);
                } else if b == i as int {
                    assert(t0[tree@[a] as int]);
                }
            }
            assert forall|a: int, b: int| 0 <= a < b < self.non_tree@.len() implies #[trigger] self.non_tree@[a]
                != #[trigger] self.non_tree@[b] by {
                if a == j as int {
                    assert(!t0[self.non_tree@[b] as int]);
                    assert(t0[rem as int]) by {
                        assert(old(tree)@[i as int] == rem);
                    }
                } else if b == j as int {
                    assert(!t0[self.non_tree@[a] as int]);
                    assert(t0[rem as int]) by {
                        assert(old(tree)@[i as int] == rem);
                    }
                }
            }
            assert forall|k: int| 0 <= k < self.non_tree@.len() implies #[trigger] self.non_tree@[k] < p.m()
                && !t2[self.non_tree@[k] as int] by {
                if k != j as int {
                    assert(self.non_tree@[k] != ins);
                }
            }
            assert(edge_set(p.m(), self.conn_tree()) =~= t2) by {
                assert forall|e: int| 0 <= e < p.m() implies edge_set(p.m(), self.conn_tree())[e] == t2[e] by {
                    let ct = old(self).connectivity.tree_edges();
                    if self.conn_tree().contains(e as usize) {
                        let x = choose|x: int| 0 <= x < self.conn_tree().len() && self.conn_tree()[x] == e as usize;
                        if ct[x] == rem {
                        } else {
                            assert(ct.contains(e as usize));
                        }
                    }
                    if t2[e] {
                        if e == ins as int {
                            assert(t0[rem as int]);
                            assert(ct.contains(rem));
                            let x = choose|x: int| 0 <= x < ct.len() && ct[x] == rem;
                            assert(self.conn_tree()[x] == ins);
                        } else {
                            assert(t0[e]);
                            assert(ct.contains(e as usize));
                            let x = choose|x: int| 0 <= x < ct.len() && ct[x] == e as usize;
                            assert(self.conn_tree()[x] == e as usize);
                        }
                    }
                }
            }
            assert forall|e: int| 0 <= e < p.m() && !#[trigger] t2[e] implies self.non_tree@.contains(e as usize) by {
                if e == rem as int {
                    assert(self.non_tree@[j as int] == rem);
                } else {
                    assert(!t0[e]);
                    let k = choose|k: int| 0 <= k < old(self).non_tree@.len() && old(self).non_tree@[k] == e as usize;
                    assert(k != j as int);
                    assert(self.non_tree@[k] == e as usize);
                }
            }
            lemma_obj_exchange(
                p.alpha,
                p.beta,
                weight_set(p, t0),
                pair_count(p, t0),
                p.w@[rem as int] as int,
                cr,
                p.w@[ins as int] as int,
                ci,
            );
        }
    }

    /// Installs `tree`: rebuilds the search intervals and the conflict tracker, lists
    /// the other edges as candidates and computes the running totals.
    fn setup(&mut self, tree: &Vec<usize>)
        requires
            old(self).inv(),
            distinct(tree@),
            forall|i: int| 0 <= i < tree@.len() ==> #[trigger] tree@[i] < old(self).prob().m(),
        ensures
            final(self).wf_with(tree@),
            final(self).prob() == old(self).prob(),
            final(self).sorting() == old(self).sorting(),
            final(self).stopping() == old(self).stopping(),
            forall|e: int| 0 <= e < final(self).prob().m() && !final(self).members()[e] ==> final(self).non_tree_spec().contains(e as usize),
    {
        let ghost p = self.prob();
        self.connectivity.set_edges(tree.as_slice());
        self.conflicts.reset();
        self.conflicts.add_edges(tree.as_slice());
        proof {
            assert(self.members() =~= edge_set(p.m(), tree@));
        }
        let m = self.p.g.ends.len();
        self.non_tree = Vec::with_capacity(m);
        let mut weight: u64 = 0;
        let mut e: usize = 0;
        proof {
            lemma_sum_point(p.m(), weight_fn(p, prefix_set(self.members(), 0)), -1);
        }
        while e < m
            invariant
                self.inv(),
                self.prob() == p,
                m == p.m(),
                self.members() == edge_set(p.m(), tree@),
                0 <= e <= m,
                forall|k: int| 0 <= k < self.non_tree@.len() ==> #[trigger] self.non_tree@[k] < e && !self.members()[self.non_tree@[k] as int],
                forall|a: int, b: int| 0 <= a < b < self.non_tree@.len() ==> self.non_tree@[a] < self.non_tree@[b],
                forall|f: int| 0 <= f < e && !self.members()[f] ==> self.non_tree@.contains(f as usize),
                weight as int == weight_set(p, prefix_set(self.members(), e as int)),
                self.conn_tree() == tree@,
                self.stamps() == dfs_stamps(p.g.n as nat, tree_ends(p.g, tree@), 0),
                self.sort == old(self).sort,
                self.stop_on_feasible == old(self).stop_on_feasible,
            decreases m - e,
        {
            let ghost before = prefix_set(self.members(), e as int);
            let ghost after = prefix_set(self.members(), e as int + 1);
            let ghost nt = self.non_tree@;
            if self.conflicts.contains(e) {
                proof {
                    lemma_weight_change(p, before, e as int, true);
                    lemma_weight_bound(p, after);
                    assert(after =~= before.update(e as int, true));
                }
                weight = weight + self.p.w[e] as u64;
            } else {
                proof {
                    assert(after =~= before);
                }
                self.non_tree.push(e);
                proof {
                    assert forall|f: int| 0 <= f < e + 1 && !self.members()[f] implies self.non_tree@.contains(f as usize) by {
                        if f == e as int {
                            assert(self.non_tree@[nt.len() as int] == e);
                        } else {
                            let k = choose|k: int| 0 <= k < nt.len() && nt[k] == f as usize;
                            assert(self.non_tree@[k] == f as usize);
                        }
                    }
                }
            }
            e += 1;
        }
        proof {
            assert(prefix_set(self.members(), e as int) =~= self.members());
            assert forall|a: int, b: int| 0 <= a < b < self.non_tree@.len() implies #[trigger] self.non_tree@[a]
                != #[trigger] self.non_tree@[b] by {}
        }
        self.weight = weight;
        self.num_conflicts = self.conflicts.total();
    }

    /// Objective of `e` on its own, with its current conflict count.
    fn obj_edge(&self, e: usize) -> (r: u128)
        requires
            self.inv(),
            e < self.prob().m(),
        ensures
            r == edge_obj(self.prob(), self.members(), e as int),
    {
        self.p.obj(self.p.w[e] as u64, self.conflicts.conflict_count_of(e) as u64)
    }
}

impl<'a> LocalSearch for OneEdgeReplacement<'a> {
    open spec fn problem_spec(&self) -> MstCcProblem {
        self.prob()
    }

    open spec fn ready(&self) -> bool {
        self.inv()
    }

    fn local_search(&mut self, tree: &mut Vec<usize>) -> (r: u32) {
        self.run(tree)
    }
}

/// Reverses `v` in place.
pub fn reverse(v: &mut Vec<usize>)
    ensures
        final(v)@.len() == old(v)@.len(),
        forall|i: int| 0 <= i < old(v)@.len() ==> #[trigger] final(v)@[i] == old(v)@[old(v)@.len() - 1 - i],
        forall|x: usize| final(v)@.contains(x) <==> old(v)@.contains(x),
        distinct(old(v)@) ==> distinct(final(v)@),
{
    let n = v.len();
    let mut i: usize = 0;
    while i < n / 2
        invariant
            n == old(v)@.len(),
            v@.len() == n,
            0 <= i <= n / 2,
            forall|k: int| 0 <= k < n ==> #[trigger] v@[k] == if k < i || k >= n - i {
                old(v)@[n - 1 - k]
            } else {
                old(v)@[k]
            },
        decreases n / 2 - i,
    {
        let a = v[i];
        let b = v[n - 1 - i];
        v.set(i, b);
        v.set(n - 1 - i, a);
        i += 1;
    }
    proof {
        assert forall|x: usize| v@.contains(x) <==> old(v)@.contains(x) by {
            if v@.contains(x) {
                let k = choose|k: int| 0 <= k < n && v@[k] == x;
                assert(old(v)@[n - 1 - k] == x);
            }
            if old(v)@.contains(x) {
                let k = choose|k: int| 0 <= k < n && old(v)@[k] == x;
                assert(v@[n - 1 - k] == x);
            }
        }
        if distinct(old(v)@) {
            assert forall|a: int, b: int| 0 <= a < b < n implies #[trigger] v@[a] != #[trigger] v@[b] by {
                assert(v@[a] == old(v)@[n - 1 - a] && v@[b] == old(v)@[n - 1 - b]);
            }
        }
    }
}

} // verus!
