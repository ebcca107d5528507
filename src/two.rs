use vstd::prelude::*;
use crate::conflicts::{conflict_count, lemma_counts_bounded, pair_count, TrackConflicts};
use crate::connectivity2::{comp_of, TrackConnectivity2};
use crate::ils::LocalSearch;
use crate::utils::log_improvement;
use crate::counting::{lemma_distinct_len, lemma_sum_point};
use crate::one::{edge_obj, lemma_key_shift, lemma_sorted, prefix_set, reverse, set_obj};
use crate::dfs::{dfs_stamps, tree_ends};
use crate::order::{distinct, sort_by_keys};
use crate::problem::{
    edge_set, lemma_obj_nonneg, lemma_weight_bound, lemma_weight_change, tree_weight, weight_fn, weight_set, Graph,
    MstCcProblem,
};

verus! {

/// Which pair of components the end points of an edge join: 0 for {0, 1}, 1 for
/// {0, 2}, 2 for {1, 2}, 3 when both lie in one component.
pub open spec fn pair_category(cu: usize, cv: usize) -> int {
    if cu == cv {
        3
    } else if (cu == 0 && cv == 1) || (cu == 1 && cv == 0) {
        0
    } else if (cu == 0 && cv == 2) || (cu == 2 && cv == 0) {
        1
    } else {
        2
    }
}

/// Whether the ends of `ei` share a component of the uncut tree rooted at vertex 0, and
/// the ends of `ej` share one once `ei` is cut.
pub open spec fn cuts_ok(stamps: Seq<(u64, u64)>, g: Graph, ei: int, ej: int) -> bool {
    TrackConnectivity2::cuts_valid(stamps, 0, g.ends@[ei], g.ends@[ej])
}

/// The cut markers after removing the tree edges `ei` and then `ej` from an uncut tree
/// rooted at vertex 0.
pub open spec fn cut_markers(stamps: Seq<(u64, u64)>, g: Graph, ei: int, ej: int) -> (usize, usize) {
    TrackConnectivity2::after_cut(
        stamps,
        0,
        TrackConnectivity2::after_cut(stamps, 0, (0usize, 0usize), g.ends@[ei]),
        g.ends@[ej],
    )
}

/// The pair of components that edge `e` joins once `ei` and `ej` are removed.
pub open spec fn category_after(stamps: Seq<(u64, u64)>, g: Graph, ei: int, ej: int, e: int) -> int {
    let mk = cut_markers(stamps, g, ei, ej);
    pair_category(
        comp_of(stamps, mk.0 as int, mk.1 as int, g.ends@[e].0 as int),
        comp_of(stamps, mk.0 as int, mk.1 as int, g.ends@[e].1 as int),
    )
}

/// With the tree `member` and its search intervals `stamps`, exchanging the tree edges
/// `ei`, `ej` for `ek`, `el` is a move of the 2-exchange neighbourhood (both cuts are
/// sound, the two new edges
/// join different pairs of the three components, and each costs less than the two old
/// edges together) that lowers the objective.
pub open spec fn improving2(p: MstCcProblem, member: Seq<bool>, stamps: Seq<(u64, u64)>, ei: int, ej: int, ek: int, el: int) -> bool {
    let t12 = member.update(ei, false).update(ej, false);
    let ca = category_after(stamps, p.g, ei, ej, ek);
    let cb = category_after(stamps, p.g, ei, ej, el);
    &&& cuts_ok(stamps, p.g, ei, ej)
    &&& ca < 3
    &&& cb < 3
    &&& ca != cb
    &&& edge_obj(p, t12, ek) < edge_obj(p, t12, ei) + edge_obj(p, t12, ej)
    &&& edge_obj(p, t12, el) < edge_obj(p, t12, ei) + edge_obj(p, t12, ej)
    &&& set_obj(p, t12.update(ek, true).update(el, true)) < set_obj(p, member)
}

/// No improving 2-exchange takes out tree positions `a < b` with `s0 <= a`.
pub open spec fn no_move_from(
    p: MstCcProblem,
    member: Seq<bool>,
    stamps: Seq<(u64, u64)>,
    tree: Seq<usize>,
    nt: Seq<usize>,
    s0: int,
) -> bool {
    forall|a: int, b: int, k: int, l: int|
        s0 <= a < b < tree.len() && 0 <= k < nt.len() && 0 <= l < nt.len() ==> !#[trigger] improving2(
            p,
            member,
            stamps,
            tree[a] as int,
            tree[b] as int,
            nt[k] as int,
            nt[l] as int,
        )
}

/// Local search over the 2-exchange neighbourhood: take two edges out of the tree,
/// which splits it in three, and put two non-tree edges that join all three parts
/// back in, first improvement first.
pub struct TwoEdgeReplacement<'a> {
    p: &'a MstCcProblem,
    non_tree: Vec<usize>,
    conflicts: TrackConflicts<'a>,
    connectivity: TrackConnectivity2<'a>,
    weight: u64,
    num_conflicts: u32,
    obj: u128,
    pub sort: bool,
    pub stop_on_feasible: bool,
}

impl<'a> TwoEdgeReplacement<'a> {
    pub closed spec fn prob(&self) -> MstCcProblem {
        *self.p
    }

    /// The edges that are tracked as in the tree.
    pub closed spec fn members(&self) -> Seq<bool> {
        self.conflicts.members()
    }

    pub closed spec fn sorting(&self) -> bool {
        self.sort
    }

    pub closed spec fn stopping(&self) -> bool {
        self.stop_on_feasible
    }

    pub closed spec fn non_tree_spec(&self) -> Seq<usize> {
        self.non_tree@
    }

    pub closed spec fn weight_spec(&self) -> int {
        self.weight as int
    }

    pub closed spec fn num_conflicts_spec(&self) -> int {
        self.num_conflicts as int
    }

    pub closed spec fn obj_field(&self) -> int {
        self.obj as int
    }

    /// Category of edge `e` under the current cuts.
    pub closed spec fn category(&self, e: int) -> int {
        pair_category(
            self.connectivity.comp_spec(self.p.g.ends@[e].0 as int),
            self.connectivity.comp_spec(self.p.g.ends@[e].1 as int),
        )
    }

    pub closed spec fn stamps(&self) -> Seq<(u64, u64)> {
        self.connectivity.stamps_spec()
    }

    /// The tree edges the connectivity tracker holds.
    pub closed spec fn conn_tree(&self) -> Seq<usize> {
        self.connectivity.tree_edges()
    }

    /// Candidate `e` for replacing `ei` and `ej` (already out of the conflict tracker):
    /// its objective is below theirs together and it joins two components.
    pub open spec fn candidate(&self, ei: int, ej: int, e: int) -> bool {
        &&& edge_obj(self.prob(), self.members(), e) < edge_obj(self.prob(), self.members(), ei) + edge_obj(
            self.prob(),
            self.members(),
            ej,
        )
        &&& self.category(e) < 3
    }

    pub closed spec fn inv(&self) -> bool {
        &&& self.p.wf()
        &&& self.conflicts.wf()
        &&& self.conflicts.prob() == *self.p
        &&& self.connectivity.wf()
        &&& self.connectivity.graph() == self.p.g
        &&& self.connectivity.root_spec() == 0
    }

    /// The engine is in step with `tree`: the trackers hold its edges, the non-tree
    /// list holds edges outside it, and the running totals are exact.
    pub open spec fn wf_with(&self, tree: Seq<usize>) -> bool {
        let p = self.prob();
        &&& self.inv()
        &&& distinct(tree)
        &&& forall|i: int| 0 <= i < tree.len() ==> #[trigger] tree[i] < p.m()
        &&& self.members() == edge_set(p.m(), tree)
        &&& distinct(self.non_tree_spec())
        &&& forall|j: int|
            0 <= j < self.non_tree_spec().len() ==> #[trigger] self.non_tree_spec()[j] < p.m()
                && !self.members()[self.non_tree_spec()[j] as int]
        &&& forall|e: int| 0 <= e < p.m() && !#[trigger] self.members()[e] ==> self.non_tree_spec().contains(e as usize)
        &&& edge_set(p.m(), self.conn_tree()) == self.members()
        &&& self.stamps() == dfs_stamps(p.g.n as nat, tree_ends(p.g, self.conn_tree()), 0)
        &&& self.weight_spec() == weight_set(p, self.members())
        &&& self.num_conflicts_spec() == pair_count(p, self.members())
        &&& self.obj_field() == set_obj(p, self.members())
    }

    pub open spec fn obj_spec(&self) -> int {
        set_obj(self.prob(), self.members())
    }

    /// An engine for `p`, with sorting and early stop off.
    pub fn new(p: &'a MstCcProblem) -> (r: Self)
        requires
            p.wf(),
        ensures
            r.inv(),
            r.prob() == *p,
            !r.sorting(),
            !r.stopping(),
    {
        TwoEdgeReplacement {
            p,
            non_tree: Vec::with_capacity(p.g.ends.len()),
            conflicts: TrackConflicts::new(p),
            connectivity: TrackConnectivity2::new(&p.g),
            weight: 0,
            num_conflicts: 0,
            obj: 0,
            sort: false,
            stop_on_feasible: false,
        }
    }

    /// Runs 2-exchanges on `tree` until none improves (or, with `stop_on_feasible`, until
    /// no conflict is left) and returns the number of conflicting pairs in the final
    /// tree. Each pass resumes at the first removed edge of the last exchange. The
    /// objective never grows and the running weight is the final tree's.
    pub fn run(&mut self, tree: &mut Vec<usize>) -> (r: u32)
        requires
            old(self).inv(),
            distinct(old(tree)@),
            forall|i: int| 0 <= i < old(tree)@.len() ==> #[trigger] old(tree)@[i] < old(self).prob().m(),
        ensures
            final(self).wf_with(final(tree)@),
            final(self).prob() == old(self).prob(),
            final(tree)@.len() == old(tree)@.len(),
            r == pair_count(final(self).prob(), edge_set(final(self).prob().m(), final(tree)@)),
            final(self).weight_spec() == weight_set(final(self).prob(), edge_set(final(self).prob().m(), final(tree)@)),
            set_obj(final(self).prob(), edge_set(final(self).prob().m(), final(tree)@)) <= set_obj(
                old(self).prob(),
                edge_set(old(self).prob().m(), old(tree)@),
            ),
            (!final(self).stopping() || r != 0) && set_obj(
                final(self).prob(),
                edge_set(final(self).prob().m(), final(tree)@),
            ) == set_obj(old(self).prob(), edge_set(old(self).prob().m(), old(tree)@)) ==> forall|a: int, b: int, k: int, l: int|
                0 <= a < b < final(tree)@.len() && 0 <= k < final(self).non_tree_spec().len() && 0 <= l
                    < final(self).non_tree_spec().len() ==> !#[trigger] improving2(
                    final(self).prob(),
                    final(self).members(),
                    final(self).stamps(),
                    final(tree)@[a] as int,
                    final(tree)@[b] as int,
                    final(self).non_tree_spec()[k] as int,
                    final(self).non_tree_spec()[l] as int,
                ),
            !final(self).stopping() || r != 0 ==> exists|s0: int|
                0 <= s0 && (s0 > 0 ==> set_obj(final(self).prob(), edge_set(final(self).prob().m(), final(tree)@)) < set_obj(
                    old(self).prob(),
                    edge_set(old(self).prob().m(), old(tree)@),
                )) && #[trigger] no_move_from(
                    final(self).prob(),
                    final(self).members(),
                    final(self).stamps(),
                    final(tree)@,
                    final(self).non_tree_spec(),
                    s0,
                ),
    {
        self.setup(tree);
        let ghost start = self.obj_spec();
        let mut s: usize = 0;
        let mut improved = true;
        while improved && !(self.stop_on_feasible && self.conflicts.total() == 0)
            invariant
                self.wf_with(tree@),
                self.prob() == old(self).prob(),
                tree@.len() == old(tree)@.len(),
                self.obj_spec() <= start,
                s == 0 || self.obj_spec() < start,
                self.sorting() == old(self).sorting(),
                self.stopping() == old(self).stopping(),
                !improved ==> forall|a: int, b: int, k: int, l: int|
                    s <= a < b < tree@.len() && 0 <= k < self.non_tree_spec().len() && 0 <= l < self.non_tree_spec().len()
                        ==> !#[trigger] improving2(
                        self.prob(),
                        self.members(),
                        self.stamps(),
                        tree@[a] as int,
                        tree@[b] as int,
                        self.non_tree_spec()[k] as int,
                        self.non_tree_spec()[l] as int,
                    ),
            decreases self.obj_spec() + if improved { 1int } else { 0int },
        {
            proof {
                lemma_obj_nonneg(self.prob().alpha, self.prob().beta, self.weight_spec(), self.num_conflicts_spec());
                lemma_weight_bound(self.prob(), self.members());
            }
            match self.two_replacement(tree, s) {
                Some(ss) => {
                    s = ss;
                },
                None => {
                    improved = false;
                },
            }
        }
        proof {
            if !self.stopping() || self.conflicts.total_spec() != 0 {
                assert(!improved);
                let s0 = s as int;
                assert(0 <= s0 && (s0 > 0 ==> self.obj_spec() < start));
                assert(no_move_from(self.prob(), self.members(), self.stamps(), tree@, self.non_tree_spec(), s0));
            }
        }
        self.conflicts.total()
    }

    /// One pass from tree position `s`: the first improving 2-exchange found is made and
    /// the position of its first removed edge is returned; `None` when the pass finds none.
    #[verifier::rlimit(100)]
    pub fn two_replacement(&mut self, tree: &mut Vec<usize>, s: usize) -> (r: Option<usize>)
        requires
            old(self).wf_with(old(tree)@),
        ensures
            final(self).wf_with(final(tree)@),
            final(self).prob() == old(self).prob(),
            final(self).sorting() == old(self).sorting(),
            final(self).stopping() == old(self).stopping(),
            final(tree)@.len() == old(tree)@.len(),
            r is Some && !old(self).sorting() ==> exists|j: int|
                r->0 < j < old(tree)@.len() && #[trigger] final(tree)@[j] != old(tree)@[j] && final(tree)@[r->0 as int]
                    != old(tree)@[r->0 as int] && forall|x: int|
                    0 <= x < old(tree)@.len() && x != r->0 && x != j ==> #[trigger] final(tree)@[x] == old(tree)@[x],
            match r {
                Some(i) => s <= i < final(tree)@.len() && final(self).obj_spec() < old(self).obj_spec(),
                None => final(self).members() == old(self).members() && edge_set(final(self).prob().m(), final(tree)@) == edge_set(
                    old(self).prob().m(),
                    old(tree)@,
                ) && (!old(self).sorting() ==> final(tree)@ == old(
                    tree,
                )@) && final(self).obj_spec() == old(self).obj_spec() && (forall|a: int, b: int, k: int, l: int|
                    s <= a < b < final(tree)@.len() && 0 <= k < final(self).non_tree_spec().len() && 0 <= l
                        < final(self).non_tree_spec().len() ==> !#[trigger] improving2(
                        final(self).prob(),
                        final(self).members(),
                        final(self).stamps(),
                        final(tree)@[a] as int,
                        final(tree)@[b] as int,
                        final(self).non_tree_spec()[k] as int,
                        final(self).non_tree_spec()[l] as int,
                    )),
            },
    {
        self.sort(tree);
        proof {
            if !old(self).sorting() {
                assert(tree@ == old(tree)@ && self.non_tree_spec() == old(self).non_tree_spec());
            }
        }
        let ghost p = self.prob();
        let ghost t0 = self.members();
        let ghost nt0 = self.non_tree_spec();
        let ghost tr0 = tree@;
        let ghost st0 = self.stamps();
        let ghost ct0 = self.conn_tree();
        let mut i: usize = s;
        while i < tree.len()
            invariant
                self.wf_with(tree@),
                self.prob() == p,
                p == old(self).prob(),
                self.sorting() == old(self).sorting(),
                self.stopping() == old(self).stopping(),
                tree@ == tr0,
                tr0.len() == old(tree)@.len(),
                self.members() == t0,
                t0 == old(self).members(),
                !old(self).sorting() ==> tr0 == old(tree)@ && nt0 == old(self).non_tree_spec(),
                self.non_tree_spec() == nt0,
                self.obj_spec() == old(self).obj_spec(),
                s <= i,
                self.stamps() == st0,
                self.conn_tree() == ct0,
                self.sorting() ==> forall|k: int|
                    0 <= k < nt0.len() - 1 ==> edge_obj(p, t0, #[trigger] nt0[k] as int) <= edge_obj(p, t0, nt0[k + 1] as int),
                forall|a: int, b: int, k: int, l: int|
                    s <= a < i && a < b < tr0.len() && 0 <= k < nt0.len() && 0 <= l < nt0.len() ==> !#[trigger] improving2(
                        p,
                        t0,
                        st0,
                        tr0[a] as int,
                        tr0[b] as int,
                        nt0[k] as int,
                        nt0[l] as int,
                    ),
            decreases tree@.len() - i,
        {
            let ei = tree[i];
            let (a, b) = self.p.g.ends(ei);
            proof {
                assert(tr0.contains(ei));
                assert(t0[ei as int]);
            }
            self.conflicts.remove_edge(ei);
            let mut j: usize = i + 1;
            while j < tree.len()
                invariant
                    self.inv(),
                    self.prob() == p,
                    p == old(self).prob(),
                    p.wf(),
                    self.sorting() == old(self).sorting(),
                    self.stopping() == old(self).stopping(),
                    tree@ == tr0,
                    t0 == old(self).members(),
                    !old(self).sorting() ==> tr0 == old(tree)@ && nt0 == old(self).non_tree_spec(),
                    forall|e: int| 0 <= e < p.m() && !#[trigger] t0[e] ==> nt0.contains(e as usize),
                    distinct(tr0),
                    forall|k: int| 0 <= k < tr0.len() ==> #[trigger] tr0[k] < p.m(),
                    t0 == edge_set(p.m(), tr0),
                    ei == tr0[i as int],
                    (a, b) == p.g.ends@[ei as int],
                    a < p.g.n,
                    b < p.g.n,
                    s <= i < j <= tr0.len(),
                    tr0.len() == old(tree)@.len(),
                    self.members() == t0.update(ei as int, false),
                    self.non_tree_spec() == nt0,
                    distinct(nt0),
                    forall|k: int| 0 <= k < nt0.len() ==> #[trigger] nt0[k] < p.m() && !t0[nt0[k] as int],
                    self.weight_spec() == weight_set(p, t0),
                    self.num_conflicts_spec() == pair_count(p, t0),
                    self.obj_field() == set_obj(p, t0),
                    set_obj(p, t0) == old(self).obj_spec(),
                    self.stamps() == st0,
                    self.conn_tree() == ct0,
                    self.sorting() ==> forall|k: int|
                        0 <= k < nt0.len() - 1 ==> edge_obj(p, t0, #[trigger] nt0[k] as int) <= edge_obj(p, t0, nt0[k + 1] as int),
                    edge_set(p.m(), ct0) == t0,
                    st0 == dfs_stamps(p.g.n as nat, tree_ends(p.g, ct0), 0),
                    self.connectivity.root_spec() == 0,
                    forall|a: int, b: int, k: int, l: int|
                        s <= a < i && a < b < tr0.len() && 0 <= k < nt0.len() && 0 <= l < nt0.len() ==> !#[trigger] improving2(
                            p,
                            t0,
                            st0,
                            tr0[a] as int,
                            tr0[b] as int,
                            nt0[k] as int,
                            nt0[l] as int,
                        ),
                    forall|b: int, k: int, l: int|
                        i < b < j && 0 <= k < nt0.len() && 0 <= l < nt0.len() ==> !#[trigger] improving2(
                            p,
                            t0,
                            st0,
                            ei as int,
                            tr0[b] as int,
                            nt0[k] as int,
                            nt0[l] as int,
                        ),
                decreases tr0.len() - j,
            {
                let ej = tree[j];
                let (c, d) = self.p.g.ends(ej);
                proof {
                    assert(tr0.contains(ej));
                    assert(ej != ei);
                }
                self.conflicts.remove_edge(ej);
                let cut = self.connectivity.disconnect2((a, b), (c, d));
                proof {
                    assert(self.members().update(ei as int, true).update(ej as int, true) =~= t0);
                }
                let ghost pre = *self;
                let found = if cut { self.find_replace(ei, ej) } else { None };
                match found {
                    Some((k, l)) => {
                        self.replace(tree, i, j, k, l);
                        proof {
                            if !old(self).sorting() {
                                let (jj, kk, ll) = (j as int, k as int, l as int);
                                assert(i < jj < old(tree)@.len() && 0 <= kk < old(self).non_tree_spec().len() && 0 <= ll
                                    < old(self).non_tree_spec().len() && kk != ll);
                                assert(tree@ == old(tree)@.update(i as int, old(self).non_tree_spec()[kk]).update(
                                    jj,
                                    old(self).non_tree_spec()[ll],
                                ));
                                assert(tree@[jj] != old(tree)@[jj]) by {
                                    assert(old(self).members()[old(tree)@[jj] as int]);
                                }
                                assert(tree@[i as int] != old(tree)@[i as int]) by {
                                    assert(old(self).members()[old(tree)@[i as int] as int]);
                                }
                            }
                            assert(self.obj_spec() < old(self).obj_spec());
                            assert(s <= i < tree@.len());
                        }
                        return Some(i);
                    },
                    None => {},
                }
                self.conflicts.add_edge(ej);
                proof {
                    assert(self.members() =~= t0.update(ei as int, false));
                    let t12 = t0.update(ei as int, false).update(ej as int, false);
                    assert(pre.members() == t12);
                    assert forall|k: int, l: int| 0 <= k < nt0.len() && 0 <= l < nt0.len() implies !#[trigger] improving2(
                        p,
                        t0,
                        st0,
                        ei as int,
                        tr0[j as int] as int,
                        nt0[k] as int,
                        nt0[l] as int,
                    ) by {
                        assert(cut == cuts_ok(st0, p.g, ei as int, ej as int));
                        if cut {
                            assert(pre.category(nt0[k] as int) == category_after(st0, p.g, ei as int, ej as int, nt0[k] as int));
                            assert(pre.category(nt0[l] as int) == category_after(st0, p.g, ei as int, ej as int, nt0[l] as int));
                        }
                        if improving2(p, t0, st0, ei as int, ej as int, nt0[k] as int, nt0[l] as int) {
                            assert(pre.candidate(ei as int, ej as int, nt0[k] as int));
                            assert(pre.candidate(ei as int, ej as int, nt0[l] as int));
                        }
                    }
                }
                j += 1;
            }
            self.conflicts.add_edge(ei);
            proof {
                assert(self.members() =~= t0);
                assert forall|a: int, b: int, k: int, l: int|
                    s <= a < i + 1 && a < b < tr0.len() && 0 <= k < nt0.len() && 0 <= l < nt0.len() implies !#[trigger] improving2(
                        p,
                        t0,
                        st0,
                        tr0[a] as int,
                        tr0[b] as int,
                        nt0[k] as int,
                        nt0[l] as int,
                    ) by {
                    if a == i as int {
                        assert(tr0[a] == ei);
                    }
                }
            }
            i += 1;
        }
        None
    }

    /// Sorts the candidates by the pair of components they join, then tries the pairs of
    /// categories {0,1}+{0,2}, {0,1}+{1,2}, {0,2}+{1,2} in that order.
    fn find_replace(&mut self, ei: usize, ej: usize) -> (r: Option<(usize, usize)>)
        requires
            old(self).inv(),
            ei < old(self).prob().m(),
            ej < old(self).prob().m(),
            ei != ej,
            distinct(old(self).non_tree_spec()),
            forall|k: int|
                0 <= k < old(self).non_tree_spec().len() ==> #[trigger] old(self).non_tree_spec()[k] < old(self).prob().m()
                    && !old(self).members()[old(self).non_tree_spec()[k] as int],
            forall|k: int|
                0 <= k < old(self).non_tree_spec().len() ==> #[trigger] old(self).non_tree_spec()[k] != ei
                    && old(self).non_tree_spec()[k] != ej,
            !old(self).members()[ei as int],
            !old(self).members()[ej as int],
            old(self).weight_spec() == weight_set(
                old(self).prob(),
                old(self).members().update(ei as int, true).update(ej as int, true),
            ),
            old(self).sorting() ==> forall|i: int|
                0 <= i < old(self).non_tree@.len() - 1 ==> edge_obj(
                    old(self).prob(),
                    old(self).members().update(ei as int, true).update(ej as int, true),
                    #[trigger] old(self).non_tree@[i] as int,
                ) <= edge_obj(
                    old(self).prob(),
                    old(self).members().update(ei as int, true).update(ej as int, true),
                    old(self).non_tree@[i + 1] as int,
                ),
        ensures
            final(self).inv(),
            final(self).prob() == old(self).prob(),
            final(self).sorting() == old(self).sorting(),
            final(self).stopping() == old(self).stopping(),
            final(self).non_tree_spec() == old(self).non_tree_spec(),
            final(self).weight_spec() == old(self).weight_spec(),
            final(self).num_conflicts_spec() == old(self).num_conflicts_spec(),
            final(self).obj_field() == old(self).obj_field(),
            final(self).connectivity == old(self).connectivity,
            match r {
                Some((k, l)) => k < old(self).non_tree_spec().len() && l < old(self).non_tree_spec().len() && k != l
                    && final(self).members() == old(self).members().update(old(self).non_tree_spec()[k as int] as int, true).update(
                    old(self).non_tree_spec()[l as int] as int,
                    true,
                ) && set_obj(final(self).prob(), final(self).members()) < old(self).obj_field(),
                None => final(self).members() == old(self).members() && (forall|k: int, l: int|
                    0 <= k < old(self).non_tree_spec().len() && 0 <= l < old(self).non_tree_spec().len()
                        && #[trigger] old(self).candidate(ei as int, ej as int, old(self).non_tree_spec()[k] as int)
                        && #[trigger] old(self).candidate(ei as int, ej as int, old(self).non_tree_spec()[l] as int)
                        && old(self).category(old(self).non_tree_spec()[k] as int) != old(self).category(
                        old(self).non_tree_spec()[l] as int,
                    ) ==> !(set_obj(
                        old(self).prob(),
                        old(self).members().update(old(self).non_tree_spec()[k] as int, true).update(
                            old(self).non_tree_spec()[l] as int,
                            true,
                        ),
                    ) < old(self).obj_field())),
            },
    {
        let ghost s0 = *self;
        let (c01, c02, c12, _lim) = self.separate_comps(ei, ej);
        match self.find_replace_(ei, ej, &c01, &c02, 0, 1) {
            Some(r) => {
                return Some(r);
            },
            None => {},
        }
        match self.find_replace_(ei, ej, &c01, &c12, 0, 2) {
            Some(r) => {
                return Some(r);
            },
            None => {},
        }
        let r = self.find_replace_(ei, ej, &c02, &c12, 1, 2);
        proof {
            if r is None {
                let nt = s0.non_tree_spec();
                let t1 = s0.members();
                lemma_distinct_len(nt, s0.prob().m() as nat);
                assert forall|k: int, l: int|
                    0 <= k < nt.len() && 0 <= l < nt.len() && #[trigger] s0.candidate(ei as int, ej as int, nt[k] as int)
                        && #[trigger] s0.candidate(ei as int, ej as int, nt[l] as int) && s0.category(nt[k] as int)
                        != s0.category(nt[l] as int) implies !(set_obj(
                    s0.prob(),
                    t1.update(nt[k] as int, true).update(nt[l] as int, true),
                ) < s0.obj_field()) by {
                    let ck = s0.category(nt[k] as int);
                    let cl = s0.category(nt[l] as int);
                    let (lo, hi) = if ck < cl { (k, l) } else { (l, k) };
                    assert(t1.update(nt[k] as int, true).update(nt[l] as int, true) =~= t1.update(nt[lo] as int, true).update(
                        nt[hi] as int,
                        true,
                    ));
                    assert(0 <= lo < nt.len() && 0 <= hi < nt.len());
                    assert((lo as usize) as int == lo && (hi as usize) as int == hi);
                    let clo = s0.category(nt[lo] as int);
                    let chi = s0.category(nt[hi] as int);
                    let la = if clo == 0 { c01@ } else { c02@ };
                    let lb = if chi == 1 { c02@ } else { c12@ };
                    assert(la.contains(lo as usize));
                    assert(lb.contains(hi as usize));
                    let x = choose|x: int| 0 <= x < la.len() && la[x] == lo as usize;
                    let y = choose|y: int| 0 <= y < lb.len() && lb[y] == hi as usize;
                    assert(nt[la[x] as int] == nt[lo]);
                    assert(nt[lb[y] as int] == nt[hi]);
                }
            }
        }
        r
    }

    /// Positions of the candidates that can still improve on removing `ei` and `ej`, by
    /// the pair of components they join: {0,1}, {0,2} and {1,2}.
    fn separate_comps(&self, ei: usize, ej: usize) -> (r: (Vec<usize>, Vec<usize>, Vec<usize>, usize))
        requires
            self.inv(),
            ei < self.prob().m(),
            ej < self.prob().m(),
            forall|k: int| 0 <= k < self.non_tree@.len() ==> #[trigger] self.non_tree@[k] < self.prob().m(),
            ei != ej,
            !self.members()[ei as int],
            !self.members()[ej as int],
            self.sorting() ==> forall|i: int|
                0 <= i < self.non_tree@.len() - 1 ==> edge_obj(
                    self.prob(),
                    self.members().update(ei as int, true).update(ej as int, true),
                    #[trigger] self.non_tree@[i] as int,
                ) <= edge_obj(
                    self.prob(),
                    self.members().update(ei as int, true).update(ej as int, true),
                    self.non_tree@[i + 1] as int,
                ),
        ensures
            forall|x: int| 0 <= x < r.0@.len() ==> self.candidate(ei as int, ej as int, self.non_tree@[#[trigger] r.0@[x] as int] as int),
            forall|a: int, b: int| 0 <= a < b < r.0@.len() ==> #[trigger] r.0@[a] < #[trigger] r.0@[b],
            forall|x: int| 0 <= x < r.1@.len() ==> self.candidate(ei as int, ej as int, self.non_tree@[#[trigger] r.1@[x] as int] as int),
            forall|a: int, b: int| 0 <= a < b < r.1@.len() ==> #[trigger] r.1@[a] < #[trigger] r.1@[b],
            forall|x: int| 0 <= x < r.2@.len() ==> self.candidate(ei as int, ej as int, self.non_tree@[#[trigger] r.2@[x] as int] as int),
            forall|a: int, b: int| 0 <= a < b < r.2@.len() ==> #[trigger] r.2@[a] < #[trigger] r.2@[b],
            forall|x: int| 0 <= x < r.0@.len() ==> #[trigger] r.0@[x] < self.non_tree@.len() && self.category(self.non_tree@[r.0@[x] as int] as int) == 0,
            forall|x: int| 0 <= x < r.1@.len() ==> #[trigger] r.1@[x] < self.non_tree@.len() && self.category(self.non_tree@[r.1@[x] as int] as int) == 1,
            forall|x: int| 0 <= x < r.2@.len() ==> #[trigger] r.2@[x] < self.non_tree@.len() && self.category(self.non_tree@[r.2@[x] as int] as int) == 2,
            r.3 <= self.non_tree@.len(),
            !self.sorting() ==> r.3 == self.non_tree@.len(),
            forall|x: int| 0 <= x < r.0@.len() ==> #[trigger] r.0@[x] < r.3,
            forall|x: int| 0 <= x < r.1@.len() ==> #[trigger] r.1@[x] < r.3,
            forall|x: int| 0 <= x < r.2@.len() ==> #[trigger] r.2@[x] < r.3,
            forall|k: int|
                0 <= k < r.3 && #[trigger] self.candidate(ei as int, ej as int, self.non_tree@[k] as int) ==> (
                self.category(self.non_tree@[k] as int) == 0 ==> r.0@.contains(k as usize)) && (self.category(
                self.non_tree@[k] as int,
            ) == 1 ==> r.1@.contains(k as usize)) && (self.category(self.non_tree@[k] as int) == 2 ==> r.2@.contains(
                k as usize,
            )),
            forall|k: int|
                0 <= k < self.non_tree@.len() && #[trigger] self.candidate(ei as int, ej as int, self.non_tree@[k] as int) ==> (
                self.category(self.non_tree@[k] as int) == 0 ==> r.0@.contains(k as usize)) && (self.category(
                self.non_tree@[k] as int,
            ) == 1 ==> r.1@.contains(k as usize)) && (self.category(self.non_tree@[k] as int) == 2 ==> r.2@.contains(
                k as usize,
            )),
    {
        let mut c01: Vec<usize> = Vec::new();
        let mut c02: Vec<usize> = Vec::new();
        let mut c12: Vec<usize> = Vec::new();
        let lim = self.non_tree_limit(ei, ej);
        let bound = self.obj_edge(ei) + self.obj_edge(ej);
        proof {
            assert forall|k2: int|
                lim <= k2 < self.non_tree@.len() implies !#[trigger] self.candidate(ei as int, ej as int, self.non_tree@[k2] as int) by {
                assert(edge_obj(self.prob(), self.members(), self.non_tree@[k2] as int) >= edge_obj(self.prob(), self.members(), ei as int)
                    + edge_obj(self.prob(), self.members(), ej as int));
            }
        }
        let mut k: usize = 0;
        while k < lim
            invariant
                self.inv(),
                forall|x: int| 0 <= x < self.non_tree@.len() ==> #[trigger] self.non_tree@[x] < self.prob().m(),
                lim <= self.non_tree@.len(),
                0 <= k <= lim,
                forall|x: int| 0 <= x < c01@.len() ==> #[trigger] c01@[x] < self.non_tree@.len() && self.category(self.non_tree@[c01@[x] as int] as int) == 0,
                forall|x: int| 0 <= x < c02@.len() ==> #[trigger] c02@[x] < self.non_tree@.len() && self.category(self.non_tree@[c02@[x] as int] as int) == 1,
                forall|x: int| 0 <= x < c12@.len() ==> #[trigger] c12@[x] < self.non_tree@.len() && self.category(self.non_tree@[c12@[x] as int] as int) == 2,
                !self.sorting() ==> lim == self.non_tree@.len(),
                forall|k2: int|
                    lim <= k2 < self.non_tree@.len() ==> !#[trigger] self.candidate(ei as int, ej as int, self.non_tree@[k2] as int),
                ei < self.prob().m(),
                ej < self.prob().m(),
                bound == edge_obj(self.prob(), self.members(), ei as int) + edge_obj(self.prob(), self.members(), ej as int),
                forall|k2: int|
                    0 <= k2 < k && #[trigger] self.candidate(ei as int, ej as int, self.non_tree@[k2] as int) ==> (
                    self.category(self.non_tree@[k2] as int) == 0 ==> c01@.contains(k2 as usize)) && (self.category(
                    self.non_tree@[k2] as int,
                ) == 1 ==> c02@.contains(k2 as usize)) && (self.category(self.non_tree@[k2] as int) == 2
                    ==> c12@.contains(k2 as usize)),
                forall|x: int| 0 <= x < c01@.len() ==> #[trigger] c01@[x] < k && self.candidate(ei as int, ej as int, self.non_tree@[c01@[x] as int] as int),
                forall|a: int, b: int| 0 <= a < b < c01@.len() ==> #[trigger] c01@[a] < #[trigger] c01@[b],
                forall|x: int| 0 <= x < c02@.len() ==> #[trigger] c02@[x] < k && self.candidate(ei as int, ej as int, self.non_tree@[c02@[x] as int] as int),
                forall|a: int, b: int| 0 <= a < b < c02@.len() ==> #[trigger] c02@[a] < #[trigger] c02@[b],
                forall|x: int| 0 <= x < c12@.len() ==> #[trigger] c12@[x] < k && self.candidate(ei as int, ej as int, self.non_tree@[c12@[x] as int] as int),
                forall|a: int, b: int| 0 <= a < b < c12@.len() ==> #[trigger] c12@[a] < #[trigger] c12@[b],
            decreases lim - k,
        {
            let e = self.non_tree[k];
            let (u, v) = self.p.g.ends(e);
            let ghost (o01, o02, o12) = (c01@, c02@, c12@);
            if self.obj_edge(e) < bound {
                let cu = self.connectivity.comp(u);
                let cv = self.connectivity.comp(v);
                if cu == cv {
                } else if (cu == 0 && cv == 1) || (cu == 1 && cv == 0) {
                    c01.push(k);
                } else if (cu == 0 && cv == 2) || (cu == 2 && cv == 0) {
                    c02.push(k);
                } else {
                    c12.push(k);
                }
            }
            proof {
                assert forall|k2: int|
                    0 <= k2 < k + 1 && #[trigger] self.candidate(ei as int, ej as int, self.non_tree@[k2] as int) implies (
                    self.category(self.non_tree@[k2] as int) == 0 ==> c01@.contains(k2 as usize)) && (self.category(
                    self.non_tree@[k2] as int,
                ) == 1 ==> c02@.contains(k2 as usize)) && (self.category(self.non_tree@[k2] as int) == 2
                    ==> c12@.contains(k2 as usize)) by {
                    if k2 < k {
                        if o01.contains(k2 as usize) {
                            let x = choose|x: int| 0 <= x < o01.len() && o01[x] == k2 as usize;
                            assert(c01@[x] == k2 as usize);
                        }
                        if o02.contains(k2 as usize) {
                            let x = choose|x: int| 0 <= x < o02.len() && o02[x] == k2 as usize;
                            assert(c02@[x] == k2 as usize);
                        }
                        if o12.contains(k2 as usize) {
                            let x = choose|x: int| 0 <= x < o12.len() && o12[x] == k2 as usize;
                            assert(c12@[x] == k2 as usize);
                        }
                    } else {
                        if c01@.len() > o01.len() {
                            assert(c01@[o01.len() as int] == k2 as usize);
                        }
                        if c02@.len() > o02.len() {
                            assert(c02@[o02.len() as int] == k2 as usize);
                        }
                        if c12@.len() > o12.len() {
                            assert(c12@[o12.len() as int] == k2 as usize);
                        }
                    }
                }
            }
            k += 1;
        }
        (c01, c02, c12, lim)
    }

    /// With `sort` on, the candidates past the first non-tree edge whose objective reaches
    /// that of `ei` and `ej` together, with two conflicts more, cannot improve;
    /// otherwise all are scanned.
    fn non_tree_limit(&self, ei: usize, ej: usize) -> (r: usize)
        requires
            self.inv(),
            ei < self.prob().m(),
            ej < self.prob().m(),
            ei != ej,
            !self.members()[ei as int],
            !self.members()[ej as int],
            forall|j: int| 0 <= j < self.non_tree@.len() ==> #[trigger] self.non_tree@[j] < self.prob().m(),
            self.sorting() ==> forall|i: int|
                0 <= i < self.non_tree@.len() - 1 ==> edge_obj(
                    self.prob(),
                    self.members().update(ei as int, true).update(ej as int, true),
                    #[trigger] self.non_tree@[i] as int,
                ) <= edge_obj(
                    self.prob(),
                    self.members().update(ei as int, true).update(ej as int, true),
                    self.non_tree@[i + 1] as int,
                ),
        ensures
            r <= self.non_tree@.len(),
            !self.sorting() ==> r == self.non_tree@.len(),
            forall|j: int|
                r <= j < self.non_tree@.len() ==> edge_obj(self.prob(), self.members(), #[trigger] self.non_tree@[j] as int)
                    >= edge_obj(self.prob(), self.members(), ei as int) + edge_obj(self.prob(), self.members(), ej as int),
    {
        if self.sort {
            let w = self.p.w[ei] as u64 + self.p.w[ej] as u64;
            let c = self.conflicts.conflict_count_of(ei) as u64 + self.conflicts.conflict_count_of(ej) as u64 + 2;
            let key = self.p.obj(w, c);
            proof {
                let a = self.prob().alpha as int;
                let b = self.prob().beta as int;
                let wi = self.prob().w@[ei as int] as int;
                let wj = self.prob().w@[ej as int] as int;
                let ci = conflict_count(self.prob(), self.members(), ei as int);
                let cj = conflict_count(self.prob(), self.members(), ej as int);
                assert(a * (wi + wj) + b * (ci + cj + 2) == (a * wi + b * ci) + (a * wj + b * cj) + 2 * b) by (nonlinear_arith);
            }
            let mut lo: usize = 0;
            let mut hi: usize = self.non_tree.len();
            while lo < hi
                invariant
                    self.inv(),
                    forall|j: int| 0 <= j < self.non_tree@.len() ==> #[trigger] self.non_tree@[j] < self.prob().m(),
                    0 <= lo <= hi <= self.non_tree@.len(),
                    key as int == edge_obj(self.prob(), self.members(), ei as int) + edge_obj(self.prob(), self.members(), ej as int)
                        + 2 * self.prob().beta,
                    hi < self.non_tree@.len() ==> edge_obj(self.prob(), self.members(), self.non_tree@[hi as int] as int)
                        >= key as int,
                decreases hi - lo,
            {
                let mid = lo + (hi - lo) / 2;
                if self.obj_edge(self.non_tree[mid]) < key {
                    lo = mid + 1;
                } else {
                    hi = mid;
                }
            }
            proof {
                let p = self.prob();
                let t12 = self.members();
                let t1 = t12.update(ei as int, true);
                let t = t1.update(ej as int, true);
                let nt = self.non_tree@;
                assert forall|j: int| lo <= j < nt.len() implies edge_obj(p, t12, #[trigger] nt[j] as int) >= edge_obj(p, t12, ei as int)
                    + edge_obj(p, t12, ej as int) by {
                    lemma_key_shift(p, t12, ei as int, nt[j] as int);
                    lemma_key_shift(p, t1, ej as int, nt[j] as int);
                    lemma_key_shift(p, t12, ei as int, nt[lo as int] as int);
                    lemma_key_shift(p, t1, ej as int, nt[lo as int] as int);
                    let f = |i: int| edge_obj(p, t, nt[i] as int);
                    assert forall|k: int| 0 <= k < nt.len() - 1 implies #[trigger] f(k) <= f(k + 1) by {}
                    lemma_sorted(f, nt.len() as int, lo as int, j);
                }
            }
            lo
        } else {
            self.non_tree.len()
        }
    }

    /// Tries each candidate of `aa` (category `ca`) with each of `bb` (category `cb`), in
    /// order, and keeps the first pair whose exchange lowers the objective; the pair
    /// stays in the conflict tracker.
    fn find_replace_(
        &mut self,
        ei: usize,
        ej: usize,
        aa: &Vec<usize>,
        bb: &Vec<usize>,
        ca: usize,
        cb: usize,
    ) -> (r: Option<(usize, usize)>)
        requires
            old(self).inv(),
            ei < old(self).prob().m(),
            ej < old(self).prob().m(),
            ei != ej,
            ca != cb,
            distinct(old(self).non_tree_spec()),
            forall|k: int|
                0 <= k < old(self).non_tree_spec().len() ==> #[trigger] old(self).non_tree_spec()[k] < old(self).prob().m()
                    && !old(self).members()[old(self).non_tree_spec()[k] as int],
            forall|k: int|
                0 <= k < old(self).non_tree_spec().len() ==> #[trigger] old(self).non_tree_spec()[k] != ei
                    && old(self).non_tree_spec()[k] != ej,
            !old(self).members()[ei as int],
            !old(self).members()[ej as int],
            old(self).weight_spec() == weight_set(
                old(self).prob(),
                old(self).members().update(ei as int, true).update(ej as int, true),
            ),
            forall|x: int| 0 <= x < aa@.len() ==> #[trigger] aa@[x] < old(self).non_tree@.len() && old(self).category(old(self).non_tree@[aa@[x] as int] as int) == ca,
            forall|x: int| 0 <= x < bb@.len() ==> #[trigger] bb@[x] < old(self).non_tree@.len() && old(self).category(old(self).non_tree@[bb@[x] as int] as int) == cb,
        ensures
            final(self).inv(),
            final(self).prob() == old(self).prob(),
            final(self).sorting() == old(self).sorting(),
            final(self).stopping() == old(self).stopping(),
            final(self).non_tree_spec() == old(self).non_tree_spec(),
            final(self).weight_spec() == old(self).weight_spec(),
            final(self).num_conflicts_spec() == old(self).num_conflicts_spec(),
            final(self).obj_field() == old(self).obj_field(),
            forall|e: int| #[trigger] final(self).category(e) == old(self).category(e),
            final(self).connectivity == old(self).connectivity,
            r matches Some((k, l)) ==> exists|x: int, y: int|
                0 <= x < aa@.len() && 0 <= y < bb@.len() && #[trigger] aa@[x] == k && #[trigger] bb@[y] == l && (forall|x2: int, y2: int|
                    0 <= x2 < x && 0 <= y2 < bb@.len() ==> !(set_obj(
                        old(self).prob(),
                        old(self).members().update(old(self).non_tree_spec()[#[trigger] aa@[x2] as int] as int, true).update(
                            old(self).non_tree_spec()[#[trigger] bb@[y2] as int] as int,
                            true,
                        ),
                    ) < old(self).obj_field())) && (forall|y2: int|
                    0 <= y2 < y ==> !(set_obj(
                        old(self).prob(),
                        old(self).members().update(old(self).non_tree_spec()[aa@[x] as int] as int, true).update(
                            old(self).non_tree_spec()[#[trigger] bb@[y2] as int] as int,
                            true,
                        ),
                    ) < old(self).obj_field())),
            match r {
                Some((k, l)) => k < old(self).non_tree_spec().len() && l < old(self).non_tree_spec().len() && k != l
                    && final(self).members() == old(self).members().update(old(self).non_tree_spec()[k as int] as int, true).update(
                    old(self).non_tree_spec()[l as int] as int,
                    true,
                ) && set_obj(final(self).prob(), final(self).members()) < old(self).obj_field(),
                None => final(self).members() == old(self).members() && forall|x: int, y: int|
                    0 <= x < aa@.len() && 0 <= y < bb@.len() ==> !(set_obj(
                        old(self).prob(),
                        old(self).members().update(old(self).non_tree_spec()[#[trigger] aa@[x] as int] as int, true).update(
                            old(self).non_tree_spec()[#[trigger] bb@[y] as int] as int,
                            true,
                        ),
                    ) < old(self).obj_field()),
            },
    {
        let ghost p = self.prob();
        let ghost t1 = self.members();
        let ghost nt = self.non_tree_spec();
        let ghost t0 = t1.update(ei as int, true).update(ej as int, true);
        proof {
            lemma_weight_change(p, t1, ei as int, true);
            lemma_weight_change(p, t1.update(ei as int, true), ej as int, true);
            lemma_weight_bound(p, t1);
        }
        let base = self.weight - self.p.w[ei] as u64 - self.p.w[ej] as u64;
        let mut x: usize = 0;
        while x < aa.len()
            invariant
                self.inv(),
                self.prob() == p,
                p.wf(),
                self.sorting() == old(self).sorting(),
                self.stopping() == old(self).stopping(),
                self.non_tree_spec() == nt,
                self.non_tree@ == nt,
                nt == old(self).non_tree@,
                self.weight_spec() == old(self).weight_spec(),
                self.num_conflicts_spec() == old(self).num_conflicts_spec(),
                self.obj_field() == old(self).obj_field(),
                forall|e: int| #[trigger] self.category(e) == old(self).category(e),
                self.connectivity == old(self).connectivity,
                self.p == old(self).p,
                self.members() == t1,
                t1 == old(self).members(),
                ca != cb,
                t1.len() == p.m(),
                base as int == weight_set(p, t1),
                distinct(nt),
                forall|k: int| 0 <= k < nt.len() ==> #[trigger] nt[k] < p.m() && !t1[nt[k] as int],
                forall|y: int| 0 <= y < aa@.len() ==> #[trigger] aa@[y] < nt.len() && old(self).category(nt[aa@[y] as int] as int) == ca,
                forall|y: int| 0 <= y < bb@.len() ==> #[trigger] bb@[y] < nt.len() && old(self).category(nt[bb@[y] as int] as int) == cb,
                0 <= x <= aa@.len(),
                forall|x2: int, y2: int|
                    0 <= x2 < x && 0 <= y2 < bb@.len() ==> !(set_obj(
                        p,
                        t1.update(nt[#[trigger] aa@[x2] as int] as int, true).update(nt[#[trigger] bb@[y2] as int] as int, true),
                    ) < old(self).obj_field()),
            decreases aa@.len() - x,
        {
            let k = aa[x];
            let ek = self.non_tree[k];
            self.conflicts.add_edge(ek);
            let ghost t2 = self.members();
            let mut y: usize = 0;
            while y < bb.len()
                invariant
                    self.inv(),
                    self.prob() == p,
                    p.wf(),
                    self.sorting() == old(self).sorting(),
                    self.stopping() == old(self).stopping(),
                    self.non_tree_spec() == nt,
                    self.non_tree@ == nt,
                    nt == old(self).non_tree@,
                    t1 == old(self).members(),
                    self.weight_spec() == old(self).weight_spec(),
                    self.num_conflicts_spec() == old(self).num_conflicts_spec(),
                    self.obj_field() == old(self).obj_field(),
                    forall|e: int| #[trigger] self.category(e) == old(self).category(e),
                    self.connectivity == old(self).connectivity,
                    self.p == old(self).p,
                    t1.len() == p.m(),
                    ca != cb,
                    t2 == t1.update(ek as int, true),
                    self.members() == t2,
                    k < nt.len(),
                    ek == nt[k as int],
                    old(self).category(ek as int) == ca,
                    base as int == weight_set(p, t1),
                    distinct(nt),
                    forall|k2: int| 0 <= k2 < nt.len() ==> #[trigger] nt[k2] < p.m() && !t1[nt[k2] as int],
                    forall|z: int| 0 <= z < bb@.len() ==> #[trigger] bb@[z] < nt.len() && old(self).category(nt[bb@[z] as int] as int) == cb,
                    0 <= y <= bb@.len(),
                    x < aa@.len(),
                    k == aa@[x as int],
                    forall|x2: int, y2: int|
                        0 <= x2 < x && 0 <= y2 < bb@.len() ==> !(set_obj(
                            p,
                            t1.update(nt[#[trigger] aa@[x2] as int] as int, true).update(nt[#[trigger] bb@[y2] as int] as int, true),
                        ) < old(self).obj_field()),
                    forall|y2: int|
                        0 <= y2 < y ==> !(set_obj(p, t1.update(ek as int, true).update(nt[#[trigger] bb@[y2] as int] as int, true))
                            < old(self).obj_field()),
                decreases bb@.len() - y,
            {
                let l = bb[y];
                let el = self.non_tree[l];
                proof {
                    assert(old(self).category(nt[l as int] as int) == cb);
                    assert(l != k);
                    assert(el != ek);
                    assert(!t2[el as int]);
                    lemma_weight_change(p, t1, ek as int, true);
                    lemma_weight_change(p, t2, el as int, true);
                    lemma_weight_bound(p, t2.update(el as int, true));
                }
                self.conflicts.add_edge(el);
                let new_weight = base + self.p.w[ek] as u64 + self.p.w[el] as u64;
                let new_obj = self.p.obj(new_weight, self.conflicts.total() as u64);
                if new_obj < self.obj {
                    proof {
                        let (xx, yy) = (x as int, y as int);
                        assert(aa@[xx] == k && bb@[yy] == l);
                        assert(nt[aa@[xx] as int] == ek);
                    }
                    return Some((k, l));
                }
                self.conflicts.remove_edge(el);
                proof {
                    assert(self.members() =~= t2);
                    assert forall|y2: int|
                        0 <= y2 < y + 1 implies !(set_obj(p, t1.update(ek as int, true).update(nt[#[trigger] bb@[y2] as int] as int, true))
                            < old(self).obj_field()) by {
                        if y2 == y as int {
                            assert(nt[bb@[y2] as int] == el);
                        }
                    }
                }
                y += 1;
            }
            self.conflicts.remove_edge(ek);
            proof {
                assert(self.members() =~= t1);
                assert forall|x2: int, y2: int|
                    0 <= x2 < x + 1 && 0 <= y2 < bb@.len() implies !(set_obj(
                        p,
                        t1.update(nt[#[trigger] aa@[x2] as int] as int, true).update(nt[#[trigger] bb@[y2] as int] as int, true),
                    ) < old(self).obj_field()) by {
                    if x2 == x as int {
                        assert(nt[aa@[x2] as int] == ek);
                    }
                }
            }
            x += 1;
        }
        None
    }

    /// Makes the exchange: `tree[i]` and `tree[j]` leave for `non_tree[k]` and
    /// `non_tree[l]` (already in the conflict tracker); the intervals are recomputed.
    fn replace(&mut self, tree: &mut Vec<usize>, i: usize, j: usize, k: usize, l: usize)
        requires
            old(self).inv(),
            0 <= i < old(tree)@.len(),
            0 <= j < old(tree)@.len(),
            i != j,
            0 <= k < old(self).non_tree_spec().len(),
            0 <= l < old(self).non_tree_spec().len(),
            k != l,
            distinct(old(tree)@),
            forall|x: int| 0 <= x < old(tree)@.len() ==> #[trigger] old(tree)@[x] < old(self).prob().m(),
            old(self).members() == edge_set(old(self).prob().m(), old(tree)@).update(old(tree)@[i as int] as int, false).update(
                old(tree)@[j as int] as int,
                false,
            ).update(old(self).non_tree_spec()[k as int] as int, true).update(old(self).non_tree_spec()[l as int] as int, true),
            distinct(old(self).non_tree_spec()),
            forall|x: int|
                0 <= x < old(self).non_tree_spec().len() ==> #[trigger] old(self).non_tree_spec()[x] < old(self).prob().m()
                    && !edge_set(old(self).prob().m(), old(tree)@)[old(self).non_tree_spec()[x] as int],
            forall|e: int|
                0 <= e < old(self).prob().m() && !#[trigger] edge_set(old(self).prob().m(), old(tree)@)[e]
                    ==> old(self).non_tree_spec().contains(e as usize),
        ensures
            final(tree)@ == old(tree)@.update(i as int, old(self).non_tree_spec()[k as int]).update(
                j as int,
                old(self).non_tree_spec()[l as int],
            ),
            final(self).wf_with(final(tree)@),
            final(self).prob() == old(self).prob(),
            final(self).sorting() == old(self).sorting(),
            final(self).stopping() == old(self).stopping(),
            final(tree)@.len() == old(tree)@.len(),
            final(self).obj_spec() == set_obj(old(self).prob(), old(self).members()),
    {
        let ghost p = self.prob();
        let ghost t0 = edge_set(p.m(), tree@);
        let ghost tr = tree@;
        let ghost nt = self.non_tree@;
        let ei = tree[i];
        let ej = tree[j];
        let ek = self.non_tree[k];
        let el = self.non_tree[l];
        tree.set(i, ek);
        tree.set(j, el);
        self.non_tree.set(k, ei);
        self.non_tree.set(l, ej);
        proof {
            assert(t0[ei as int] && t0[ej as int]) by {
                assert(tr[i as int] == ei && tr[j as int] == ej);
            }
            assert(ei != ej);
            assert(ek != el);
            assert forall|a: int, b: int| 0 <= a < b < tree@.len() implies #[trigger] tree@[a] != #[trigger] tree@[b] by {
                if (a == i as int || a == j as int) && b != i as int && b != j as int {
                    assert(t0[tree@[b] as int]);
                } else if (b == i as int || b == j as int) && a != i as int && a != j as int {
                    assert(t0[tree@[a] as int]);
                }
            }
            assert forall|a: int, b: int| 0 <= a < b < self.non_tree@.len() implies #[trigger] self.non_tree@[a]
                != #[trigger] self.non_tree@[b] by {
                if (a == k as int || a == l as int) && b != k as int && b != l as int {
                    assert(!t0[self.non_tree@[b] as int]);
                } else if (b == k as int || b == l as int) && a != k as int && a != l as int {
                    assert(!t0[self.non_tree@[a] as int]);
                }
            }
            assert(self.members() =~= edge_set(p.m(), tree@)) by {
                let t2 = self.members();
                assert forall|e: int| 0 <= e < p.m() implies t2[e] == edge_set(p.m(), tree@)[e] by {
                    if e == ek as int {
                        assert(tree@[i as int] == ek);
                    } else if e == el as int {
                        assert(tree@[j as int] == el);
                    } else if t0[e] && e != ei as int && e != ej as int {
                        let x = choose|x: int| 0 <= x < tr.len() && tr[x] == e as usize;
                        assert(tree@[x] == e as usize);
                    } else if tree@.contains(e as usize) {
                        let x = choose|x: int| 0 <= x < tree@.len() && tree@[x] == e as usize;
                        if x != i as int && x != j as int {
                            assert(tr[x] == e as usize);
                            assert(tr[x] != tr[i as int]);
                            assert(tr[x] != tr[j as int]);
                        }
                    }
                }
            }
            assert forall|x: int| 0 <= x < self.non_tree@.len() implies #[trigger] self.non_tree@[x] < p.m()
                && !self.members()[self.non_tree@[x] as int] by {
                if x != k as int && x != l as int {
                    assert(self.non_tree@[x] != ek && self.non_tree@[x] != el);
                }
            }
            assert forall|e: int| 0 <= e < p.m() && !#[trigger] self.members()[e] implies self.non_tree@.contains(e as usize) by {
                if e == ei as int {
                    assert(self.non_tree@[k as int] == ei);
                } else if e == ej as int {
                    assert(self.non_tree@[l as int] == ej);
                } else {
                    assert(!t0[e]);
                    let x = choose|x: int| 0 <= x < nt.len() && nt[x] == e as usize;
                    assert(x != k as int && x != l as int);
                    assert(self.non_tree@[x] == e as usize);
                }
            }
        }
        self.connectivity.set_edges(tree.as_slice());
        let num_conflicts = self.conflicts.total();
        let weight = tree_weight(self.p, tree.as_slice());
        log_improvement("conflicts", self.num_conflicts, num_conflicts);
        log_improvement("weight   ", self.weight as u32, weight as u32);
        self.num_conflicts = num_conflicts;
        self.weight = weight;
        self.obj = self.p.obj(self.weight, self.num_conflicts as u64);
    }

    /// With `sort` on: non-tree edges by ascending, tree edges by descending objective.
    fn sort(&mut self, tree: &mut Vec<usize>)
        requires
            old(self).wf_with(old(tree)@),
        ensures
            final(self).wf_with(final(tree)@),
            final(self).prob() == old(self).prob(),
            final(self).members() == old(self).members(),
            final(self).sorting() == old(self).sorting(),
            final(self).stopping() == old(self).stopping(),
            final(self).non_tree_spec().len() == old(self).non_tree_spec().len(),
            forall|x: usize| final(self).non_tree_spec().contains(x) <==> old(self).non_tree_spec().contains(x),
            final(tree)@.len() == old(tree)@.len(),
            final(self).weight_spec() == old(self).weight_spec(),
            final(self).num_conflicts_spec() == old(self).num_conflicts_spec(),
            !old(self).sorting() ==> final(tree)@ == old(tree)@ && final(self).non_tree_spec() == old(self).non_tree_spec(),
            final(self).conn_tree() == old(self).conn_tree(),
            final(self).stamps() == old(self).stamps(),
            old(self).sorting() ==> forall|i: int|
                0 <= i < final(self).non_tree_spec().len() - 1 ==> edge_obj(
                    final(self).prob(),
                    final(self).members(),
                    #[trigger] final(self).non_tree_spec()[i] as int,
                ) <= edge_obj(final(self).prob(), final(self).members(), final(self).non_tree_spec()[i + 1] as int),
    {
        if self.sort {
            let mut keys = self.keys_of(&self.non_tree);
            let ghost nt_before = self.non_tree@;
            let ghost keys_before = keys@;
            sort_by_keys(&mut self.non_tree, &mut keys);
            proof {
                assert forall|i: int| 0 <= i < self.non_tree@.len() implies keys@[i] == edge_obj(
                    self.prob(),
                    self.members(),
                    #[trigger] self.non_tree@[i] as int,
                ) by {
                    assert(crate::order::came_from(self.non_tree@, keys@, nt_before, keys_before, i));
                    let j = choose|j: int| 0 <= j < nt_before.len() && self.non_tree@[i] == #[trigger] nt_before[j] && keys@[i] == keys_before[j];
                }
                assert forall|i: int| 0 <= i < self.non_tree@.len() - 1 implies edge_obj(
                    self.prob(),
                    self.members(),
                    #[trigger] self.non_tree@[i] as int,
                ) <= edge_obj(self.prob(), self.members(), self.non_tree@[i + 1] as int) by {
                    assert(keys@[i] <= keys@[i + 1]);
                    assert(keys@[i] == edge_obj(self.prob(), self.members(), self.non_tree@[i] as int));
                    assert(keys@[i + 1] == edge_obj(self.prob(), self.members(), self.non_tree@[i + 1] as int));
                }
            }
            let mut tkeys = self.keys_of(tree);
            let ghost before = tree@;
            sort_by_keys(tree, &mut tkeys);
            let ghost sorted = tree@;
            reverse(tree);
            proof {
                assert forall|e: int| 0 <= e < self.prob().m() implies #[trigger] edge_set(self.prob().m(), tree@)[e]
                    == edge_set(self.prob().m(), before)[e] by {
                    assert(tree@.contains(e as usize) == sorted.contains(e as usize));
                    assert(sorted.contains(e as usize) == before.contains(e as usize));
                }
                assert(edge_set(self.prob().m(), tree@) =~= edge_set(self.prob().m(), before));
                assert forall|j: int| 0 <= j < self.non_tree@.len() implies #[trigger] self.non_tree@[j] < self.prob().m()
                    && !self.members()[self.non_tree@[j] as int] by {
                    assert(old(self).non_tree@.contains(self.non_tree@[j]));
                }
                assert forall|i: int| 0 <= i < tree@.len() implies #[trigger] tree@[i] < self.prob().m() by {
                    assert(before.contains(tree@[i]));
                }
            }
        }
    }

    /// The objective of each listed edge on its own.
    fn keys_of(&self, v: &Vec<usize>) -> (r: Vec<u128>)
        requires
            self.inv(),
            forall|i: int| 0 <= i < v@.len() ==> #[trigger] v@[i] < self.prob().m(),
        ensures
            r@.len() == v@.len(),
            forall|i: int| 0 <= i < v@.len() ==> #[trigger] r@[i] == edge_obj(self.prob(), self.members(), v@[i] as int),
    {
        let mut r: Vec<u128> = Vec::with_capacity(v.len());
        let mut i: usize = 0;
        while i < v.len()
            invariant
                self.inv(),
                forall|k: int| 0 <= k < v@.len() ==> #[trigger] v@[k] < self.prob().m(),
                0 <= i <= v@.len(),
                r@.len() == i,
                forall|k: int| 0 <= k < i ==> #[trigger] r@[k] == edge_obj(self.prob(), self.members(), v@[k] as int),
            decreases v@.len() - i,
        {
            r.push(self.obj_edge(v[i]));
            i += 1;
        }
        r
    }

    /// Installs `tree`: rebuilds the search intervals and the conflict tracker, lists
    /// the other edges as candidates and computes the running totals.
    fn setup(&mut self, tree: &Vec<usize>)
        requires
            old(self).inv(),
            distinct(tree@),
            forall|i: int| 0 <= i < tree@.len() ==> #[trigger] tree@[i] < old(self).prob().m(),
        ensures
            final(self).wf_with(tree@),
            final(self).prob() == old(self).prob(),
            final(self).sorting() == old(self).sorting(),
            final(self).stopping() == old(self).stopping(),
            forall|e: int| 0 <= e < final(self).prob().m() && !final(self).members()[e] ==> final(self).non_tree_spec().contains(e as usize),
    {
        let ghost p = self.prob();
        self.connectivity.set_edges(tree.as_slice());
        self.conflicts.reset();
        self.conflicts.add_edges(tree.as_slice());
        proof {
            assert(self.members() =~= edge_set(p.m(), tree@));
        }
        let m = self.p.g.ends.len();
        self.non_tree = Vec::with_capacity(m);
        let mut weight: u64 = 0;
        let mut e: usize = 0;
        proof {
            lemma_sum_point(p.m(), weight_fn(p, prefix_set(self.members(), 0)), -1);
        }
        while e < m
            invariant
                self.inv(),
                self.prob() == p,
                m == p.m(),
                self.members() == edge_set(p.m(), tree@),
                0 <= e <= m,
                forall|k: int| 0 <= k < self.non_tree@.len() ==> #[trigger] self.non_tree@[k] < e && !self.members()[self.non_tree@[k] as int],
                forall|a: int, b: int| 0 <= a < b < self.non_tree@.len() ==> self.non_tree@[a] < self.non_tree@[b],
                forall|f: int| 0 <= f < e && !self.members()[f] ==> self.non_tree@.contains(f as usize),
                weight as int == weight_set(p, prefix_set(self.members(), e as int)),
                self.conn_tree() == tree@,
                self.stamps() == dfs_stamps(p.g.n as nat, tree_ends(p.g, tree@), 0),
                self.sort == old(self).sort,
                self.stop_on_feasible == old(self).stop_on_feasible,
            decreases m - e,
        {
            let ghost before = prefix_set(self.members(), e as int);
            let ghost after = prefix_set(self.members(), e as int + 1);
            let ghost nt = self.non_tree@;
            if self.conflicts.contains(e) {
                proof {
                    lemma_weight_change(p, before, e as int, true);
                    lemma_weight_bound(p, after);
                    assert(after =~= before.update(e as int, true));
                }
                weight = weight + self.p.w[e] as u64;
            } else {
                proof {
                    assert(after =~= before);
                }
                self.non_tree.push(e);
                proof {
                    assert forall|f: int| 0 <= f < e + 1 && !self.members()[f] implies self.non_tree@.contains(f as usize) by {
                        if f == e as int {
                            assert(self.non_tree@[nt.len() as int] == e);
                        } else {
                            let k = choose|k: int| 0 <= k < nt.len() && nt[k] == f as usize;
                            assert(self.non_tree@[k] == f as usize);
                        }
                    }
                }
            }
            e += 1;
        }
        proof {
            assert(prefix_set(self.members(), e as int) =~= self.members());
            assert forall|a: int, b: int| 0 <= a < b < self.non_tree@.len() implies #[trigger] self.non_tree@[a]
                != #[trigger] self.non_tree@[b] by {}
        }
        self.weight = weight;
        self.num_conflicts = self.conflicts.total();
        self.obj = self.p.obj(self.weight, self.num_conflicts as u64);
    }

    /// Objective of `e` on its own, with its current conflict count.
    fn obj_edge(&self, e: usize) -> (r: u128)
        requires
            self.inv(),
            e < self.prob().m(),
        ensures
            r == edge_obj(self.prob(), self.members(), e as int),
            r <= 0x4_0000_0000_0000_0000,
    {
        proof {
            lemma_counts_bounded(self.prob(), self.members());
            let c = conflict_count(self.prob(), self.members(), e as int);
            let w = self.prob().w@[e as int] as int;
            let al = self.prob().alpha as int;
            let be = self.prob().beta as int;
            assert(al * w + be * c <= 0x4_0000_0000_0000_0000) by (nonlinear_arith)
                requires
                    0 <= al <= u32::MAX,
                    0 <= be <= u32::MAX,
                    0 <= w <= u32::MAX,
                    0 <= c <= u32::MAX,
            ;
        }
        self.p.obj(self.p.w[e] as u64, self.conflicts.conflict_count_of(e) as u64)
    }
}

impl<'a> LocalSearch for TwoEdgeReplacement<'a> {
    open spec fn problem_spec(&self) -> MstCcProblem {
        self.prob()
    }

    open spec fn ready(&self) -> bool {
        self.inv()
    }

    fn local_search(&mut self, tree: &mut Vec<usize>) -> (r: u32) {
        self.run(tree)
    }
}

} // verus!
