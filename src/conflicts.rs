use vstd::prelude::*;
use crate::counting::{
    lemma_count_is_occ, lemma_distinct_len, lemma_occ_take_le, lemma_sum_nonneg, lemma_occ_take_step,
    count_where, lemma_count_ext, lemma_count_le_len, lemma_count_none, lemma_count_or,
    lemma_count_take_le, lemma_count_take_step, lemma_sum_add, lemma_sum_ext, lemma_sum_le,
    lemma_sum_nonneg_term, lemma_sum_occ, lemma_sum_point, occ, sum_to,
};
use crate::problem::MstCcProblem;

verus! {

/// Marks an edge that is not tracked in `TrackConflicts::pos`.
pub const NONE: usize = usize::MAX;

/// Membership in the set `member`, as a predicate.
pub open spec fn in_set(member: Seq<bool>) -> spec_fn(usize) -> bool {
    |f: usize| member[f as int]
}

/// Members of `member` with index below `t`.
pub open spec fn below_in(member: Seq<bool>, t: int) -> spec_fn(usize) -> bool {
    |f: usize| (f as int) < t && member[f as int]
}

/// Members of `member` with index above `t`.
pub open spec fn above_in(member: Seq<bool>, t: int) -> spec_fn(usize) -> bool {
    |f: usize| member[f as int] && t < (f as int)
}

/// The edge `a`, when it lies below `t`.
pub open spec fn is_below(a: int, t: int) -> spec_fn(usize) -> bool {
    |f: usize| f as int == a && a < t
}

/// The edge `a`.
pub open spec fn is_edge(a: int) -> spec_fn(usize) -> bool {
    |f: usize| f as int == a
}

/// `c(e)`: how many edges of the set `member` conflict with `e`.
pub open spec fn conflict_count(p: MstCcProblem, member: Seq<bool>, e: int) -> int {
    count_where(p.cc[e]@, in_set(member)) as int
}

/// For a tracked edge `t`, the tracked edges of smaller index that conflict with it.
pub open spec fn pairs_below(p: MstCcProblem, member: Seq<bool>, t: int) -> int {
    if member[t] {
        count_where(p.cc[t]@, below_in(member, t)) as int
    } else {
        0
    }
}

pub open spec fn pairs_fn(p: MstCcProblem, member: Seq<bool>) -> spec_fn(int) -> int {
    |t: int| pairs_below(p, member, t)
}

/// Number of unordered conflicting pairs inside the set `member`; each pair is
/// counted once, at its edge of larger index.
pub open spec fn pair_count(p: MstCcProblem, member: Seq<bool>) -> int {
    sum_to(p.m(), pairs_fn(p, member))
}

/// Adding one edge `a` to a set adds `c(a)` pairs, and raises `c(f)` of each `f` that
/// conflicts with `a`.
pub proof fn lemma_add_one(p: MstCcProblem, member: Seq<bool>, a: int)
    requires
        p.wf(),
        member.len() == p.m(),
        0 <= a < p.m(),
        !member[a],
    ensures
        pair_count(p, member.update(a, true)) == pair_count(p, member) + conflict_count(p, member, a),
        forall|f: int|
            0 <= f < p.m() ==> #[trigger] conflict_count(p, member.update(a, true), f)
                == conflict_count(p, member, f) + occ(p.cc[a]@, f as usize),
{
    let m2 = member.update(a, true);
    let la = p.cc[a]@;
    let e1 = |t: int| if t == a { count_where(la, below_in(member, a)) as int } else { 0 };
    let e2 = |t: int| if member[t] && a < t { occ(p.cc[t]@, a as usize) as int } else { 0 };
    let t1 = pairs_fn(p, member);
    let t2 = pairs_fn(p, m2);
    let h1 = |t: int| t1(t) + e1(t);
    assert forall|t: int| 0 <= t < p.m() implies #[trigger] t2(t) == h1(t) + e2(t) by {
        let lst = p.cc[t]@;
        if t == a {
            lemma_count_ext(lst, below_in(m2, t), below_in(member, a));
        } else if member[t] {
            lemma_count_or(lst, below_in(member, t), is_below(a, t), below_in(m2, t));
            if a < t {
                lemma_count_is_occ(lst, is_below(a, t), a as usize);
            } else {
                lemma_count_none(lst, is_below(a, t));
            }
        }
    }
    lemma_sum_add(p.m(), t1, e1, h1);
    lemma_sum_add(p.m(), h1, e2, t2);
    lemma_sum_point(p.m(), e1, a);
    let e3 = |t: int| if above_in(member, a)(t as usize) { occ(la, t as usize) as int } else { 0 };
    assert forall|t: int| 0 <= t < p.m() implies #[trigger] e2(t) == e3(t) by {
        assert(occ(p.cc[t]@, a as usize) == occ(p.cc[a]@, t as usize));
    }
    lemma_sum_ext(p.m(), e2, e3);
    assert forall|i: int| 0 <= i < la.len() implies #[trigger] la[i] < p.m() by {}
    lemma_sum_occ(la, p.m(), above_in(member, a), e3);
    assert forall|i: int| 0 <= i < la.len() implies #[trigger] la[i] != a by {}
    lemma_count_or(la, below_in(member, a), above_in(member, a), in_set(member));
    assert forall|f: int| 0 <= f < p.m() implies #[trigger] conflict_count(p, m2, f)
        == conflict_count(p, member, f) + occ(p.cc[a]@, f as usize) by {
        let lf = p.cc[f]@;
        lemma_count_or(lf, in_set(member), is_edge(a), in_set(m2));
        lemma_count_is_occ(lf, is_edge(a), a as usize);
        assert(occ(p.cc[f]@, a as usize) == occ(p.cc[a]@, f as usize));
    }
}

pub open spec fn cc_len_fn(p: MstCcProblem) -> spec_fn(int) -> int {
    |t: int| p.cc[t]@.len() as int
}

/// Both counts are bounded by the total length of the conflict lists.
pub proof fn lemma_counts_bounded(p: MstCcProblem, member: Seq<bool>)
    requires
        p.wf(),
        member.len() == p.m(),
    ensures
        0 <= pair_count(p, member) <= p.cc_total(),
        forall|f: int| 0 <= f < p.m() ==> #[trigger] conflict_count(p, member, f) <= p.cc_total(),
{
    let lens = cc_len_fn(p);
    assert(p.cc_total() == sum_to(p.m(), lens));
    assert forall|t: int| 0 <= t < p.m() implies #[trigger] pairs_fn(p, member)(t) <= lens(t) by {
        lemma_count_le_len(p.cc[t]@, below_in(member, t));
    }
    lemma_sum_le(p.m(), pairs_fn(p, member), lens);
    lemma_sum_nonneg(p.m(), pairs_fn(p, member));
    assert forall|f: int| 0 <= f < p.m() implies #[trigger] conflict_count(p, member, f) <= p.cc_total() by {
        lemma_count_le_len(p.cc[f]@, in_set(member));
        lemma_sum_nonneg_term(p.m(), lens, f);
    }
}

/// The empty set has no pair and no conflict.
pub proof fn lemma_empty_set(p: MstCcProblem, member: Seq<bool>)
    requires
        p.wf(),
        member.len() == p.m(),
        forall|e: int| 0 <= e < p.m() ==> !#[trigger] member[e],
    ensures
        pair_count(p, member) == 0,
        forall|f: int| 0 <= f < p.m() ==> #[trigger] conflict_count(p, member, f) == 0,
{
    lemma_sum_point(p.m(), pairs_fn(p, member), -1);
    assert forall|f: int| 0 <= f < p.m() implies #[trigger] conflict_count(p, member, f) == 0 by {
        let lf = p.cc[f]@;
        assert forall|i: int| 0 <= i < lf.len() implies !in_set(member)(#[trigger] lf[i]) by {}
        lemma_count_none(lf, in_set(member));
    }
}

/// The unordered conflicting pairs inside the set `member`, each written
/// `(smaller, larger)`.
pub open spec fn conflict_pairs(p: MstCcProblem, member: Seq<bool>) -> Set<(int, int)> {
    Set::new(
        |pr: (int, int)|
            0 <= pr.0 < pr.1 < p.m() && member[pr.0] && member[pr.1] && p.cc[pr.1]@.contains(pr.0 as usize),
    )
}

/// The pairs `(f, k)` for the entries `f` of `list` below `k`, when `k` and `f` are in
/// `member`.
spec fn row_pairs(list: Seq<usize>, member: Seq<bool>, k: int) -> Set<(int, int)>
    decreases list.len(),
{
    if list.len() == 0 {
        Set::empty()
    } else {
        let prev = row_pairs(list.drop_last(), member, k);
        let f = list.last() as int;
        if f < k && member[f] && member[k] {
            prev.insert((f, k))
        } else {
            prev
        }
    }
}

/// The conflicting pairs inside `member` whose larger edge is below `k`.
spec fn pairs_upto(p: MstCcProblem, member: Seq<bool>, k: int) -> Set<(int, int)>
    decreases k,
{
    if k <= 0 {
        Set::empty()
    } else {
        pairs_upto(p, member, k - 1).union(row_pairs(p.cc[k - 1]@, member, k - 1))
    }
}

proof fn lemma_row_pairs(list: Seq<usize>, member: Seq<bool>, k: int)
    requires
        0 <= k < member.len() <= u32::MAX,
        forall|i: int| 0 <= i < list.len() ==> #[trigger] list[i] < member.len(),
        forall|i: int, j: int| 0 <= i < j < list.len() ==> #[trigger] list[i] != #[trigger] list[j],
    ensures
        row_pairs(list, member, k).finite(),
        row_pairs(list, member, k).len() == if member[k] { count_where(list, below_in(member, k)) } else { 0 },
        forall|pr: (int, int)|
            #[trigger] row_pairs(list, member, k).contains(pr) <==> (pr.1 == k && 0 <= pr.0 < k && member[pr.0]
                && member[k] && list.contains(pr.0 as usize)),
    decreases list.len(),
{
    if list.len() > 0 {
        let l0 = list.drop_last();
        let f = list.last();
        assert forall|i: int, j: int| 0 <= i < j < l0.len() implies #[trigger] l0[i] != #[trigger] l0[j] by {
            assert(l0[i] == list[i] && l0[j] == list[j]);
        }
        assert forall|i: int| 0 <= i < l0.len() implies #[trigger] l0[i] < member.len() by {
            assert(l0[i] == list[i]);
        }
        lemma_row_pairs(l0, member, k);
        assert(!l0.contains(f)) by {
            if l0.contains(f) {
                let i = choose|i: int| 0 <= i < l0.len() && l0[i] == f;
                assert(list[i] == list[list.len() - 1]);
            }
        }
        assert forall|y: usize| list.contains(y) <==> (l0.contains(y) || y == f) by {
            if list.contains(y) && y != f {
                let i = choose|i: int| 0 <= i < list.len() && list[i] == y;
                assert(l0[i] == y);
            }
            if l0.contains(y) {
                let i = choose|i: int| 0 <= i < l0.len() && l0[i] == y;
                assert(list[i] == y);
            }
            assert(list[list.len() - 1] == f);
        }
        assert forall|pr: (int, int)|
            #[trigger] row_pairs(list, member, k).contains(pr) <==> (pr.1 == k && 0 <= pr.0 < k && member[pr.0]
                && member[k] && list.contains(pr.0 as usize)) by {
            if 0 <= pr.0 < k {
                assert((pr.0 as usize) as int == pr.0);
                assert((pr.0 as usize == f) == (pr.0 == f as int));
            }
        }
        if (f as int) < k && member[f as int] && member[k] {
            assert(!row_pairs(l0, member, k).contains((f as int, k)));
        }
    }
}

proof fn lemma_pairs_upto(p: MstCcProblem, member: Seq<bool>, k: int)
    requires
        p.wf(),
        member.len() == p.m(),
        0 <= k <= p.m(),
    ensures
        pairs_upto(p, member, k).finite(),
        pairs_upto(p, member, k).len() == sum_to(k, pairs_fn(p, member)),
        forall|pr: (int, int)|
            #[trigger] pairs_upto(p, member, k).contains(pr) <==> (0 <= pr.0 < pr.1 < k && member[pr.0] && member[pr.1]
                && p.cc[pr.1]@.contains(pr.0 as usize)),
    decreases k,
{
    if k > 0 {
        lemma_pairs_upto(p, member, k - 1);
        let list = p.cc[k - 1]@;
        assert forall|i: int| 0 <= i < list.len() implies #[trigger] list[i] < member.len() by {}
        lemma_row_pairs(list, member, k - 1);
        let a = pairs_upto(p, member, k - 1);
        let b = row_pairs(list, member, k - 1);
        assert(a.disjoint(b));
        vstd::set_lib::lemma_set_disjoint_lens(a, b);
        assert(a + b == a.union(b));
    }
}

/// The running count is the number of unordered conflicting pairs among the
/// tracked edges, whatever sequence of additions and removals led to the tracker.
pub proof fn lemma_total_counts_pairs(t: TrackConflicts)
    requires
        t.wf(),
    ensures
        conflict_pairs(t.prob(), t.members()).finite(),
        t.total_spec() == conflict_pairs(t.prob(), t.members()).len(),
{
    let p = t.prob();
    let member = t.members();
    lemma_pairs_upto(p, member, p.m());
    assert(conflict_pairs(p, member) =~= pairs_upto(p, member, p.m()));
}

/// Two trackers over the same problem that hold the same edges agree on the total
/// and on every edge's count, however each reached its state: a tracker rebuilt
/// from scratch on the current edges matches the incrementally maintained one.
pub proof fn lemma_rebuild_agrees(a: TrackConflicts, b: TrackConflicts)
    requires
        a.wf(),
        b.wf(),
        a.prob() == b.prob(),
        a.members() == b.members(),
    ensures
        a.total_spec() == b.total_spec(),
        forall|e: int| 0 <= e < a.prob().m() ==> #[trigger] a.counts()[e] == b.counts()[e],
{
}

/// Incremental count of the conflicting pairs inside a changing set of edges.
pub struct TrackConflicts<'a> {
    p: &'a MstCcProblem,
    edges: Vec<usize>,
    // position of e in edges, or NONE if e is not tracked
    pos: Vec<usize>,
    conflicts: u32,
    // number of tracked edges that conflict with e
    cc: Vec<u32>,
}

impl<'a> TrackConflicts<'a> {
    pub closed spec fn prob(&self) -> MstCcProblem {
        *self.p
    }

    /// Which edges are tracked.
    pub closed spec fn members(&self) -> Seq<bool> {
        Seq::new(self.pos@.len(), |e: int| self.pos@[e] != NONE)
    }

    /// The tracked edges, in their internal order.
    pub closed spec fn edge_list(&self) -> Seq<usize> {
        self.edges@
    }

    pub closed spec fn counts(&self) -> Seq<u32> {
        self.cc@
    }

    pub closed spec fn total_spec(&self) -> int {
        self.conflicts as int
    }

    pub closed spec fn inner_wf(&self) -> bool {
        &&& self.pos@.len() == self.p.m()
        &&& self.edges@.len() <= self.p.m()
        &&& self.p.m() <= u32::MAX
        &&& self.cc@.len() == self.p.m()
        &&& forall|i: int|
            0 <= i < self.edges@.len() ==> #[trigger] self.edges@[i] < self.p.m() && self.pos@[self.edges@[i] as int] == i
        &&& forall|e: int|
            0 <= e < self.p.m() ==> #[trigger] self.pos@[e] == NONE || (self.pos@[e] < self.edges@.len()
                && self.edges@[self.pos@[e] as int] == e)
    }

    pub open spec fn wf(&self) -> bool {
        &&& self.inner_wf()
        &&& self.prob().wf()
        &&& self.members().len() == self.prob().m()
        &&& self.counts().len() == self.prob().m()
        &&& forall|e: int|
            0 <= e < self.prob().m() ==> #[trigger] self.counts()[e] as int == conflict_count(
                self.prob(),
                self.members(),
                e,
            )
        &&& self.total_spec() == pair_count(self.prob(), self.members())
        &&& forall|i: int|
            0 <= i < self.edge_list().len() ==> #[trigger] self.edge_list()[i] < self.prob().m()
                && self.members()[self.edge_list()[i] as int]
        &&& forall|i: int, j: int|
            0 <= i < j < self.edge_list().len() ==> #[trigger] self.edge_list()[i]
                != #[trigger] self.edge_list()[j]
        &&& forall|e: int|
            0 <= e < self.prob().m() && #[trigger] self.members()[e] ==> self.edge_list().contains(
                e as usize,
            )
    }

    proof fn lemma_inner_to_wf(&self)
        requires
            self.inner_wf(),
            self.prob().wf(),
            forall|e: int|
                0 <= e < self.prob().m() ==> #[trigger] self.counts()[e] as int == conflict_count(
                    self.prob(),
                    self.members(),
                    e,
                ),
            self.total_spec() == pair_count(self.prob(), self.members()),
        ensures
            self.wf(),
    {
        assert forall|i: int| 0 <= i < self.edge_list().len() implies #[trigger] self.edge_list()[i] < self.prob().m()
            && self.members()[self.edge_list()[i] as int] by {
            assert(self.pos@[self.edges@[i] as int] == i);
        }
        assert forall|i: int, j: int| 0 <= i < j < self.edge_list().len() implies #[trigger] self.edge_list()[i]
            != #[trigger] self.edge_list()[j] by {
            assert(self.pos@[self.edges@[i] as int] == i);
            assert(self.pos@[self.edges@[j] as int] == j);
        }
        assert forall|e: int| 0 <= e < self.prob().m() && #[trigger] self.members()[e] implies self.edge_list().contains(
            e as usize,
        ) by {
            assert(self.edge_list()[self.pos@[e] as int] == e as usize);
        }
    }

    /// An empty tracker for the edges of `p`.
    pub fn new(p: &'a MstCcProblem) -> (r: Self)
        requires
            p.wf(),
        ensures
            r.wf(),
            r.prob() == *p,
            forall|e: int| 0 <= e < p.m() ==> !#[trigger] r.members()[e],
            r.edge_list().len() == 0,
    {
        let m = p.g.ends.len();
        let r = TrackConflicts { p, edges: Vec::new(), pos: vec![NONE; m], conflicts: 0, cc: vec![0u32; m] };
        proof {
            lemma_empty_set(*p, r.members());
            r.lemma_inner_to_wf();
        }
        r
    }

    /// A tracker holding `edges`.
    pub fn with_edges(p: &'a MstCcProblem, edges: &[usize]) -> (r: Self)
        requires
            p.wf(),
            forall|i: int| 0 <= i < edges@.len() ==> #[trigger] edges@[i] < p.m(),
            forall|i: int, j: int| 0 <= i < j < edges@.len() ==> #[trigger] edges@[i] != #[trigger] edges@[j],
        ensures
            r.wf(),
            r.prob() == *p,
            forall|e: int| 0 <= e < p.m() ==> (#[trigger] r.members()[e] <==> edges@.contains(e as usize)),
    {
        let mut t = Self::new(p);
        t.add_edges(edges);
        t
    }

    /// Stops tracking every edge.
    pub fn reset(&mut self)
        requires
            old(self).wf(),
        ensures
            final(self).wf(),
            final(self).prob() == old(self).prob(),
            forall|e: int| 0 <= e < final(self).prob().m() ==> !#[trigger] final(self).members()[e],
            final(self).edge_list().len() == 0,
    {
        let m = self.p.g.ends.len();
        self.edges = Vec::new();
        self.pos = vec![NONE; m];
        self.cc = vec![0u32; m];
        self.conflicts = 0;
        proof {
            lemma_empty_set(self.prob(), self.members());
            self.lemma_inner_to_wf();
        }
    }

    /// Removes `rem`, then adds `add`.
    pub fn replace(&mut self, rem: usize, add: usize)
        requires
            old(self).wf(),
            rem < old(self).prob().m(),
            add < old(self).prob().m(),
            old(self).members()[rem as int],
            add == rem || !old(self).members()[add as int],
        ensures
            final(self).wf(),
            final(self).prob() == old(self).prob(),
            final(self).members() == old(self).members().update(rem as int, false).update(add as int, true),
    {
        self.remove_edge(rem);
        self.add_edge(add);
    }

    /// Stops tracking `rem`.
    pub fn remove_edge(&mut self, rem: usize)
        requires
            old(self).wf(),
            rem < old(self).prob().m(),
            old(self).members()[rem as int],
        ensures
            final(self).wf(),
            final(self).prob() == old(self).prob(),
            final(self).members() == old(self).members().update(rem as int, false),
            final(self).total_spec() == old(self).total_spec() - conflict_count(
                old(self).prob(),
                final(self).members(),
                rem as int,
            ),
    {
        let ghost p0 = self.prob();
        let ghost before = self.members();
        let ghost after = before.update(rem as int, false);
        let ghost old_cc = self.cc@;
        let ghost old_total = self.conflicts as int;
        proof {
            assert(after.update(rem as int, true) =~= before);
            lemma_add_one(p0, after, rem as int);
            lemma_counts_bounded(p0, after);
        }
        let p = self.pos[rem];
        let last = self.edges.len() - 1;
        self.edges.swap_remove(p);
        if p < self.edges.len() {
            let moved = self.edges[p];
            self.pos.set(moved, p);
        }
        self.pos.set(rem, NONE);
        proof {
            assert(self.members() =~= after);
            assert forall|i: int| 0 <= i < self.edges@.len() implies #[trigger] self.edges@[i] < self.p.m()
                && self.pos@[self.edges@[i] as int] == i by {
                if i == p as int {
                    assert(self.edges@[i] == old(self).edges@[last as int]);
                } else {
                    assert(self.edges@[i] == old(self).edges@[i]);
                    assert(old(self).pos@[old(self).edges@[i] as int] == i);
                }
            }
            assert forall|e: int| 0 <= e < self.p.m() implies #[trigger] self.pos@[e] == NONE || (self.pos@[e]
                < self.edges@.len() && self.edges@[self.pos@[e] as int] == e) by {
                if e != rem as int && self.pos@[e] != NONE {
                    let q = old(self).pos@[e];
                    assert(old(self).edges@[q as int] == e);
                    if q == last {
                        assert(self.pos@[e] == p);
                    } else {
                        assert(q != p) by {
                            assert(old(self).edges@[p as int] == rem);
                        }
                    }
                }
            }
        }
        let list = &self.p.cc[rem];
        let mut k: usize = 0;
        while k < list.len()
            invariant
                self.inner_wf(),
                self.prob() == p0,
                p0.wf(),
                self.members() == after,
                *list == p0.cc[rem as int],
                0 <= k <= list@.len(),
                rem < p0.m(),
                forall|g: int|
                    0 <= g < p0.m() ==> #[trigger] self.cc@[g] as int == old_cc[g] as int - occ(
                        list@.take(k as int),
                        g as usize,
                    ),
                self.conflicts as int == old_total - count_where(list@.take(k as int), in_set(after)),
                forall|g: int|
                    0 <= g < p0.m() ==> #[trigger] old_cc[g] as int == conflict_count(p0, after, g) + occ(
                        list@,
                        g as usize,
                    ),
                old_total == pair_count(p0, after) + conflict_count(p0, after, rem as int),
                pair_count(p0, after) >= 0,
                old_cc.len() == p0.m(),
                forall|i: int| 0 <= i < list@.len() ==> #[trigger] list@[i] < p0.m(),
            decreases list@.len() - k,
        {
            let e = list[k];
            proof {
                lemma_occ_take_step(list@, e, k as int);
                lemma_occ_take_le(list@, e, k as int + 1);
                lemma_count_take_step(list@, in_set(after), k as int);
                lemma_count_take_le(list@, in_set(after), k as int + 1);
                assert forall|g: int| 0 <= g < p0.m() && g != e as int implies #[trigger] occ(list@.take(k as int + 1), g as usize)
                    == occ(list@.take(k as int), g as usize) by {
                    lemma_occ_take_step(list@, g as usize, k as int);
                }
            }
            proof {
                assert(old_cc[e as int] as int == conflict_count(p0, after, e as int) + occ(list@, e));
                assert(self.members()[e as int] == (self.pos@[e as int] != NONE));
                assert(in_set(after)(e) == after[e as int]);
            }
            self.cc.set(e, self.cc[e] - 1);
            if self.pos[e] != NONE {
                self.conflicts = self.conflicts - 1;
            }
            k += 1;
        }
        proof {
            assert(list@.take(k as int) =~= list@);
            self.lemma_inner_to_wf();
        }
    }

    /// Adds every edge of `edges`, in order.
    pub fn add_edges(&mut self, edges: &[usize])
        requires
            old(self).wf(),
            forall|i: int| 0 <= i < edges@.len() ==> #[trigger] edges@[i] < old(self).prob().m()
                && !old(self).members()[edges@[i] as int],
            forall|i: int, j: int| 0 <= i < j < edges@.len() ==> #[trigger] edges@[i] != #[trigger] edges@[j],
        ensures
            final(self).wf(),
            final(self).prob() == old(self).prob(),
            forall|e: int|
                0 <= e < final(self).prob().m() ==> (#[trigger] final(self).members()[e] <==> (old(self).members()[e]
                    || edges@.contains(e as usize))),
    {
        let mut i: usize = 0;
        while i < edges.len()
            invariant
                self.wf(),
                self.prob() == old(self).prob(),
                0 <= i <= edges@.len(),
                forall|j: int| 0 <= j < edges@.len() ==> #[trigger] edges@[j] < old(self).prob().m()
                    && !old(self).members()[edges@[j] as int],
                forall|a: int, b: int| 0 <= a < b < edges@.len() ==> #[trigger] edges@[a] != #[trigger] edges@[b],
                forall|e: int|
                    0 <= e < self.prob().m() ==> (#[trigger] self.members()[e] <==> (old(self).members()[e]
                        || edges@.take(i as int).contains(e as usize))),
            decreases edges@.len() - i,
        {
            let e = edges[i];
            proof {
                if self.members()[e as int] {
                    let j = choose|j: int| 0 <= j < i && #[trigger] edges@.take(i as int)[j] == e;
                    assert(edges@[j] == edges@[i as int]);
                }
            }
            self.add_edge(e);
            proof {
                assert forall|f: int| 0 <= f < self.prob().m() implies (#[trigger] self.members()[f] <==> (old(self).members()[f]
                    || edges@.take(i as int + 1).contains(f as usize))) by {
                    if edges@.take(i as int).contains(f as usize) {
                        let j = choose|j: int| 0 <= j < i && #[trigger] edges@.take(i as int)[j] == f as usize;
                        assert(edges@.take(i as int + 1)[j] == f as usize);
                    }
                    if edges@.take(i as int + 1).contains(f as usize) && f != e as int {
                        let j = choose|j: int| 0 <= j < i + 1 && #[trigger] edges@.take(i as int + 1)[j] == f as usize;
                        assert(edges@.take(i as int)[j] == f as usize);
                    }
                    assert(edges@.take(i as int + 1)[i as int] == e);
                }
            }
            i += 1;
        }
        proof {
            assert(edges@.take(i as int) =~= edges@);
        }
    }

    /// Starts tracking `add`.
    pub fn add_edge(&mut self, add: usize)
        requires
            old(self).wf(),
            add < old(self).prob().m(),
            !old(self).members()[add as int],
        ensures
            final(self).wf(),
            final(self).prob() == old(self).prob(),
            final(self).members() == old(self).members().update(add as int, true),
            final(self).edge_list() == old(self).edge_list().push(add),
            final(self).total_spec() == old(self).total_spec() + conflict_count(
                old(self).prob(),
                old(self).members(),
                add as int,
            ),
    {
        let ghost p0 = self.prob();
        let ghost before = self.members();
        let ghost after = before.update(add as int, true);
        let ghost old_cc = self.cc@;
        let ghost old_total = self.conflicts as int;
        proof {
            lemma_add_one(p0, before, add as int);
            lemma_counts_bounded(p0, after);
        }
        proof {
            let s2 = self.edges@.push(add);
            assert forall|i: int| 0 <= i < s2.len() implies #[trigger] s2[i] < p0.m() by {}
            assert forall|i: int, j: int| 0 <= i < j < s2.len() implies #[trigger] s2[i] != #[trigger] s2[j] by {
                if j == s2.len() - 1 {
                    assert(self.pos@[s2[i] as int] == i);
                }
            }
            lemma_distinct_len(s2, p0.m() as nat);
        }
        self.edges.push(add);
        self.pos.set(add, self.edges.len() - 1);
        proof {
            assert(self.members() =~= after);
            assert forall|i: int| 0 <= i < self.edges@.len() implies #[trigger] self.edges@[i] < self.p.m()
                && self.pos@[self.edges@[i] as int] == i by {
                if i < old(self).edges@.len() {
                    assert(old(self).pos@[old(self).edges@[i] as int] == i);
                }
            }
        }
        let list = &self.p.cc[add];
        proof {
            let lst = list@;
            assert forall|i: int| 0 <= i < lst.len() implies (in_set(after)(#[trigger] lst[i]) == in_set(before)(lst[i])) by {
                assert(lst[i] != add);
            }
            lemma_count_ext(lst, in_set(after), in_set(before));
            assert(forall|g: int| 0 <= g < p0.m() ==> #[trigger] conflict_count(p0, after, g) <= u32::MAX);
        }
        let mut k: usize = 0;
        while k < list.len()
            invariant
                self.inner_wf(),
                self.prob() == p0,
                p0.wf(),
                self.members() == after,
                *list == p0.cc[add as int],
                self.edges@ == old(self).edges@.push(add),
                0 <= k <= list@.len(),
                add < p0.m(),
                forall|g: int|
                    0 <= g < p0.m() ==> #[trigger] self.cc@[g] as int == old_cc[g] as int + occ(
                        list@.take(k as int),
                        g as usize,
                    ),
                self.conflicts as int == old_total + count_where(list@.take(k as int), in_set(after)),
                forall|g: int|
                    0 <= g < p0.m() ==> #[trigger] conflict_count(p0, after, g) == old_cc[g] as int + occ(
                        list@,
                        g as usize,
                    ),
                forall|g: int| 0 <= g < p0.m() ==> #[trigger] conflict_count(p0, after, g) <= u32::MAX,
                pair_count(p0, after) == old_total + count_where(list@, in_set(after)),
                pair_count(p0, after) <= u32::MAX,
                old_cc.len() == p0.m(),
                forall|i: int| 0 <= i < list@.len() ==> #[trigger] list@[i] < p0.m(),
            decreases list@.len() - k,
        {
            let e = list[k];
            proof {
                lemma_occ_take_step(list@, e, k as int);
                lemma_occ_take_le(list@, e, k as int + 1);
                lemma_count_take_step(list@, in_set(after), k as int);
                lemma_count_take_le(list@, in_set(after), k as int + 1);
                assert forall|g: int| 0 <= g < p0.m() && g != e as int implies #[trigger] occ(list@.take(k as int + 1), g as usize)
                    == occ(list@.take(k as int), g as usize) by {
                    lemma_occ_take_step(list@, g as usize, k as int);
                }
            }
            proof {
                assert(conflict_count(p0, after, e as int) <= u32::MAX);
                assert(conflict_count(p0, after, e as int) == old_cc[e as int] as int + occ(list@, e));
            }
            self.cc.set(e, self.cc[e] + 1);
            proof {
                assert(self.members()[e as int] == (self.pos@[e as int] != NONE));
                assert(in_set(after)(e) == after[e as int]);
            }
            if self.pos[e] != NONE {
                self.conflicts = self.conflicts + 1;
            }
            k += 1;
        }
        proof {
            assert(list@.take(k as int) =~= list@);
            self.lemma_inner_to_wf();
        }
    }

    /// Rebuilds a tracker from scratch on the tracked edges and compares it with this
    /// one: the total, and each edge's membership and count.
    pub fn check(&self) -> (r: bool)
        requires
            self.wf(),
        ensures
            r,
    {
        let fresh = Self::with_edges(self.p, self.edges());
        proof {
            assert forall|e: int| 0 <= e < self.prob().m() implies #[trigger] fresh.members()[e] == self.members()[e] by {
                if self.edge_list().contains(e as usize) {
                    let i = choose|i: int| 0 <= i < self.edge_list().len() && #[trigger] self.edge_list()[i] == e as usize;
                }
            }
            assert(fresh.members() =~= self.members());
        }
        if fresh.total() != self.total() {
            return false;
        }
        let m = self.p.g.ends.len();
        let mut e: usize = 0;
        while e < m
            invariant
                self.wf(),
                fresh.wf(),
                fresh.prob() == self.prob(),
                fresh.members() == self.members(),
                m == self.prob().m(),
            decreases m - e,
        {
            if fresh.contains(e) != self.contains(e) {
                return false;
            }
            if fresh.conflict_count_of(e) != self.conflict_count_of(e) {
                return false;
            }
            e += 1;
        }
        true
    }

    /// The tracked edges.
    pub fn edges(&self) -> (r: &[usize])
        ensures
            r@ == self.edge_list(),
    {
        self.edges.as_slice()
    }

    /// Whether `e` is tracked.
    pub fn contains(&self, e: usize) -> (r: bool)
        requires
            self.wf(),
            e < self.prob().m(),
        ensures
            r == self.members()[e as int],
    {
        self.pos[e] != NONE
    }

    /// Number of conflicting pairs among the tracked edges.
    pub fn total(&self) -> (r: u32)
        requires
            self.wf(),
        ensures
            r == pair_count(self.prob(), self.members()),
            r == conflict_pairs(self.prob(), self.members()).len(),
    {
        proof {
            lemma_total_counts_pairs(*self);
        }
        self.conflicts
    }

    /// `c(e)`: number of tracked edges that conflict with `e`.
    pub fn conflict_count_of(&self, e: usize) -> (r: u32)
        requires
            self.wf(),
            e < self.prob().m(),
        ensures
            r == conflict_count(self.prob(), self.members(), e as int),
    {
        self.cc[e]
    }
}

} // verus!
