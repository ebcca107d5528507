use vstd::prelude::*;
use fera::graph::algs::Kruskal;
use fera::graph::prelude::{EdgeList, PropGet, StaticGraph, WithBuilder, WithEdgeIndexProp};
use rand::XorShiftRng;
use crate::order::{distinct, sort_triples, triple_le};
use crate::problem::{obj_spec, obj_with, Graph, MstCcProblem};
use crate::utils::shuffle;

verus! {

/// The edges that Kruskal's rule picks on the graph with `n` vertices and edges `ends`
/// when the edges are taken in `order`.
pub uninterp spec fn kruskal_of(n: nat, ends: Seq<(usize, usize)>, order: Seq<usize>) -> Seq<usize>;

/// Relies on fera's `Kruskal::kruskal().edges(order)`: the edges that join two
/// components when taken in `order`, in that order; each comes from `order`, none
/// twice, and fewer than `n` in all.
#[verifier::external_body]
pub(crate) fn kruskal_edges(g: &Graph, order: &Vec<usize>) -> (r: Vec<usize>)
    requires
        g.wf(),
        forall|i: int| 0 <= i < order@.len() ==> #[trigger] order@[i] < g.ends@.len(),
    ensures
        r@ == kruskal_of(g.n as nat, g.ends@, order@),
        forall|i: int| 0 <= i < r@.len() ==> order@.contains(#[trigger] r@[i]),
        distinct(r@),
        r@.len() < g.n,
{
    let sg = StaticGraph::new_with_edges(g.n, g.ends.iter().cloned());
    let es: Vec<_> = sg.edges().collect();
    let index = sg.edge_index();
    let picked = sg.kruskal().edges(order.iter().map(|&i| es[i]));
    picked.into_iter().map(|e| index.get(e)).collect()
}

/// `0, 1, ..., m - 1`.
pub fn all_edges(m: usize) -> (r: Vec<usize>)
    ensures
        r@.len() == m,
        forall|i: int| 0 <= i < m ==> #[trigger] r@[i] == i,
{
    let mut r: Vec<usize> = Vec::with_capacity(m);
    let mut i: usize = 0;
    while i < m
        invariant
            0 <= i <= m,
            r@.len() == i,
            forall|k: int| 0 <= k < i ==> #[trigger] r@[k] == k,
        decreases m - i,
    {
        r.push(i);
        i += 1;
    }
    r
}

/// Sort key of edge `e` in the greedy order: `alpha * w(e)` (no conflicts yet).
pub open spec fn greedy_key(p: MstCcProblem, alpha: u32, beta: u32, e: int) -> int {
    obj_spec(alpha, beta, p.w@[e] as int, 0)
}

/// `o` lists every edge once, by ascending greedy key, ties by ascending index.
pub open spec fn is_greedy_order(p: MstCcProblem, alpha: u32, beta: u32, o: Seq<usize>) -> bool {
    &&& o.len() == p.m()
    &&& forall|i: int| 0 <= i < o.len() ==> #[trigger] o[i] < p.m()
    &&& distinct(o)
    &&& forall|i: int|
        0 <= i < o.len() - 1 ==> greedy_key(p, alpha, beta, #[trigger] o[i] as int) < greedy_key(p, alpha, beta, o[i + 1] as int)
            || (greedy_key(p, alpha, beta, o[i] as int) == greedy_key(p, alpha, beta, o[i + 1] as int) && o[i] < o[i + 1])
}

/// The edges by ascending greedy key, ties by index.
fn greedy_order(p: &MstCcProblem, alpha: u32, beta: u32) -> (r: Vec<usize>)
    requires
        p.wf(),
    ensures
        is_greedy_order(*p, alpha, beta, r@),
{
    let m = p.g.ends.len();
    let mut t: Vec<(u128, usize, usize)> = Vec::with_capacity(m);
    let mut i: usize = 0;
    while i < m
        invariant
            p.wf(),
            m == p.m(),
            0 <= i <= m,
            t@.len() == i,
            forall|j: int| 0 <= j < i ==> #[trigger] t@[j].0 as int == greedy_key(*p, alpha, beta, j) && t@[j].1 == j && t@[j].2 == j,
        decreases m - i,
    {
        t.push((obj_with(alpha, beta, p.w[i] as u64, 0), i, i));
        i += 1;
    }
    let ghost t0 = t@;
    proof {
        assert(t0.no_duplicates()) by {
            assert forall|a: int, b: int| 0 <= a < t0.len() && 0 <= b < t0.len() && a != b implies t0[a] != t0[b] by {
                assert(t0[a].0 as int == greedy_key(*p, alpha, beta, a));
                assert(t0[b].0 as int == greedy_key(*p, alpha, beta, b));
                assert(t0[a].1 as int == a && t0[b].1 as int == b);
            }
        }
        t0.lemma_multiset_has_no_duplicates();
    }
    sort_triples(&mut t);
    let ghost t1 = t@;
    proof {
        broadcast use vstd::seq_lib::group_to_multiset_ensures;

        t1.lemma_multiset_has_no_duplicates_conv();
        assert(t1.len() == t1.to_multiset().len());
        assert(t0.len() == t0.to_multiset().len());
        assert forall|a: int| 0 <= a < t1.len() implies #[trigger] t1[a].0 as int == greedy_key(
            *p,
            alpha,
            beta,
            t1[a].2 as int,
        ) && t1[a].1 == t1[a].2 && t1[a].2 < m by {
            assert(t1.contains(t1[a]));
            assert(t1.to_multiset().count(t1[a]) > 0);
            assert(t0.contains(t1[a]));
            let j = choose|j: int| 0 <= j < t0.len() && t0[j] == t1[a];
        }
    }
    let mut out: Vec<usize> = Vec::with_capacity(t.len());
    let mut i: usize = 0;
    while i < t.len()
        invariant
            t@ == t1,
            0 <= i <= t1.len(),
            out@.len() == i,
            forall|j: int| 0 <= j < i ==> #[trigger] out@[j] == t1[j].2,
        decreases t1.len() - i,
    {
        out.push(t[i].2);
        i += 1;
    }
    proof {
        assert forall|a: int| 0 <= a < out@.len() implies #[trigger] out@[a] < p.m() by {
            assert(t1[a].0 as int == greedy_key(*p, alpha, beta, t1[a].2 as int));
        }
        assert forall|a: int, b: int| 0 <= a < b < out@.len() implies #[trigger] out@[a] != #[trigger] out@[b] by {
            assert(t1[a].0 as int == greedy_key(*p, alpha, beta, t1[a].2 as int));
            assert(t1[b].0 as int == greedy_key(*p, alpha, beta, t1[b].2 as int));
            assert(t1[a] != t1[b]);
        }
        assert forall|a: int| 0 <= a < out@.len() - 1 implies greedy_key(*p, alpha, beta, #[trigger] out@[a] as int)
            < greedy_key(*p, alpha, beta, out@[a + 1] as int) || (greedy_key(*p, alpha, beta, out@[a] as int)
            == greedy_key(*p, alpha, beta, out@[a + 1] as int) && out@[a] < out@[a + 1]) by {
            assert(triple_le(t1[a], t1[a + 1]));
            assert(t1[a] != t1[a + 1]);
            assert(t1[a].0 as int == greedy_key(*p, alpha, beta, t1[a].2 as int) && t1[a].1 == t1[a].2);
            assert(t1[a + 1].0 as int == greedy_key(*p, alpha, beta, t1[a + 1].2 as int) && t1[a + 1].1 == t1[a + 1].2);
        }
    }
    out
}

/// Kruskal's rule over the edges in greedy order (see `is_greedy_order`): the picked
/// edges are appended to `tree`.
fn greedy_with(p: &MstCcProblem, alpha: u32, beta: u32, tree: &mut Vec<usize>)
    requires
        p.wf(),
    ensures
        exists|o: Seq<usize>|
            is_greedy_order(*p, alpha, beta, o) && final(tree)@ == old(tree)@ + kruskal_of(p.g.n as nat, p.g.ends@, o),
        final(tree)@.take(old(tree)@.len() as int) == old(tree)@,
        forall|i: int| old(tree)@.len() <= i < final(tree)@.len() ==> #[trigger] final(tree)@[i] < p.m(),
        distinct(final(tree)@.skip(old(tree)@.len() as int)),
{
    let order = greedy_order(p, alpha, beta);
    let picked = kruskal_edges(&p.g, &order);
    append(tree, &picked, Ghost(p.m()));
}

/// Appends `more` to `v`.
fn append(v: &mut Vec<usize>, more: &Vec<usize>, Ghost(m): Ghost<int>)
    requires
        forall|i: int| 0 <= i < more@.len() ==> #[trigger] more@[i] < m,
    ensures
        final(v)@ == old(v)@ + more@,
        final(v)@.take(old(v)@.len() as int) == old(v)@,
        final(v)@.skip(old(v)@.len() as int) == more@,
        forall|i: int| old(v)@.len() <= i < final(v)@.len() ==> #[trigger] final(v)@[i] < m,
{
    let mut i: usize = 0;
    while i < more.len()
        invariant
            0 <= i <= more@.len(),
            v@ == old(v)@ + more@.take(i as int),
        decreases more@.len() - i,
    {
        v.push(more[i]);
        i += 1;
        proof {
            assert(v@ =~= old(v)@ + more@.take(i as int));
        }
    }
    proof {
        assert(more@.take(i as int) =~= more@);
        assert(v@.take(old(v)@.len() as int) =~= old(v)@);
        assert(v@.skip(old(v)@.len() as int) =~= more@);
    }
}

/// Greedy construction: Kruskal's rule over the edges by ascending objective, with the
/// problem's `alpha` and `beta` (no edge has conflicts yet); the edges are appended to
/// `tree`.
pub fn new_greedy(p: &MstCcProblem, tree: &mut Vec<usize>)
    requires
        p.wf(),
    ensures
        exists|o: Seq<usize>|
            is_greedy_order(*p, p.alpha, p.beta, o) && final(tree)@ == old(tree)@ + kruskal_of(p.g.n as nat, p.g.ends@, o),
        final(tree)@.take(old(tree)@.len() as int) == old(tree)@,
        forall|i: int| old(tree)@.len() <= i < final(tree)@.len() ==> #[trigger] final(tree)@[i] < p.m(),
        distinct(final(tree)@.skip(old(tree)@.len() as int)),
{
    greedy_with(p, p.alpha, p.beta, tree);
}

/// How an initial tree is built.
pub enum Init {
    /// Kruskal's rule over a random order of the edges.
    Random,
    /// Kruskal's rule by ascending weight.
    Kruskal,
    /// Kruskal's rule by ascending objective, with the builder's `alpha` and `beta`.
    Greedy,
}

/// Builds initial trees, and new ones on restarts; it keeps its own random generator
/// and edge order between calls.
pub struct InitialTree {
    pub init: Init,
    pub alpha: u32,
    pub beta: u32,
    rng: XorShiftRng,
    edges: Vec<usize>,
}

impl InitialTree {
    /// Whether the builder fits the problem `p`.
    pub closed spec fn fits(&self, p: MstCcProblem) -> bool {
        forall|i: int| 0 <= i < self.edges@.len() ==> #[trigger] self.edges@[i] < p.m()
    }

    pub closed spec fn kind(&self) -> Init {
        self.init
    }

    pub closed spec fn greedy_weights(&self) -> (u32, u32) {
        (self.alpha, self.beta)
    }

    /// The edge order of the last random build.
    pub closed spec fn edge_order(&self) -> Seq<usize> {
        self.edges@
    }

    pub fn new(p: &MstCcProblem, init: Init, alpha: u32, beta: u32, rng: XorShiftRng) -> (r: Self)
        ensures
            r.fits(*p),
            r.kind() == init,
            r.greedy_weights() == (alpha, beta),
            r.edge_order() == Seq::new(p.m() as nat, |i: int| i as usize),
    {
        let r = InitialTree { init, alpha, beta, rng, edges: all_edges(p.g.ends.len()) };
        proof {
            assert(r.edges@ =~= Seq::new(p.m() as nat, |i: int| i as usize));
        }
        r
    }

    /// Replaces `tree` with a new tree, built as `init` says: Kruskal's rule over a fresh
    /// shuffle of the kept edge order, or over the greedy order by weight alone, or by
    /// `alpha * w` with the builder's weights.
    pub fn build(&mut self, p: &MstCcProblem, tree: &mut Vec<usize>)
        requires
            p.wf(),
            old(self).fits(*p),
        ensures
            final(self).fits(*p),
            final(self).kind() == old(self).kind(),
            final(self).greedy_weights() == old(self).greedy_weights(),
            old(self).kind() is Random ==> final(tree)@ == kruskal_of(p.g.n as nat, p.g.ends@, final(self).edge_order())
                && final(self).edge_order().to_multiset() == old(self).edge_order().to_multiset(),
            !(old(self).kind() is Random) ==> final(self).edge_order() == old(self).edge_order(),
            old(self).kind() is Kruskal ==> exists|o: Seq<usize>|
                is_greedy_order(*p, 1, 0, o) && final(tree)@ == kruskal_of(p.g.n as nat, p.g.ends@, o),
            old(self).kind() is Greedy ==> exists|o: Seq<usize>|
                is_greedy_order(*p, old(self).greedy_weights().0, old(self).greedy_weights().1, o) && final(tree)@
                    == kruskal_of(p.g.n as nat, p.g.ends@, o),
            distinct(final(tree)@),
            forall|i: int| 0 <= i < final(tree)@.len() ==> #[trigger] final(tree)@[i] < p.m(),
    {
        tree.clear();
        match self.init {
            Init::Random => {
                shuffle(&mut self.rng, &mut self.edges);
                proof {
                    broadcast use vstd::seq_lib::group_to_multiset_ensures;
                    assert forall|i: int| 0 <= i < self.edges@.len() implies #[trigger] self.edges@[i] < p.m() by {
                        assert(self.edges@.contains(self.edges@[i]));
                        assert(self.edges@.to_multiset().count(self.edges@[i]) > 0);
                        assert(old(self).edges@.contains(self.edges@[i]));
                    }
                }
                let picked = kruskal_edges(&p.g, &self.edges);
                append(tree, &picked, Ghost(p.m()));
                proof {
                    assert(tree@ =~= picked@);
                }
            },
            Init::Kruskal => {
                greedy_with(p, 1, 0, tree);
                proof {
                    let o = choose|o: Seq<usize>|
                        is_greedy_order(*p, 1, 0, o) && tree@ == Seq::<usize>::empty() + kruskal_of(p.g.n as nat, p.g.ends@, o);
                    assert(Seq::<usize>::empty() + kruskal_of(p.g.n as nat, p.g.ends@, o) =~= kruskal_of(p.g.n as nat, p.g.ends@, o));
                }
            },
            Init::Greedy => {
                greedy_with(p, self.alpha, self.beta, tree);
                proof {
                    let o = choose|o: Seq<usize>|
                        is_greedy_order(*p, self.alpha, self.beta, o) && tree@ == Seq::<usize>::empty() + kruskal_of(
                            p.g.n as nat,
                            p.g.ends@,
                            o,
                        );
                    assert(Seq::<usize>::empty() + kruskal_of(p.g.n as nat, p.g.ends@, o) =~= kruskal_of(p.g.n as nat, p.g.ends@, o));
                }
            },
        }
        proof {
            assert(tree@.skip(0) =~= tree@);
        }
    }
}

} // verus!
