use vstd::prelude::*;
use crate::problem::{copy_edges, lemma_wf_lists, lists_wf, Graph, MstCcProblem};

verus! {

/// Why a list of edges and conflicts does not make an instance.
#[derive(Debug, PartialEq, Eq, Structural)]
pub enum InputError {
    /// The vertex count is 0 or does not fit, or there are too many edges.
    SizeOutOfRange,
    /// Edge `i` has an end point that is not a vertex.
    EndPointOutOfRange(usize),
    /// Conflict `k` names a pair of vertices that no edge joins.
    UnknownEdge(usize),
    /// A conflict joins an edge with itself or repeats a pair, or there are too many.
    Invalid,
}

/// Index of the first edge from `i` on that joins `u` and `v`, or -1.
pub open spec fn find_edge(ends: Seq<(usize, usize)>, u: usize, v: usize, i: int) -> int
    decreases ends.len() - i,
{
    if i < 0 || i >= ends.len() {
        -1
    } else if ends[i] == (u, v) || ends[i] == (v, u) {
        i
    } else {
        find_edge(ends, u, v, i + 1)
    }
}

proof fn lemma_find_edge(ends: Seq<(usize, usize)>, u: usize, v: usize, i: int, e: int)
    requires
        0 <= i <= ends.len(),
        forall|f: int| i <= f < e ==> !(ends[f] == (u, v) || ends[f] == (v, u)),
        e == -1 ==> forall|f: int| i <= f < ends.len() ==> !(ends[f] == (u, v) || ends[f] == (v, u)),
        e != -1 ==> i <= e < ends.len() && (ends[e] == (u, v) || ends[e] == (v, u)),
    ensures
        find_edge(ends, u, v, i) == e,
    decreases ends.len() - i,
{
    if i < ends.len() && i != e {
        lemma_find_edge(ends, u, v, i + 1, e);
    }
}

/// The conflict lists after the conflicts `conf` (pairs of edges given by their end
/// points), each entered on both sides, starting from `m` empty lists.
pub open spec fn built_cc(ends: Seq<(usize, usize)>, m: nat, conf: Seq<(usize, usize, usize, usize)>) -> Seq<Seq<usize>>
    decreases conf.len(),
{
    if conf.len() == 0 {
        Seq::new(m, |i: int| Seq::<usize>::empty())
    } else {
        let prev = built_cc(ends, m, conf.drop_last());
        let c = conf.last();
        let ab = find_edge(ends, c.0, c.1, 0);
        let xy = find_edge(ends, c.2, c.3, 0);
        let once = prev.update(ab, prev[ab].push(xy as usize));
        once.update(xy, once[xy].push(ab as usize))
    }
}

proof fn lemma_built_len(ends: Seq<(usize, usize)>, m: nat, conf: Seq<(usize, usize, usize, usize)>)
    requires
        ends.len() == m,
        forall|j: int|
            0 <= j < conf.len() ==> find_edge(ends, #[trigger] conf[j].0, conf[j].1, 0) != -1 && find_edge(
                ends,
                conf[j].2,
                conf[j].3,
                0,
            ) != -1,
    ensures
        built_cc(ends, m, conf).len() == m,
    decreases conf.len(),
{
    if conf.len() > 0 {
        let c = conf.drop_last();
        assert forall|j: int| 0 <= j < c.len() implies find_edge(ends, #[trigger] c[j].0, c[j].1, 0) != -1 && find_edge(
            ends,
            c[j].2,
            c[j].3,
            0,
        ) != -1 by {
            assert(c[j] == conf[j]);
        }
        lemma_built_len(ends, m, c);
        lemma_find_edge_range(ends, conf.last().0, conf.last().1, 0);
        lemma_find_edge_range(ends, conf.last().2, conf.last().3, 0);
        assert(conf.last() == conf[conf.len() - 1]);
    }
}

proof fn lemma_find_edge_range(ends: Seq<(usize, usize)>, u: usize, v: usize, i: int)
    requires
        0 <= i,
    ensures
        find_edge(ends, u, v, i) == -1 || i <= find_edge(ends, u, v, i) < ends.len(),
    decreases ends.len() - i,
{
    if i < ends.len() {
        lemma_find_edge_range(ends, u, v, i + 1);
    }
}

pub open spec fn bad_edge(n: usize, e: (usize, usize, u32)) -> bool {
    e.0 >= n || e.1 >= n
}

pub open spec fn edge_ends(edges: Seq<(usize, usize, u32)>) -> Seq<(usize, usize)> {
    Seq::new(edges.len(), |i: int| (edges[i].0, edges[i].1))
}

pub open spec fn unknown(edges: Seq<(usize, usize, u32)>, c: (usize, usize, usize, usize)) -> bool {
    find_edge(edge_ends(edges), c.0, c.1, 0) == -1 || find_edge(edge_ends(edges), c.2, c.3, 0) == -1
}

impl MstCcProblem {
    /// The instance named `name` on `n` vertices with the edges `(u, v, weight)` and the
    /// conflicts `(a, b, x, y)`: the first edge joining `a` and `b` conflicts with the
    /// first edge joining `x` and `y`. The errors come in this order: sizes, then the
    /// first edge with a bad end point, then the first conflict naming no edge, then a
    /// malformed conflict relation.
    pub fn from_lists(
        name: String,
        n: usize,
        edges: &Vec<(usize, usize, u32)>,
        conflicts: &Vec<(usize, usize, usize, usize)>,
        alpha: u32,
        beta: u32,
    ) -> (r: Result<MstCcProblem, InputError>)
        ensures
            (n == 0 || n >= u32::MAX || edges@.len() >= u32::MAX) <==> r == Err::<MstCcProblem, InputError>(
                InputError::SizeOutOfRange,
            ),
            forall|i: usize|
                r == Err::<MstCcProblem, InputError>(InputError::EndPointOutOfRange(i)) <==> (!(n == 0 || n >= u32::MAX
                    || edges@.len() >= u32::MAX) && i < edges@.len() && bad_edge(n, edges@[i as int]) && forall|j: int|
                    0 <= j < i ==> !bad_edge(n, #[trigger] edges@[j])),
            forall|k: usize|
                r == Err::<MstCcProblem, InputError>(InputError::UnknownEdge(k)) <==> (!(n == 0 || n >= u32::MAX
                    || edges@.len() >= u32::MAX) && (forall|j: int| 0 <= j < edges@.len() ==> !bad_edge(n, #[trigger] edges@[j]))
                    && k < conflicts@.len() && unknown(edges@, conflicts@[k as int]) && forall|j: int|
                    0 <= j < k ==> !unknown(edges@, #[trigger] conflicts@[j])),
            r matches Ok(p) ==> {
                &&& p.wf()
                &&& p.name@ == name@
                &&& p.g.n == n
                &&& p.g.ends@ == edge_ends(edges@)
                &&& p.w@ == Seq::new(edges@.len(), |i: int| edges@[i].2)
                &&& p.num_cc == conflicts@.len()
                &&& p.cc@.len() == edges@.len()
                &&& forall|i: int| 0 <= i < edges@.len() ==> #[trigger] p.cc[i]@ == built_cc(
                    edge_ends(edges@),
                    edges@.len(),
                    conflicts@,
                )[i]
                &&& p.alpha == alpha
                &&& p.beta == beta
            },
            r == Err::<MstCcProblem, InputError>(InputError::Invalid) <==> (!(n == 0 || n >= u32::MAX || edges@.len()
                >= u32::MAX) && (forall|j: int| 0 <= j < edges@.len() ==> !bad_edge(n, #[trigger] edges@[j])) && (forall|k: int|
                0 <= k < conflicts@.len() ==> !unknown(edges@, #[trigger] conflicts@[k])) && !lists_wf(
                edges@.len() as int,
                built_cc(edge_ends(edges@), edges@.len(), conflicts@),
            )),
    {
        if n == 0 || n >= 4294967295 || edges.len() >= 4294967295 {
            return Err(InputError::SizeOutOfRange);
        }
        let mut g = Graph::new(n);
        let mut w: Vec<u32> = Vec::new();
        let mut i: usize = 0;
        while i < edges.len()
            invariant
                0 < n < u32::MAX,
                edges@.len() < u32::MAX,
                g.wf(),
                g.n == n,
                0 <= i <= edges@.len(),
                g.ends@ == edge_ends(edges@.take(i as int)),
                w@ == Seq::new(i as nat, |j: int| edges@[j].2),
                forall|j: int| 0 <= j < i ==> !bad_edge(n, #[trigger] edges@[j]),
            decreases edges@.len() - i,
        {
            let (u, v, wt) = edges[i];
            if u >= n || v >= n {
                return Err(InputError::EndPointOutOfRange(i));
            }
            g.add_edge(u, v);
            w.push(wt);
            i += 1;
            proof {
                assert(g.ends@ =~= edge_ends(edges@.take(i as int)));
                assert(w@ =~= Seq::new(i as nat, |j: int| edges@[j].2));
            }
        }
        proof {
            assert(edges@.take(i as int) =~= edges@);
        }
        let m = edges.len();
        let ghost ends = edge_ends(edges@);
        let mut cc: Vec<Vec<usize>> = Vec::new();
        let mut e: usize = 0;
        while e < m
            invariant
                0 <= e <= m,
                cc@.len() == e,
                forall|j: int| 0 <= j < e ==> #[trigger] cc@[j]@ == Seq::<usize>::empty(),
            decreases m - e,
        {
            cc.push(Vec::new());
            e += 1;
        }
        let mut k: usize = 0;
        while k < conflicts.len()
            invariant
                0 < n < u32::MAX,
                edges@.len() < u32::MAX,
                g.wf(),
                g.n == n,
                g.ends@ == ends,
                ends == edge_ends(edges@),
                m == edges@.len(),
                forall|j: int| 0 <= j < edges@.len() ==> !bad_edge(n, #[trigger] edges@[j]),
                0 <= k <= conflicts@.len(),
                cc@.len() == m,
                forall|j: int| 0 <= j < m ==> #[trigger] cc@[j]@ == built_cc(ends, m as nat, conflicts@.take(k as int))[j],
                forall|j: int| 0 <= j < k ==> !unknown(edges@, #[trigger] conflicts@[j]),
                built_cc(ends, m as nat, conflicts@.take(k as int)).len() == m,
            decreases conflicts@.len() - k,
        {
            let (a, b, x, y) = conflicts[k];
            let ab = match g.edge_by_ends(a, b) {
                Some(ab) => ab,
                None => {
                    proof {
                        assert forall|f: int| 0 <= f < ends.len() implies !(ends[f] == (a, b) || ends[f] == (b, a)) by {
                            assert(!g.joins(f, a, b));
                        }
                        lemma_find_edge(ends, a, b, 0, -1);
                    }
                    return Err(InputError::UnknownEdge(k));
                },
            };
            let xy = match g.edge_by_ends(x, y) {
                Some(xy) => xy,
                None => {
                    proof {
                        assert forall|f: int| 0 <= f < ends.len() implies !(ends[f] == (x, y) || ends[f] == (y, x)) by {
                            assert(!g.joins(f, x, y));
                        }
                        lemma_find_edge(ends, x, y, 0, -1);
                    }
                    return Err(InputError::UnknownEdge(k));
                },
            };
            proof {
                assert forall|f: int| 0 <= f < ab implies !(ends[f] == (a, b) || ends[f] == (b, a)) by {
                    assert(!g.joins(f, a, b));
                }
                assert forall|f: int| 0 <= f < xy implies !(ends[f] == (x, y) || ends[f] == (y, x)) by {
                    assert(!g.joins(f, x, y));
                }
                assert(g.joins(ab as int, a, b) && g.joins(xy as int, x, y));
                lemma_find_edge(ends, a, b, 0, ab as int);
                lemma_find_edge(ends, x, y, 0, xy as int);
                assert(conflicts@.take(k as int + 1).drop_last() =~= conflicts@.take(k as int));
                assert(conflicts@.take(k as int + 1).last() == conflicts@[k as int]);
                lemma_built_len(ends, m as nat, conflicts@.take(k as int));
            }
            let ghost before = cc@;
            let mut row = copy_edges(cc[ab].as_slice());
            row.push(xy);
            cc.set(ab, row);
            let mut row = copy_edges(cc[xy].as_slice());
            row.push(ab);
            cc.set(xy, row);
            proof {
                let prev = built_cc(ends, m as nat, conflicts@.take(k as int));
                let once = prev.update(ab as int, prev[ab as int].push(xy));
                let next = once.update(xy as int, once[xy as int].push(ab));
                assert(built_cc(ends, m as nat, conflicts@.take(k as int + 1)) == next);
                assert forall|j: int| 0 <= j < m implies #[trigger] cc@[j]@ == built_cc(
                    ends,
                    m as nat,
                    conflicts@.take(k as int + 1),
                )[j] by {
                    if j != ab as int && j != xy as int {
                        assert(cc@[j] == before[j]);
                    } else if j == xy as int {
                        assert(cc@[j]@ == once[xy as int].push(ab));
                    } else {
                        assert(cc@[j]@ == prev[ab as int].push(xy));
                    }
                }
            }
            k += 1;
        }
        proof {
            assert(conflicts@.take(k as int) =~= conflicts@);
        }
        let p = MstCcProblem { name, g, w, cc, num_cc: conflicts.len(), alpha, beta };
        proof {
            let built = built_cc(ends, m as nat, conflicts@);
            lemma_built_len(ends, m as nat, conflicts@);
            lemma_wf_lists(p, built);
        }
        if !p.is_valid() {
            return Err(InputError::Invalid);
        }
        Ok(p)
    }
}

} // verus!
