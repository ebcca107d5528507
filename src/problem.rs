use vstd::prelude::*;
use crate::counting::{
    lemma_occ_contains, lemma_sum_add, lemma_sum_ext, lemma_sum_le, lemma_sum_nonneg, lemma_sum_point, lemma_sum_prefix_le, occ, sum_to,
};

verus! {

/// Without repeated entries, `x` occurs once in `s` if `s` holds it, else never.
pub proof fn lemma_occ_distinct(s: Seq<usize>, x: usize)
    requires
        forall|i: int, j: int| 0 <= i < j < s.len() ==> #[trigger] s[i] != #[trigger] s[j],
    ensures
        occ(s, x) == if s.contains(x) { 1nat } else { 0nat },
    decreases s.len(),
{
    if s.len() > 0 {
        let s0 = s.drop_last();
        assert forall|i: int, j: int| 0 <= i < j < s0.len() implies #[trigger] s0[i] != #[trigger] s0[j] by {
            assert(s0[i] == s[i] && s0[j] == s[j]);
        }
        lemma_occ_distinct(s0, x);
        if s0.contains(x) {
            let i = choose|i: int| 0 <= i < s0.len() && s0[i] == x;
            assert(s[i] == x);
            assert(s.last() != x) by {
                assert(s[i] != s[s.len() - 1]);
            }
        }
        if s.contains(x) && !s0.contains(x) {
            let i = choose|i: int| 0 <= i < s.len() && s[i] == x;
            if i < s.len() - 1 {
                assert(s0[i] == x);
            }
        }
    }
}

} // verus!

verus! {

/// An undirected graph on the vertices `0..n`; edge `e` joins `ends[e].0` and `ends[e].1`.
pub struct Graph {
    pub n: usize,
    pub ends: Vec<(usize, usize)>,
}

impl Graph {
    pub open spec fn wf(&self) -> bool {
        &&& 0 < self.n < u32::MAX
        &&& self.ends.len() <= u32::MAX
        &&& forall|e: int|
            0 <= e < self.ends.len() ==> #[trigger] self.ends[e].0 < self.n && self.ends[e].1 < self.n
    }

    /// The graph with `n` vertices and no edge.
    pub fn new(n: usize) -> (g: Graph)
        requires
            0 < n < u32::MAX,
        ensures
            g.wf(),
            g.n == n,
            g.ends@.len() == 0,
    {
        Graph { n, ends: Vec::new() }
    }

    /// Appends the edge `(u, v)` and returns its index.
    pub fn add_edge(&mut self, u: usize, v: usize) -> (e: usize)
        requires
            old(self).wf(),
            u < old(self).n,
            v < old(self).n,
            old(self).ends.len() < u32::MAX,
        ensures
            final(self).wf(),
            final(self).n == old(self).n,
            final(self).ends@ == old(self).ends@.push((u, v)),
            e == old(self).ends.len(),
    {
        let e = self.ends.len();
        self.ends.push((u, v));
        e
    }

    pub fn num_edges(&self) -> (r: usize)
        ensures
            r == self.ends.len(),
    {
        self.ends.len()
    }

    /// Whether edge `e` joins `u` and `v`, in either direction.
    pub open spec fn joins(&self, e: int, u: usize, v: usize) -> bool {
        self.ends@[e] == (u, v) || self.ends@[e] == (v, u)
    }

    /// The first edge that joins `u` and `v`, if any.
    pub fn edge_by_ends(&self, u: usize, v: usize) -> (r: Option<usize>)
        ensures
            match r {
                Some(e) => e < self.ends@.len() && self.joins(e as int, u, v) && forall|f: int|
                    0 <= f < e ==> !#[trigger] self.joins(f, u, v),
                None => forall|f: int| 0 <= f < self.ends@.len() ==> !#[trigger] self.joins(f, u, v),
            },
    {
        let mut e: usize = 0;
        while e < self.ends.len()
            invariant
                0 <= e <= self.ends@.len(),
                forall|f: int| 0 <= f < e ==> !#[trigger] self.joins(f, u, v),
            decreases self.ends@.len() - e,
        {
            let (a, b) = self.ends[e];
            if (a == u && b == v) || (a == v && b == u) {
                return Some(e);
            }
            e += 1;
        }
        None
    }

    pub fn ends(&self, e: usize) -> (r: (usize, usize))
        requires
            e < self.ends.len(),
        ensures
            r == self.ends[e as int],
    {
        self.ends[e]
    }
}

/// An instance: a graph, a weight per edge, and for each edge the edges it conflicts with.
/// The objective of a tree is `alpha * weight + beta * conflicts`.
pub struct MstCcProblem {
    pub name: String,
    pub g: Graph,
    pub w: Vec<u32>,
    pub cc: Vec<Vec<usize>>,
    pub num_cc: usize,
    pub alpha: u32,
    pub beta: u32,
}

/// `alpha * weight + beta * conflicts`.
pub open spec fn obj_spec(alpha: u32, beta: u32, weight: int, conflicts: int) -> int {
    alpha as int * weight + beta as int * conflicts
}

/// Conflict lists `cc` over `m` edges that name valid edges, never the edge itself,
/// never twice, are symmetric, and whose total length fits in `u32`.
pub open spec fn lists_wf(m: int, cc: Seq<Seq<usize>>) -> bool {
    &&& forall|e: int, k: int| 0 <= e < m && 0 <= k < cc[e].len() ==> #[trigger] cc[e][k] < m && cc[e][k] != e
    &&& forall|e: int, i: int, j: int|
        0 <= e < m && 0 <= i < j < cc[e].len() ==> #[trigger] cc[e][i] != #[trigger] cc[e][j]
    &&& forall|e: int, f: int|
        0 <= e < m && 0 <= f < m ==> #[trigger] occ(cc[e], f as usize) == #[trigger] occ(cc[f], e as usize)
    &&& sum_to(m, |t: int| cc[t].len() as int) <= u32::MAX
}

/// For an instance whose graph and weights are in order, well-formedness is that of its
/// conflict lists.
pub proof fn lemma_wf_lists(p: MstCcProblem, cc: Seq<Seq<usize>>)
    requires
        p.g.wf(),
        p.w@.len() == p.m(),
        p.cc@.len() == p.m(),
        cc.len() == p.m(),
        forall|i: int| 0 <= i < p.m() ==> #[trigger] p.cc[i]@ == cc[i],
    ensures
        p.wf() <==> lists_wf(p.m(), cc),
{
    let m = p.m();
    lemma_sum_ext(m, |t: int| p.cc[t]@.len() as int, |t: int| cc[t].len() as int);
    if p.wf() {
        assert forall|e: int, k: int| 0 <= e < m && 0 <= k < cc[e].len() implies #[trigger] cc[e][k] < m && cc[e][k] != e by {
            assert(p.cc[e]@[k] == cc[e][k]);
        }
        assert forall|e: int, i: int, j: int| 0 <= e < m && 0 <= i < j < cc[e].len() implies #[trigger] cc[e][i]
            != #[trigger] cc[e][j] by {
            assert(p.cc[e]@[i] == cc[e][i] && p.cc[e]@[j] == cc[e][j]);
        }
        assert forall|e: int, f: int| 0 <= e < m && 0 <= f < m implies #[trigger] occ(cc[e], f as usize)
            == #[trigger] occ(cc[f], e as usize) by {
            assert(occ(p.cc[e]@, f as usize) == occ(p.cc[f]@, e as usize));
        }
    }
    if lists_wf(m, cc) {
        assert forall|e: int, k: int| 0 <= e < m && 0 <= k < p.cc[e]@.len() implies #[trigger] p.cc[e]@[k] < m
            && p.cc[e]@[k] != e by {
            assert(p.cc[e]@[k] == cc[e][k]);
        }
        assert forall|e: int, i: int, j: int| 0 <= e < m && 0 <= i < j < p.cc[e]@.len() implies #[trigger] p.cc[e]@[i]
            != #[trigger] p.cc[e]@[j] by {
            assert(p.cc[e]@[i] == cc[e][i] && p.cc[e]@[j] == cc[e][j]);
        }
        assert forall|e: int, f: int| 0 <= e < m && 0 <= f < m implies #[trigger] occ(p.cc[e]@, f as usize)
            == #[trigger] occ(p.cc[f]@, e as usize) by {
            assert(occ(cc[e], f as usize) == occ(cc[f], e as usize));
        }
    }
}

/// `alpha * weight + beta * num_conflicts`, exactly.
pub fn obj_with(alpha: u32, beta: u32, weight: u64, num_conflicts: u64) -> (r: u128)
    ensures
        r == obj_spec(alpha, beta, weight as int, num_conflicts as int),
{
    proof {
        assert(alpha as int * weight as int <= u32::MAX as int * u64::MAX as int) by (nonlinear_arith);
        assert(beta as int * num_conflicts as int <= u32::MAX as int * u64::MAX as int) by (nonlinear_arith);
    }
    alpha as u128 * weight as u128 + beta as u128 * num_conflicts as u128
}

/// The set of edges listed in `s`, as membership flags over `0..m`.
pub open spec fn edge_set(m: int, s: Seq<usize>) -> Seq<bool> {
    Seq::new(m as nat, |e: int| s.contains(e as usize))
}

pub open spec fn weight_fn(p: MstCcProblem, member: Seq<bool>) -> spec_fn(int) -> int {
    |e: int| if member[e] { p.w@[e] as int } else { 0 }
}

/// Total weight of the edges in the set `member`.
pub open spec fn weight_set(p: MstCcProblem, member: Seq<bool>) -> int {
    sum_to(p.m(), weight_fn(p, member))
}

/// Changing the membership of one edge changes the weight by that edge's weight.
pub proof fn lemma_weight_change(p: MstCcProblem, member: Seq<bool>, a: int, v: bool)
    requires
        member.len() == p.m(),
        0 <= a < p.m(),
    ensures
        weight_set(p, member.update(a, v)) == weight_set(p, member) - (if member[a] { p.w@[a] as int } else { 0 }) + (
        if v {
            p.w@[a] as int
        } else {
            0
        }),
{
    let m2 = member.update(a, v);
    let d = |e: int| if e == a { (if v { p.w@[a] as int } else { 0 }) - (if member[a] { p.w@[a] as int } else { 0 }) } else { 0 };
    lemma_sum_add(p.m(), weight_fn(p, member), d, weight_fn(p, m2));
    lemma_sum_point(p.m(), d, a);
}

pub open spec fn const_fn(c: int) -> spec_fn(int) -> int {
    |e: int| c
}

pub proof fn lemma_sum_const(k: int, c: int)
    requires
        k >= 0,
    ensures
        sum_to(k, const_fn(c)) == k * c,
    decreases k,
{
    if k > 0 {
        lemma_sum_const(k - 1, c);
        assert((k - 1) * c + c == k * c) by (nonlinear_arith);
    }
}

/// Any set's weight is at most `m * u32::MAX`, which fits in `u64`.
pub proof fn lemma_weight_bound(p: MstCcProblem, member: Seq<bool>)
    requires
        p.wf(),
        member.len() == p.m(),
    ensures
        0 <= weight_set(p, member) <= p.m() * u32::MAX,
        p.m() * u32::MAX + u32::MAX <= u64::MAX,
{
    lemma_sum_le(p.m(), weight_fn(p, member), const_fn(u32::MAX as int));
    lemma_sum_const(p.m(), u32::MAX as int);
    lemma_sum_nonneg(p.m(), weight_fn(p, member));
    assert(p.m() * u32::MAX + u32::MAX <= u64::MAX) by (nonlinear_arith)
        requires
            p.m() <= u32::MAX,
    ;
}

/// The objective after exchanging `rem` for `ins` moves by the difference of their
/// own objectives.
pub proof fn lemma_obj_exchange(alpha: u32, beta: u32, w: int, c: int, wr: int, cr: int, wi: int, ci: int)
    ensures
        obj_spec(alpha, beta, w - wr + wi, c - cr + ci) == obj_spec(alpha, beta, w, c) - obj_spec(alpha, beta, wr, cr)
            + obj_spec(alpha, beta, wi, ci),
{
    assert(alpha as int * (w - wr + wi) == alpha as int * w - alpha as int * wr + alpha as int * wi) by (nonlinear_arith);
    assert(beta as int * (c - cr + ci) == beta as int * c - beta as int * cr + beta as int * ci) by (nonlinear_arith);
}

pub proof fn lemma_obj_nonneg(alpha: u32, beta: u32, w: int, c: int)
    requires
        w >= 0,
        c >= 0,
    ensures
        obj_spec(alpha, beta, w, c) >= 0,
{
    assert(alpha as int * w >= 0) by (nonlinear_arith)
        requires
            w >= 0,
    ;
    assert(beta as int * c >= 0) by (nonlinear_arith)
        requires
            c >= 0,
    ;
}

/// A copy of `s`.
pub fn copy_edges(s: &[usize]) -> (r: Vec<usize>)
    ensures
        r@ == s@,
{
    let mut r: Vec<usize> = Vec::with_capacity(s.len());
    let mut i: usize = 0;
    while i < s.len()
        invariant
            0 <= i <= s@.len(),
            r@ == s@.take(i as int),
        decreases s@.len() - i,
    {
        r.push(s[i]);
        i += 1;
        proof {
            assert(r@ =~= s@.take(i as int));
        }
    }
    proof {
        assert(s@.take(i as int) =~= s@);
    }
    r
}

/// Total weight of the distinct edges listed in `tree`.
pub fn tree_weight(p: &MstCcProblem, tree: &[usize]) -> (r: u64)
    requires
        p.wf(),
        forall|i: int| 0 <= i < tree@.len() ==> #[trigger] tree@[i] < p.m(),
        forall|i: int, j: int| 0 <= i < j < tree@.len() ==> #[trigger] tree@[i] != #[trigger] tree@[j],
    ensures
        r == weight_set(*p, edge_set(p.m(), tree@)),
{
    let ghost m = p.m();
    let mut acc: u64 = 0;
    let mut i: usize = 0;
    proof {
        lemma_sum_point(m, weight_fn(*p, edge_set(m, tree@.take(0))), -1);
    }
    while i < tree.len()
        invariant
            p.wf(),
            m == p.m(),
            forall|k: int| 0 <= k < tree@.len() ==> #[trigger] tree@[k] < p.m(),
            forall|a: int, b: int| 0 <= a < b < tree@.len() ==> #[trigger] tree@[a] != #[trigger] tree@[b],
            0 <= i <= tree@.len(),
            acc as int == weight_set(*p, edge_set(m, tree@.take(i as int))),
        decreases tree@.len() - i,
    {
        let e = tree[i];
        proof {
            let before = edge_set(m, tree@.take(i as int));
            let after = edge_set(m, tree@.take(i as int + 1));
            assert(!before[e as int]) by {
                if tree@.take(i as int).contains(e) {
                    let k = choose|k: int| 0 <= k < i && #[trigger] tree@.take(i as int)[k] == e;
                    assert(tree@[k] == tree@[i as int]);
                }
            }
            assert forall|f: int| 0 <= f < m implies #[trigger] after[f] == before.update(e as int, true)[f] by {
                if tree@.take(i as int + 1).contains(f as usize) && f != e as int {
                    let k = choose|k: int| 0 <= k < i + 1 && #[trigger] tree@.take(i as int + 1)[k] == f as usize;
                    assert(tree@.take(i as int)[k] == f as usize);
                }
                if tree@.take(i as int).contains(f as usize) {
                    let k = choose|k: int| 0 <= k < i && #[trigger] tree@.take(i as int)[k] == f as usize;
                    assert(tree@.take(i as int + 1)[k] == f as usize);
                }
                assert(tree@.take(i as int + 1)[i as int] == e);
            }
            assert(after =~= before.update(e as int, true));
            lemma_weight_change(*p, before, e as int, true);
            lemma_weight_bound(*p, after);
        }
        acc = acc + p.w[e] as u64;
        i += 1;
    }
    proof {
        assert(tree@.take(i as int) =~= tree@);
    }
    acc
}

impl MstCcProblem {
    pub open spec fn m(&self) -> int {
        self.g.ends.len() as int
    }

    /// Total length of the conflict lists.
    pub open spec fn cc_total(&self) -> int {
        sum_to(self.m(), |t: int| self.cc[t]@.len() as int)
    }

    /// Conflict lists name valid edges, never the edge itself, never twice,
    /// and are symmetric; all counts fit in `u32`.
    pub open spec fn wf(&self) -> bool {
        &&& self.g.wf()
        &&& self.w.len() == self.m()
        &&& self.cc.len() == self.m()
        &&& forall|e: int, k: int|
            0 <= e < self.m() && 0 <= k < self.cc[e]@.len() ==> #[trigger] self.cc[e]@[k] < self.m()
                && self.cc[e]@[k] != e
        &&& forall|e: int, i: int, j: int|
            0 <= e < self.m() && 0 <= i < j < self.cc[e]@.len() ==> #[trigger] self.cc[e]@[i]
                != #[trigger] self.cc[e]@[j]
        &&& forall|e: int, f: int|
            0 <= e < self.m() && 0 <= f < self.m() ==> #[trigger] occ(self.cc[e]@, f as usize)
                == #[trigger] occ(self.cc[f]@, e as usize)
        &&& self.cc_total() <= u32::MAX
    }

    /// Whether the instance is well formed (see `wf`): each rule is tested in turn.
    pub fn is_valid(&self) -> (r: bool)
        ensures
            r == self.wf(),
    {
        let n = self.g.n;
        let m = self.g.ends.len();
        if n == 0 || n >= 4294967295 || m > 4294967295 || self.w.len() != m || self.cc.len() != m {
            return false;
        }
        let mut e: usize = 0;
        while e < m
            invariant
                0 < n < u32::MAX,
                n == self.g.n,
                m == self.g.ends@.len(),
                0 <= e <= m,
                forall|x: int| 0 <= x < e ==> #[trigger] self.g.ends@[x].0 < n && self.g.ends@[x].1 < n,
            decreases m - e,
        {
            let (u, v) = self.g.ends[e];
            if u >= n || v >= n {
                proof {
                    assert(!(self.g.ends[e as int].0 < n && self.g.ends[e as int].1 < n));
                }
                return false;
            }
            e += 1;
        }
        let mut total: u64 = 0;
        let mut e: usize = 0;
        while e < m
            invariant
                self.g.wf(),
                m == self.m(),
                self.w@.len() == m,
                self.cc@.len() == m,
                0 <= e <= m,
                forall|x: int, k: int|
                    0 <= x < e && 0 <= k < self.cc[x]@.len() ==> #[trigger] self.cc[x]@[k] < m && self.cc[x]@[k] != x
                        && self.cc[self.cc[x]@[k] as int]@.contains(x as usize),
                forall|x: int, i: int, j: int|
                    0 <= x < e && 0 <= i < j < self.cc[x]@.len() ==> #[trigger] self.cc[x]@[i] != #[trigger] self.cc[x]@[j],
                total as int == sum_to(e as int, |t: int| self.cc[t]@.len() as int),
                total <= u32::MAX,
            decreases m - e,
        {
            let list = &self.cc[e];
            let mut k: usize = 0;
            while k < list.len()
                invariant
                    self.g.wf(),
                    m == self.m(),
                    self.cc@.len() == m,
                    0 <= e < m,
                    *list == self.cc[e as int],
                    0 <= k <= list@.len(),
                    forall|k2: int|
                        0 <= k2 < k ==> #[trigger] list@[k2] < m && list@[k2] != e && self.cc[list@[k2] as int]@.contains(e),
                    forall|i: int, j: int| 0 <= i < j < k ==> #[trigger] list@[i] != #[trigger] list@[j],
                decreases list@.len() - k,
            {
                let f = list[k];
                if f >= m || f == e {
                    return false;
                }
                let mut j: usize = 0;
                while j < k
                    invariant
                        0 <= j <= k < list@.len(),
                        f == list@[k as int],
                        *list == self.cc[e as int],
                        0 <= e < m,
                        m == self.m(),
                        self.cc@.len() == m,
                        forall|i: int| 0 <= i < j ==> #[trigger] list@[i] != f,
                    decreases k - j,
                {
                    if list[j] == f {
                        proof {
                            assert(self.cc[e as int]@[j as int] == self.cc[e as int]@[k as int]);
                        }
                        return false;
                    }
                    j += 1;
                }
                let back = &self.cc[f];
                let mut i: usize = 0;
                let mut found = false;
                while i < back.len() && !found
                    invariant
                        0 <= i <= back@.len(),
                        *back == self.cc[f as int],
                        *list == self.cc[e as int],
                        f == list@[k as int],
                        0 <= k < list@.len(),
                        0 <= e < m,
                        f < m,
                        m == self.m(),
                        self.cc@.len() == m,
                        found ==> back@.contains(e),
                        !found ==> forall|x: int| 0 <= x < i ==> back@[x] != e,
                    decreases back@.len() - i + if found { 0int } else { 1int },
                {
                    if back[i] == e {
                        found = true;
                    } else {
                        i += 1;
                    }
                }
                if !found {
                    proof {
                        lemma_occ_contains(self.cc[e as int]@, f);
                        lemma_occ_contains(self.cc[f as int]@, e);
                        assert(self.cc[e as int]@[k as int] == f);
                        assert(!back@.contains(e));
                        let ei = e as int;
                        let fi = f as int;
                        assert(fi as usize == f && ei as usize == e);
                        if self.wf() {
                            assert(occ(self.cc[ei]@, fi as usize) == occ(self.cc[fi]@, ei as usize));
                        }
                    }
                    return false;
                }
                k += 1;
            }
            if list.len() as u64 > 4294967295 - total {
                proof {
                    let lens = |t: int| self.cc[t]@.len() as int;
                    assert(sum_to(e as int + 1, lens) == total + list@.len());
                    lemma_sum_prefix_le(e as int + 1, m as int, lens);
                    assert(self.cc_total() == sum_to(m as int, lens));
                }
                return false;
            }
            total = total + list.len() as u64;
            e += 1;
        }
        proof {
            assert forall|x: int, f: int| 0 <= x < m && 0 <= f < m implies #[trigger] occ(self.cc[x]@, f as usize)
                == #[trigger] occ(self.cc[f]@, x as usize) by {
                lemma_occ_distinct(self.cc[x]@, f as usize);
                lemma_occ_distinct(self.cc[f]@, x as usize);
                if self.cc[x]@.contains(f as usize) {
                    let k = choose|k: int| 0 <= k < self.cc[x]@.len() && self.cc[x]@[k] == f as usize;
                    assert(self.cc[self.cc[x]@[k] as int]@.contains(x as usize));
                }
                if self.cc[f]@.contains(x as usize) {
                    let k = choose|k: int| 0 <= k < self.cc[f]@.len() && self.cc[f]@[k] == x as usize;
                    assert(self.cc[self.cc[f]@[k] as int]@.contains(f as usize));
                }
            }
        }
        true
    }

    pub open spec fn obj_of(&self, weight: int, conflicts: int) -> int {
        obj_spec(self.alpha, self.beta, weight, conflicts)
    }

    /// The objective value `alpha * weight + beta * num_conflicts`.
    pub fn obj(&self, weight: u64, num_conflicts: u64) -> (r: u128)
        ensures
            r == self.obj_of(weight as int, num_conflicts as int),
    {
        obj_with(self.alpha, self.beta, weight, num_conflicts)
    }
}

} // verus!
