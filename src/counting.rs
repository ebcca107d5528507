use vstd::prelude::*;

verus! {

/// Number of entries of `s` that satisfy `p`.
pub open spec fn count_where(s: Seq<usize>, p: spec_fn(usize) -> bool) -> nat
    decreases s.len(),
{
    if s.len() == 0 {
        0
    } else {
        count_where(s.drop_last(), p) + if p(s.last()) { 1nat } else { 0nat }
    }
}

/// Number of occurrences of `x` in `s`.
pub open spec fn occ(s: Seq<usize>, x: usize) -> nat
    decreases s.len(),
{
    if s.len() == 0 {
        0
    } else {
        occ(s.drop_last(), x) + if s.last() == x { 1nat } else { 0nat }
    }
}

/// `f(0) + f(1) + ... + f(k - 1)`.
pub open spec fn sum_to(k: int, f: spec_fn(int) -> int) -> int
    decreases k,
{
    if k <= 0 {
        0
    } else {
        sum_to(k - 1, f) + f(k - 1)
    }
}

pub proof fn lemma_count_ext(s: Seq<usize>, p: spec_fn(usize) -> bool, q: spec_fn(usize) -> bool)
    requires
        forall|i: int| 0 <= i < s.len() ==> (p(#[trigger] s[i]) <==> q(s[i])),
    ensures
        count_where(s, p) == count_where(s, q),
    decreases s.len(),
{
    if s.len() > 0 {
        lemma_count_ext(s.drop_last(), p, q);
    }
}

pub proof fn lemma_count_none(s: Seq<usize>, p: spec_fn(usize) -> bool)
    requires
        forall|i: int| 0 <= i < s.len() ==> !p(#[trigger] s[i]),
    ensures
        count_where(s, p) == 0,
    decreases s.len(),
{
    if s.len() > 0 {
        lemma_count_none(s.drop_last(), p);
    }
}

/// Counting the entries equal to `x` is counting the occurrences of `x`.
pub proof fn lemma_count_is_occ(s: Seq<usize>, p: spec_fn(usize) -> bool, x: usize)
    requires
        forall|i: int| 0 <= i < s.len() ==> (p(#[trigger] s[i]) <==> s[i] == x),
    ensures
        count_where(s, p) == occ(s, x),
    decreases s.len(),
{
    if s.len() > 0 {
        lemma_count_is_occ(s.drop_last(), p, x);
    }
}

pub proof fn lemma_count_le_len(s: Seq<usize>, p: spec_fn(usize) -> bool)
    ensures
        count_where(s, p) <= s.len(),
    decreases s.len(),
{
    if s.len() > 0 {
        lemma_count_le_len(s.drop_last(), p);
    }
}

/// Counting over a disjoint union `r` of `p` and `q` adds up.
pub proof fn lemma_count_or(
    s: Seq<usize>,
    p: spec_fn(usize) -> bool,
    q: spec_fn(usize) -> bool,
    r: spec_fn(usize) -> bool,
)
    requires
        forall|i: int| 0 <= i < s.len() ==> !(p(#[trigger] s[i]) && q(s[i])),
        forall|i: int| 0 <= i < s.len() ==> (r(#[trigger] s[i]) <==> p(s[i]) || q(s[i])),
    ensures
        count_where(s, r) == count_where(s, p) + count_where(s, q),
    decreases s.len(),
{
    if s.len() > 0 {
        lemma_count_or(s.drop_last(), p, q, r);
    }
}

/// Extending a prefix by one entry adds that entry's indicator.
pub proof fn lemma_count_take_step(s: Seq<usize>, p: spec_fn(usize) -> bool, k: int)
    requires
        0 <= k < s.len(),
    ensures
        count_where(s.take(k + 1), p) == count_where(s.take(k), p) + if p(s[k]) { 1nat } else { 0nat },
{
    assert(s.take(k + 1).drop_last() =~= s.take(k));
}

pub proof fn lemma_count_take_le(s: Seq<usize>, p: spec_fn(usize) -> bool, k: int)
    requires
        0 <= k <= s.len(),
    ensures
        count_where(s.take(k), p) <= count_where(s, p),
    decreases s.len() - k,
{
    if k < s.len() {
        lemma_count_take_step(s, p, k);
        lemma_count_take_le(s, p, k + 1);
    } else {
        assert(s.take(k) =~= s);
    }
}

pub proof fn lemma_occ_take_step(s: Seq<usize>, x: usize, k: int)
    requires
        0 <= k < s.len(),
    ensures
        occ(s.take(k + 1), x) == occ(s.take(k), x) + if s[k] == x { 1nat } else { 0nat },
{
    assert(s.take(k + 1).drop_last() =~= s.take(k));
}

pub proof fn lemma_occ_take_le(s: Seq<usize>, x: usize, k: int)
    requires
        0 <= k <= s.len(),
    ensures
        occ(s.take(k), x) <= occ(s, x),
    decreases s.len() - k,
{
    if k < s.len() {
        lemma_occ_take_step(s, x, k);
        lemma_occ_take_le(s, x, k + 1);
    } else {
        assert(s.take(k) =~= s);
    }
}

pub proof fn lemma_sum_ext(k: int, f: spec_fn(int) -> int, g: spec_fn(int) -> int)
    requires
        forall|t: int| 0 <= t < k ==> #[trigger] f(t) == g(t),
    ensures
        sum_to(k, f) == sum_to(k, g),
    decreases k,
{
    if k > 0 {
        lemma_sum_ext(k - 1, f, g);
    }
}

/// A sum of pointwise sums `h = f + g`.
pub proof fn lemma_sum_add(k: int, f: spec_fn(int) -> int, g: spec_fn(int) -> int, h: spec_fn(int) -> int)
    requires
        forall|t: int| 0 <= t < k ==> #[trigger] h(t) == f(t) + g(t),
    ensures
        sum_to(k, h) == sum_to(k, f) + sum_to(k, g),
    decreases k,
{
    if k > 0 {
        lemma_sum_add(k - 1, f, g, h);
    }
}

pub proof fn lemma_sum_le(k: int, f: spec_fn(int) -> int, g: spec_fn(int) -> int)
    requires
        forall|t: int| 0 <= t < k ==> #[trigger] f(t) <= g(t),
    ensures
        sum_to(k, f) <= sum_to(k, g),
    decreases k,
{
    if k > 0 {
        lemma_sum_le(k - 1, f, g);
    }
}

pub proof fn lemma_sum_nonneg(k: int, f: spec_fn(int) -> int)
    requires
        forall|t: int| 0 <= t < k ==> #[trigger] f(t) >= 0,
    ensures
        sum_to(k, f) >= 0,
    decreases k,
{
    if k > 0 {
        lemma_sum_nonneg(k - 1, f);
    }
}

pub proof fn lemma_sum_nonneg_term(k: int, f: spec_fn(int) -> int, a: int)
    requires
        0 <= a < k,
        forall|t: int| 0 <= t < k ==> #[trigger] f(t) >= 0,
    ensures
        f(a) <= sum_to(k, f),
    decreases k,
{
    lemma_sum_nonneg(k - 1, f);
    if k - 1 > a {
        lemma_sum_nonneg_term(k - 1, f, a);
    }
}

/// Sums of non-negative terms grow with the range.
pub proof fn lemma_sum_prefix_le(k1: int, k2: int, f: spec_fn(int) -> int)
    requires
        0 <= k1 <= k2,
        forall|t: int| 0 <= t < k2 ==> #[trigger] f(t) >= 0,
    ensures
        sum_to(k1, f) <= sum_to(k2, f),
    decreases k2 - k1,
{
    if k1 < k2 {
        lemma_sum_prefix_le(k1, k2 - 1, f);
    }
}

/// `x` occurs in `s` exactly when `s` holds it.
pub proof fn lemma_occ_contains(s: Seq<usize>, x: usize)
    ensures
        (occ(s, x) > 0) == s.contains(x),
    decreases s.len(),
{
    if s.len() > 0 {
        let s0 = s.drop_last();
        lemma_occ_contains(s0, x);
        if s0.contains(x) {
            let i = choose|i: int| 0 <= i < s0.len() && s0[i] == x;
            assert(s[i] == x);
        }
        if s.contains(x) && s.last() != x {
            let i = choose|i: int| 0 <= i < s.len() && s[i] == x;
            assert(s0[i] == x);
        }
    }
}

/// A sum that is zero except at `a`.
pub proof fn lemma_sum_point(k: int, f: spec_fn(int) -> int, a: int)
    requires
        forall|t: int| 0 <= t < k && t != a ==> #[trigger] f(t) == 0,
    ensures
        sum_to(k, f) == if 0 <= a < k { f(a) } else { 0 },
    decreases k,
{
    if k > 0 {
        lemma_sum_point(k - 1, f, a);
    }
}

/// Summing, over the indices `t` that satisfy `p`, how often `t` occurs in `s`
/// counts the entries of `s` that satisfy `p`.
pub proof fn lemma_sum_occ(s: Seq<usize>, k: int, p: spec_fn(usize) -> bool, f: spec_fn(int) -> int)
    requires
        k <= usize::MAX,
        forall|i: int| 0 <= i < s.len() ==> #[trigger] s[i] < k,
        forall|t: int|
            0 <= t < k ==> #[trigger] f(t) == if p(t as usize) { occ(s, t as usize) as int } else { 0 },
    ensures
        sum_to(k, f) == count_where(s, p),
    decreases s.len(),
{
    if s.len() == 0 {
        lemma_sum_point(k, f, -1);
    } else {
        let s0 = s.drop_last();
        let x = s.last();
        let f0 = |t: int| if p(t as usize) { occ(s0, t as usize) as int } else { 0 };
        let g = |t: int| if p(t as usize) && t == x as int { 1int } else { 0 };
        assert forall|i: int| 0 <= i < s0.len() implies #[trigger] s0[i] < k by {
            assert(s0[i] == s[i]);
        }
        lemma_sum_occ(s0, k, p, f0);
        assert forall|t: int| 0 <= t < k implies #[trigger] f(t) == f0(t) + g(t) by {
            assert((t as usize == x) <==> (t == x as int));
        }
        lemma_sum_add(k, f0, g, f);
        lemma_sum_point(k, g, x as int);
    }
}

/// Distinct entries below `k` number at most `k`.
pub proof fn lemma_distinct_len(s: Seq<usize>, k: nat)
    requires
        forall|i: int| 0 <= i < s.len() ==> #[trigger] s[i] < k,
        forall|i: int, j: int| 0 <= i < j < s.len() ==> #[trigger] s[i] != #[trigger] s[j],
    ensures
        s.len() <= k,
    decreases k,
{
    if k == 0 {
        if s.len() > 0 {
            assert(s[0] < 0);
        }
    } else if exists|j: int| 0 <= j < s.len() && s[j] == (k - 1) as usize {
        let j = choose|j: int| 0 <= j < s.len() && s[j] == (k - 1) as usize;
        let r = s.remove(j);
        assert forall|i: int| 0 <= i < r.len() implies #[trigger] r[i] < (k - 1) as nat by {
            if i < j {
                assert(r[i] == s[i]);
            } else {
                assert(r[i] == s[i + 1]);
            }
        }
        assert forall|a: int, b: int| 0 <= a < b < r.len() implies #[trigger] r[a] != #[trigger] r[b] by {
            let a2 = if a < j { a } else { a + 1 };
            let b2 = if b < j { b } else { b + 1 };
            assert(r[a] == s[a2] && r[b] == s[b2]);
        }
        lemma_distinct_len(r, (k - 1) as nat);
    } else {
        assert forall|i: int| 0 <= i < s.len() implies #[trigger] s[i] < (k - 1) as nat by {
            assert(s[i] != (k - 1) as usize);
        }
        lemma_distinct_len(s, (k - 1) as nat);
    }
}

} // verus!
