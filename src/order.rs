use vstd::prelude::*;

verus! {

/// Lexicographic order on `(key, position, item)` triples.
pub open spec fn triple_le(a: (u128, usize, usize), b: (u128, usize, usize)) -> bool {
    a.0 < b.0 || (a.0 == b.0 && (a.1 < b.1 || (a.1 == b.1 && a.2 <= b.2)))
}

/// Relies on `slice::sort`: afterwards the slice holds the same items, in ascending
/// (lexicographic) order.
#[verifier::external_body]
pub(crate) fn sort_triples(v: &mut Vec<(u128, usize, usize)>)
    ensures
        final(v)@.to_multiset() == old(v)@.to_multiset(),
        forall|i: int| 0 <= i < final(v)@.len() - 1 ==> #[trigger] triple_le(final(v)@[i], final(v)@[i + 1]),
{
    v.sort();
}

/// Item `i` of `v`, with its key, is some item of `v0` with its key.
pub open spec fn came_from(v: Seq<usize>, keys: Seq<u128>, v0: Seq<usize>, k0: Seq<u128>, i: int) -> bool {
    exists|j: int| 0 <= j < v0.len() && v[i] == #[trigger] v0[j] && keys[i] == k0[j]
}

pub open spec fn distinct(s: Seq<usize>) -> bool {
    forall|i: int, j: int| 0 <= i < j < s.len() ==> #[trigger] s[i] != #[trigger] s[j]
}

/// Reorders the distinct items `v` by ascending `keys[i]` (the key of `v[i]`), keeping
/// the input order among equal keys; `keys` is reordered alongside.
pub fn sort_by_keys(v: &mut Vec<usize>, keys: &mut Vec<u128>)
    requires
        old(keys)@.len() == old(v)@.len(),
        distinct(old(v)@),
    ensures
        final(v)@.len() == old(v)@.len(),
        final(keys)@.len() == old(v)@.len(),
        distinct(final(v)@),
        forall|x: usize| final(v)@.contains(x) <==> old(v)@.contains(x),
        forall|i: int|
            0 <= i < final(v)@.len() ==> #[trigger] came_from(final(v)@, final(keys)@, old(v)@, old(keys)@, i),
        forall|i: int| 0 <= i < final(v)@.len() - 1 ==> #[trigger] final(keys)@[i] <= final(keys)@[i + 1],
{
    let ghost v0 = v@;
    let ghost k0 = keys@;
    let mut t: Vec<(u128, usize, usize)> = Vec::with_capacity(v.len());
    let mut i: usize = 0;
    while i < v.len()
        invariant
            v@ == v0,
            keys@ == k0,
            k0.len() == v0.len(),
            0 <= i <= v0.len(),
            t@.len() == i,
            forall|j: int| 0 <= j < i ==> #[trigger] t@[j] == (k0[j], j as usize, v0[j]),
        decreases v0.len() - i,
    {
        t.push((keys[i], i, v[i]));
        i += 1;
    }
    let ghost t0 = t@;
    proof {
        assert(t0.no_duplicates()) by {
            assert forall|a: int, b: int| 0 <= a < t0.len() && 0 <= b < t0.len() && a != b implies t0[a]
                != t0[b] by {
                assert(t0[a].1 == a as usize && t0[b].1 == b as usize);
            }
        }
        t0.lemma_multiset_has_no_duplicates();
    }
    sort_triples(&mut t);
    let ghost t1 = t@;
    proof {
        broadcast use vstd::seq_lib::group_to_multiset_ensures;

        t1.lemma_multiset_has_no_duplicates_conv();
        assert(t1.len() == t0.len()) by {
            assert(t1.len() == t1.to_multiset().len());
            assert(t0.len() == t0.to_multiset().len());
        }
        assert forall|x: (u128, usize, usize)| t1.contains(x) <==> t0.contains(x) by {
            assert(t1.contains(x) <==> t1.to_multiset().count(x) > 0);
            assert(t0.contains(x) <==> t0.to_multiset().count(x) > 0);
        }
    }
    let mut out: Vec<usize> = Vec::with_capacity(t.len());
    let mut ks: Vec<u128> = Vec::with_capacity(t.len());
    let mut i: usize = 0;
    while i < t.len()
        invariant
            t@ == t1,
            0 <= i <= t1.len(),
            out@.len() == i,
            ks@.len() == i,
            forall|j: int| 0 <= j < i ==> #[trigger] out@[j] == t1[j].2 && ks@[j] == t1[j].0,
        decreases t1.len() - i,
    {
        out.push(t[i].2);
        ks.push(t[i].0);
        i += 1;
    }
    proof {
        assert forall|a: int| 0 <= a < t1.len() implies exists|j: int|
            0 <= j < v0.len() && #[trigger] t1[a] == t0[j] by {
            assert(t1.contains(t1[a]));
            let j = choose|j: int| 0 <= j < t0.len() && t0[j] == t1[a];
        }
        assert forall|a: int, b: int| 0 <= a < b < out@.len() implies #[trigger] out@[a] != #[trigger] out@[b] by {
            let ja = choose|j: int| 0 <= j < v0.len() && #[trigger] t1[a] == t0[j];
            let jb = choose|j: int| 0 <= j < v0.len() && #[trigger] t1[b] == t0[j];
            if ja != jb {
                assert(v0[ja] != v0[jb]);
            }
        }
        assert forall|x: usize| out@.contains(x) <==> v0.contains(x) by {
            if out@.contains(x) {
                let a = choose|a: int| 0 <= a < out@.len() && out@[a] == x;
                let ja = choose|j: int| 0 <= j < v0.len() && #[trigger] t1[a] == t0[j];
                assert(v0[ja] == x);
            }
            if v0.contains(x) {
                let j = choose|j: int| 0 <= j < v0.len() && v0[j] == x;
                assert(t0.contains(t0[j]));
                assert(t1.contains(t0[j]));
                let a = choose|a: int| 0 <= a < t1.len() && t1[a] == t0[j];
                assert(out@[a] == x);
            }
        }
        assert forall|a: int| 0 <= a < out@.len() implies exists|j: int|
            0 <= j < v0.len() && #[trigger] out@[a] == #[trigger] v0[j] && ks@[a] == k0[j] by {
            let ja = choose|j: int| 0 <= j < v0.len() && #[trigger] t1[a] == t0[j];
            assert(out@[a] == t1[a].2);
            assert(t0[ja] == (k0[ja], ja as usize, v0[ja]));
            assert(out@[a] == v0[ja] && ks@[a] == k0[ja]);
        }
        assert forall|a: int| 0 <= a < out@.len() - 1 implies #[trigger] ks@[a] <= ks@[a + 1] by {
            assert(out@[a] == t1[a].2 && out@[a + 1] == t1[a + 1].2);
            assert(triple_le(t1[a], t1[a + 1]));
        }
    }
    let ghost o = out@;
    let ghost kk = ks@;
    *v = out;
    *keys = ks;
    proof {
        assert(v@ == o && keys@ == kk);
        assert(v0 == old(v)@);
        assert(k0 == old(keys)@);
        assert forall|a: int| 0 <= a < v@.len() implies #[trigger] came_from(v@, keys@, v0, k0, a) by {
            assert(o[a] == v@[a]);
        }
    }
}

} // verus!
