use vstd::prelude::*;
use rand::{Rng, SeedableRng, XorShiftRng};
use std::io::Write;

verus! {

/// The scan of `partition` from `i` to `j`: an item at `i` that satisfies `q` stays and
/// `i` moves on; any other is swapped with the item at `j` and `j` moves back. Gives the
/// reordered items and the final `i`.
pub open spec fn partition_scan<T>(s: Seq<T>, i: int, j: int, q: spec_fn(T) -> bool) -> (Seq<T>, int)
    decreases j - i,
{
    if i >= j || i < 0 || j >= s.len() {
        (s, i)
    } else if q(s[i]) {
        partition_scan(s, i + 1, j, q)
    } else {
        partition_scan(s.update(i, s[j]).update(j, s[i]), i, j - 1, q)
    }
}

/// Reorders `xs` so that the items that satisfy `pred` come first. The returned index
/// `r` splits them: every item before `r` satisfies `pred`, every item after `r` does
/// not, and the item at `r` itself is left untested.
pub fn partition<T: Copy, F: Fn(&T) -> bool>(xs: &mut Vec<T>, pred: F) -> (r: usize)
    requires
        forall|x: &T| #[trigger] pred.requires((x,)),
        forall|x: &T, a: bool, b: bool| pred.ensures((x,), a) && pred.ensures((x,), b) ==> a == b,
    ensures
        old(xs)@.len() > 0 ==> (final(xs)@, r as int) == partition_scan(
            old(xs)@,
            0,
            old(xs)@.len() - 1,
            |x: T| pred.ensures((&x,), true),
        ),
        final(xs)@.to_multiset() == old(xs)@.to_multiset(),
        final(xs)@.len() == old(xs)@.len(),
        old(xs)@.len() == 0 ==> r == 0,
        old(xs)@.len() > 0 ==> r < old(xs)@.len(),
        forall|k: int| 0 <= k < r ==> pred.ensures((&final(xs)@[k],), true),
        forall|k: int| r < k < final(xs)@.len() ==> pred.ensures((&final(xs)@[k],), false),
{
    if xs.len() == 0 {
        return 0;
    }
    let mut i: usize = 0;
    let mut j: usize = xs.len() - 1;
    while i < j
        invariant
            forall|x: &T| #[trigger] pred.requires((x,)),
            forall|x: &T, a: bool, b: bool| pred.ensures((x,), a) && pred.ensures((x,), b) ==> a == b,
            partition_scan(xs@, i as int, j as int, |x: T| pred.ensures((&x,), true)) == partition_scan(
                old(xs)@,
                0,
                old(xs)@.len() - 1,
                |x: T| pred.ensures((&x,), true),
            ),
            xs@.to_multiset() == old(xs)@.to_multiset(),
            xs@.len() == old(xs)@.len(),
            0 <= i <= j < xs@.len(),
            forall|k: int| 0 <= k < i ==> pred.ensures((&xs@[k],), true),
            forall|k: int| j < k < xs@.len() ==> pred.ensures((&xs@[k],), false),
        decreases j - i,
    {
        let ghost q = |x: T| pred.ensures((&x,), true);
        let ghost s0 = xs@;
        if pred(&xs[i]) {
            proof {
                assert(q(s0[i as int]));
            }
            i += 1;
        } else {
            proof {
                assert(!q(s0[i as int]));
            }
            let a = xs[i];
            let b = xs[j];
            let ghost before = xs@;
            xs.set(i, b);
            xs.set(j, a);
            proof {
                assert(xs@ =~= before.update(i as int, b).update(j as int, a));
                lemma_swap_multiset(before, i as int, j as int);
            }
            j -= 1;
        }
    }
    i
}

proof fn lemma_swap_multiset<T>(s: Seq<T>, i: int, j: int)
    requires
        0 <= i < s.len(),
        0 <= j < s.len(),
    ensures
        s.update(i, s[j]).update(j, s[i]).to_multiset() == s.to_multiset(),
{
    broadcast use vstd::seq_lib::group_to_multiset_ensures;
    let a = s[i];
    let b = s[j];
    let s1 = s.update(i, b);
    let s2 = s1.update(j, a);
    vstd::seq_lib::to_multiset_update(s, i, b);
    vstd::seq_lib::to_multiset_update(s1, j, a);
    assert(s2.to_multiset() =~= s.to_multiset());
}

/// Change from `old` to `new` in hundredths of a percent of `old`, positive when `new`
/// is smaller, rounded to the nearest hundredth (halves away from zero); zero when
/// `old` is zero.
pub open spec fn improvement_spec(old: u32, new: u32) -> int {
    if old == 0 {
        0
    } else if old > new {
        (20000 * (old - new) + old) / (2 * old as int)
    } else {
        -((20000 * (new - old) + old) / (2 * old as int))
    }
}

fn improvement_percentage(old: u32, new: u32) -> (r: i64)
    ensures
        r == improvement_spec(old, new),
{
    if old == 0 {
        0
    } else if old > new {
        proof {
            assert((20000 * (old - new) + old) / (2 * old as int) <= 20000 * (old - new) + old) by (nonlinear_arith)
                requires
                    old >= 1,
                    old > new,
            ;
        }
        ((20000u64 * (old - new) as u64 + old as u64) / (2 * old as u64)) as i64
    } else {
        proof {
            assert((20000 * (new - old) + old) / (2 * old as int) <= 20000 * (new - old) + old) by (nonlinear_arith)
                requires
                    old >= 1,
                    new >= old,
            ;
        }
        -(((20000u64 * (new - old) as u64 + old as u64) / (2 * old as u64)) as i64)
    }
}

/// Relies on log's `max_log_level`: the level filter as its discriminant, from 0 (off)
/// to 5 (trace).
#[verifier::external_body]
fn max_log_level() -> (r: usize)
    ensures
        r <= 5,
{
    log::max_log_level() as usize
}

/// Relies on `std::io::stderr` and `writeln!`: writes one log line to standard error.
#[verifier::external_body]
fn emit_log(level: &str, target: &str, prefix: &str, old: u32, new: u32, sign: &str, whole: u64, frac: u64) {
    let _ = writeln!(std::io::stderr(), "{}:{}: {}{} -> {} ({}{}.{:02}%)", level, target, prefix, old, new, sign, whole, frac);
}

fn log_line(level: &str, target: &str, prefix: &str, old: u32, new: u32) {
    let pct = improvement_percentage(old, new);
    let (sign, mag) = if pct < 0 { ("-", (-pct) as u64) } else { ("", pct as u64) };
    emit_log(level, target, prefix, old, new, sign, mag / 100, mag % 100);
}

/// At debug level, logs the change from `old` to `new` under `target`.
pub fn log_improvement(target: &str, old: u32, new: u32) {
    if max_log_level() >= 4 {
        log_line("DEBUG", target, "", old, new);
    }
}

/// At info level, logs the change of the best value from `old` to `new` under `target`.
pub fn log_improvement_best(target: &str, old: u32, new: u32) {
    if max_log_level() >= 3 {
        log_line("INFO", target, "best ", old, new);
    }
}

/// The seed of the random number generators.
#[derive(Copy, Clone, Debug)]
pub struct Seed(pub u32);

/// Relies on rand's `weak_rng` and `Rng::gen`: some `u32`.
#[verifier::external_body]
fn random_u32() -> (r: u32) {
    rand::weak_rng().gen()
}

/// Relies on rand's `XorShiftRng::from_seed`, which panics on an all-zero seed.
#[verifier::external_body]
fn xor_shift_from_seed(a: u32, b: u32, c: u32, d: u32) -> (r: XorShiftRng)
    requires
        !(a == 0 && b == 0 && c == 0 && d == 0),
{
    XorShiftRng::from_seed([a, b, c, d])
}

#[verifier::external_type_specification]
#[verifier::external_body]
pub struct ExXorShiftRng(XorShiftRng);

/// Relies on rand's `Rng::gen_range(0, high)`, which panics unless `0 < high`: a
/// number below `high`.
#[verifier::external_body]
pub(crate) fn gen_index(rng: &mut XorShiftRng, high: usize) -> (r: usize)
    requires
        0 < high,
    ensures
        r < high,
{
    rng.gen_range(0, high)
}

/// Relies on rand's `Rng::shuffle`: the same items, in some order.
#[verifier::external_body]
pub(crate) fn shuffle(rng: &mut XorShiftRng, v: &mut Vec<usize>)
    ensures
        final(v)@.to_multiset() == old(v)@.to_multiset(),
{
    rng.shuffle(v.as_mut_slice())
}

impl Seed {
    /// A seed drawn at random.
    pub fn new_random() -> Seed {
        Seed(random_u32())
    }

    /// A generator seeded with `s, s + 1, s + 2, s + 3` (wrapping).
    pub fn new_xor_shift_rng(&self) -> XorShiftRng {
        let s = self.0;
        xor_shift_from_seed(s, s.wrapping_add(1), s.wrapping_add(2), s.wrapping_add(3))
    }
}

} // verus!
