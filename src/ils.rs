use vstd::prelude::*;
use rand::XorShiftRng;
use crate::conflicts::pair_count;
use crate::one::set_obj;
use crate::construct::{all_edges, kruskal_edges, kruskal_of, InitialTree};
use crate::order::distinct;
use crate::problem::{copy_edges, edge_set, tree_weight, Graph, MstCcProblem};
use crate::utils::{gen_index, log_improvement_best, shuffle};

verus! {

/// A local search that improves a tree in place.
pub trait LocalSearch {
    /// The problem it searches on.
    spec fn problem_spec(&self) -> MstCcProblem;

    /// Whether it is ready to run.
    spec fn ready(&self) -> bool;

    /// Improves `tree` and returns the number of conflicting pairs in the result.
    fn local_search(&mut self, tree: &mut Vec<usize>) -> (r: u32)
        requires
            old(self).ready(),
            distinct(old(tree)@),
            forall|i: int| 0 <= i < old(tree)@.len() ==> #[trigger] old(tree)@[i] < old(self).problem_spec().m(),
        ensures
            final(self).ready(),
            final(self).problem_spec() == old(self).problem_spec(),
            distinct(final(tree)@),
            forall|i: int| 0 <= i < final(tree)@.len() ==> #[trigger] final(tree)@[i] < final(self).problem_spec().m(),
            r == pair_count(final(self).problem_spec(), edge_set(final(self).problem_spec().m(), final(tree)@)),
    ;
}

/// What an iteration of the iterated local search did after its local search.
pub enum IlsAction {
    /// Stopped: too many iterations without improvement.
    StopNoImprov,
    /// Rebuilt the tree with the restart builder, without perturbation.
    Restart,
    /// Stopped: the tree has no conflict and `stop_on_feasible` is set.
    StopFeasible,
    /// Perturbed the tree for the next iteration.
    Perturbed,
    /// Stopped: perturbation found no spanning tree.
    StopPerturbFailed,
}

/// One iteration: whether its local optimum improved on all earlier ones, the three
/// counters after it (iterations without improvement, since the last restart, since the
/// last return to the best tree), whether it returned to the best tree, and its action.
pub struct IlsStep {
    pub improved: bool,
    pub no_improv: u32,
    pub since_restart: u32,
    pub since_best: u32,
    pub to_best: bool,
    pub action: IlsAction,
}

/// Whether entry `x` of `found` has a lower objective than every earlier one.
pub open spec fn improved_at(found: Seq<(Seq<usize>, u32, int)>, x: int) -> bool {
    forall|y: int| 0 <= y < x ==> found[x].2 < #[trigger] found[y].2
}

/// Every step of `log` follows the rules, against the local optima `found`.
pub open spec fn log_follows(
    limits: (u32, u32, u32),
    stop_on_feasible: bool,
    log: Seq<IlsStep>,
    found: Seq<(Seq<usize>, u32, int)>,
) -> bool {
    &&& log.len() == found.len()
    &&& forall|x: int|
        0 <= x < log.len() ==> step_rule(
            limits,
            stop_on_feasible,
            counters_before(log, x),
            improved_at(found, x),
            found[x].1,
            #[trigger] log[x],
        )
    &&& forall|x: int| 0 <= x < log.len() - 1 ==> !terminal(#[trigger] log[x].action)
}

proof fn lemma_log_push(
    limits: (u32, u32, u32),
    stop_on_feasible: bool,
    log: Seq<IlsStep>,
    found: Seq<(Seq<usize>, u32, int)>,
    st: IlsStep,
)
    requires
        found.len() == log.len() + 1,
        log_follows(limits, stop_on_feasible, log, found.drop_last()),
        log.len() > 0 ==> !terminal(log[log.len() - 1].action),
        step_rule(
            limits,
            stop_on_feasible,
            counters_before(log, log.len() as int),
            improved_at(found, log.len() as int),
            found[log.len() as int].1,
            st,
        ),
    ensures
        log_follows(limits, stop_on_feasible, log.push(st), found),
{
    let l2 = log.push(st);
    let f0 = found.drop_last();
    assert forall|x: int| 0 <= x < l2.len() implies step_rule(
        limits,
        stop_on_feasible,
        counters_before(l2, x),
        improved_at(found, x),
        found[x].1,
        #[trigger] l2[x],
    ) by {
        if x < log.len() {
            assert(l2[x] == log[x]);
            assert(found[x] == f0[x]);
            assert(counters_before(l2, x) == counters_before(log, x));
            assert(improved_at(found, x) == improved_at(f0, x)) by {
                assert forall|y: int| 0 <= y < x implies found[y] == f0[y] by {}
            }
        } else {
            assert(counters_before(l2, x) == counters_before(log, x));
        }
    }
    assert forall|x: int| 0 <= x < l2.len() - 1 implies !terminal(#[trigger] l2[x].action) by {
        assert(l2[x] == log[x]);
    }
}

pub open spec fn terminal(a: IlsAction) -> bool {
    a is StopNoImprov || a is StopFeasible || a is StopPerturbFailed
}

/// The counters before step `x` of `log`.
pub open spec fn counters_before(log: Seq<IlsStep>, x: int) -> (int, int, int) {
    if x == 0 {
        (0, 0, 0)
    } else {
        (log[x - 1].no_improv as int, log[x - 1].since_restart as int, log[x - 1].since_best as int)
    }
}

/// The rules of an iteration, given the limits `(max_iters_no_improv, iters_restart,
/// iters_restart_to_best)`, `stop_on_feasible`, the counters before it, whether its
/// local optimum beat all earlier ones and its conflict count: improvement clears the
/// counters; otherwise the no-improvement limit stops the run, else the restart limit
/// restarts, else the return-to-best limit returns to the best tree; then a conflict-free
/// tree stops the run under `stop_on_feasible`, else the tree is perturbed.
#[verifier::opaque]
pub open spec fn step_rule(
    limits: (u32, u32, u32),
    stop_on_feasible: bool,
    before: (int, int, int),
    improved: bool,
    conflicts: u32,
    st: IlsStep,
) -> bool {
    let go_on = if stop_on_feasible && conflicts == 0 {
        st.action is StopFeasible
    } else {
        st.action is Perturbed || st.action is StopPerturbFailed
    };
    &&& st.improved == improved
    &&& if improved {
        &&& st.no_improv == 0 && st.since_restart == 0 && st.since_best == 0
        &&& !st.to_best
        &&& go_on
    } else if before.0 + 1 >= limits.0 {
        &&& st.no_improv == before.0 + 1 && st.since_restart == before.1 && st.since_best == before.2
        &&& !st.to_best
        &&& st.action is StopNoImprov
    } else if before.1 + 1 >= limits.1 {
        &&& st.no_improv == before.0 + 1 && st.since_restart == 0 && st.since_best == before.2
        &&& !st.to_best
        &&& st.action is Restart
    } else {
        &&& st.no_improv == before.0 + 1 && st.since_restart == before.1 + 1
        &&& st.to_best == (before.2 + 1 >= limits.2)
        &&& st.since_best == if st.to_best { 0 } else { before.2 + 1 }
        &&& go_on
    }
}

/// Iterated local search: local search to a local optimum, then perturbation, restart
/// or return to the best tree, keeping the best tree found.
pub struct Ils<'a> {
    pub p: &'a MstCcProblem,
    pub max_iters: u32,
    pub max_iters_no_improv: u32,
    pub num_excludes: u32,
    pub iters_restart: u32,
    pub iters_restart_to_best: u32,
    pub restart: InitialTree,
    pub stop_on_feasible: bool,
    /// The trees local search returned in the last run, with their conflict counts and
    /// objectives, in order.
    found: Ghost<Seq<(Seq<usize>, u32, int)>>,
    /// What each iteration of the last run did.
    log: Ghost<Seq<IlsStep>>,
}

/// Whether `v` holds `x`.
fn holds(v: &Vec<usize>, x: usize) -> (r: bool)
    ensures
        r == v@.contains(x),
{
    let mut i: usize = 0;
    while i < v.len()
        invariant
            0 <= i <= v@.len(),
            forall|k: int| 0 <= k < i ==> v@[k] != x,
        decreases v@.len() - i,
    {
        if v[i] == x {
            return true;
        }
        i += 1;
    }
    false
}

/// `b` is the first of the minimal objectives in `h`.
pub open spec fn first_best(h: Seq<(Seq<usize>, u32, int)>, b: int) -> bool {
    &&& 0 <= b < h.len()
    &&& forall|x: int| 0 <= x < h.len() ==> h[b].2 <= #[trigger] h[x].2
    &&& forall|x: int| 0 <= x < b ==> h[b].2 < #[trigger] h[x].2
}

impl<'a> Ils<'a> {
    pub fn new(
        p: &'a MstCcProblem,
        max_iters: u32,
        max_iters_no_improv: u32,
        num_excludes: u32,
        iters_restart: u32,
        iters_restart_to_best: u32,
        restart: InitialTree,
        stop_on_feasible: bool,
    ) -> (r: Self)
        ensures
            r.problem() == *p,
            r.iterations() == max_iters,
            r.found_spec().len() == 0,
            r.builder() == restart,
    {
        Ils {
            p,
            max_iters,
            max_iters_no_improv,
            num_excludes,
            iters_restart,
            iters_restart_to_best,
            restart,
            stop_on_feasible,
            found: Ghost(Seq::empty()),
            log: Ghost(Seq::empty()),
        }
    }

    pub closed spec fn problem(&self) -> MstCcProblem {
        *self.p
    }

    pub closed spec fn iterations(&self) -> u32 {
        self.max_iters
    }

    pub closed spec fn builder(&self) -> InitialTree {
        self.restart
    }

    /// What local search returned in the last run: each tree, its conflict count and its
    /// objective.
    /// What each iteration of the last run did.
    pub closed spec fn log_spec(&self) -> Seq<IlsStep> {
        self.log@
    }

    /// `(max_iters_no_improv, iters_restart, iters_restart_to_best)`.
    pub closed spec fn limits(&self) -> (u32, u32, u32) {
        (self.max_iters_no_improv, self.iters_restart, self.iters_restart_to_best)
    }

    pub closed spec fn stops_on_feasible(&self) -> bool {
        self.stop_on_feasible
    }

    pub closed spec fn found_spec(&self) -> Seq<(Seq<usize>, u32, int)> {
        self.found@
    }

    #[verifier::rlimit(80)]
    /// Runs the iterated local search from `tree` and returns the number of conflicting
    /// pairs of the best tree found, which is left in `tree` (the input, and `u32::MAX`,
    /// when no iteration runs).
    pub fn run<L: LocalSearch>(&mut self, tree: &mut Vec<usize>, rng: &mut XorShiftRng, local_search: &mut L) -> (r: u32)
        requires
            old(self).problem().wf(),
            old(self).builder().fits(old(self).problem()),
            old(local_search).ready(),
            old(local_search).problem_spec() == old(self).problem(),
            distinct(old(tree)@),
            forall|i: int| 0 <= i < old(tree)@.len() ==> #[trigger] old(tree)@[i] < old(self).problem().m(),
        ensures
            final(self).problem() == old(self).problem(),
            final(self).iterations() == old(self).iterations(),
            final(self).builder().fits(final(self).problem()),
            final(local_search).ready(),
            final(local_search).problem_spec() == final(self).problem(),
            distinct(final(tree)@),
            forall|i: int| 0 <= i < final(tree)@.len() ==> #[trigger] final(tree)@[i] < final(self).problem().m(),
            final(self).found_spec().len() <= old(self).iterations(),
            forall|x: int|
                0 <= x < final(self).found_spec().len() ==> #[trigger] final(self).found_spec()[x].1 == pair_count(
                    final(self).problem(),
                    edge_set(final(self).problem().m(), final(self).found_spec()[x].0),
                ) && final(self).found_spec()[x].2 == set_obj(
                    final(self).problem(),
                    edge_set(final(self).problem().m(), final(self).found_spec()[x].0),
                ),
            final(self).limits() == old(self).limits(),
            final(self).stops_on_feasible() == old(self).stops_on_feasible(),
            log_follows(final(self).limits(), final(self).stops_on_feasible(), final(self).log_spec(), final(self).found_spec()),
            final(self).log_spec().len() < old(self).iterations() ==> final(self).log_spec().len() > 0 && terminal(
                final(self).log_spec()[final(self).log_spec().len() - 1].action,
            ),
            old(self).iterations() == 0 ==> r == u32::MAX && final(tree)@ == old(tree)@,
            old(self).iterations() > 0 ==> exists|b: int|
                first_best(final(self).found_spec(), b) && final(tree)@ == final(self).found_spec()[b].0 && r
                    == final(self).found_spec()[b].1,
            old(self).iterations() > 0 ==> r == pair_count(
                final(self).problem(),
                edge_set(final(self).problem().m(), final(tree)@),
            ),
    {
        let p = self.p;
        let ghost m = p.m();
        let mut edges = all_edges(p.g.ends.len());
        let mut best = copy_edges(tree.as_slice());
        let mut best_weight: u64 = tree_weight(p, tree.as_slice());
        let mut best_num_conflicts: u32 = u32::MAX;
        let mut best_obj: u128 = u128::MAX;
        let mut iters_no_impr: u32 = 0;
        let mut iters_restart: u32 = 0;
        let mut iters_restart_to_best: u32 = 0;
        let mut iter: u32 = 0;
        let mut done = false;
        let ghost mut bi: int = 0;
        self.found = Ghost(Seq::empty());
        self.log = Ghost(Seq::empty());
        while !done && iter < self.max_iters
            invariant
                self.p == p,
                p == old(self).p,
                p.wf(),
                m == p.m(),
                self.max_iters == old(self).max_iters,
                self.restart.fits(*p),
                local_search.ready(),
                local_search.problem_spec() == *p,
                distinct(tree@),
                forall|i: int| 0 <= i < tree@.len() ==> #[trigger] tree@[i] < m,
                distinct(best@),
                forall|i: int| 0 <= i < best@.len() ==> #[trigger] best@[i] < m,
                forall|i: int| 0 <= i < edges@.len() ==> #[trigger] edges@[i] < m,
                iters_no_impr <= iter,
                iters_restart <= iter,
                iters_restart_to_best <= iter,
                iter <= self.max_iters,
                iter == 0 ==> best@ == old(tree)@ && best_num_conflicts == u32::MAX && best_obj == u128::MAX,
                done ==> iter > 0,
                iter > 0 ==> best_num_conflicts == pair_count(*p, edge_set(m, best@)),
                self.found@.len() <= iter,
                iter > 0 ==> first_best(self.found@, bi) && best@ == self.found@[bi].0 && best_num_conflicts
                    == self.found@[bi].1 && best_obj as int == self.found@[bi].2,
                forall|x: int|
                    0 <= x < self.found@.len() ==> #[trigger] self.found@[x].1 == pair_count(*p, edge_set(m, self.found@[x].0))
                        && self.found@[x].2 == set_obj(*p, edge_set(m, self.found@[x].0)),
                iter == 0 ==> self.found@.len() == 0,
                iter > 0 ==> self.found@.len() > 0,
                self.log@.len() == self.found@.len(),
                self.found@.len() == iter,
                self.max_iters_no_improv == old(self).max_iters_no_improv,
                self.iters_restart == old(self).iters_restart,
                self.iters_restart_to_best == old(self).iters_restart_to_best,
                self.stop_on_feasible == old(self).stop_on_feasible,
                (iters_no_impr as int, iters_restart as int, iters_restart_to_best as int) == counters_before(
                    self.log@,
                    self.log@.len() as int,
                ),
                log_follows(
                    (self.max_iters_no_improv, self.iters_restart, self.iters_restart_to_best),
                    self.stop_on_feasible,
                    self.log@,
                    self.found@,
                ),
                done == (self.log@.len() > 0 && terminal(self.log@[self.log@.len() - 1].action)),
            decreases self.max_iters - iter, if done { 0int } else { 1int },
        {
            let num_conflicts = local_search.local_search(tree);
            let weight = tree_weight(p, tree.as_slice());
            let obj = p.obj(weight, num_conflicts as u64);
            proof {
                let al = p.alpha as int;
                let be = p.beta as int;
                assert(al * (weight as int) + be * (num_conflicts as int) < u128::MAX) by (nonlinear_arith)
                    requires
                        0 <= al <= u32::MAX,
                        0 <= be <= u32::MAX,
                        0 <= weight <= u64::MAX,
                        0 <= num_conflicts <= u32::MAX,
                ;
            }
            let ghost prev = self.found@;
            proof {
                self.found = Ghost(prev.push((tree@, num_conflicts, obj as int)));
            }
            let ghost before = (iters_no_impr as int, iters_restart as int, iters_restart_to_best as int);
            let ghost improved = obj < best_obj;
            let ghost mut act = IlsAction::Perturbed;
            let ghost mut tb = false;
            proof {
                if iter > 0 {
                    if improved {
                        assert forall|y: int| 0 <= y < prev.len() implies obj < #[trigger] prev[y].2 by {}
                    } else {
                        assert(!(obj < prev[bi].2));
                    }
                }
            }
            let mut perturb = true;
            if obj < best_obj {
                proof {
                    bi = prev.len() as int;
                }
                log_improvement_best("conflicts", best_num_conflicts, num_conflicts);
                log_improvement_best("weight   ", best_weight as u32, weight as u32);
                best_num_conflicts = num_conflicts;
                best_weight = weight;
                best_obj = obj;
                best = copy_edges(tree.as_slice());
                iters_no_impr = 0;
                iters_restart = 0;
                iters_restart_to_best = 0;
            } else {
                iters_no_impr += 1;
                if iters_no_impr >= self.max_iters_no_improv {
                    done = true;
                    perturb = false;
                    proof {
                        act = IlsAction::StopNoImprov;
                    }
                } else {
                    iters_restart += 1;
                    if iters_restart >= self.iters_restart {
                        self.restart.build(p, tree);
                        iters_restart = 0;
                        perturb = false;
                        proof {
                            act = IlsAction::Restart;
                        }
                    } else {
                        iters_restart_to_best += 1;
                        if iters_restart_to_best >= self.iters_restart_to_best {
                            *tree = copy_edges(best.as_slice());
                            iters_restart_to_best = 0;
                            proof {
                                tb = true;
                            }
                        }
                    }
                }
            }
            if perturb && self.stop_on_feasible && num_conflicts == 0 {
                done = true;
                perturb = false;
                proof {
                    act = IlsAction::StopFeasible;
                }
            }
            if perturb {
                if !self.perturb(tree, rng, &mut edges) {
                    done = true;
                    proof {
                        act = IlsAction::StopPerturbFailed;
                    }
                }
            }
            proof {
                let st = IlsStep {
                    improved,
                    no_improv: iters_no_impr,
                    since_restart: iters_restart,
                    since_best: iters_restart_to_best,
                    to_best: tb,
                    action: act,
                };
                let old_log = self.log@;
                let lim = (self.max_iters_no_improv, self.iters_restart, self.iters_restart_to_best);
                let h = self.found@;
                assert(h.drop_last() =~= prev);
                assert(improved_at(h, prev.len() as int) == improved) by {
                    assert forall|y: int| 0 <= y < prev.len() implies h[y] == prev[y] by {}
                }
                assert(step_rule(lim, self.stop_on_feasible, before, improved, num_conflicts, st)) by {
                    reveal(step_rule);
                }
                lemma_log_push(lim, self.stop_on_feasible, old_log, h, st);
                self.log = Ghost(old_log.push(st));
            }
            iter += 1;
        }
        *tree = best;
        best_num_conflicts
    }

    /// Takes `num_excludes` random edges out of `tree` (fewer if it runs out) and
    /// completes the rest by `reconnect` over a fresh shuffle of all edges, leaving out
    /// the removed ones. A second try, without leaving any edge out, follows a failure;
    /// `false` when that fails too (the graph is not connected).
    fn perturb(&self, tree: &mut Vec<usize>, rng: &mut XorShiftRng, edges: &mut Vec<usize>) -> (r: bool)
        requires
            self.p.wf(),
            distinct(old(tree)@),
            forall|i: int| 0 <= i < old(tree)@.len() ==> #[trigger] old(tree)@[i] < self.p.m(),
            forall|i: int| 0 <= i < old(edges)@.len() ==> #[trigger] old(edges)@[i] < self.p.m(),
        ensures
            distinct(final(tree)@),
            forall|i: int| 0 <= i < final(tree)@.len() ==> #[trigger] final(tree)@[i] < self.p.m(),
            forall|i: int| 0 <= i < final(edges)@.len() ==> #[trigger] final(edges)@[i] < self.p.m(),
            final(edges)@.to_multiset() == old(edges)@.to_multiset(),
            r ==> final(tree)@.len() + 1 == self.p.g.n,
            r ==> exists|picks: Seq<usize>, order: Seq<usize>|
                valid_picks(old(tree)@, picks) && picks.len() == if self.num_excludes as int <= old(tree)@.len() {
                    self.num_excludes as int
                } else {
                    old(tree)@.len() as int
                } && final(tree)@ == kruskal_of(self.p.g.n as nat, self.p.g.ends@, after_removals(old(tree)@, picks) + order),
    {
        let p = self.p;
        let ghost m = p.m();
        let mut picks: Vec<usize> = Vec::new();
        let mut x: u32 = 0;
        while x < self.num_excludes && (x as usize) < tree.len()
            invariant
                picks@.len() == x,
                x <= self.num_excludes,
                x <= tree@.len(),
                valid_picks(tree@, picks@),
            decreases self.num_excludes - x,
        {
            let i = gen_index(rng, tree.len() - x as usize);
            picks.push(i);
            x += 1;
            proof {
                assert forall|k: int| 0 <= k < picks@.len() implies #[trigger] picks@[k] < tree@.len() - k by {}
            }
        }
        let ghost t0 = tree@;
        let excluded = exclude_at(tree, &picks);
        let ghost kept = tree@;
        proof {
            assert forall|i: int| 0 <= i < kept.len() implies #[trigger] kept[i] < m by {
                let j = choose|j: int| 0 <= j < t0.len() && t0[j] == kept[i];
            }
        }
        let mut attempts: u32 = 0;
        let mut found = false;
        let mut tmp: Vec<usize> = Vec::new();
        let empty: Vec<usize> = Vec::new();
        while !found && attempts < 2
            invariant
                p == self.p,
                p.wf(),
                m == p.m(),
                tree@ == kept,
                forall|i: int| 0 <= i < tree@.len() ==> #[trigger] tree@[i] < m,
                forall|i: int| 0 <= i < edges@.len() ==> #[trigger] edges@[i] < m,
                edges@.to_multiset() == old(edges)@.to_multiset(),
                distinct(tmp@),
                forall|i: int| 0 <= i < tmp@.len() ==> #[trigger] tmp@[i] < m,
                found ==> tmp@.len() + 1 == p.g.n,
                found ==> exists|order: Seq<usize>| tmp@ == kruskal_of(p.g.n as nat, p.g.ends@, kept + order),
            decreases 2 - attempts,
        {
            let ghost before = edges@;
            shuffle(rng, edges);
            proof {
                broadcast use vstd::seq_lib::group_to_multiset_ensures;
                assert forall|i: int| 0 <= i < edges@.len() implies #[trigger] edges@[i] < m by {
                    assert(edges@.contains(edges@[i]));
                    assert(edges@.to_multiset().count(edges@[i]) > 0);
                    assert(before.contains(edges@[i]));
                }
            }
            tmp = if attempts == 0 { reconnect(&p.g, tree, edges, &excluded) } else { reconnect(&p.g, tree, edges, &empty) };
            proof {
                assert(exists|order: Seq<usize>| tmp@ == kruskal_of(p.g.n as nat, p.g.ends@, kept + order)) by {
                    let order = without(edges@, if attempts == 0 { excluded@ } else { empty@ });
                    assert(tmp@ == kruskal_of(p.g.n as nat, p.g.ends@, kept + order));
                }
            }
            found = tmp.len() + 1 == p.g.n;
            attempts += 1;
        }
        if found {
            *tree = tmp;
        } else {
            proof {
                lemma_removals_keep(t0, picks@);
            }
        }
        found
    }
}

/// Positions for removing items one at a time from a sequence of length `s.len()`:
/// the `k`-th lies below `s.len() - k`.
pub open spec fn valid_picks(s: Seq<usize>, picks: Seq<usize>) -> bool {
    picks.len() <= s.len() && forall|k: int| 0 <= k < picks.len() ==> #[trigger] picks[k] < s.len() - k
}

/// `s` after `Vec::swap_remove` at each position of `picks` in turn.
pub open spec fn after_removals(s: Seq<usize>, picks: Seq<usize>) -> Seq<usize>
    decreases picks.len(),
{
    if picks.len() == 0 {
        s
    } else {
        let t = after_removals(s, picks.drop_last());
        t.update(picks.last() as int, t.last()).drop_last()
    }
}

/// The items those removals take out, in order.
pub open spec fn removed_items(s: Seq<usize>, picks: Seq<usize>) -> Seq<usize>
    decreases picks.len(),
{
    if picks.len() == 0 {
        Seq::empty()
    } else {
        removed_items(s, picks.drop_last()).push(after_removals(s, picks.drop_last())[picks.last() as int])
    }
}

/// `s` without the items that `ex` holds.
pub open spec fn without(s: Seq<usize>, ex: Seq<usize>) -> Seq<usize>
    decreases s.len(),
{
    if s.len() == 0 {
        Seq::empty()
    } else if ex.contains(s.last()) {
        without(s.drop_last(), ex)
    } else {
        without(s.drop_last(), ex).push(s.last())
    }
}

proof fn lemma_removals_keep(s: Seq<usize>, picks: Seq<usize>)
    requires
        valid_picks(s, picks),
    ensures
        after_removals(s, picks).len() == s.len() - picks.len(),
        forall|i: int| 0 <= i < after_removals(s, picks).len() ==> s.contains(#[trigger] after_removals(s, picks)[i]),
        distinct(s) ==> distinct(after_removals(s, picks)),
    decreases picks.len(),
{
    if picks.len() > 0 {
        let q = picks.drop_last();
        assert forall|k: int| 0 <= k < q.len() implies #[trigger] q[k] < s.len() - k by {
            assert(q[k] == picks[k]);
        }
        lemma_removals_keep(s, q);
        let t = after_removals(s, q);
        let i = picks.last() as int;
        assert(picks[picks.len() - 1] < s.len() - (picks.len() - 1));
        let u = t.update(i, t.last()).drop_last();
        assert forall|a: int| 0 <= a < u.len() implies s.contains(#[trigger] u[a]) by {
            if a == i {
                assert(t.contains(t[t.len() - 1]));
            } else {
                assert(u[a] == t[a]);
            }
        }
        if distinct(s) {
            assert forall|a: int, b: int| 0 <= a < b < u.len() implies #[trigger] u[a] != #[trigger] u[b] by {
                let a2 = if a == i { t.len() - 1 } else { a };
                let b2 = if b == i { t.len() - 1 } else { b };
                assert(u[a] == t[a2] && u[b] == t[b2]);
            }
        }
    }
}

/// Removes the items at `picks` from `tree` one at a time, each by `swap_remove`, and
/// returns them in that order.
pub fn exclude_at(tree: &mut Vec<usize>, picks: &Vec<usize>) -> (ex: Vec<usize>)
    requires
        valid_picks(old(tree)@, picks@),
    ensures
        final(tree)@ == after_removals(old(tree)@, picks@),
        ex@ == removed_items(old(tree)@, picks@),
        final(tree)@.len() == old(tree)@.len() - picks@.len(),
        distinct(old(tree)@) ==> distinct(final(tree)@),
        forall|i: int| 0 <= i < final(tree)@.len() ==> old(tree)@.contains(#[trigger] final(tree)@[i]),
{
    let mut ex: Vec<usize> = Vec::new();
    let mut x: usize = 0;
    while x < picks.len()
        invariant
            valid_picks(old(tree)@, picks@),
            0 <= x <= picks@.len(),
            tree@ == after_removals(old(tree)@, picks@.take(x as int)),
            ex@ == removed_items(old(tree)@, picks@.take(x as int)),
            tree@.len() == old(tree)@.len() - x,
        decreases picks@.len() - x,
    {
        let i = picks[x];
        proof {
            assert(picks@[x as int] < old(tree)@.len() - x);
            assert(picks@.take(x as int + 1).drop_last() =~= picks@.take(x as int));
            assert(picks@.take(x as int + 1).last() == i);
        }
        let e = tree.swap_remove(i);
        ex.push(e);
        x += 1;
    }
    proof {
        assert(picks@.take(x as int) =~= picks@);
        lemma_removals_keep(old(tree)@, picks@);
    }
    ex
}

/// Kruskal's rule over the kept edges first, then the edges of `shuffled` that
/// `excluded` does not hold.
pub fn reconnect(g: &Graph, kept: &Vec<usize>, shuffled: &Vec<usize>, excluded: &Vec<usize>) -> (r: Vec<usize>)
    requires
        g.wf(),
        forall|i: int| 0 <= i < kept@.len() ==> #[trigger] kept@[i] < g.ends@.len(),
        forall|i: int| 0 <= i < shuffled@.len() ==> #[trigger] shuffled@[i] < g.ends@.len(),
    ensures
        r@ == kruskal_of(g.n as nat, g.ends@, kept@ + without(shuffled@, excluded@)),
        distinct(r@),
        r@.len() < g.n,
        forall|i: int| 0 <= i < r@.len() ==> (kept@ + without(shuffled@, excluded@)).contains(#[trigger] r@[i]),
        forall|i: int| 0 <= i < r@.len() ==> #[trigger] r@[i] < g.ends@.len(),
{
    let mut order = copy_edges(kept.as_slice());
    let mut k: usize = 0;
    while k < shuffled.len()
        invariant
            0 <= k <= shuffled@.len(),
            order@ == kept@ + without(shuffled@.take(k as int), excluded@),
            forall|i: int| 0 <= i < shuffled@.len() ==> #[trigger] shuffled@[i] < g.ends@.len(),
            forall|i: int| 0 <= i < order@.len() ==> #[trigger] order@[i] < g.ends@.len(),
        decreases shuffled@.len() - k,
    {
        let e = shuffled[k];
        proof {
            assert(shuffled@.take(k as int + 1).drop_last() =~= shuffled@.take(k as int));
            assert(shuffled@.take(k as int + 1).last() == e);
        }
        if !holds(excluded, e) {
            order.push(e);
            proof {
                assert(order@ =~= kept@ + without(shuffled@.take(k as int + 1), excluded@));
            }
        }
        k += 1;
    }
    proof {
        assert(shuffled@.take(k as int) =~= shuffled@);
    }
    let r = kruskal_edges(g, &order);
    proof {
        assert forall|i: int| 0 <= i < r@.len() implies #[trigger] r@[i] < g.ends@.len() by {
            assert(order@.contains(r@[i]));
        }
    }
    r
}

} // verus!
