use rand::Rng;
use mstcc::{
    new_greedy, partition, Graph, Ils, Init, InitialTree, LocalSearch, MstCcProblem, OneEdgeReplacement, Seed,
    TwoEdgeReplacement,
};

/// Complete graph on 4 vertices: e0=(0,1) e1=(0,2) e2=(0,3) e3=(1,2) e4=(1,3) e5=(2,3).
fn k4(w: Vec<u32>, alpha: u32, beta: u32) -> MstCcProblem {
    let mut g = Graph::new(4);
    for &(u, v) in &[(0, 1), (0, 2), (0, 3), (1, 2), (1, 3), (2, 3)] {
        g.add_edge(u, v);
    }
    let mut cc: Vec<Vec<usize>> = vec![vec![]; 6];
    for &(a, b) in &[(0, 1), (0, 3), (1, 2), (1, 5), (2, 4)] {
        cc[a].push(b);
        cc[b].push(a);
    }
    MstCcProblem { name: "k4".to_owned(), g, w, cc, num_cc: 5, alpha, beta }
}

/// A wheel: hub 0 and rim 1..=6, with a few conflicts.
fn wheel(alpha: u32, beta: u32) -> MstCcProblem {
    let mut g = Graph::new(7);
    let mut w = vec![];
    for v in 1..7 {
        g.add_edge(0, v);
        w.push(3 + (v as u32 % 3));
    }
    for v in 1..7 {
        g.add_edge(v, v % 6 + 1);
        w.push(1 + (v as u32 * 7 % 5));
    }
    let mut cc: Vec<Vec<usize>> = vec![vec![]; 12];
    for &(a, b) in &[(6, 7), (0, 8), (9, 10), (1, 11), (3, 6), (2, 9)] {
        cc[a].push(b);
        cc[b].push(a);
    }
    MstCcProblem { name: "wheel".to_owned(), g, w, cc, num_cc: 6, alpha, beta }
}

fn is_spanning_tree(g: &Graph, tree: &[usize]) -> bool {
    if tree.len() + 1 != g.n {
        return false;
    }
    let mut comp: Vec<usize> = (0..g.n).collect();
    for &e in tree {
        let (u, v) = g.ends[e];
        let (a, b) = (comp[u], comp[v]);
        if a == b {
            return false;
        }
        for c in comp.iter_mut() {
            if *c == b {
                *c = a;
            }
        }
    }
    true
}

fn weight(p: &MstCcProblem, tree: &[usize]) -> u64 {
    tree.iter().map(|&e| p.w[e] as u64).sum()
}

fn conflicts(p: &MstCcProblem, tree: &[usize]) -> u32 {
    let mut n = 0;
    for &e in tree {
        for &f in &p.cc[e] {
            if e < f && tree.contains(&f) {
                n += 1;
            }
        }
    }
    n
}

fn obj(p: &MstCcProblem, tree: &[usize]) -> u128 {
    p.alpha as u128 * weight(p, tree) as u128 + p.beta as u128 * conflicts(p, tree) as u128
}

fn sorted(tree: &[usize]) -> Vec<usize> {
    let mut t = tree.to_vec();
    t.sort();
    t
}

fn no_improving_exchange(p: &MstCcProblem, tree: &[usize]) -> bool {
    let base = obj(p, tree);
    for i in 0..tree.len() {
        for e in 0..p.g.num_edges() {
            if tree.contains(&e) {
                continue;
            }
            let mut t = tree.to_vec();
            t[i] = e;
            if is_spanning_tree(&p.g, &t) && obj(p, &t) < base {
                return false;
            }
        }
    }
    true
}

#[test]
fn objective_formula() {
    let p = k4(vec![1; 6], 1, 10000);
    assert_eq!(20003, p.obj(3, 2));
    let p = k4(vec![1; 6], 7, 5);
    assert_eq!(7 * 40 + 5 * 3, p.obj(40, 3));
}

#[test]
fn one_exchange_reaches_local_optimum() {
    let p = k4(vec![1, 1, 1, 5, 5, 5], 1, 10);
    let mut tree = vec![3, 5, 2];
    let start = obj(&p, &tree);
    let mut one = OneEdgeReplacement::new(&p);
    let c = one.run(&mut tree);
    assert!(is_spanning_tree(&p.g, &tree));
    assert_eq!(conflicts(&p, &tree), c);
    assert!(obj(&p, &tree) <= start);
    assert!(obj(&p, &tree) < start);
    assert!(no_improving_exchange(&p, &tree));
    // the first improvement takes e3 out for e0
    assert_eq!(vec![0, 2, 5], sorted(&tree));
    assert_eq!(7, weight(&p, &tree));
    assert_eq!(0, c);
}

#[test]
fn one_exchange_with_sort_and_early_stop() {
    let p = wheel(1, 100);
    let mut tree: Vec<usize> = (0..6).collect();
    let start = obj(&p, &tree);
    let mut one = OneEdgeReplacement::new(&p);
    one.sort = true;
    let c = one.run(&mut tree);
    assert!(is_spanning_tree(&p.g, &tree));
    assert_eq!(conflicts(&p, &tree), c);
    assert!(obj(&p, &tree) <= start);

    let mut tree2: Vec<usize> = (0..6).collect();
    let mut one = OneEdgeReplacement::new(&p);
    one.stop_on_feasible = true;
    let c2 = one.run(&mut tree2);
    assert!(is_spanning_tree(&p.g, &tree2));
    assert_eq!(conflicts(&p, &tree2), c2);
    assert_eq!(0, c2);
}

#[test]
fn one_exchange_on_the_wheel() {
    let p = wheel(1, 100);
    let mut tree: Vec<usize> = (0..6).collect();
    let mut one = OneEdgeReplacement::new(&p);
    let c = one.run(&mut tree);
    assert!(is_spanning_tree(&p.g, &tree));
    assert_eq!(conflicts(&p, &tree), c);
    assert!(no_improving_exchange(&p, &tree));
    // a second pass finds nothing more
    assert!(!one.one_replacement(&mut tree));
}

#[test]
fn two_exchange_improves() {
    let p = wheel(1, 100);
    let mut tree: Vec<usize> = (0..6).collect();
    let start = obj(&p, &tree);
    let mut two = TwoEdgeReplacement::new(&p);
    let c = two.run(&mut tree);
    assert!(is_spanning_tree(&p.g, &tree));
    assert_eq!(conflicts(&p, &tree), c);
    assert!(obj(&p, &tree) < start);

    let mut tree: Vec<usize> = (0..6).collect();
    let mut two = TwoEdgeReplacement::new(&p);
    two.sort = true;
    let c = two.run(&mut tree);
    assert!(is_spanning_tree(&p.g, &tree));
    assert_eq!(conflicts(&p, &tree), c);
    assert!(obj(&p, &tree) <= start);
}

#[test]
fn two_exchange_k4() {
    let p = k4(vec![1, 1, 1, 5, 5, 5], 1, 10);
    let mut tree = vec![3, 4, 2];
    let start = obj(&p, &tree);
    let mut two = TwoEdgeReplacement::new(&p);
    let c = two.run(&mut tree);
    assert!(is_spanning_tree(&p.g, &tree));
    assert_eq!(conflicts(&p, &tree), c);
    assert!(obj(&p, &tree) < start);
}

#[test]
fn ils_without_excludes_keeps_the_local_optimum() {
    let p = wheel(1, 100);
    let mut expected: Vec<usize> = (0..6).collect();
    let mut one = OneEdgeReplacement::new(&p);
    let c = one.run(&mut expected);

    let mut tree: Vec<usize> = (0..6).collect();
    let restart = InitialTree::new(&p, Init::Kruskal, 1, 0, Seed(7).new_xor_shift_rng());
    let mut ils = Ils::new(
        &p,
        1000,
        5,
        0,
        1_000_000,
        1_000_000,
        restart,
        false,
    );
    let mut rng = Seed(3).new_xor_shift_rng();
    let mut one = OneEdgeReplacement::new(&p);
    let r = ils.run(&mut tree, &mut rng, &mut one);
    assert_eq!(c, r);
    assert_eq!(sorted(&expected), sorted(&tree));
}

#[test]
fn ils_with_perturbation() {
    let p = wheel(1, 100);
    let mut tree: Vec<usize> = (0..6).collect();
    let restart = InitialTree::new(&p, Init::Random, 1, 0, Seed(11).new_xor_shift_rng());
    let mut ils = Ils::new(
        &p,
        30,
        20,
        2,
        7,
        3,
        restart,
        false,
    );
    let mut rng = Seed(5).new_xor_shift_rng();
    let mut two = TwoEdgeReplacement::new(&p);
    let r = ils.run(&mut tree, &mut rng, &mut two);
    assert!(is_spanning_tree(&p.g, &tree));
    assert_eq!(conflicts(&p, &tree), r);
    let mut local: Vec<usize> = (0..6).collect();
    let mut one = OneEdgeReplacement::new(&p);
    one.local_search(&mut local);
    assert!(obj(&p, &tree) <= obj(&p, &local) || r <= conflicts(&p, &local));
}

#[test]
fn ils_with_no_iterations() {
    let p = wheel(1, 100);
    let mut tree: Vec<usize> = (0..6).collect();
    let restart = InitialTree::new(&p, Init::Greedy, 1, 100, Seed(1).new_xor_shift_rng());
    let mut ils = Ils::new(
        &p,
        0,
        5,
        1,
        5,
        5,
        restart,
        true,
    );
    let mut rng = Seed(1).new_xor_shift_rng();
    let mut one = OneEdgeReplacement::new(&p);
    assert_eq!(u32::MAX, ils.run(&mut tree, &mut rng, &mut one));
    assert_eq!((0..6).collect::<Vec<usize>>(), tree);
}

#[test]
fn greedy_builds_a_minimum_tree() {
    let p = k4(vec![4, 1, 3, 2, 6, 5], 1, 0);
    let mut tree = vec![];
    new_greedy(&p, &mut tree);
    assert!(is_spanning_tree(&p.g, &tree));
    // Kruskal order by weight: e1 (1), e3 (2), e2 (3)
    assert_eq!(vec![1, 3, 2], tree);
}

#[test]
fn initial_trees() {
    let p = wheel(1, 100);
    for init in [Init::Random, Init::Kruskal, Init::Greedy] {
        let mut b = InitialTree::new(&p, init, 1, 100, Seed(9).new_xor_shift_rng());
        let mut tree = vec![3, 4];
        b.build(&p, &mut tree);
        assert!(is_spanning_tree(&p.g, &tree));
        b.build(&p, &mut tree);
        assert!(is_spanning_tree(&p.g, &tree));
    }
    let mut b = InitialTree::new(&p, Init::Kruskal, 1, 0, Seed(9).new_xor_shift_rng());
    let mut tree = vec![];
    b.build(&p, &mut tree);
    let min: u64 = weight(&p, &tree);
    // spokes weigh 4, 5, 3, 4, 5, 3 and rim edges 3, 5, 2, 4, 1, 3
    assert_eq!(vec![10, 8, 2, 5, 6, 11], tree);
    assert_eq!(1 + 2 + 3 + 3 + 3 + 3, min);
}

#[test]
fn random_trees_depend_on_the_seed() {
    let p = wheel(1, 100);
    let mut seen = vec![];
    for s in 0..8 {
        let mut b = InitialTree::new(&p, Init::Random, 1, 0, Seed(s).new_xor_shift_rng());
        let mut tree = vec![];
        b.build(&p, &mut tree);
        assert!(is_spanning_tree(&p.g, &tree));
        let t = sorted(&tree);
        if !seen.contains(&t) {
            seen.push(t);
        }
    }
    assert!(seen.len() > 1);
}

#[test]
fn seeds_are_reproducible() {
    let mut a = Seed(42).new_xor_shift_rng();
    let mut b = Seed(42).new_xor_shift_rng();
    let x: Vec<u32> = (0..5).map(|_| a.gen()).collect();
    let y: Vec<u32> = (0..5).map(|_| b.gen()).collect();
    assert_eq!(x, y);
    let mut z = Seed(u32::MAX - 1).new_xor_shift_rng();
    let _: u32 = z.gen();
    let _ = Seed::new_random();
}

#[test]
fn partition_splits_by_predicate() {
    let mut xs = vec![5, 2, 8, 1, 9, 4, 7];
    let r = partition(&mut xs, |x: &i32| *x < 5);
    assert!(xs[..r].iter().all(|x| *x < 5));
    assert!(xs[r + 1..].iter().all(|x| *x >= 5));
    let mut s = xs.clone();
    s.sort();
    assert_eq!(vec![1, 2, 4, 5, 7, 8, 9], s);
    let mut empty: Vec<i32> = vec![];
    assert_eq!(0, partition(&mut empty, |x: &i32| *x > 0));
    let mut one = vec![3];
    assert_eq!(0, partition(&mut one, |x: &i32| *x > 0));
}

#[test]
fn logging_does_not_disturb() {
    mstcc::log_improvement("weight", 10, 7);
    mstcc::log_improvement_best("weight", 0, 7);
    mstcc::log_improvement_best("weight", 7, 10);
}

#[test]
fn excluding_by_positions() {
    let mut tree = vec![10, 11, 12, 13, 14];
    // swap_remove at 1 gives [10, 14, 12, 13]; then at 0 gives [13, 14, 12]
    let ex = mstcc::exclude_at(&mut tree, &vec![1, 0]);
    assert_eq!(vec![11, 10], ex);
    assert_eq!(vec![13, 14, 12], tree);
    let mut same = vec![3, 4];
    assert!(mstcc::exclude_at(&mut same, &vec![]).is_empty());
    assert_eq!(vec![3, 4], same);
}

#[test]
fn reconnecting_keeps_order() {
    let p = k4(vec![1; 6], 1, 0);
    // kept e5 first, then the shuffled edges without e0 and e1
    let r = mstcc::reconnect(&p.g, &vec![5], &vec![0, 1, 3, 2, 4], &vec![0, 1]);
    assert_eq!(vec![5, 3, 2], r);
    // nothing excluded: e0 closes no cycle after e5
    let r = mstcc::reconnect(&p.g, &vec![5], &vec![0, 1, 3, 2, 4], &vec![]);
    assert_eq!(vec![5, 0, 1], r);
}

#[test]
fn partition_follows_its_scan() {
    let mut xs = vec![3, 2, 4];
    assert_eq!(1, partition(&mut xs, |x: &i32| *x % 2 == 0));
    assert_eq!(vec![4, 2, 3], xs);
    let mut ys = vec![2, 4];
    assert_eq!(1, partition(&mut ys, |x: &i32| *x % 2 == 0));
    assert_eq!(vec![2, 4], ys);
}
