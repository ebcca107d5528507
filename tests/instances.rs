use mstcc::{tree_weight, Graph, InputError, MstCcProblem, OneEdgeReplacement, TwoEdgeReplacement};
use rand::Rng;

fn triangle(cc: Vec<Vec<usize>>) -> MstCcProblem {
    let mut g = Graph::new(3);
    g.add_edge(0, 1);
    g.add_edge(1, 2);
    g.add_edge(2, 0);
    MstCcProblem { name: "t".to_owned(), g, w: vec![2, 3, 4], cc, num_cc: 1, alpha: 1, beta: 1 }
}

#[test]
fn valid_instances() {
    assert!(triangle(vec![vec![1], vec![0], vec![]]).is_valid());
    assert!(triangle(vec![vec![], vec![], vec![]]).is_valid());
    // self conflict
    assert!(!triangle(vec![vec![0], vec![], vec![]]).is_valid());
    // one-sided conflict
    assert!(!triangle(vec![vec![1], vec![], vec![]]).is_valid());
    // repeated conflict
    assert!(!triangle(vec![vec![1, 1], vec![0, 0], vec![]]).is_valid());
    // edge out of range
    assert!(!triangle(vec![vec![5], vec![], vec![]]).is_valid());
    // missing weight
    let mut p = triangle(vec![vec![], vec![], vec![]]);
    p.w.pop();
    assert!(!p.is_valid());
    // end point out of range
    let mut p = triangle(vec![vec![], vec![], vec![]]);
    p.g.ends[1] = (1, 3);
    assert!(!p.is_valid());
}

#[test]
fn edges_by_ends() {
    let p = triangle(vec![vec![], vec![], vec![]]);
    assert_eq!(Some(1), p.g.edge_by_ends(1, 2));
    assert_eq!(Some(1), p.g.edge_by_ends(2, 1));
    assert_eq!(Some(2), p.g.edge_by_ends(0, 2));
    assert_eq!(None, p.g.edge_by_ends(0, 0));
    assert_eq!(9, tree_weight(&p, &[0, 1, 2]));
    assert_eq!(6, tree_weight(&p, &[2, 0]));
    assert_eq!(0, tree_weight(&p, &[]));
}

#[test]
fn sorted_pass_orders_the_tree() {
    // path 0 - 1 - 2 - 3 is already the minimum tree of this graph
    let mut g = Graph::new(4);
    g.add_edge(0, 1);
    g.add_edge(1, 2);
    g.add_edge(2, 3);
    g.add_edge(0, 3);
    g.add_edge(0, 2);
    let p = MstCcProblem {
        name: "s".to_owned(),
        g,
        w: vec![1, 3, 2, 9, 8],
        cc: vec![vec![]; 5],
        num_cc: 0,
        alpha: 1,
        beta: 1,
    };
    let mut tree = vec![0, 1, 2];
    let mut one = OneEdgeReplacement::new(&p);
    one.sort = true;
    assert_eq!(0, one.run(&mut tree));
    // the last pass leaves the tree by descending objective
    assert_eq!(vec![1, 2, 0], tree);
}

fn random_instance(n: usize, extra: usize, conflicts: usize, rng: &mut rand::XorShiftRng) -> MstCcProblem {
    let mut g = Graph::new(n);
    let mut w = vec![];
    for v in 1..n {
        g.add_edge(rng.gen_range(0, v), v);
        w.push(rng.gen_range(1, 20));
    }
    for _ in 0..extra {
        let u = rng.gen_range(0, n);
        let v = rng.gen_range(0, n);
        if u != v && g.edge_by_ends(u, v).is_none() {
            g.add_edge(u, v);
            w.push(rng.gen_range(1, 20));
        }
    }
    let m = g.num_edges();
    let mut cc: Vec<Vec<usize>> = vec![vec![]; m];
    let mut num_cc = 0;
    for _ in 0..conflicts {
        let a = rng.gen_range(0, m);
        let b = rng.gen_range(0, m);
        if a != b && !cc[a].contains(&b) {
            cc[a].push(b);
            cc[b].push(a);
            num_cc += 1;
        }
    }
    let p = MstCcProblem { name: "r".to_owned(), g, w, cc, num_cc, alpha: 1, beta: 50 };
    assert!(p.is_valid());
    p
}

fn is_spanning_tree(g: &Graph, tree: &[usize]) -> bool {
    if tree.len() + 1 != g.n {
        return false;
    }
    let mut comp: Vec<usize> = (0..g.n).collect();
    for &e in tree {
        let (u, v) = g.ends[e];
        let (a, b) = (comp[u], comp[v]);
        if a == b {
            return false;
        }
        for c in comp.iter_mut() {
            if *c == b {
                *c = a;
            }
        }
    }
    true
}

fn conflicts(p: &MstCcProblem, tree: &[usize]) -> u32 {
    let mut n = 0;
    for &e in tree {
        for &f in &p.cc[e] {
            if e < f && tree.contains(&f) {
                n += 1;
            }
        }
    }
    n
}

fn obj(p: &MstCcProblem, tree: &[usize]) -> u128 {
    p.obj(tree_weight(p, tree), conflicts(p, tree) as u64)
}

#[test]
fn local_search_keeps_spanning_trees() {
    let mut rng = rand::weak_rng();
    for round in 0..40 {
        let n = 3 + round % 9;
        let p = random_instance(n, 2 * n, 3 * n, &mut rng);
        for variant in 0..4 {
            let mut tree: Vec<usize> = (0..n - 1).collect();
            let start = obj(&p, &tree);
            let c = if variant < 2 {
                let mut one = OneEdgeReplacement::new(&p);
                one.sort = variant == 1;
                one.run(&mut tree)
            } else {
                let mut two = TwoEdgeReplacement::new(&p);
                two.sort = variant == 3;
                two.run(&mut tree)
            };
            assert!(is_spanning_tree(&p.g, &tree), "round {} variant {}", round, variant);
            assert_eq!(conflicts(&p, &tree), c);
            assert!(obj(&p, &tree) <= start);
            if variant == 0 {
                let base = obj(&p, &tree);
                for i in 0..tree.len() {
                    for e in 0..p.g.num_edges() {
                        if tree.contains(&e) {
                            continue;
                        }
                        let mut t = tree.clone();
                        t[i] = e;
                        assert!(!(is_spanning_tree(&p.g, &t) && obj(&p, &t) < base));
                    }
                }
            }
        }
    }
}

#[test]
fn instances_from_lists() {
    let edges = vec![(0, 1, 4), (1, 2, 5), (2, 0, 6), (2, 3, 7)];
    let conflicts = vec![(0, 1, 2, 3), (2, 1, 0, 2)];
    let p = MstCcProblem::from_lists("x".to_owned(), 4, &edges, &conflicts, 2, 3).unwrap();
    assert_eq!("x", p.name);
    assert_eq!(4, p.g.n);
    assert_eq!(vec![(0, 1), (1, 2), (2, 0), (2, 3)], p.g.ends);
    assert_eq!(vec![4, 5, 6, 7], p.w);
    assert_eq!(vec![vec![3], vec![2], vec![1], vec![0]], p.cc);
    assert_eq!(2, p.num_cc);
    assert_eq!((2, 3), (p.alpha, p.beta));
    assert!(p.is_valid());

    let err = |n: usize, e: &Vec<(usize, usize, u32)>, c: &Vec<(usize, usize, usize, usize)>| {
        MstCcProblem::from_lists("x".to_owned(), n, e, c, 1, 1).err().unwrap()
    };
    assert_eq!(InputError::SizeOutOfRange, err(0, &edges, &conflicts));
    assert_eq!(InputError::EndPointOutOfRange(1), err(4, &vec![(0, 1, 1), (1, 4, 1), (5, 0, 1)], &vec![]));
    assert_eq!(InputError::UnknownEdge(1), err(4, &edges, &vec![(0, 1, 2, 3), (0, 3, 1, 2)]));
    // an edge in conflict with itself
    assert_eq!(InputError::Invalid, err(4, &edges, &vec![(0, 1, 1, 0)]));
    // the same pair twice
    assert_eq!(InputError::Invalid, err(4, &edges, &vec![(0, 1, 2, 3), (2, 3, 0, 1)]));
}
