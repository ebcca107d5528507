use mstcc::{Graph, MstCcProblem, TrackConflicts};

fn new() -> (MstCcProblem, Vec<usize>) {
    let mut g = Graph::new(4);
    let e = vec![
        g.add_edge(0, 1),
        g.add_edge(0, 2),
        g.add_edge(0, 3),
        g.add_edge(1, 2),
        g.add_edge(1, 3),
        g.add_edge(2, 3),
    ];
    let mut cc: Vec<Vec<usize>> = vec![vec![]; 6];
    for &(a, b) in &[(0, 1), (0, 3), (1, 2), (1, 5), (2, 4)] {
        cc[e[a]].push(e[b]);
        cc[e[b]].push(e[a]);
    }
    let p = MstCcProblem {
        name: "test".to_owned(),
        g,
        w: vec![1; 6],
        cc,
        num_cc: 4,
        alpha: 1,
        beta: 0,
    };
    (p, e)
}

fn counts(t: &TrackConflicts, e: &[usize]) -> Vec<u32> {
    e.iter().map(|&x| t.conflict_count_of(x)).collect()
}

#[test]
fn add_edge() {
    let (p, e) = new();
    let mut conflicts = TrackConflicts::new(&p);

    conflicts.add_edge(e[0]);
    assert_eq!(0, conflicts.total());
    assert_eq!(vec![0, 1, 0, 1, 0, 0], counts(&conflicts, &e));

    conflicts.add_edge(e[3]);
    assert_eq!(1, conflicts.total()); // e0 - e3
    assert_eq!(vec![1, 1, 0, 1, 0, 0], counts(&conflicts, &e));

    conflicts.add_edge(e[5]);
    assert_eq!(1, conflicts.total()); // e0 - e3
    assert_eq!(vec![1, 2, 0, 1, 0, 0], counts(&conflicts, &e));

    conflicts.add_edge(e[1]);
    assert_eq!(3, conflicts.total()); // e0 - e3, e0 - e1, e1 - e5
    assert_eq!(vec![2, 2, 1, 1, 0, 1], counts(&conflicts, &e));
}

#[test]
fn remove_edge() {
    let (p, e) = new();
    let mut conflicts = TrackConflicts::new(&p);
    conflicts.add_edge(e[0]);
    conflicts.add_edge(e[3]);
    conflicts.add_edge(e[5]);
    conflicts.add_edge(e[1]);

    conflicts.remove_edge(e[3]);
    assert_eq!(2, conflicts.total()); // e0 - e1, e1 - e5
    assert_eq!(vec![1, 2, 1, 1, 0, 1], counts(&conflicts, &e));
    assert!(conflicts.check());

    conflicts.remove_edge(e[1]);
    assert_eq!(0, conflicts.total());
    assert_eq!(vec![0, 2, 0, 1, 0, 0], counts(&conflicts, &e));
    assert!(conflicts.check());
}

#[test]
fn canonical_fixture_counts() {
    let (p, e) = new();
    let mut t = TrackConflicts::new(&p);
    for &i in &[0, 3, 5, 1] {
        t.add_edge(e[i]);
    }
    assert_eq!(3, t.total());
    assert_eq!(vec![2, 2, 1, 1, 0, 1], counts(&t, &e));
    assert!(t.contains(e[5]));
    assert!(!t.contains(e[4]));
    let mut held = t.edges().to_vec();
    held.sort();
    assert_eq!(vec![0, 1, 3, 5], held);
}

fn brute_total(p: &MstCcProblem, member: &[bool]) -> u32 {
    let mut n = 0;
    for e in 0..member.len() {
        for &f in &p.cc[e] {
            if e < f && member[e] && member[f] {
                n += 1;
            }
        }
    }
    n
}

#[test]
fn total_matches_pairs_after_any_sequence() {
    let (p, _) = new();
    let mut t = TrackConflicts::new(&p);
    let mut member = vec![false; 6];
    let steps = [2, 4, 1, 2, 0, 5, 4, 3, 1, 0, 2, 3, 5, 1];
    for &e in &steps {
        if member[e] {
            t.remove_edge(e);
        } else {
            t.add_edge(e);
        }
        member[e] = !member[e];
        assert_eq!(brute_total(&p, &member), t.total());
        for f in 0..6 {
            let c = p.cc[f].iter().filter(|&&x| member[x]).count() as u32;
            assert_eq!(c, t.conflict_count_of(f));
        }
        assert!(t.check());
    }
}

#[test]
fn rebuild_and_reset() {
    let (p, e) = new();
    let mut t = TrackConflicts::with_edges(&p, &[e[0], e[3], e[5], e[1]]);
    assert_eq!(3, t.total());
    t.replace(e[3], e[4]);
    assert!(t.contains(e[4]) && !t.contains(e[3]));
    // e0 - e1, e1 - e5
    assert_eq!(2, t.total());
    let fresh = TrackConflicts::with_edges(&p, t.edges());
    assert_eq!(fresh.total(), t.total());
    for f in 0..6 {
        assert_eq!(fresh.conflict_count_of(f), t.conflict_count_of(f));
    }
    t.reset();
    assert_eq!(0, t.total());
    assert!(t.edges().is_empty());
    assert_eq!(vec![0; 6], counts(&t, &e));
}
