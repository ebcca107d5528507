use mstcc::{Graph, TrackConnectivity2};
use rand::Rng;

fn random_tree(n: usize, rng: &mut rand::XorShiftRng) -> Graph {
    let mut g = Graph::new(n);
    for v in 1..n {
        let u = rng.gen_range(0, v);
        if rng.gen() {
            g.add_edge(u, v);
        } else {
            g.add_edge(v, u);
        }
    }
    g
}

fn components(g: &Graph, skip: &[usize]) -> Vec<usize> {
    let mut comp: Vec<usize> = (0..g.n).collect();
    loop {
        let mut changed = false;
        for (e, &(u, v)) in g.ends.iter().enumerate() {
            if skip.contains(&e) {
                continue;
            }
            let c = comp[u].min(comp[v]);
            if comp[u] != c || comp[v] != c {
                comp[u] = c;
                comp[v] = c;
                changed = true;
            }
        }
        if !changed {
            return comp;
        }
    }
}

#[test]
fn test0() {
    let mut rng = rand::weak_rng();

    for n in 2..20 {
        let g = random_tree(n, &mut rng);
        let track_con = TrackConnectivity2::new(&g);
        for u in 0..n {
            for v in u + 1..n {
                assert!(track_con.is_connected(u, v), "is_connected({:?}, {:?})", u, v);
            }
        }
    }
}

#[test]
fn connectivity2_test1() {
    let mut rng = rand::weak_rng();

    for n in 2..20 {
        let g = random_tree(n, &mut rng);
        let all: Vec<usize> = (0..g.num_edges()).collect();

        for e in 0..g.num_edges() {
            let (u, v) = g.ends(e);
            let comps = components(&g, &[e]);

            let mut track_con = TrackConnectivity2::new(&g);
            track_con.set_edges(&all);
            track_con.disconnect(u, v);

            for u in 0..n {
                for v in u + 1..n {
                    assert_eq!(comps[u] == comps[v], track_con.is_connected(u, v), "n = {}, u = {}, v = {})", n, u, v);
                }
            }
        }
    }
}

#[test]
fn test2() {
    let mut rng = rand::weak_rng();

    for n in 3..20 {
        let g = random_tree(n, &mut rng);
        let all: Vec<usize> = (0..g.num_edges()).collect();
        for e1 in 0..g.num_edges() {
            for e2 in e1 + 1..g.num_edges() {
                let comps = components(&g, &[e1, e2]);

                let mut track_con = TrackConnectivity2::new(&g);
                track_con.set_edges(&all);
                let (u, v) = g.ends(e1);
                track_con.disconnect(u, v);
                let (u, v) = g.ends(e2);
                track_con.disconnect(u, v);

                for u in 0..n {
                    for v in u + 1..n {
                        assert_eq!(
                            comps[u] == comps[v],
                            track_con.is_connected(u, v),
                            "n = {}, u = {} - comp {}, v = {} - comp {}",
                            n,
                            u,
                            track_con.comp(u),
                            v,
                            track_con.comp(v)
                        );
                    }
                }
            }
        }
    }
}

#[test]
fn disconnect2_and_check_reconnect() {
    // path 0 - 1 - 2 - 3 - 4 with chords 0 - 2, 2 - 4, 0 - 4
    let mut g = Graph::new(5);
    let p: Vec<usize> = vec![g.add_edge(0, 1), g.add_edge(1, 2), g.add_edge(2, 3), g.add_edge(3, 4)];
    g.add_edge(0, 2);
    g.add_edge(2, 4);
    g.add_edge(0, 4);
    let mut t = TrackConnectivity2::new(&g);
    t.set_edges(&p);
    assert!(t.disconnect2((0, 1), (2, 3)));
    // parts {0}, {1, 2}, {3, 4}
    assert_eq!(0, t.comp(0));
    assert_eq!(t.comp(1), t.comp(2));
    assert_eq!(t.comp(3), t.comp(4));
    assert!(t.comp(1) != t.comp(3) && t.comp(1) != 0 && t.comp(3) != 0);
    // 0 - 2 and 2 - 4 join all three parts
    assert!(t.check_reconnect((0, 2), (2, 4)));
    // 0 - 2 and 0 - 4 join all three parts too
    assert!(t.check_reconnect((0, 2), (0, 4)));
    // 0 - 1 twice leaves {3, 4} out
    assert!(!t.check_reconnect((0, 1), (0, 2)));
    t.reset();
    assert!(t.is_connected(0, 4));
}
