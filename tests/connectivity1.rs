use mstcc::{Graph, TrackConnectivity1};
use rand::Rng;

fn random_tree(n: usize, rng: &mut rand::XorShiftRng) -> Graph {
    let mut g = Graph::new(n);
    for v in 1..n {
        let u = rng.gen_range(0, v);
        if rng.gen() {
            g.add_edge(u, v);
        } else {
            g.add_edge(v, u);
        }
    }
    g
}

fn components(g: &Graph, skip: &[usize]) -> Vec<usize> {
    let mut comp: Vec<usize> = (0..g.n).collect();
    loop {
        let mut changed = false;
        for (e, &(u, v)) in g.ends.iter().enumerate() {
            if skip.contains(&e) {
                continue;
            }
            let c = comp[u].min(comp[v]);
            if comp[u] != c || comp[v] != c {
                comp[u] = c;
                comp[v] = c;
                changed = true;
            }
        }
        if !changed {
            return comp;
        }
    }
}

#[test]
fn connectivity1_test1() {
    let mut rng = rand::weak_rng();

    for n in 2..20 {
        let g = random_tree(n, &mut rng);
        let all: Vec<usize> = (0..g.num_edges()).collect();

        for e in 0..g.num_edges() {
            let (u, v) = g.ends(e);
            let comps = components(&g, &[e]);

            let mut track_con = TrackConnectivity1::new(&g);
            track_con.set_edges(&all);
            track_con.disconnect(u, v);

            for u in 0..n {
                for v in u + 1..n {
                    assert_eq!(comps[u] == comps[v], track_con.is_connected(u, v), "n = {}, u = {}, v = {})", n, u, v);
                }
            }
        }
    }
}

#[test]
fn no_cut_is_connected() {
    let mut rng = rand::weak_rng();
    let g = random_tree(9, &mut rng);
    let all: Vec<usize> = (0..g.num_edges()).collect();
    let mut t = TrackConnectivity1::new(&g);
    for u in 0..9 {
        for v in 0..9 {
            assert!(t.is_connected(u, v));
        }
    }
    t.set_edges(&all);
    for u in 0..9 {
        for v in 0..9 {
            assert!(t.is_connected(u, v));
        }
    }
}

#[test]
fn replace_edge_follows_the_new_tree() {
    // path 0 - 1 - 2 - 3 plus the chord 0 - 3
    let mut g = Graph::new(4);
    let a = g.add_edge(0, 1);
    let b = g.add_edge(1, 2);
    let c = g.add_edge(2, 3);
    let d = g.add_edge(0, 3);
    let mut t = TrackConnectivity1::new(&g);
    t.set_edges(&[a, b, c]);
    t.disconnect(1, 2);
    assert!(t.is_connected(0, 1));
    assert!(!t.is_connected(1, 2));
    assert!(!t.is_connected(0, 3));
    // 0 - 3 reconnects the two sides: swap it in for 1 - 2
    t.replace_edge(b, d);
    assert!(t.is_connected(1, 2));
    t.disconnect(0, 3);
    assert!(t.is_connected(2, 3));
    assert!(t.is_connected(0, 1));
    assert!(!t.is_connected(0, 3));
    assert!(!t.is_connected(1, 2));
}
