use rs_calcg::graphe::add;
use rs_calcg::kgraphrbe::KGraphRBE;
use rs_calcg::{edge_index, triangle_num, BitString, GraphE, MAX_GRAPHE_SIZE, MAX_KGRAPHRBE_SIZE};

#[test]
fn graphe_graph_consistency() {
    let mut graphe = GraphE::new(MAX_GRAPHE_SIZE);
    for i in 0..MAX_GRAPHE_SIZE {
        assert_eq!(graphe.get(i), false);
        graphe.set_one(i);
        assert_eq!(graphe.get(i), true);
        graphe.set_zero(i);
        assert_eq!(graphe.get(i), false);
    }
}

#[test]
fn kgraphrbe_graph_consistency() {
    let mut kgraphrbe = KGraphRBE::new(MAX_KGRAPHRBE_SIZE);
    for i in 0..MAX_KGRAPHRBE_SIZE {
        assert_eq!(kgraphrbe.get(i), false);
        kgraphrbe.setr(i);
        assert_eq!(kgraphrbe.get(i), true);
        kgraphrbe.setb(i);
        assert_eq!(kgraphrbe.get(i), false);
    }
}

#[test]
fn set_leaves_the_other_edges_alone() {
    let mut graphe = GraphE::new(200);
    graphe.set_one(63);
    graphe.set_one(64);
    graphe.set_one(199);
    for i in 0..200 {
        assert_eq!(graphe.get(i), i == 63 || i == 64 || i == 199);
    }
    graphe.set_zero(64);
    for i in 0..200 {
        assert_eq!(graphe.get(i), i == 63 || i == 199);
    }
    assert_eq!(graphe.n_edges(), 200);
}

#[test]
fn n_vertices_is_the_triangular_root() {
    assert_eq!(GraphE::new(0).n_vertices(), 0);
    assert_eq!(GraphE::new(1).n_vertices(), 1);
    assert_eq!(GraphE::new(3).n_vertices(), 2);
    assert_eq!(GraphE::new(21).n_vertices(), 6);
    assert_eq!(GraphE::new(2016).n_vertices(), 63);
}

#[test]
fn relation_is_order_independent() {
    let mut graphe = GraphE::new(triangle_num(6));
    graphe.add(4, 2);
    graphe.add(0, 5);
    for b in 0..6 {
        for a in 0..b {
            let expected = (a, b) == (2, 4) || (a, b) == (0, 5);
            assert_eq!(graphe.relation(a, b), expected);
            assert_eq!(graphe.relation(b, a), expected);
            assert_eq!(graphe.get(edge_index(a, b)), expected);
        }
    }
}

fn colors(graphe: &GraphE) -> Vec<bool> {
    (0..graphe.n_edges()).map(|i| graphe.get(i)).collect()
}

#[test]
fn increment_visits_all_colorings_of_three_edges() {
    let mut graphe = GraphE::new(3);
    let mut seen: Vec<Vec<bool>> = Vec::new();
    loop {
        let now = colors(&graphe);
        assert!(!seen.contains(&now));
        seen.push(now);
        if graphe.increment() {
            break;
        }
    }
    assert_eq!(seen.len(), 8);
    assert_eq!(seen[0], vec![false, false, false]);
    assert_eq!(seen[1], vec![true, false, false]);
    assert_eq!(seen[2], vec![false, true, false]);
    assert_eq!(seen[3], vec![true, true, false]);
    assert_eq!(seen[7], vec![true, true, true]);
    assert_eq!(colors(&graphe), vec![false, false, false]);
}

#[test]
fn increment_counts_to_two_to_the_edges() {
    for edges in 0..13 {
        let mut graphe = GraphE::new(edges);
        let mut steps: u64 = 1;
        while !graphe.increment() {
            steps += 1;
        }
        assert_eq!(steps, 1u64 << edges);
    }
}

#[test]
fn increment_carries_across_words() {
    let mut graphe = GraphE::new(130);
    for i in 0..128 {
        graphe.set_one(i);
    }
    assert_eq!(graphe.increment(), false);
    for i in 0..130 {
        assert_eq!(graphe.get(i), i == 128);
    }
    let mut last = GraphE::new(130);
    for i in 0..130 {
        last.set_one(i);
    }
    assert_eq!(last.increment(), true);
}

#[test]
fn kgraphrbe_increment_visits_all_colorings() {
    let mut graph = KGraphRBE::new(3);
    let mut seen: Vec<Vec<bool>> = Vec::new();
    loop {
        let now: Vec<bool> = (0..3).map(|i| graph.get(i)).collect();
        assert!(!seen.contains(&now));
        seen.push(now);
        if graph.increment() {
            break;
        }
    }
    assert_eq!(seen.len(), 8);
    assert_eq!(graph.n_edges(), 3);
}

#[test]
fn from_colors_the_edges_between_members() {
    let members = [true, false, true, true, false];
    let graphe = GraphE::from(&members);
    assert_eq!(graphe.n_edges(), 15);
    assert_eq!(graphe.n_vertices(), 5);
    for b in 0..5 {
        for a in 0..=b {
            let expected = a < b && members[a] && members[b];
            assert_eq!(graphe.get(edge_index(a, b)), expected);
        }
    }
    let red: usize = colors(&graphe).iter().filter(|c| **c).count();
    assert_eq!(red, 3);
}

#[test]
fn from_of_no_vertices_and_of_one() {
    assert_eq!(GraphE::from(&[]).n_edges(), 0);
    let one = GraphE::from(&[true]);
    assert_eq!(one.n_edges(), 1);
    assert_eq!(one.get(0), false);
}

#[test]
fn add_sets_the_first_vertex_left_out() {
    let mut current = vec![true, false, false, true, false];
    add(&mut current);
    assert_eq!(current, vec![true, true, false, true, false]);
    add(&mut current);
    assert_eq!(current, vec![true, true, true, true, false]);
    add(&mut current);
    add(&mut current);
    assert_eq!(current, vec![true; 5]);
}

fn binomial(n: usize, k: usize) -> usize {
    if k > n {
        return 0;
    }
    let mut c = 1;
    for i in 0..k {
        c = c * (n - i) / (i + 1);
    }
    c
}

fn ones(mask: &BitString) -> usize {
    mask.0.iter().map(|w| w.count_ones() as usize).sum()
}

#[test]
fn find_possible_cliques_counts() {
    for n in 0..10 {
        let graphe = GraphE::new(triangle_num(n));
        for k in 0..12 {
            let masks = graphe.find_possible_cliques(k);
            assert_eq!(masks.len(), binomial(n, k), "n {} k {}", n, k);
            for mask in &masks {
                assert_eq!(ones(mask), if k == 0 { 0 } else { k * (k - 1) / 2 });
            }
        }
    }
}

#[test]
fn find_possible_cliques_is_empty_beyond_the_vertices() {
    let graphe = GraphE::new(triangle_num(4));
    assert!(graphe.find_possible_cliques(5).is_empty());
    assert_eq!(graphe.find_possible_cliques(4).len(), 1);
}

#[test]
fn find_possible_cliques_in_lexicographic_order() {
    let graphe = GraphE::new(triangle_num(4));
    let masks = graphe.find_possible_cliques(2);
    let pairs = [(0, 1), (0, 2), (0, 3), (1, 2), (1, 3), (2, 3)];
    assert_eq!(masks.len(), 6);
    for (mask, (a, b)) in masks.iter().zip(pairs) {
        let mut expected = [0u64; 32];
        expected[0] = 1u64 << edge_index(a, b);
        assert_eq!(mask.0, expected);
    }
    let triples = graphe.find_possible_cliques(3);
    let members = [[0, 1, 2], [0, 1, 3], [0, 2, 3], [1, 2, 3]];
    assert_eq!(triples.len(), 4);
    for (mask, m) in triples.iter().zip(members) {
        let word = (1u64 << edge_index(m[0], m[1]))
            | (1u64 << edge_index(m[0], m[2]))
            | (1u64 << edge_index(m[1], m[2]));
        assert_eq!(mask.0[0], word);
    }
}

#[test]
fn find_possible_cliques_matches_from() {
    let graphe = GraphE::new(triangle_num(5));
    let masks = graphe.find_possible_cliques(3);
    let first = GraphE::from(&[true, true, true, false, false]);
    let last = GraphE::from(&[false, false, true, true, true]);
    for i in 0..15 {
        assert_eq!(masks[0].0[0] >> i & 1 == 1, first.get(i));
        assert_eq!(masks[9].0[0] >> i & 1 == 1, last.get(i));
    }
}

#[test]
fn find_cliques_sees_a_red_and_a_blue_triangle() {
    let mut graphe = GraphE::new(triangle_num(5));
    let triples = graphe.find_possible_cliques(3);
    assert_eq!(graphe.find_cliques(&triples, &triples), (false, true));
    graphe.add(0, 1);
    graphe.add(1, 2);
    assert_eq!(graphe.find_cliques(&triples, &triples), (false, true));
    graphe.add(0, 2);
    assert_eq!(graphe.find_cliques(&triples, &triples), (true, true));
    assert_eq!(graphe.find_cliques(&triples, &Vec::new()), (true, false));
    assert_eq!(graphe.find_cliques(&Vec::new(), &triples), (false, true));
}

#[test]
fn find_cliques_on_the_pentagon_finds_nothing() {
    let mut graphe = GraphE::new(triangle_num(5));
    for v in 0..5 {
        graphe.add(v, (v + 1) % 5);
    }
    let triples = graphe.find_possible_cliques(3);
    assert_eq!(graphe.find_cliques(&triples, &triples), (false, false));
}

#[test]
fn find_cliques_ignores_the_slots_of_no_edge() {
    let mut graphe = GraphE::new(triangle_num(3));
    let triples = graphe.find_possible_cliques(3);
    graphe.set_one(edge_index(0, 0));
    graphe.set_one(edge_index(1, 1));
    graphe.set_one(edge_index(2, 2));
    assert_eq!(graphe.find_cliques(&triples, &triples), (false, true));
}
