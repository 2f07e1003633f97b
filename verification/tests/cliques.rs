use rs_calcg::brute_force::cliques;
use rs_calcg::cliques::{Clique, RamseyCliques};
use rs_calcg::subsets::next_subset;
use rs_calcg::{brute_force_edges, calculate, ramsey_cliques_graphe, triangle_num, GraphE};

#[test]
fn ramsey_cliques_of_a_blue_first_edge() {
    let graphe = GraphE::new(triangle_num(4));
    assert_eq!(ramsey_cliques_graphe(&graphe), (2, 0));
}

#[test]
fn ramsey_cliques_of_a_red_first_edge() {
    let mut graphe = GraphE::new(triangle_num(4));
    graphe.add(0, 1);
    assert_eq!(ramsey_cliques_graphe(&graphe), (0, 2));
}

#[test]
fn ramsey_max_cliques_takes_the_largest_of_each_color() {
    let mut rc = RamseyCliques::new(Clique::new(true, 0, 1));
    assert_eq!(rc.ramsey_max_cliques(), (0, 2));
    let mut blue = RamseyCliques::new(Clique::new(false, 3, 4));
    assert_eq!(blue.ramsey_max_cliques(), (2, 0));
}

#[test]
fn push_leaves_the_cliques_as_they_are() {
    let mut graphe = GraphE::new(triangle_num(4));
    graphe.add(0, 1);
    graphe.add(0, 2);
    graphe.add(1, 2);
    let mut rc = RamseyCliques::new(Clique::new(true, 0, 1));
    rc.push(&graphe, 2);
    rc.push(&graphe, 3);
    assert_eq!(rc.ramsey_max_cliques(), (0, 2));
}

#[test]
fn cliques_goes_by_the_first_edge() {
    let mut graphe = GraphE::new(6);
    assert_eq!(cliques(4, graphe), (0, 1));
    graphe.set_one(0);
    graphe.set_one(3);
    assert_eq!(cliques(4, graphe), (0, 1));
    assert_eq!(cliques(2, GraphE::new(1)), (0, 1));
}

#[test]
fn calculate_over_all_colorings() {
    assert_eq!(calculate(2, 1), (0, 1));
    assert_eq!(calculate(3, 3), (0, 1));
    assert_eq!(calculate(4, 6), (0, 1));
    assert_eq!(calculate(0, 0), (usize::MAX, usize::MAX));
}

#[test]
fn brute_force_edges_until_the_capacity() {
    assert_eq!(brute_force_edges(1), Some(0));
    assert_eq!(brute_force_edges(2), Some(1));
    assert_eq!(brute_force_edges(3), Some(3));
    assert_eq!(brute_force_edges(5), Some(10));
    assert_eq!(brute_force_edges(64), Some(2016));
    assert_eq!(brute_force_edges(65), None);
    assert_eq!(brute_force_edges(1000), None);
}

fn subsets(n: usize, k: usize) -> Vec<Vec<bool>> {
    let mut current: Vec<bool> = (0..n).map(|i| i < k).collect();
    let mut all = vec![current.clone()];
    while !next_subset(&mut current) {
        all.push(current.clone());
    }
    all
}

fn row(s: &str) -> Vec<bool> {
    s.bytes().map(|c| c == b'1').collect()
}

#[test]
fn next_subset_walks_two_of_four() {
    let all = subsets(4, 2);
    let expected: Vec<Vec<bool>> =
        ["1100", "1010", "1001", "0110", "0101", "0011"].iter().map(|s| row(s)).collect();
    assert_eq!(all, expected);
}

#[test]
fn next_subset_walks_three_of_five() {
    let all = subsets(5, 3);
    let expected: Vec<Vec<bool>> = [
        "11100", "11010", "11001", "10110", "10101", "10011", "01110", "01101", "01011", "00111",
    ]
    .iter()
    .map(|s| row(s))
    .collect();
    assert_eq!(all, expected);
}

#[test]
fn next_subset_stops_at_the_last_one() {
    let mut last = row("00111");
    assert!(next_subset(&mut last));
    assert_eq!(last, row("00111"));
    let mut empty: Vec<bool> = Vec::new();
    assert!(next_subset(&mut empty));
    let mut none = row("0000");
    assert!(next_subset(&mut none));
    let mut full = row("111");
    assert!(next_subset(&mut full));
}

#[test]
fn next_subset_counts_the_subsets() {
    assert_eq!(subsets(10, 4).len(), 210);
    assert_eq!(subsets(12, 6).len(), 924);
    assert_eq!(subsets(7, 0).len(), 1);
    assert_eq!(subsets(7, 7).len(), 1);
}
