use rs_calcg::{edge_index, edge_vertices, is_triangular, triangle_num, triangle_root};

#[test]
fn triangle_test() {
    let mut array = [0; 100];

    for i in 0..100 {
        array[i] = triangle_num(i);
    }

    for i in 0..100 {
        assert_eq!(i, triangle_root(array[i]));
    }
}

#[test]
fn triangle_num_exact_values() {
    assert_eq!(triangle_num(0), 0);
    assert_eq!(triangle_num(1), 1);
    assert_eq!(triangle_num(2), 3);
    assert_eq!(triangle_num(3), 6);
    assert_eq!(triangle_num(10), 55);
    assert_eq!(triangle_num(63), 2016);
    assert_eq!(triangle_num(64), 2080);
    assert_eq!(triangle_num(100_000), 5_000_050_000);
}

#[test]
fn triangle_root_is_largest_below() {
    assert_eq!(triangle_root(0), 0);
    assert_eq!(triangle_root(1), 1);
    assert_eq!(triangle_root(2), 1);
    assert_eq!(triangle_root(3), 2);
    assert_eq!(triangle_root(5), 2);
    assert_eq!(triangle_root(6), 3);
    assert_eq!(triangle_root(2015), 62);
    assert_eq!(triangle_root(2016), 63);
    assert_eq!(triangle_root(2047), 63);
}

#[test]
fn triangle_root_next_to_large_triangular_numbers() {
    for k in [1_000usize, 65_535, 65_536, 1_000_000, 94_906_265, 3_000_000_000] {
        let t = triangle_num(k);
        assert_eq!(triangle_root(t), k);
        assert_eq!(triangle_root(t - 1), k - 1);
        assert_eq!(triangle_root(t + 1), k);
        assert_eq!(triangle_root(t + k), k);
        assert_eq!(triangle_root(t + k + 1), k + 1);
    }
}

#[test]
fn triangle_root_of_the_largest_number() {
    let k = triangle_root(usize::MAX);
    assert_eq!(k, 6_074_000_999);
    assert!(triangle_num(k) <= usize::MAX);
}

#[test]
fn is_triangular_agrees_with_enumeration() {
    let mut expected = vec![false; 5000];
    let mut k = 0;
    while triangle_num(k) < 5000 {
        expected[triangle_num(k)] = true;
        k += 1;
    }
    for x in 0..5000 {
        assert_eq!(is_triangular(x), expected[x], "at {}", x);
    }
}

#[test]
fn edge_index_exact_values() {
    assert_eq!(edge_index(0, 1), 1);
    assert_eq!(edge_index(1, 0), 1);
    assert_eq!(edge_index(0, 2), 3);
    assert_eq!(edge_index(1, 2), 4);
    assert_eq!(edge_index(0, 3), 6);
    assert_eq!(edge_index(2, 3), 8);
    assert_eq!(edge_index(3, 1), 7);
    assert_eq!(edge_index(2, 2), 5);
}

#[test]
fn edge_index_round_trip() {
    let n = 64;
    let mut seen = vec![false; triangle_num(n)];
    for b in 0..n {
        for a in 0..b {
            let i = edge_index(a, b);
            assert!(i < triangle_num(n));
            assert!(!seen[i]);
            seen[i] = true;
            assert_eq!(edge_vertices(i), (a, b));
            assert_eq!(edge_index(b, a), i);
        }
    }
}

#[test]
fn edge_vertices_covers_every_slot() {
    for i in 0..2048 {
        let (a, b) = edge_vertices(i);
        assert!(a <= b);
        assert_eq!(edge_index(a, b), i);
    }
}
