use symalg::collatz::{colour, edge_line, factorize, node_line, successors};

#[test]
fn factorize_small_numbers() {
    assert_eq!(factorize(0), vec![(0, 1)]);
    assert_eq!(factorize(1), vec![(1, 1)]);
    assert_eq!(factorize(2), vec![(2, 1)]);
    assert_eq!(factorize(3), vec![(3, 1)]);
    assert_eq!(factorize(4), vec![(2, 2)]);
}

#[test]
fn factorize_primes() {
    assert_eq!(factorize(7), vec![(7, 1)]);
    assert_eq!(factorize(97), vec![(97, 1)]);
    assert_eq!(factorize(4294967291), vec![(4294967291, 1)]);
}

#[test]
fn factorize_composites() {
    assert_eq!(factorize(12), vec![(2, 2), (3, 1)]);
    assert_eq!(factorize(49), vec![(7, 2)]);
    assert_eq!(factorize(360), vec![(2, 3), (3, 2), (5, 1)]);
    assert_eq!(factorize(1024), vec![(2, 10)]);
    assert_eq!(factorize(2 * 3 * 5 * 7 * 11 * 13), vec![(2, 1), (3, 1), (5, 1), (7, 1), (11, 1), (13, 1)]);
}

#[test]
fn factorize_multiplies_back() {
    for n in 2..500u64 {
        let f = factorize(n);
        let product: u64 = f.iter().map(|&(p, k)| p.pow(k as u32)).product();
        assert_eq!(product, n);
        for w in f.windows(2) {
            assert!(w[0].0 < w[1].0);
        }
    }
}

#[test]
fn successors_follow_the_reverse_map() {
    assert_eq!(successors(1, 200), vec![2]);
    assert_eq!(successors(2, 200), vec![4]);
    assert_eq!(successors(4, 200), vec![8]);
    assert_eq!(successors(10, 200), vec![3, 20]);
    assert_eq!(successors(16, 200), vec![5, 32]);
    assert_eq!(successors(7, 200), vec![14]);
    assert_eq!(successors(3, 200), Vec::<u64>::new());
    assert_eq!(successors(256, 200), Vec::<u64>::new());
    assert_eq!(successors(200, 200), vec![400]);
}

#[test]
fn colours_go_by_remainder() {
    assert_eq!(colour(3), "red");
    assert_eq!(colour(4), "green");
    assert_eq!(colour(5), "blue");
}

#[test]
fn lines_of_the_graph_description() {
    assert_eq!(edge_line(10, 3), "\t10 -> 3\n");
    assert_eq!(
        node_line(12, &factorize(12)),
        "\t12 [color=\"red\", label=<2<SUP><FONT POINT-SIZE=\"12\">2</FONT></SUP>3<SUP><FONT POINT-SIZE=\"12\">1</FONT></SUP>>]\n"
    );
    assert_eq!(
        node_line(1, &factorize(1)),
        "\t1 [color=\"green\", label=<1<SUP><FONT POINT-SIZE=\"12\">1</FONT></SUP>>]\n"
    );
}
