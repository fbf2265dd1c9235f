use swim::digraph::{decimal_string, Digraph};

#[test]
fn test_one() {
    let mut genesis = Digraph::new(1);
    genesis.add_edge(0, 2);
    println!("{:?}", genesis);
}

#[test]
fn edges_are_counted() {
    let mut g = Digraph::new(3);
    g.add_edge(0, 1);
    g.add_edge(0, 2);
    g.add_edge(2, 1);
    g.add_edge(0, 1);
    assert_eq!(g.v(), 3);
    assert_eq!(g.e(), 4);
    assert_eq!(g.adj(0), vec![1, 2, 1]);
    assert_eq!(g.outdegree(0), 3);
    assert_eq!(g.indegree(1), 3);
    assert_eq!(g.indegree(0), 0);
    assert!(g.validate_vertex(2));
    assert!(!g.validate_vertex(3));
}

#[test]
fn an_edge_adds_to_the_counts_of_its_ends_only() {
    let mut g = Digraph::new(3);
    g.add_edge(0, 1);
    g.add_edge(2, 2);
    assert_eq!((g.v(), g.e()), (3, 2));
    g.add_edge(0, 1);
    assert_eq!((g.v(), g.e()), (3, 3));
    assert_eq!(g.adj(0), vec![1, 1]);
    assert_eq!(g.adj(1), Vec::<u32>::new());
    assert_eq!(g.adj(2), vec![2]);
    assert_eq!((g.indegree(0), g.indegree(1), g.indegree(2)), (0, 2, 1));
    assert_eq!((g.outdegree(0), g.outdegree(1), g.outdegree(2)), (2, 0, 1));
}

#[test]
fn reverse_of_three_edges() {
    let mut g = Digraph::new(3);
    g.add_edge(0, 1);
    g.add_edge(0, 2);
    g.add_edge(1, 2);
    let r = g.reverse();
    assert_eq!((r.v(), r.e()), (3, 3));
    assert_eq!(r.adj(0), Vec::<u32>::new());
    assert_eq!(r.adj(1), vec![0]);
    assert_eq!(r.adj(2), vec![0, 1]);
    assert_eq!((r.indegree(0), r.indegree(1), r.indegree(2)), (2, 1, 0));
    assert_eq!((r.outdegree(0), r.outdegree(1), r.outdegree(2)), (0, 1, 2));
    // The graph itself is as it was.
    assert_eq!(g.adj(0), vec![1, 2]);
    assert_eq!(g.e(), 3);
    // Turned round twice, every vertex has its edges again.
    let back = r.reverse();
    assert_eq!(back.adj(0), vec![1, 2]);
    assert_eq!(back.adj(1), vec![2]);
    assert_eq!(back.adj(2), Vec::<u32>::new());
}

#[test]
fn reverse_turns_every_edge() {
    let mut g = Digraph::new(3);
    g.add_edge(0, 1);
    g.add_edge(2, 1);
    g.add_edge(0, 1);
    g.add_edge(1, 0);
    let r = g.reverse();
    assert_eq!(r.v(), 3);
    assert_eq!(r.e(), 4);
    assert_eq!(r.adj(1), vec![0, 0, 2]);
    assert_eq!(r.adj(0), vec![1]);
    assert_eq!(r.adj(2), Vec::<u32>::new());
    assert_eq!(r.indegree(0), 2);
}

#[test]
fn numbers_in_decimal_notation() {
    assert_eq!(decimal_string(0), "0");
    assert_eq!(decimal_string(7), "7");
    assert_eq!(decimal_string(10), "10");
    assert_eq!(decimal_string(1096), "1096");
    assert_eq!(decimal_string(u32::MAX), "4294967295");
}

#[test]
fn a_graph_in_words() {
    let mut g = Digraph::new(3);
    g.add_edge(0, 1);
    g.add_edge(0, 2);
    g.add_edge(2, 0);
    assert_eq!(g.describe(), "3 vertices, 3 edges\n0: 1 2 \n1: \n2: 0 \n");
    assert_eq!(Digraph::new(1).describe(), "1 vertices, 0 edges\n0: \n");
}
