use nedb_engine::GraphStore;

#[test]
fn add_and_traverse_edge() {
    let mut g = GraphStore::new(Vec::new());

    g.add_edge("hash_c", "caused_by", "hash_b");
    g.add_edge("hash_b", "caused_by", "hash_a");

    let trace = g.trace("hash_c", "caused_by", false, 10);
    assert_eq!(trace, vec!["hash_c", "hash_b", "hash_a"]);
}

#[test]
fn idempotent_edge() {
    let mut g = GraphStore::new(Vec::new());
    g.add_edge("a", "caused_by", "b");
    g.add_edge("a", "caused_by", "b");
    assert_eq!(g.outgoing("a", "caused_by").len(), 1);
}

#[test]
fn walks_are_breadth_first_and_end() {
    let mut g = GraphStore::in_memory();
    g.add_edge("a", "t", "b");
    g.add_edge("a", "t", "c");
    g.add_edge("b", "t", "d");
    g.add_edge("d", "t", "a");
    assert_eq!(g.trace("a", "t", false, 100), vec!["a", "b", "c", "d"]);
    assert_eq!(g.trace("a", "t", false, 2), vec!["a", "b"]);
    assert!(g.trace("a", "t", false, 0).is_empty());
    assert_eq!(g.trace("nowhere", "t", false, 5), vec!["nowhere"]);
}

#[test]
fn walks_back() {
    let mut g = GraphStore::in_memory();
    g.add_edge("b", "t", "a");
    g.add_edge("a", "t_rev", "b");
    assert_eq!(g.trace("a", "t", true, 10), vec!["a", "b"]);
    assert_eq!(g.incoming("a", "t_rev"), vec!["b"]);
    assert!(g.outgoing("a", "t").is_empty());
}

#[test]
fn edges_can_be_saved_and_read_again() {
    let mut g = GraphStore::in_memory();
    g.add_edge("a", "t", "b");
    g.add_edge("b", "u", "c");
    g.add_edge("a", "t", "b");
    assert_eq!(g.edges().len(), 2);
    let again = GraphStore::new(g.edges().clone());
    assert_eq!(again.outgoing("a", "t"), vec!["b"]);
    assert_eq!(again.outgoing("b", "u"), vec!["c"]);
    assert_eq!(again.edges(), g.edges());
}
