use arb_engine::indexing::index_network;
use arb_engine::model::DirEdge;
use arb_engine::model::Network;

fn edge(from: &str, to: &str) -> DirEdge<u8> {
    DirEdge {
        from: from.to_string(),
        to: to.to_string(),
        rate: 1,
        weight: 0,
        pool_id: format!("{from}-{to}"),
    }
}

fn network(tokens: &[&str], edges: Vec<DirEdge<u8>>) -> Network<u8> {
    Network { tokens: tokens.iter().map(|t| t.to_string()).collect(), edges }
}

#[test]
fn every_token_gets_the_number_of_its_place() {
    let net = network(
        &["a", "b", "c", "d"],
        vec![edge("a", "b"), edge("b", "c"), edge("c", "d"), edge("d", "a")],
    );
    let indexed = index_network(&net);
    assert_eq!(indexed.nodes, 4);
    let ends: Vec<(usize, usize)> = indexed.edges.iter().map(|e| (e.from, e.to)).collect();
    assert_eq!(ends, vec![(0, 1), (1, 2), (2, 3), (3, 0)]);
    // numbers and tokens go back and forth
    for e in &indexed.edges {
        assert_eq!(net.tokens[e.from], net.edges[e.source].from);
        assert_eq!(net.tokens[e.to], net.edges[e.source].to);
    }
    let mut numbers: Vec<usize> = indexed.edges.iter().map(|e| e.from).collect();
    numbers.sort();
    assert_eq!(numbers, vec![0, 1, 2, 3]);
}

#[test]
fn adjacency_lists_the_outgoing_edges_in_order() {
    let net = network(
        &["a", "b", "c"],
        vec![edge("a", "b"), edge("b", "a"), edge("a", "c"), edge("a", "b"), edge("c", "a")],
    );
    let indexed = index_network(&net);
    assert_eq!(indexed.adj, vec![vec![0, 2, 3], vec![1], vec![4]]);
    let sources: Vec<usize> = indexed.edges.iter().map(|e| e.source).collect();
    assert_eq!(sources, vec![0, 1, 2, 3, 4]);
}

#[test]
fn an_edge_to_an_unknown_token_is_left_out() {
    let net = network(&["a", "b"], vec![edge("a", "x"), edge("a", "b"), edge("y", "b")]);
    let indexed = index_network(&net);
    assert_eq!(indexed.edges.len(), 1);
    assert_eq!(indexed.edges[0].from, 0);
    assert_eq!(indexed.edges[0].to, 1);
    assert_eq!(indexed.edges[0].source, 1);
    assert_eq!(indexed.adj, vec![vec![0], vec![]]);
}

#[test]
fn a_repeated_token_takes_its_last_place() {
    let net = network(&["a", "b", "a"], vec![edge("a", "b")]);
    let indexed = index_network(&net);
    assert_eq!(indexed.nodes, 3);
    assert_eq!(indexed.edges[0].from, 2);
    assert_eq!(indexed.edges[0].to, 1);
}

#[test]
fn an_empty_graph_has_no_nodes() {
    let net = network(&[], vec![]);
    let indexed = index_network(&net);
    assert_eq!(indexed.nodes, 0);
    assert!(indexed.edges.is_empty());
    assert!(indexed.adj.is_empty());
}
