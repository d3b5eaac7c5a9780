use arb_engine::detector::candidate_cycles;
use arb_engine::detector::cycle_product;
use arb_engine::detector::detect;
use arb_engine::detector::find_arbitrage;
use arb_engine::detector::hop_edge;
use arb_engine::detector::improving_ends;
use arb_engine::detector::path_edges;
use arb_engine::detector::rate_product;
use arb_engine::detector::relax;
use arb_engine::detector::search;
use arb_engine::detector::CycleChecks;
use arb_engine::detector::EngineError;
use arb_engine::indexing::index_network;
use arb_engine::model::ArbitrageCycle;
use arb_engine::model::DirEdge;
use arb_engine::model::Network;
use arb_engine::scalar::Scalar;

#[derive(Debug, Clone, Copy, PartialEq)]
struct Num(f64);

impl Scalar for Num {
    fn parsed(text: &String) -> Option<Self> {
        Self::parse(text)
    }

    fn of_u32(n: u32) -> Self {
        Self::from_u32(n)
    }

    fn sum(&self, rhs: &Self) -> Self {
        self.plus(rhs)
    }

    fn difference(&self, rhs: &Self) -> Self {
        self.minus(rhs)
    }

    fn product(&self, rhs: &Self) -> Self {
        self.times(rhs)
    }

    fn quotient(&self, rhs: &Self) -> Self {
        self.over(rhs)
    }

    fn negation(&self) -> Self {
        self.negated()
    }

    fn logarithm(&self) -> Self {
        self.ln()
    }

    fn below(&self, rhs: &Self) -> bool {
        self.less(rhs)
    }

    fn finite(&self) -> bool {
        self.is_finite()
    }

    fn parse(text: &String) -> Option<Self> {
        text.parse::<f64>().ok().map(Num)
    }

    fn from_u32(n: u32) -> Self {
        Num(n as f64)
    }

    fn plus(&self, rhs: &Self) -> Self {
        Num(self.0 + rhs.0)
    }

    fn minus(&self, rhs: &Self) -> Self {
        Num(self.0 - rhs.0)
    }

    fn times(&self, rhs: &Self) -> Self {
        Num(self.0 * rhs.0)
    }

    fn over(&self, rhs: &Self) -> Self {
        Num(self.0 / rhs.0)
    }

    fn negated(&self) -> Self {
        Num(-self.0)
    }

    fn ln(&self) -> Self {
        Num(self.0.ln())
    }

    fn less(&self, rhs: &Self) -> bool {
        self.0 < rhs.0
    }

    fn is_finite(&self) -> bool {
        self.0.is_finite()
    }
}

fn edge(from: &str, to: &str, rate: f64) -> DirEdge<Num> {
    DirEdge {
        from: from.to_string(),
        to: to.to_string(),
        rate: Num(rate),
        weight: Num(-rate.ln()),
        pool_id: format!("{from}/{to}"),
    }
}

fn network(tokens: &[&str], edges: Vec<DirEdge<Num>>) -> Network<Num> {
    Network { tokens: tokens.iter().map(|t| t.to_string()).collect(), edges }
}

fn triangle() -> Network<Num> {
    network(&["A", "B", "C"], vec![edge("A", "B", 2.0), edge("B", "C", 2.0), edge("C", "A", 0.3)])
}

fn summary(cycles: &[ArbitrageCycle<Num>]) -> Vec<(String, Vec<String>, u64, u64)> {
    cycles
        .iter()
        .map(|c| {
            (c.start_token.clone(), c.path.clone(), c.product.0.to_bits(), c.profit_pct.0.to_bits())
        })
        .collect()
}

#[test]
fn two_tokens_make_no_loop() {
    // the distance improves round the pair, but a loop has three trades at least
    let net = network(&["A", "B"], vec![edge("A", "B", 1.02), edge("B", "A", 1.00)]);
    assert!(find_arbitrage(&net, Num(0.0)).is_empty());
    assert!(find_arbitrage(&net, Num(0.01)).is_empty());
}

#[test]
fn triangle_pays_twenty_percent() {
    let cycles = find_arbitrage(&triangle(), Num(0.01));
    assert_eq!(cycles.len(), 1);
    let cycle = &cycles[0];
    assert!((cycle.product.0 - 1.2).abs() < 1e-9);
    assert!((cycle.profit_pct.0 - 20.0).abs() < 1e-7);
    assert_eq!(cycle.path.len(), 4);
    assert_eq!(cycle.path.first(), cycle.path.last());
    assert_eq!(cycle.start_token, cycle.path[0]);
    // the path runs the way the trades go
    let start = ["A", "B", "C"].iter().position(|t| *t == cycle.path[0]).unwrap();
    for i in 0..4 {
        assert_eq!(cycle.path[i], ["A", "B", "C"][(start + i) % 3]);
    }
}

#[test]
fn triangle_is_found_among_trades_both_ways() {
    let net = network(
        &["A", "B", "C"],
        vec![
            edge("A", "B", 2.0),
            edge("B", "A", 0.49),
            edge("B", "C", 2.0),
            edge("C", "B", 0.49),
            edge("C", "A", 0.3),
            edge("A", "C", 3.2),
        ],
    );
    let cycles = find_arbitrage(&net, Num(0.0));
    assert!(!cycles.is_empty());
    for cycle in &cycles {
        assert!((cycle.product.0 - 1.2).abs() < 1e-9);
        assert_eq!(cycle.path.first(), cycle.path.last());
    }
}

#[test]
fn reciprocal_rates_make_no_loop() {
    let net = network(
        &["A", "B", "C"],
        vec![
            edge("A", "B", 2.0),
            edge("B", "A", 0.5),
            edge("B", "C", 2.0),
            edge("C", "B", 0.5),
            edge("C", "A", 0.25),
            edge("A", "C", 4.0),
        ],
    );
    assert!(find_arbitrage(&net, Num(0.0)).is_empty());
}

#[test]
fn losing_triangle_makes_no_loop() {
    let net = network(
        &["A", "B", "C"],
        vec![edge("A", "B", 2.0), edge("B", "C", 2.0), edge("C", "A", 0.2)],
    );
    assert!(find_arbitrage(&net, Num(0.0)).is_empty());
}

#[test]
fn profit_must_be_above_the_threshold() {
    assert_eq!(find_arbitrage(&triangle(), Num(0.19)).len(), 1);
    assert!(find_arbitrage(&triangle(), Num(0.21)).is_empty());
    assert!(find_arbitrage(&triangle(), Num(0.5)).is_empty());
}

#[test]
fn the_same_graph_gives_the_same_loops() {
    let first = find_arbitrage(&triangle(), Num(0.01));
    let second = find_arbitrage(&triangle(), Num(0.01));
    assert_eq!(summary(&first), summary(&second));
    let net = network(
        &["A", "B", "C", "D"],
        vec![
            edge("A", "B", 1.5),
            edge("B", "C", 1.1),
            edge("C", "D", 0.9),
            edge("D", "A", 0.8),
            edge("C", "A", 0.7),
            edge("B", "D", 1.3),
        ],
    );
    let first = find_arbitrage(&net, Num(0.0));
    let second = find_arbitrage(&net, Num(0.0));
    assert!(!first.is_empty());
    assert_eq!(summary(&first), summary(&second));
}

#[test]
fn every_path_is_closed() {
    let net = network(
        &["A", "B", "C", "D", "E"],
        vec![
            edge("A", "B", 1.5),
            edge("B", "C", 1.1),
            edge("C", "D", 0.9),
            edge("D", "A", 0.8),
            edge("C", "A", 0.7),
            edge("B", "D", 1.3),
            edge("D", "E", 1.2),
            edge("E", "B", 1.1),
        ],
    );
    let cycles = find_arbitrage(&net, Num(0.0));
    assert!(!cycles.is_empty());
    assert!(cycles.len() <= 5);
    for cycle in &cycles {
        assert_eq!(cycle.path.first(), cycle.path.last());
        assert_eq!(cycle.start_token, cycle.path[0]);
        assert!(cycle.path.len() >= 4 && cycle.path.len() <= 11);
        assert!(cycle.product.0 > 1.0);
        assert_eq!(cycle.profit_pct.0, (cycle.product.0 - 1.0) * 100.0);
        let mut product = 1.0;
        for hop in cycle.path.windows(2) {
            let joined = net.edges.iter().find(|e| e.from == hop[0] && e.to == hop[1]);
            product *= joined.unwrap().rate.0;
        }
        assert_eq!(product, cycle.product.0);
    }
}

#[test]
fn empty_graphs_have_no_loops() {
    assert!(find_arbitrage(&network(&[], vec![]), Num(0.0)).is_empty());
    assert!(find_arbitrage(&network(&["A", "B", "C"], vec![]), Num(0.0)).is_empty());
    assert!(find_arbitrage(&network(&[], vec![edge("A", "B", 2.0)]), Num(0.0)).is_empty());
}

#[test]
fn detect_refuses_an_empty_graph() {
    assert_eq!(detect(&network(&[], vec![]), Num(0.0)).unwrap_err(), EngineError::EmptyNetwork);
    assert_eq!(
        detect(&network(&["A"], vec![]), Num(0.0)).unwrap_err(),
        EngineError::EmptyNetwork
    );
    let cycles = detect(&triangle(), Num(0.01)).unwrap();
    assert_eq!(cycles.len(), 1);
}

#[test]
fn the_first_pool_between_two_tokens_is_the_one_traded_through() {
    let net = network(
        &["A", "B", "C"],
        vec![
            edge("A", "B", 2.0),
            edge("A", "B", 5.0),
            edge("B", "C", 2.0),
            edge("C", "A", 0.3),
        ],
    );
    let indexed = index_network(&net);
    assert_eq!(hop_edge(&indexed, 0, 1), Some(0));
    assert_eq!(hop_edge(&indexed, 1, 2), Some(2));
    assert_eq!(hop_edge(&indexed, 1, 0), None);
    assert_eq!(hop_edge(&indexed, 9, 0), None);
    assert_eq!(path_edges(&indexed, &vec![0, 1, 2, 0]), Some(vec![0, 2, 3]));
    assert_eq!(path_edges(&indexed, &vec![0, 2, 1, 0]), None);
    assert_eq!(path_edges(&indexed, &vec![]), Some(vec![]));
    let product = cycle_product(&vec![0, 1, 2, 0], &indexed, &net).unwrap();
    assert!((product.0 - 1.2).abs() < 1e-12);
    assert_eq!(cycle_product(&vec![0, 2, 1, 0], &indexed, &net), None);
}

#[test]
fn a_product_that_cannot_be_taken_is_none() {
    let net = network(
        &["A", "B", "C"],
        vec![edge("A", "B", 2.0), edge("B", "C", f64::INFINITY), edge("C", "A", 0.3)],
    );
    let indexed = index_network(&net);
    assert_eq!(cycle_product(&vec![0, 1, 2, 0], &indexed, &net), None);
    let net = network(
        &["A", "B", "C"],
        vec![edge("A", "B", 2.0), edge("B", "C", 0.0), edge("C", "A", 0.3)],
    );
    let indexed = index_network(&net);
    assert_eq!(cycle_product(&vec![0, 1, 2, 0], &indexed, &net), None);
}

#[test]
fn relaxation_names_predecessors_along_edges() {
    let net = triangle();
    let indexed = index_network(&net);
    let (dist, pred) = relax(&indexed, &net);
    assert_eq!(dist.len(), 3);
    assert_eq!(pred, vec![2, 0, 1]);
    assert!(dist.iter().all(|d| d.0 < 0.0));
    // nothing improves where every rate is below one
    let net = network(
        &["A", "B", "C"],
        vec![edge("A", "B", 0.9), edge("B", "C", 0.9), edge("C", "A", 0.9)],
    );
    let indexed = index_network(&net);
    let (dist, pred) = relax(&indexed, &net);
    assert!(dist.iter().all(|d| d.0 == 0.0));
    assert!(pred.iter().all(|p| *p == usize::MAX));
}

#[test]
fn improving_ends_are_flagged_in_the_order_of_the_edges() {
    let net = triangle();
    let indexed = index_network(&net);
    let (dist, _) = relax(&indexed, &net);
    assert_eq!(improving_ends(&indexed, &net, &dist), vec![1]);
    let low = vec![Num(0.0), Num(0.0), Num(0.0)];
    // from equal distances every edge of a weight below zero improves its end
    assert_eq!(improving_ends(&indexed, &net, &low), vec![1, 2]);
    let net = network(
        &["A", "B", "C"],
        vec![edge("A", "B", 0.9), edge("B", "C", 0.9), edge("C", "A", 0.9)],
    );
    let indexed = index_network(&net);
    let (dist, _) = relax(&indexed, &net);
    assert!(improving_ends(&indexed, &net, &dist).is_empty());
}

#[test]
fn a_node_is_looked_into_once() {
    // 0 -> 1 -> 2 -> 0 and 3 -> 4 -> 5 -> 3, and 6 behind the first loop
    let pred = vec![2, 0, 1, 5, 3, 4, 0, usize::MAX];
    let flagged = vec![1, 4, 1, 6, 7, 4, 99, 0];
    let paths = candidate_cycles(&pred, &flagged);
    assert_eq!(
        paths,
        vec![vec![2, 0, 1, 2], vec![5, 3, 4, 5], vec![2, 0, 1, 2], vec![1, 2, 0, 1]]
    );
    assert!(candidate_cycles(&pred, &vec![]).is_empty());
    assert!(candidate_cycles(&vec![], &vec![0, 1]).is_empty());
}

#[test]
fn a_node_without_a_loop_of_three_trades_gives_none() {
    // 0 and 1 are each other's predecessors; 2 has none
    let pred = vec![1, 0, usize::MAX];
    assert!(candidate_cycles(&pred, &vec![0, 1, 2, 0]).is_empty());
}

#[test]
fn a_search_reports_what_it_went_by() {
    let report = search(&triangle(), Num(0.01));
    assert_eq!(report.pred, vec![2, 0, 1]);
    assert_eq!(report.flagged, vec![1]);
    assert_eq!(
        report.checks,
        vec![CycleChecks {
            product_taken: true,
            above_threshold: true,
            finite: true,
            above_one: true
        }]
    );
    assert_eq!(report.cycles.len(), 1);
    assert_eq!(report.cycles[0].path, vec!["B", "C", "A", "B"]);

    let report = search(&triangle(), Num(0.21));
    assert_eq!(report.flagged, vec![1]);
    assert_eq!(
        report.checks,
        vec![CycleChecks {
            product_taken: true,
            above_threshold: false,
            finite: true,
            above_one: true
        }]
    );
    assert!(report.cycles.is_empty());

    let report = search(&network(&[], vec![]), Num(0.0));
    assert!(report.pred.is_empty() && report.flagged.is_empty() && report.checks.is_empty());
}

#[test]
fn the_same_findings_give_the_same_loops() {
    let first = search(&triangle(), Num(0.01));
    let second = search(&triangle(), Num(0.01));
    assert_eq!(first.pred, second.pred);
    assert_eq!(first.flagged, second.flagged);
    assert_eq!(first.checks, second.checks);
    assert_eq!(summary(&first.cycles), summary(&second.cycles));
    assert!(first.checks.iter().all(|c| c.is_accepted()));
}

#[test]
fn the_product_of_no_rates_is_one() {
    let net = triangle();
    let indexed = index_network(&net);
    assert_eq!(rate_product(&vec![], &indexed, &net), Some(Num(1.0)));
    assert_eq!(cycle_product(&vec![], &indexed, &net), Some(Num(1.0)));
    assert_eq!(cycle_product(&vec![2], &indexed, &net), Some(Num(1.0)));
    assert_eq!(rate_product(&vec![0, 1], &indexed, &net), Some(Num(4.0)));
    // an edge that the graph does not have
    assert_eq!(rate_product(&vec![0, 7], &indexed, &net), None);
}

#[test]
fn every_improving_edge_lists_its_end() {
    // two edges end at B; both improve from equal distances
    let net = network(
        &["A", "B", "C"],
        vec![edge("A", "B", 2.0), edge("C", "B", 3.0), edge("B", "C", 0.5), edge("B", "A", 4.0)],
    );
    let indexed = index_network(&net);
    let level = vec![Num(0.0), Num(0.0), Num(0.0)];
    assert_eq!(improving_ends(&indexed, &net, &level), vec![1, 1, 0]);
}

#[test]
fn the_product_round_a_pair_is_taken_over_both_edges() {
    let net = network(&["A", "B"], vec![edge("A", "B", 2.0), edge("B", "A", 0.75)]);
    let indexed = index_network(&net);
    assert_eq!(cycle_product(&vec![0, 1, 0], &indexed, &net), Some(Num(1.5)));
}
