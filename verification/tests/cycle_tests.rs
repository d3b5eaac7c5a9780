use arb_engine::cycle::reconstruct_cycle_indices;
use arb_engine::cycle::trade_cycle;
use arb_engine::cycle::NO_PRED;

#[test]
fn reconstruct_follows_a_triangle_back() {
    // three steps back from a node of a triangle end at that node
    let pred = vec![2, 0, 1];
    assert_eq!(reconstruct_cycle_indices(1, &pred), vec![1, 0, 2, 1]);
    assert_eq!(reconstruct_cycle_indices(0, &pred), vec![0, 2, 1, 0]);
    assert_eq!(reconstruct_cycle_indices(2, &pred), vec![2, 1, 0, 2]);
}

#[test]
fn reconstruct_enters_the_loop_from_a_tail() {
    // 3 -> 2 -> 1 -> 0 -> 1: the loop is {0, 1}
    let pred = vec![1, 0, 1, 2];
    let cycle = reconstruct_cycle_indices(3, &pred);
    assert_eq!(cycle.len(), 3);
    assert_eq!(cycle.first(), cycle.last());
    assert!(cycle == vec![0, 1, 0] || cycle == vec![1, 0, 1]);
    // four steps from 3: 2, 1, 0, 1
    assert_eq!(cycle, vec![1, 0, 1]);
}

#[test]
fn reconstruct_is_empty_without_a_predecessor() {
    let pred = vec![NO_PRED, 0, 1];
    assert_eq!(reconstruct_cycle_indices(2, &pred), Vec::<usize>::new());
    assert_eq!(reconstruct_cycle_indices(0, &pred), Vec::<usize>::new());
}

#[test]
fn reconstruct_is_empty_for_what_is_no_node() {
    let pred = vec![0, 7];
    assert_eq!(reconstruct_cycle_indices(5, &pred), Vec::<usize>::new());
    assert_eq!(reconstruct_cycle_indices(1, &pred), Vec::<usize>::new());
    assert_eq!(reconstruct_cycle_indices(0, &[]), Vec::<usize>::new());
}

#[test]
fn reconstruct_closes_a_self_loop() {
    let pred = vec![0];
    assert_eq!(reconstruct_cycle_indices(0, &pred), vec![0, 0]);
}

#[test]
fn reconstructed_path_is_closed_and_follows_predecessors() {
    let pred = vec![4, 0, 1, 2, 3, 0, NO_PRED];
    for start in 0..6 {
        let cycle = reconstruct_cycle_indices(start, &pred);
        assert_eq!(cycle.len(), 6);
        assert_eq!(cycle[0], cycle[5]);
        for i in 0..5 {
            assert_eq!(cycle[i + 1], pred[cycle[i]]);
        }
    }
    assert!(reconstruct_cycle_indices(6, &pred).is_empty());
}

#[test]
fn trade_cycle_reverses_into_the_order_of_trade() {
    // edges 0 -> 1 -> 2 -> 0 leave pred[1] = 0, pred[2] = 1, pred[0] = 2
    let pred = vec![2, 0, 1];
    assert_eq!(trade_cycle(1, &pred), Some(vec![1, 2, 0, 1]));
    assert_eq!(trade_cycle(0, &pred), Some(vec![0, 1, 2, 0]));
}

#[test]
fn trade_cycle_refuses_two_trades() {
    let pred = vec![1, 0];
    assert_eq!(reconstruct_cycle_indices(0, &pred), vec![0, 1, 0]);
    assert_eq!(trade_cycle(0, &pred), None);
    assert_eq!(trade_cycle(0, &[0]), None);
}

#[test]
fn trade_cycle_takes_ten_trades_and_refuses_eleven() {
    let ten: Vec<usize> = (0..10).map(|v| (v + 9) % 10).collect();
    let found = trade_cycle(0, &ten).unwrap();
    assert_eq!(found.len(), 11);
    assert_eq!(found[0], found[10]);
    let eleven: Vec<usize> = (0..11).map(|v| (v + 10) % 11).collect();
    assert_eq!(trade_cycle(0, &eleven), None);
}

#[test]
fn trade_cycle_is_none_where_the_walk_breaks_off() {
    let pred = vec![NO_PRED, 0, 1, 2];
    assert_eq!(trade_cycle(3, &pred), None);
}
