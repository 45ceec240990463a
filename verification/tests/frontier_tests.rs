use pathfinder::frontier::{CellCost, Frontier};
use pathfinder::grid::Cell;

fn entry(row: i32, column: i32, cost: i128) -> CellCost {
    CellCost { cell: Cell { row, column }, cost }
}

#[test]
fn new_frontier_is_empty() {
    let mut frontier = Frontier::new();
    assert!(frontier.is_empty());
    assert_eq!(frontier.len(), 0);
    assert_eq!(frontier.pop(), None);
    assert!(frontier.is_empty());
}

#[test]
fn pop_hands_out_the_least_cost_first() {
    let mut frontier = Frontier::new();
    let costs: [i128; 9] = [50, 20, 90, 10, 70, 30, 80, 60, 40];
    for (i, cost) in costs.iter().enumerate() {
        frontier.push(entry(i as i32, 0, *cost));
    }
    assert_eq!(frontier.len(), 9);
    let mut seen = Vec::new();
    while !frontier.is_empty() {
        seen.push(frontier.pop().unwrap());
    }
    let order: Vec<i128> = seen.iter().map(|e| e.cost).collect();
    assert_eq!(order, vec![10, 20, 30, 40, 50, 60, 70, 80, 90]);
    assert_eq!(seen[0].cell, Cell { row: 3, column: 0 });
    assert_eq!(seen[8].cell, Cell { row: 2, column: 0 });
}

#[test]
fn negative_costs_come_before_positive_ones() {
    let mut frontier = Frontier::new();
    frontier.push(entry(0, 0, 5));
    frontier.push(entry(0, 1, -1_048_576));
    frontier.push(entry(0, 2, 0));
    assert_eq!(frontier.pop(), Some(entry(0, 1, -1_048_576)));
    assert_eq!(frontier.pop(), Some(entry(0, 2, 0)));
    assert_eq!(frontier.pop(), Some(entry(0, 0, 5)));
    assert_eq!(frontier.pop(), None);
}

#[test]
fn entries_of_equal_cost_all_come_out() {
    let mut frontier = Frontier::new();
    frontier.push(entry(0, 0, 7));
    frontier.push(entry(1, 1, 7));
    frontier.push(entry(2, 2, 7));
    frontier.push(entry(3, 3, 3));
    assert_eq!(frontier.pop(), Some(entry(3, 3, 3)));
    let mut rows = Vec::new();
    while let Some(e) = frontier.pop() {
        assert_eq!(e.cost, 7);
        rows.push(e.cell.row);
    }
    rows.sort();
    assert_eq!(rows, vec![0, 1, 2]);
}

#[test]
fn the_same_entry_may_wait_twice() {
    let mut frontier = Frontier::new();
    frontier.push(entry(1, 2, 4));
    frontier.push(entry(1, 2, 4));
    assert_eq!(frontier.len(), 2);
    assert_eq!(frontier.pop(), Some(entry(1, 2, 4)));
    assert_eq!(frontier.pop(), Some(entry(1, 2, 4)));
    assert_eq!(frontier.pop(), None);
}

#[test]
fn pushes_and_pops_may_alternate() {
    let mut frontier = Frontier::new();
    let mut state: u64 = 12345;
    let mut held: Vec<i128> = Vec::new();
    for round in 0..400 {
        state = state.wrapping_mul(6364136223846793005).wrapping_add(1442695040888963407);
        let cost = ((state >> 33) % 1000) as i128 - 500;
        if round % 3 == 2 {
            held.sort();
            let least = frontier.pop().unwrap();
            assert_eq!(least.cost, held.remove(0));
        } else {
            frontier.push(entry(round, 0, cost));
            held.push(cost);
        }
        assert_eq!(frontier.len(), held.len());
    }
    held.sort();
    for cost in held {
        assert_eq!(frontier.pop().unwrap().cost, cost);
    }
    assert!(frontier.is_empty());
}
