use std::collections::HashSet;

use life_grid::{AutomatonGrid, Coordinate};

fn at(x: i64, y: i64) -> Coordinate {
    Coordinate::new(x, y)
}

fn grid_of(cells: &[(i64, i64)]) -> AutomatonGrid<u32> {
    let mut g = AutomatonGrid::new();
    for (i, &(x, y)) in cells.iter().enumerate() {
        assert!(g.insert(at(x, y), i as u32).is_ok());
    }
    g
}

fn live_set(g: &AutomatonGrid<u32>) -> HashSet<(i64, i64)> {
    g.live_cells().iter().map(|c| (c.x, c.y)).collect()
}

fn set_of(cells: &[(i64, i64)]) -> HashSet<(i64, i64)> {
    cells.iter().copied().collect()
}

#[test]
fn birth_rule_three_neighbors() {
    let mut g = grid_of(&[(0, 0), (2, 0), (1, 2)]);
    assert!(!g.is_alive(at(1, 1)));
    assert_eq!(g.count_cell_neighbors(at(1, 1)), 3);
    let r = g.step();
    assert!(g.is_alive(at(1, 1)));
    assert_eq!(r.born, vec![at(1, 1)]);
}

#[test]
fn birth_needs_exactly_three() {
    let mut g = grid_of(&[(0, 0), (2, 0), (0, 2), (2, 2)]);
    assert_eq!(g.count_cell_neighbors(at(1, 1)), 4);
    g.step();
    assert!(!g.is_alive(at(1, 1)));
}

#[test]
fn survival_with_two_neighbors() {
    let mut g = grid_of(&[(0, 0), (1, 1), (2, 2)]);
    assert_eq!(g.count_cell_neighbors(at(1, 1)), 2);
    g.step();
    assert!(g.is_alive(at(1, 1)));
}

#[test]
fn survival_with_three_neighbors() {
    let mut g = grid_of(&[(1, 1), (0, 0), (2, 0), (1, 2)]);
    assert_eq!(g.count_cell_neighbors(at(1, 1)), 3);
    g.step();
    assert!(g.is_alive(at(1, 1)));
}

#[test]
fn death_by_underpopulation() {
    let mut g = grid_of(&[(0, 0), (1, 0)]);
    let r = g.step();
    assert_eq!(g.len(), 0);
    assert_eq!(r.died.len(), 2);
    assert!(r.born.is_empty());
}

#[test]
fn death_by_overpopulation() {
    let mut g = grid_of(&[(1, 1), (0, 0), (1, 0), (2, 0), (0, 1)]);
    assert_eq!(g.count_cell_neighbors(at(1, 1)), 4);
    g.step();
    assert!(!g.is_alive(at(1, 1)));
}

#[test]
fn isolated_cell_dies_without_births() {
    let mut g = grid_of(&[(5, -7)]);
    assert_eq!(g.count_cell_neighbors(at(5, -7)), 0);
    let r = g.step();
    assert!(!g.is_alive(at(5, -7)));
    assert!(r.born.is_empty());
    assert_eq!(r.died.len(), 1);
    assert_eq!(r.died[0].0, at(5, -7));
    assert_eq!(r.died[0].1, Some(0));
    assert_eq!(g.len(), 0);
}

#[test]
fn block_is_still_life() {
    let block = [(0, 0), (1, 0), (0, 1), (1, 1)];
    let mut g = grid_of(&block);
    let first = g.step();
    assert!(first.is_empty());
    assert_eq!(live_set(&g), set_of(&block));
    let second = g.step();
    assert!(second.is_empty());
    assert_eq!(live_set(&g), set_of(&block));
}

#[test]
fn blinker_oscillates() {
    let row = [(-1, 3), (0, 3), (1, 3)];
    let column = [(0, 2), (0, 3), (0, 4)];
    let mut g = grid_of(&row);
    g.step();
    assert_eq!(live_set(&g), set_of(&column));
    g.step();
    assert_eq!(live_set(&g), set_of(&row));
}

#[test]
fn shared_dead_neighbor_is_born_once() {
    // (1, 1) is a dead neighbor of all three live cells.
    let mut g = grid_of(&[(0, 0), (2, 0), (0, 2)]);
    let r = g.step();
    let count = r.born.iter().filter(|c| **c == at(1, 1)).count();
    assert_eq!(count, 1);
    let unique: HashSet<Coordinate> = r.born.iter().copied().collect();
    assert_eq!(unique.len(), r.born.len());
}

#[test]
fn born_cells_are_listed_once_each() {
    // An L of three cells: every dead neighbor is reached from several cells.
    let mut g = grid_of(&[(0, 0), (1, 0), (0, 1)]);
    let r = g.step();
    assert_eq!(r.born, vec![at(1, 1)]);
    assert!(r.died.is_empty());
    assert_eq!(g.len(), 4);
}

#[test]
fn insert_makes_alive() {
    let mut g: AutomatonGrid<u32> = AutomatonGrid::new();
    assert!(!g.is_alive(at(3, 4)));
    assert!(g.insert(at(3, 4), 9).is_ok());
    assert!(g.is_alive(at(3, 4)));
    assert!(!g.is_alive(at(4, 3)));
    assert_eq!(g.len(), 1);
}

#[test]
fn insert_on_live_cell_is_already_alive() {
    let mut g: AutomatonGrid<u32> = AutomatonGrid::new();
    assert!(g.insert(at(0, 0), 1).is_ok());
    match g.insert(at(0, 0), 2) {
        Err(e) => assert_eq!(e.handle, 2),
        Ok(()) => panic!("second insert succeeded"),
    }
    assert_eq!(g.len(), 1);
    assert_eq!(g.remove(at(0, 0)), Some(Some(1)));
}

#[test]
fn remove_makes_dead() {
    let mut g = grid_of(&[(0, 0), (1, 0), (2, 0)]);
    assert_eq!(g.remove(at(1, 0)), Some(Some(1)));
    assert!(!g.is_alive(at(1, 0)));
    assert!(g.is_alive(at(0, 0)));
    assert!(g.is_alive(at(2, 0)));
    assert_eq!(g.len(), 2);
    assert_eq!(g.remove(at(0, 0)), Some(Some(0)));
    assert_eq!(g.remove(at(2, 0)), Some(Some(2)));
    assert_eq!(g.len(), 0);
}

#[test]
fn remove_dead_cell_returns_nothing() {
    let mut g = grid_of(&[(0, 0)]);
    assert_eq!(g.remove(at(1, 1)), None);
    assert_eq!(live_set(&g), set_of(&[(0, 0)]));
}

#[test]
fn survivors_keep_handles_and_births_have_none() {
    let mut g = grid_of(&[(0, 0), (1, 0), (0, 1)]);
    g.step();
    assert_eq!(g.remove(at(0, 0)), Some(Some(0)));
    assert_eq!(g.remove(at(1, 0)), Some(Some(1)));
    assert_eq!(g.remove(at(1, 1)), Some(None));
}

#[test]
fn set_handle_binds_born_cell() {
    let mut g = grid_of(&[(0, 0), (1, 0), (0, 1)]);
    let r = g.step();
    assert_eq!(g.set_handle(r.born[0], 40), Ok(None));
    assert_eq!(g.set_handle(at(0, 0), 41), Ok(Some(0)));
    assert_eq!(g.set_handle(at(9, 9), 42), Err(42));
    assert_eq!(g.remove(at(1, 1)), Some(Some(40)));
}

#[test]
fn died_cells_carry_their_handles() {
    let mut g = grid_of(&[(0, 0), (1, 0), (2, 0)]);
    let r = g.step();
    let mut died: Vec<(i64, i64, Option<u32>)> = r.died.iter().map(|(c, h)| (c.x, c.y, *h)).collect();
    died.sort();
    assert_eq!(died, vec![(0, 0, Some(0)), (2, 0, Some(2))]);
    let mut born: Vec<(i64, i64)> = r.born.iter().map(|c| (c.x, c.y)).collect();
    born.sort();
    assert_eq!(born, vec![(1, -1), (1, 1)]);
}

#[test]
fn empty_grid_step_is_empty() {
    let mut g: AutomatonGrid<u32> = AutomatonGrid::new();
    let r = g.step();
    assert!(r.is_empty());
    assert_eq!(g.len(), 0);
    assert_eq!(g.generation(), 1);
}

#[test]
fn generation_counts_steps() {
    let mut g = grid_of(&[(0, 0)]);
    assert_eq!(g.generation(), 0);
    g.step();
    g.step();
    g.step();
    assert_eq!(g.generation(), 3);
}

#[test]
fn neighbors_counted_in_all_eight_directions() {
    let ring = [(-1, -1), (0, -1), (1, -1), (-1, 0), (1, 0), (-1, 1), (0, 1), (1, 1)];
    let g = grid_of(&ring);
    assert_eq!(g.count_cell_neighbors(at(0, 0)), 8);
    assert_eq!(g.count_cell_neighbors(at(2, 0)), 3);
    assert_eq!(g.count_cell_neighbors(at(5, 5)), 0);
}

#[test]
fn dead_neighbors_of_lone_cell() {
    let g = grid_of(&[(0, 0), (1, 0)]);
    let dead = g.get_dead_cells(at(0, 0));
    assert_eq!(dead.len(), 7);
    assert!(!dead.contains(&at(1, 0)));
    assert!(dead.contains(&at(-1, -1)));
    assert!(dead.contains(&at(1, 1)));
}

#[test]
fn coordinates_with_swapped_components_differ() {
    let mut g = grid_of(&[(1, 0)]);
    assert!(!g.is_alive(at(0, 1)));
    assert!(g.insert(at(0, 1), 7).is_ok());
    assert_eq!(g.len(), 2);
    assert!(g.insert(at(-1, 0), 8).is_ok());
    assert!(g.insert(at(0, -1), 9).is_ok());
    assert_eq!(g.len(), 4);
}

#[test]
fn cells_at_the_edge_of_the_range() {
    let max = i64::MAX;
    let min = i64::MIN;
    let mut g = grid_of(&[(max, max), (max - 1, max), (max, max - 1)]);
    assert_eq!(g.count_cell_neighbors(at(max, max)), 2);
    assert_eq!(g.get_dead_cells(at(max, max)).len(), 1);
    g.step();
    assert_eq!(live_set(&g), set_of(&[(max, max), (max - 1, max), (max, max - 1), (max - 1, max - 1)]));
    let mut h = grid_of(&[(min, min), (min, 0), (0, min)]);
    h.step();
    assert_eq!(h.len(), 0);
}
