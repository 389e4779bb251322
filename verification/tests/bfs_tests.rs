use biomass::bfs::{evaluate_sealed_enclosure_dieoff, expand_biomass_step_by_step, CloneEvent};
use biomass::grid::{CellType, Edge, EdgeState, Grid};
use std::collections::HashSet;

#[test]
fn no_biomass_no_dieoff() {
    let grid = Grid::new(3, 3);
    assert!(evaluate_sealed_enclosure_dieoff(&grid).is_empty());
}

#[test]
fn unsealed_biomass_survives() {
    // Single biomass cell surrounded by empty — should not die.
    let mut grid = Grid::new(3, 3);
    grid.set_cell(1, 1, CellType::Biomass);
    assert!(evaluate_sealed_enclosure_dieoff(&grid).is_empty());
}

#[test]
fn fully_walled_biomass_dies() {
    // Biomass at (1,1) in a 3x3 grid, walled off on all 4 sides.
    let mut grid = Grid::new(3, 3);
    grid.set_cell(1, 1, CellType::Biomass);
    grid.set_edge(Edge::Horizontal { r: 1, c: 1 }, EdgeState::Wall);
    grid.set_edge(Edge::Horizontal { r: 2, c: 1 }, EdgeState::Wall);
    grid.set_edge(Edge::Vertical { r: 1, c: 1 }, EdgeState::Wall);
    grid.set_edge(Edge::Vertical { r: 1, c: 2 }, EdgeState::Wall);

    assert_eq!(evaluate_sealed_enclosure_dieoff(&grid), vec![(1, 1)]);
}

#[test]
fn walled_box_with_gap_survives() {
    // Same as above but leave one wall open — biomass can reach empty.
    let mut grid = Grid::new(3, 3);
    grid.set_cell(1, 1, CellType::Biomass);
    grid.set_edge(Edge::Horizontal { r: 1, c: 1 }, EdgeState::Wall);
    grid.set_edge(Edge::Horizontal { r: 2, c: 1 }, EdgeState::Wall);
    grid.set_edge(Edge::Vertical { r: 1, c: 1 }, EdgeState::Wall);
    // Vertical r=1, c=2 left open

    assert!(evaluate_sealed_enclosure_dieoff(&grid).is_empty());
}

#[test]
fn obstacle_assisted_seal() {
    // Biomass at (0,0) in a 2x2 grid, obstacles at (0,1) and (1,0).
    let mut grid = Grid::new(2, 2);
    grid.set_cell(0, 0, CellType::Biomass);
    grid.set_cell(0, 1, CellType::Obstacle);
    grid.set_cell(1, 0, CellType::Obstacle);
    // (1,1) is empty but not adjacent to (0,0)

    assert_eq!(evaluate_sealed_enclosure_dieoff(&grid), vec![(0, 0)]);
}

#[test]
fn two_components_one_sealed() {
    // 1x4 grid: [Biomass | Wall | Biomass | Empty]
    let mut grid = Grid::new(1, 4);
    grid.set_cell(0, 0, CellType::Biomass);
    grid.set_cell(0, 2, CellType::Biomass);
    // Wall between (0,0) and (0,1)
    grid.set_edge(Edge::Vertical { r: 0, c: 1 }, EdgeState::Wall);

    let result = evaluate_sealed_enclosure_dieoff(&grid);
    assert_eq!(result, vec![(0, 0)]);
}

#[test]
fn connected_component_partially_borders_empty() {
    // 1x3 grid: [Biomass, Biomass, Empty] — no walls.
    let mut grid = Grid::new(1, 3);
    grid.set_cell(0, 0, CellType::Biomass);
    grid.set_cell(0, 1, CellType::Biomass);

    assert!(evaluate_sealed_enclosure_dieoff(&grid).is_empty());
}

#[test]
fn biomass_fills_entire_grid() {
    // All cells are biomass — no empty cells reachable, all die.
    let mut grid = Grid::new(2, 2);
    grid.set_cell(0, 0, CellType::Biomass);
    grid.set_cell(0, 1, CellType::Biomass);
    grid.set_cell(1, 0, CellType::Biomass);
    grid.set_cell(1, 1, CellType::Biomass);

    let result: HashSet<_> = evaluate_sealed_enclosure_dieoff(&grid)
        .into_iter()
        .collect();
    let expected: HashSet<_> = [(0, 0), (0, 1), (1, 0), (1, 1)].into_iter().collect();
    assert_eq!(result, expected);
}

#[test]
fn sealed_multi_cell_component_dies() {
    // 3x3 grid, 2x2 biomass block, fully walled off.
    let mut grid = Grid::new(3, 3);
    grid.set_cell(1, 1, CellType::Biomass);
    grid.set_cell(1, 2, CellType::Biomass);
    grid.set_cell(2, 1, CellType::Biomass);
    grid.set_cell(2, 2, CellType::Biomass);
    // Top wall
    grid.set_edge(Edge::Horizontal { r: 1, c: 1 }, EdgeState::Wall);
    grid.set_edge(Edge::Horizontal { r: 1, c: 2 }, EdgeState::Wall);
    // Bottom wall (r=3 is the boundary below row 2)
    grid.set_edge(Edge::Horizontal { r: 3, c: 1 }, EdgeState::Wall);
    grid.set_edge(Edge::Horizontal { r: 3, c: 2 }, EdgeState::Wall);
    // Left wall
    grid.set_edge(Edge::Vertical { r: 1, c: 1 }, EdgeState::Wall);
    grid.set_edge(Edge::Vertical { r: 2, c: 1 }, EdgeState::Wall);
    // Right wall (c=3 is the boundary right of col 2)
    grid.set_edge(Edge::Vertical { r: 1, c: 3 }, EdgeState::Wall);
    grid.set_edge(Edge::Vertical { r: 2, c: 3 }, EdgeState::Wall);

    let result: HashSet<_> = evaluate_sealed_enclosure_dieoff(&grid)
        .into_iter()
        .collect();
    let expected: HashSet<_> = [(1, 1), (1, 2), (2, 1), (2, 2)].into_iter().collect();
    assert_eq!(result, expected);
}

#[test]
fn expand_biomass_records_clone_events() {
    let mut grid = Grid::new(1, 3);
    grid.set_cell(0, 0, CellType::Biomass);
    let steps = expand_biomass_step_by_step(&grid, 1, 4);
    assert_eq!(steps.len(), 1);
    assert_eq!(steps[0].len(), 1);
    assert_eq!(
        steps[0][0],
        CloneEvent {
            from: (0, 0),
            to: (0, 1)
        }
    );
}

#[test]
fn expand_biomass_respects_max_clones_limit() {
    // 5 isolated biomass cells with empty space to the right
    let mut grid = Grid::new(5, 3);
    for r in 0..5 {
        grid.set_cell(r, 0, CellType::Biomass);
    }
    // max_clones = 2 even though 5 cells are ready to clone
    let steps = expand_biomass_step_by_step(&grid, 1, 2);
    assert_eq!(steps.len(), 1);
    assert_eq!(steps[0].len(), 2);
    // All cloned events must be valid
    for event in &steps[0] {
        assert_eq!(grid.get_cell(event.from.0, event.from.1), CellType::Biomass);
        assert_eq!(grid.get_cell(event.to.0, event.to.1), CellType::Empty);
    }
}

#[test]
fn expand_biomass_zero_max_clones() {
    let mut grid = Grid::new(3, 3);
    grid.set_cell(1, 1, CellType::Biomass);
    let steps = expand_biomass_step_by_step(&grid, 1, 0);
    assert!(steps.is_empty());
}

#[test]
fn expand_biomass_multi_step_capped() {
    // Grid with a single biomass cell and 2 steps, but max_clones = 2
    let mut grid = Grid::new(5, 5);
    grid.set_cell(2, 2, CellType::Biomass);
    let steps = expand_biomass_step_by_step(&grid, 2, 2);
    let total_clones: usize = steps.iter().map(|step| step.len()).sum();
    assert!(total_clones <= 2);
}

#[test]
fn expand_biomass_zero_steps_records_nothing() {
    let mut grid = Grid::new(3, 3);
    grid.set_cell(1, 1, CellType::Biomass);
    assert!(expand_biomass_step_by_step(&grid, 0, 5).is_empty());
}

#[test]
fn expand_biomass_clones_into_open_neighbours_only() {
    // A single cell in the middle of a 3x3 grid, walled on three sides:
    // its only clone target is the cell below.
    let mut grid = Grid::new(3, 3);
    grid.set_cell(1, 1, CellType::Biomass);
    grid.set_edge(Edge::Horizontal { r: 1, c: 1 }, EdgeState::Wall);
    grid.set_edge(Edge::Vertical { r: 1, c: 1 }, EdgeState::Wall);
    grid.set_edge(Edge::Vertical { r: 1, c: 2 }, EdgeState::Wall);
    for _ in 0..20 {
        let steps = expand_biomass_step_by_step(&grid, 1, 4);
        assert_eq!(steps, vec![vec![CloneEvent { from: (1, 1), to: (2, 1) }]]);
    }
}

#[test]
fn expand_biomass_stops_when_sealed() {
    // Sealed cell: no step can clone, so no step is recorded.
    let mut grid = Grid::new(3, 3);
    grid.set_cell(1, 1, CellType::Biomass);
    grid.set_edge(Edge::Horizontal { r: 1, c: 1 }, EdgeState::Wall);
    grid.set_edge(Edge::Horizontal { r: 2, c: 1 }, EdgeState::Wall);
    grid.set_edge(Edge::Vertical { r: 1, c: 1 }, EdgeState::Wall);
    grid.set_edge(Edge::Vertical { r: 1, c: 2 }, EdgeState::Wall);
    assert!(expand_biomass_step_by_step(&grid, 3, 6).is_empty());
}

#[test]
fn expand_biomass_runs_are_valid_every_time() {
    // Repeated random runs: every clone goes from an occupied cell to a
    // fresh empty neighbour across an open side; no target twice; budget kept.
    for _ in 0..50 {
        let mut grid = Grid::new(4, 4);
        grid.set_cell(0, 0, CellType::Biomass);
        grid.set_cell(3, 3, CellType::Biomass);
        grid.set_cell(1, 2, CellType::Obstacle);
        grid.set_edge(Edge::Vertical { r: 0, c: 1 }, EdgeState::Wall);
        let steps = expand_biomass_step_by_step(&grid, 3, 5);
        assert!(steps.len() <= 3);
        let mut occupied: HashSet<(usize, usize)> = [(0, 0), (3, 3)].into_iter().collect();
        let mut total = 0;
        for step in &steps {
            assert!(!step.is_empty());
            let mut froms = HashSet::new();
            let mut new_cells = Vec::new();
            for e in step {
                assert!(occupied.contains(&e.from));
                assert!(froms.insert(e.from));
                assert_eq!(grid.get_cell(e.to.0, e.to.1), CellType::Empty);
                assert!(!occupied.contains(&e.to));
                assert!(!new_cells.contains(&e.to));
                assert!(!grid.has_wall_between(e.from.0, e.from.1, e.to.0, e.to.1));
                new_cells.push(e.to);
                total += 1;
            }
            occupied.extend(new_cells);
        }
        assert!(total <= 5);
    }
}

#[test]
fn dieoff_of_component_walled_by_obstacles_and_edges() {
    // 2x3 grid: biomass (0,0),(0,1) with an obstacle at (1,1), walls closing
    // the rest; (1,0) is empty behind a wall, (0,2) behind another wall.
    let mut grid = Grid::new(2, 3);
    grid.set_cell(0, 0, CellType::Biomass);
    grid.set_cell(0, 1, CellType::Biomass);
    grid.set_cell(1, 1, CellType::Obstacle);
    grid.set_edge(Edge::Horizontal { r: 1, c: 0 }, EdgeState::Wall);
    grid.set_edge(Edge::Vertical { r: 0, c: 2 }, EdgeState::Wall);
    let result: HashSet<_> = evaluate_sealed_enclosure_dieoff(&grid).into_iter().collect();
    let expected: HashSet<_> = [(0, 0), (0, 1)].into_iter().collect();
    assert_eq!(result, expected);
    // Opening one wall saves the whole component.
    grid.set_edge(Edge::Vertical { r: 0, c: 2 }, EdgeState::Passable);
    assert!(evaluate_sealed_enclosure_dieoff(&grid).is_empty());
}

#[test]
fn dieoff_leaves_nothing_sealed() {
    // A sealed 2-cell component in a pocket and a free component elsewhere.
    let mut grid = Grid::new(3, 4);
    grid.set_cell(0, 0, CellType::Biomass);
    grid.set_cell(1, 0, CellType::Biomass);
    grid.set_edge(Edge::Vertical { r: 0, c: 1 }, EdgeState::Wall);
    grid.set_edge(Edge::Vertical { r: 1, c: 1 }, EdgeState::Wall);
    grid.set_edge(Edge::Horizontal { r: 2, c: 0 }, EdgeState::Wall);
    grid.set_cell(2, 3, CellType::Biomass);
    grid.set_cell(1, 3, CellType::Biomass);

    let dying = evaluate_sealed_enclosure_dieoff(&grid);
    let set: HashSet<_> = dying.iter().copied().collect();
    assert_eq!(set, HashSet::from([(0, 0), (1, 0)]));
    for &(r, c) in &dying {
        grid.set_cell(r, c, CellType::Empty);
    }
    assert!(evaluate_sealed_enclosure_dieoff(&grid).is_empty());
    assert_eq!(grid.count_biomass(), 2);
}
