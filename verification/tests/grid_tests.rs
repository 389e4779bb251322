use biomass::grid::{CellType, Edge, EdgeState, Grid};

#[test]
fn new_grid_is_empty_and_open() {
    let grid = Grid::new(3, 4);
    assert_eq!(grid.rows, 3);
    assert_eq!(grid.cols, 4);
    assert_eq!(grid.cells.len(), 12);
    assert_eq!(grid.h_walls.len(), 16);
    assert_eq!(grid.v_walls.len(), 15);
    assert_eq!(grid.count_biomass(), 0);
    for r in 0..3 {
        for c in 0..4 {
            assert_eq!(grid.get_cell(r, c), CellType::Empty);
        }
    }
    assert_eq!(grid.get_edge(Edge::Horizontal { r: 3, c: 3 }), EdgeState::Passable);
    assert_eq!(grid.get_edge(Edge::Vertical { r: 2, c: 4 }), EdgeState::Passable);
}

#[test]
fn out_of_range_reads_as_obstacle_and_wall() {
    let grid = Grid::new(2, 2);
    assert_eq!(grid.get_cell(2, 0), CellType::Obstacle);
    assert_eq!(grid.get_cell(0, 5), CellType::Obstacle);
    assert_eq!(grid.get_edge(Edge::Horizontal { r: 3, c: 0 }), EdgeState::Wall);
    assert_eq!(grid.get_edge(Edge::Horizontal { r: 0, c: 2 }), EdgeState::Wall);
    assert_eq!(grid.get_edge(Edge::Vertical { r: 2, c: 0 }), EdgeState::Wall);
    assert_eq!(grid.get_edge(Edge::Vertical { r: 0, c: 3 }), EdgeState::Wall);
}

#[test]
fn cell_idx_is_row_major() {
    let grid = Grid::new(3, 5);
    assert_eq!(grid.cell_idx(0, 0), 0);
    assert_eq!(grid.cell_idx(1, 2), 7);
    assert_eq!(grid.cell_idx(2, 4), 14);
    assert!(grid.is_valid_cell(2, 4));
    assert!(!grid.is_valid_cell(3, 0));
    assert!(!grid.is_valid_cell(0, 5));
}

#[test]
fn set_cell_reads_back_and_tracks_biomass() {
    let mut grid = Grid::new(3, 3);
    grid.set_cell(1, 1, CellType::Biomass);
    grid.set_cell(0, 2, CellType::Biomass);
    grid.set_cell(1, 1, CellType::Biomass);
    assert_eq!(grid.get_cell(1, 1), CellType::Biomass);
    assert_eq!(grid.count_biomass(), 2);
    grid.set_cell(1, 1, CellType::Obstacle);
    assert_eq!(grid.get_cell(1, 1), CellType::Obstacle);
    assert_eq!(grid.count_biomass(), 1);
    assert_eq!(grid.active_biomass, vec![(0, 2)]);
    // Out of range: ignored.
    grid.set_cell(7, 7, CellType::Biomass);
    assert_eq!(grid.count_biomass(), 1);
    grid.set_cell(0, 2, CellType::Empty);
    assert_eq!(grid.count_biomass(), 0);
    assert_eq!(grid.get_cell(0, 2), CellType::Empty);
}

#[test]
fn set_edge_reads_back_and_ignores_outside() {
    let mut grid = Grid::new(2, 2);
    grid.set_edge(Edge::Horizontal { r: 1, c: 0 }, EdgeState::Wall);
    grid.set_edge(Edge::Vertical { r: 1, c: 1 }, EdgeState::Wall);
    assert_eq!(grid.get_edge(Edge::Horizontal { r: 1, c: 0 }), EdgeState::Wall);
    assert_eq!(grid.get_edge(Edge::Horizontal { r: 1, c: 1 }), EdgeState::Passable);
    assert_eq!(grid.get_edge(Edge::Vertical { r: 1, c: 1 }), EdgeState::Wall);
    assert_eq!(grid.get_edge(Edge::Vertical { r: 0, c: 1 }), EdgeState::Passable);
    let before = grid.h_walls.clone();
    grid.set_edge(Edge::Horizontal { r: 9, c: 0 }, EdgeState::Wall);
    assert_eq!(grid.h_walls, before);
}

#[test]
fn valid_neighbors_in_order_up_down_left_right() {
    let grid = Grid::new(3, 3);
    assert_eq!(grid.valid_neighbors(1, 1), vec![(0, 1), (2, 1), (1, 0), (1, 2)]);
    assert_eq!(grid.valid_neighbors(0, 0), vec![(1, 0), (0, 1)]);
    assert_eq!(grid.valid_neighbors(2, 2), vec![(1, 2), (2, 1)]);
    assert_eq!(grid.valid_neighbors(5, 5), vec![]);
}

#[test]
fn has_wall_between_adjacent_and_not() {
    let mut grid = Grid::new(3, 3);
    grid.set_edge(Edge::Horizontal { r: 1, c: 1 }, EdgeState::Wall);
    grid.set_edge(Edge::Vertical { r: 2, c: 2 }, EdgeState::Wall);
    assert!(grid.has_wall_between(0, 1, 1, 1));
    assert!(grid.has_wall_between(1, 1, 0, 1));
    assert!(!grid.has_wall_between(1, 1, 2, 1));
    assert!(grid.has_wall_between(2, 1, 2, 2));
    assert!(grid.has_wall_between(2, 2, 2, 1));
    assert!(!grid.has_wall_between(0, 0, 0, 1));
    // Not adjacent: always separated.
    assert!(grid.has_wall_between(0, 0, 1, 1));
    assert!(grid.has_wall_between(0, 0, 0, 2));
    assert!(grid.has_wall_between(1, 1, 1, 1));
}

#[test]
fn wall_between_is_symmetric_everywhere() {
    let mut grid = Grid::new(3, 3);
    grid.set_edge(Edge::Horizontal { r: 2, c: 0 }, EdgeState::Wall);
    grid.set_edge(Edge::Vertical { r: 0, c: 1 }, EdgeState::Wall);
    for r1 in 0..4 {
        for c1 in 0..4 {
            for r2 in 0..4 {
                for c2 in 0..4 {
                    assert_eq!(
                        grid.has_wall_between(r1, c1, r2, c2),
                        grid.has_wall_between(r2, c2, r1, c1)
                    );
                }
            }
        }
    }
}

#[test]
fn can_place_wall_rules() {
    let mut grid = Grid::new(3, 3);
    // Outer boundary edges never take a wall.
    assert!(!grid.can_place_wall(Edge::Horizontal { r: 0, c: 1 }));
    assert!(!grid.can_place_wall(Edge::Horizontal { r: 3, c: 1 }));
    assert!(!grid.can_place_wall(Edge::Vertical { r: 1, c: 0 }));
    assert!(!grid.can_place_wall(Edge::Vertical { r: 1, c: 3 }));
    // Interior passable edges do.
    assert!(grid.can_place_wall(Edge::Horizontal { r: 1, c: 1 }));
    assert!(grid.can_place_wall(Edge::Vertical { r: 2, c: 2 }));
    // Not twice.
    grid.set_edge(Edge::Horizontal { r: 1, c: 1 }, EdgeState::Wall);
    assert!(!grid.can_place_wall(Edge::Horizontal { r: 1, c: 1 }));
    // Not between two obstacles, but next to one obstacle is fine.
    grid.set_cell(0, 0, CellType::Obstacle);
    assert!(grid.can_place_wall(Edge::Horizontal { r: 1, c: 0 }));
    grid.set_cell(1, 0, CellType::Obstacle);
    assert!(!grid.can_place_wall(Edge::Horizontal { r: 1, c: 0 }));
    // Out of range.
    assert!(!grid.can_place_wall(Edge::Horizontal { r: 1, c: 5 }));
}

#[test]
fn legal_wall_placement_runs_out() {
    let mut grid = Grid::new(2, 2);
    assert!(grid.has_any_legal_wall_placement());
    grid.set_edge(Edge::Horizontal { r: 1, c: 0 }, EdgeState::Wall);
    grid.set_edge(Edge::Horizontal { r: 1, c: 1 }, EdgeState::Wall);
    grid.set_edge(Edge::Vertical { r: 0, c: 1 }, EdgeState::Wall);
    assert!(grid.has_any_legal_wall_placement());
    grid.set_edge(Edge::Vertical { r: 1, c: 1 }, EdgeState::Wall);
    assert!(!grid.has_any_legal_wall_placement());
    // A 1x1 grid has no interior edge at all.
    assert!(!Grid::new(1, 1).has_any_legal_wall_placement());
}

#[test]
fn obstacles_only_leave_no_placement() {
    let mut grid = Grid::new(1, 2);
    grid.set_cell(0, 0, CellType::Obstacle);
    grid.set_cell(0, 1, CellType::Obstacle);
    assert!(!grid.has_any_legal_wall_placement());
}
