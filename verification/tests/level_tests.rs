use biomass::grid::{CellType, Edge, EdgeState};
use biomass::level::get_levels;

#[test]
fn ten_levels_in_order() {
    let levels = get_levels();
    assert_eq!(levels.len(), 10);
    assert_eq!(levels[0].title, "Level 1: Containment 101");
    assert_eq!(levels[9].title, "Level 10: Bio-Reactor Meltdown");
    assert_eq!(levels[4].spread_steps, 2);
    assert_eq!(levels[4].walls_per_turn, 3);
    assert_eq!(levels[9].rows, 10);
    assert_eq!(levels[9].max_threshold, 40);
    assert_eq!(levels[3].star_thresholds, (4, 7));
}

#[test]
fn every_level_is_consistent() {
    for level in get_levels() {
        assert!(level.rows >= 1 && level.cols >= 1);
        assert!(level.walls_per_turn >= 1);
        assert!(level.star_thresholds.0 <= level.star_thresholds.1);
        for &(r, c) in level.initial_biomass.iter().chain(level.obstacles.iter()) {
            assert!(r < level.rows && c < level.cols);
        }
        for cell in level.initial_biomass {
            assert!(!level.obstacles.contains(cell));
        }
    }
}

#[test]
fn initial_grid_of_level_three() {
    let level = get_levels()[2];
    let grid = level.create_initial_grid();
    assert_eq!((grid.rows, grid.cols), (6, 6));
    assert_eq!(grid.get_cell(2, 2), CellType::Biomass);
    assert_eq!(grid.get_cell(1, 1), CellType::Obstacle);
    assert_eq!(grid.get_cell(4, 4), CellType::Obstacle);
    assert_eq!(grid.get_cell(0, 0), CellType::Empty);
    assert_eq!(grid.count_biomass(), 1);
}

#[test]
fn initial_grid_of_level_four_has_prebuilt_walls() {
    let level = get_levels()[3];
    let grid = level.create_initial_grid();
    assert_eq!(grid.get_edge(Edge::Horizontal { r: 3, c: 2 }), EdgeState::Wall);
    assert_eq!(grid.get_edge(Edge::Horizontal { r: 3, c: 3 }), EdgeState::Wall);
    assert_eq!(grid.get_edge(Edge::Horizontal { r: 3, c: 4 }), EdgeState::Wall);
    assert_eq!(grid.get_edge(Edge::Horizontal { r: 3, c: 1 }), EdgeState::Passable);
    assert_eq!(grid.count_biomass(), 2);
}
