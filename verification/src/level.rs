//! The level set and the grid each level starts from.

use vstd::prelude::*;
use crate::bfs::RANDOM_RANGE_LIMIT;
use crate::grid::{CellType, Edge, EdgeState, Grid};

verus! {

/// One level of the game.
#[derive(Debug, Clone, Copy)]
pub struct Level {
    pub title: &'static str,
    pub description: &'static str,
    pub rows: usize,
    pub cols: usize,
    pub walls_per_turn: usize,
    pub spread_steps: usize,
    pub max_threshold: usize,
    pub initial_biomass: &'static [(usize, usize)],
    pub obstacles: &'static [(usize, usize)],
    pub initial_walls: &'static [Edge],
    /// (3-star max turns, 2-star max turns); above 2-star threshold gives 1 star
    pub star_thresholds: (usize, usize),
}

impl Level {
    /// What a cell of the level holds at the start: biomass where listed,
    /// else an obstacle where listed, else nothing.
    pub open spec fn initial_cell(self, r: int, c: int) -> CellType {
        if exists|i: int|
            0 <= i < self.initial_biomass@.len() && #[trigger] self.initial_biomass@[i] == (
            r as usize,
            c as usize,
        ) {
            CellType::Biomass
        } else if exists|i: int|
            0 <= i < self.obstacles@.len() && #[trigger] self.obstacles@[i] == (
            r as usize,
            c as usize,
        ) {
            CellType::Obstacle
        } else {
            CellType::Empty
        }
    }

    /// The level can be played: its grid fits in memory and the spread's
    /// random draws, it allows at least one wall per turn, its cells and walls
    /// lie inside the grid, no cell is both biomass and obstacle, and the
    /// star thresholds are ordered.
    pub open spec fn valid(self) -> bool {
        &&& 1 <= self.rows
        &&& 1 <= self.cols
        &&& (self.rows + 1) * (self.cols + 1) <= usize::MAX
        &&& self.rows * self.cols <= RANDOM_RANGE_LIMIT
        &&& 1 <= self.walls_per_turn
        &&& self.walls_per_turn * 2 <= usize::MAX
        &&& forall|i: int|
            0 <= i < self.initial_biomass@.len() ==> #[trigger] self.initial_biomass@[i].0 < self.rows
                && self.initial_biomass@[i].1 < self.cols
        &&& forall|i: int|
            0 <= i < self.obstacles@.len() ==> #[trigger] self.obstacles@[i].0 < self.rows
                && self.obstacles@[i].1 < self.cols
        &&& forall|i: int, j: int|
            0 <= i < self.initial_biomass@.len() && 0 <= j < self.obstacles@.len()
                ==> #[trigger] self.initial_biomass@[i] != #[trigger] self.obstacles@[j]
        &&& self.star_thresholds.0 <= self.star_thresholds.1
    }

    /// Builds the level's starting grid: obstacles, then biomass, then the
    /// pre-built walls.
    pub fn create_initial_grid(&self) -> (grid: Grid)
        requires
            (self.rows + 1) * (self.cols + 1) <= usize::MAX,
        ensures
            grid.wf(),
            grid.starts(*self),
            forall|i: int|
                0 <= i < self.initial_biomass@.len() && grid.in_bounds(
                    #[trigger] self.initial_biomass@[i].0 as int,
                    self.initial_biomass@[i].1 as int,
                ) ==> grid.cell_at(self.initial_biomass@[i].0 as int, self.initial_biomass@[i].1 as int)
                    == CellType::Biomass,
            forall|j: int|
                0 <= j < self.obstacles@.len() && grid.in_bounds(
                    #[trigger] self.obstacles@[j].0 as int,
                    self.obstacles@[j].1 as int,
                ) && (forall|i: int|
                    0 <= i < self.initial_biomass@.len() ==> self.initial_biomass@[i]
                        != self.obstacles@[j]) ==> grid.cell_at(
                    self.obstacles@[j].0 as int,
                    self.obstacles@[j].1 as int,
                ) == CellType::Obstacle,
            forall|r: int, c: int|
                grid.in_bounds(r, c) && (forall|i: int|
                    0 <= i < self.initial_biomass@.len() ==> self.initial_biomass@[i] != (
                    r as usize,
                    c as usize,
                )) && (forall|j: int|
                    0 <= j < self.obstacles@.len() ==> self.obstacles@[j] != (r as usize, c as usize))
                    ==> #[trigger] grid.cell_at(r, c) == CellType::Empty,
    {
        let mut grid = Grid::new(self.rows, self.cols);
        let mut i: usize = 0;
        while i < self.obstacles.len()
            invariant
                grid.wf(),
                grid.rows == self.rows,
                grid.cols == self.cols,
                i <= self.obstacles@.len(),
                forall|r: int, c: int|
                    grid.in_bounds(r, c) ==> #[trigger] grid.cell_at(r, c) == if exists|j: int|
                        0 <= j < i && #[trigger] self.obstacles@[j] == (r as usize, c as usize) {
                        CellType::Obstacle
                    } else {
                        CellType::Empty
                    },
                forall|e: Edge|
                    #[trigger] grid.edge_at(e) == if grid.edge_in_range(e) {
                        EdgeState::Passable
                    } else {
                        EdgeState::Wall
                    },
            decreases self.obstacles@.len() - i,
        {
            let (r, c) = self.obstacles[i];
            grid.set_cell(r, c, CellType::Obstacle);
            proof {
                assert forall|r2: int, c2: int| grid.in_bounds(r2, c2) implies #[trigger] grid.cell_at(
                    r2,
                    c2,
                ) == if exists|j: int|
                    0 <= j < i + 1 && #[trigger] self.obstacles@[j] == (r2 as usize, c2 as usize) {
                    CellType::Obstacle
                } else {
                    CellType::Empty
                } by {
                    if r2 == r && c2 == c {
                        assert(self.obstacles@[i as int] == (r2 as usize, c2 as usize));
                    } else {
                        if exists|j: int|
                            0 <= j < i + 1 && #[trigger] self.obstacles@[j] == (
                            r2 as usize,
                            c2 as usize,
                        ) {
                            let j = choose|j: int|
                                0 <= j < i + 1 && #[trigger] self.obstacles@[j] == (
                                r2 as usize,
                                c2 as usize,
                            );
                            assert(j != i);
                        }
                    }
                }
            }
            i = i + 1;
        }
        let mut i: usize = 0;
        while i < self.initial_biomass.len()
            invariant
                grid.wf(),
                grid.rows == self.rows,
                grid.cols == self.cols,
                i <= self.initial_biomass@.len(),
                forall|r: int, c: int|
                    grid.in_bounds(r, c) ==> #[trigger] grid.cell_at(r, c) == if exists|j: int|
                        0 <= j < i && #[trigger] self.initial_biomass@[j] == (r as usize, c as usize) {
                        CellType::Biomass
                    } else if exists|j: int|
                        0 <= j < self.obstacles@.len() && #[trigger] self.obstacles@[j] == (
                        r as usize,
                        c as usize,
                    ) {
                        CellType::Obstacle
                    } else {
                        CellType::Empty
                    },
                forall|e: Edge|
                    #[trigger] grid.edge_at(e) == if grid.edge_in_range(e) {
                        EdgeState::Passable
                    } else {
                        EdgeState::Wall
                    },
            decreases self.initial_biomass@.len() - i,
        {
            let (r, c) = self.initial_biomass[i];
            grid.set_cell(r, c, CellType::Biomass);
            proof {
                assert forall|r2: int, c2: int| grid.in_bounds(r2, c2) implies #[trigger] grid.cell_at(
                    r2,
                    c2,
                ) == if exists|j: int|
                    0 <= j < i + 1 && #[trigger] self.initial_biomass@[j] == (r2 as usize, c2 as usize) {
                    CellType::Biomass
                } else if exists|j: int|
                    0 <= j < self.obstacles@.len() && #[trigger] self.obstacles@[j] == (
                    r2 as usize,
                    c2 as usize,
                ) {
                    CellType::Obstacle
                } else {
                    CellType::Empty
                } by {
                    if r2 == r && c2 == c {
                        assert(self.initial_biomass@[i as int] == (r2 as usize, c2 as usize));
                    } else {
                        if exists|j: int|
                            0 <= j < i + 1 && #[trigger] self.initial_biomass@[j] == (
                            r2 as usize,
                            c2 as usize,
                        ) {
                            let j = choose|j: int|
                                0 <= j < i + 1 && #[trigger] self.initial_biomass@[j] == (
                                r2 as usize,
                                c2 as usize,
                            );
                            assert(j != i);
                        }
                    }
                }
            }
            i = i + 1;
        }
        let mut i: usize = 0;
        while i < self.initial_walls.len()
            invariant
                grid.wf(),
                grid.rows == self.rows,
                grid.cols == self.cols,
                i <= self.initial_walls@.len(),
                forall|r: int, c: int|
                    grid.in_bounds(r, c) ==> #[trigger] grid.cell_at(r, c) == self.initial_cell(r, c),
                forall|e: Edge|
                    #[trigger] grid.edge_at(e) == if !grid.edge_in_range(e) {
                        EdgeState::Wall
                    } else if exists|j: int| 0 <= j < i && self.initial_walls@[j] == e {
                        EdgeState::Wall
                    } else {
                        EdgeState::Passable
                    },
            decreases self.initial_walls@.len() - i,
        {
            let edge = self.initial_walls[i];
            grid.set_edge(edge, EdgeState::Wall);
            proof {
                assert forall|e: Edge|
                    #[trigger] grid.edge_at(e) == if !grid.edge_in_range(e) {
                        EdgeState::Wall
                    } else if exists|j: int| 0 <= j < i + 1 && self.initial_walls@[j] == e {
                        EdgeState::Wall
                    } else {
                        EdgeState::Passable
                    } by {
                    if e == edge {
                        assert(self.initial_walls@[i as int] == e);
                    } else if exists|j: int| 0 <= j < i + 1 && self.initial_walls@[j] == e {
                        let j = choose|j: int| 0 <= j < i + 1 && self.initial_walls@[j] == e;
                        assert(j != i);
                    }
                }
            }
            i = i + 1;
        }
        proof {
            assert forall|e: Edge|
                #[trigger] grid.edge_at(e) == if !grid.edge_in_range(e) {
                    EdgeState::Wall
                } else if self.initial_walls@.contains(e) {
                    EdgeState::Wall
                } else {
                    EdgeState::Passable
                } by {
                if self.initial_walls@.contains(e) {
                    let j = choose|j: int| 0 <= j < self.initial_walls@.len() && self.initial_walls@[j] == e;
                }
            }
        }
        grid
    }
}

impl Grid {
    /// The grid is the starting grid of the level: its size, cells and walls.
    pub open spec fn starts(&self, l: Level) -> bool {
        &&& self.rows == l.rows
        &&& self.cols == l.cols
        &&& forall|r: int, c: int|
            self.in_bounds(r, c) ==> #[trigger] self.cell_at(r, c) == l.initial_cell(r, c)
        &&& forall|e: Edge|
            #[trigger] self.edge_at(e) == if !self.edge_in_range(e) {
                EdgeState::Wall
            } else if l.initial_walls@.contains(e) {
                EdgeState::Wall
            } else {
                EdgeState::Passable
            }
    }
}

/// The starting grid of a level holds biomass on every listed biomass cell
/// inside the grid, an obstacle on every listed obstacle cell that is not
/// also listed as biomass, and nothing on every other cell.
pub proof fn lemma_initial_grid_lists(l: Level, g: Grid)
    requires
        g.starts(l),
    ensures
            forall|i: int|
                0 <= i < l.initial_biomass@.len() && g.in_bounds(
                    #[trigger] l.initial_biomass@[i].0 as int,
                    l.initial_biomass@[i].1 as int,
                ) ==> g.cell_at(l.initial_biomass@[i].0 as int, l.initial_biomass@[i].1 as int)
                    == CellType::Biomass,
            forall|j: int|
                0 <= j < l.obstacles@.len() && g.in_bounds(
                    #[trigger] l.obstacles@[j].0 as int,
                    l.obstacles@[j].1 as int,
                ) && (forall|i: int|
                    0 <= i < l.initial_biomass@.len() ==> l.initial_biomass@[i]
                        != l.obstacles@[j]) ==> g.cell_at(
                    l.obstacles@[j].0 as int,
                    l.obstacles@[j].1 as int,
                ) == CellType::Obstacle,
            forall|r: int, c: int|
                g.in_bounds(r, c) && (forall|i: int|
                    0 <= i < l.initial_biomass@.len() ==> l.initial_biomass@[i] != (
                    r as usize,
                    c as usize,
                )) && (forall|j: int|
                    0 <= j < l.obstacles@.len() ==> l.obstacles@[j] != (r as usize, c as usize))
                    ==> #[trigger] g.cell_at(r, c) == CellType::Empty,
{
    assert forall|i: int|
        0 <= i < l.initial_biomass@.len() && g.in_bounds(
            #[trigger] l.initial_biomass@[i].0 as int,
            l.initial_biomass@[i].1 as int,
        ) implies g.cell_at(l.initial_biomass@[i].0 as int, l.initial_biomass@[i].1 as int)
        == CellType::Biomass by {
        let p = l.initial_biomass@[i];
        assert(l.initial_biomass@[i] == ((p.0 as int) as usize, (p.1 as int) as usize));
    }
    assert forall|j: int|
        0 <= j < l.obstacles@.len() && g.in_bounds(
            #[trigger] l.obstacles@[j].0 as int,
            l.obstacles@[j].1 as int,
        ) && (forall|i: int|
            0 <= i < l.initial_biomass@.len() ==> l.initial_biomass@[i] != l.obstacles@[j])
        implies g.cell_at(l.obstacles@[j].0 as int, l.obstacles@[j].1 as int)
        == CellType::Obstacle by {
        let p = l.obstacles@[j];
        assert(l.obstacles@[j] == ((p.0 as int) as usize, (p.1 as int) as usize));
    }
}

/// The levels of the game, in order.
pub open spec fn level_catalogue() -> Seq<Level> {
    seq![
        Level {
            title: "Level 1: Containment 101",
            description: "Place walls on grid borders to trap and isolate biomass.",
            rows: 5,
            cols: 5,
            walls_per_turn: 2,
            spread_steps: 1,
            max_threshold: 12,
            initial_biomass: &[(2, 2)],
            obstacles: &[],
            initial_walls: &[],
            star_thresholds: (3, 5),
        },
        Level {
            title: "Level 2: Twin Spores",
            description: "Multiple active outbreak points detected. Isolate both sectors.",
            rows: 6,
            cols: 6,
            walls_per_turn: 2,
            spread_steps: 1,
            max_threshold: 18,
            initial_biomass: &[(1, 1), (4, 4)],
            obstacles: &[],
            initial_walls: &[],
            star_thresholds: (3, 6),
        },
        Level {
            title: "Level 3: Pillar Defense",
            description: "Facility structural pillars block biomass expansion and wall placement.",
            rows: 6,
            cols: 6,
            walls_per_turn: 2,
            spread_steps: 1,
            max_threshold: 16,
            initial_biomass: &[(2, 2)],
            obstacles: &[(1, 1), (1, 4), (4, 1), (4, 4)],
            initial_walls: &[],
            star_thresholds: (3, 6),
        },
        Level {
            title: "Level 4: Divided Sectors",
            description: "Utilize existing facility security barriers to quickly enclose spores.",
            rows: 7,
            cols: 7,
            walls_per_turn: 2,
            spread_steps: 1,
            max_threshold: 22,
            initial_biomass: &[(1, 3), (5, 3)],
            obstacles: &[],
            initial_walls: &[
                Edge::Horizontal { r: 3, c: 2 },
                Edge::Horizontal { r: 3, c: 3 },
                Edge::Horizontal { r: 3, c: 4 },
            ],
            star_thresholds: (4, 7),
        },
        Level {
            title: "Level 5: Rapid Mutation",
            description: "WARNING: High-speed mutation! Biomass expands 2 steps per turn.",
            rows: 7,
            cols: 7,
            walls_per_turn: 3,
            spread_steps: 2,
            max_threshold: 25,
            initial_biomass: &[(3, 3)],
            obstacles: &[(2, 2), (4, 4)],
            initial_walls: &[],
            star_thresholds: (4, 7),
        },
        Level {
            title: "Level 6: Central Rock Fortress",
            description: "Four central containment pillars restrict open corridor pathways.",
            rows: 8,
            cols: 8,
            walls_per_turn: 2,
            spread_steps: 1,
            max_threshold: 26,
            initial_biomass: &[(1, 2), (6, 5)],
            obstacles: &[(3, 3), (3, 4), (4, 3), (4, 4)],
            initial_walls: &[],
            star_thresholds: (5, 8),
        },
        Level {
            title: "Level 7: Corridor Siege",
            description: "Narrow corridor network. Seal off choke points before infection spreads.",
            rows: 8,
            cols: 8,
            walls_per_turn: 3,
            spread_steps: 1,
            max_threshold: 28,
            initial_biomass: &[(2, 2), (5, 5)],
            obstacles: &[
                (0, 3),
                (1, 3),
                (6, 4),
                (7, 4),
                (3, 0),
                (3, 1),
                (4, 6),
                (4, 7),
            ],
            initial_walls: &[],
            star_thresholds: (5, 8),
        },
        Level {
            title: "Level 8: Outbreak Zero",
            description: "Triple spore outbreak across large grid layout.",
            rows: 9,
            cols: 9,
            walls_per_turn: 3,
            spread_steps: 1,
            max_threshold: 32,
            initial_biomass: &[(1, 4), (7, 1), (7, 7)],
            obstacles: &[(4, 4)],
            initial_walls: &[],
            star_thresholds: (5, 9),
        },
        Level {
            title: "Level 9: Bio-Lab Hazard",
            description: "Multi-spore rapid outbreak with facility structural obstacles.",
            rows: 9,
            cols: 9,
            walls_per_turn: 3,
            spread_steps: 2,
            max_threshold: 35,
            initial_biomass: &[(2, 2), (6, 6)],
            obstacles: &[(2, 4), (4, 2), (4, 6), (6, 4), (1, 1), (7, 7)],
            initial_walls: &[],
            star_thresholds: (6, 9),
        },
        Level {
            title: "Level 10: Bio-Reactor Meltdown",
            description: "FINAL PROTOCOL: 4 active spores in a 10x10 reactor core with tight capacity!",
            rows: 10,
            cols: 10,
            walls_per_turn: 3,
            spread_steps: 2,
            max_threshold: 40,
            initial_biomass: &[(2, 2), (2, 7), (7, 2), (7, 7)],
            obstacles: &[
                (4, 4),
                (4, 5),
                (5, 4),
                (5, 5),
                (1, 4),
                (4, 1),
                (5, 8),
                (8, 5),
            ],
            initial_walls: &[],
            star_thresholds: (6, 10),
        },
    ]
}

/// The levels of the game, in order.
#[verifier::spinoff_prover]
pub fn get_levels() -> (levels: Vec<Level>)
    ensures
        levels@ == level_catalogue(),
        levels@.len() == 10,
        forall|i: int| 0 <= i < levels@.len() ==> #[trigger] levels@[i].valid(),
{
    let levels = vec![
        Level {
            title: "Level 1: Containment 101",
            description: "Place walls on grid borders to trap and isolate biomass.",
            rows: 5,
            cols: 5,
            walls_per_turn: 2,
            spread_steps: 1,
            max_threshold: 12,
            initial_biomass: &[(2, 2)],
            obstacles: &[],
            initial_walls: &[],
            star_thresholds: (3, 5),
        },
        Level {
            title: "Level 2: Twin Spores",
            description: "Multiple active outbreak points detected. Isolate both sectors.",
            rows: 6,
            cols: 6,
            walls_per_turn: 2,
            spread_steps: 1,
            max_threshold: 18,
            initial_biomass: &[(1, 1), (4, 4)],
            obstacles: &[],
            initial_walls: &[],
            star_thresholds: (3, 6),
        },
        Level {
            title: "Level 3: Pillar Defense",
            description: "Facility structural pillars block biomass expansion and wall placement.",
            rows: 6,
            cols: 6,
            walls_per_turn: 2,
            spread_steps: 1,
            max_threshold: 16,
            initial_biomass: &[(2, 2)],
            obstacles: &[(1, 1), (1, 4), (4, 1), (4, 4)],
            initial_walls: &[],
            star_thresholds: (3, 6),
        },
        Level {
            title: "Level 4: Divided Sectors",
            description: "Utilize existing facility security barriers to quickly enclose spores.",
            rows: 7,
            cols: 7,
            walls_per_turn: 2,
            spread_steps: 1,
            max_threshold: 22,
            initial_biomass: &[(1, 3), (5, 3)],
            obstacles: &[],
            initial_walls: &[
                Edge::Horizontal { r: 3, c: 2 },
                Edge::Horizontal { r: 3, c: 3 },
                Edge::Horizontal { r: 3, c: 4 },
            ],
            star_thresholds: (4, 7),
        },
        Level {
            title: "Level 5: Rapid Mutation",
            description: "WARNING: High-speed mutation! Biomass expands 2 steps per turn.",
            rows: 7,
            cols: 7,
            walls_per_turn: 3,
            spread_steps: 2,
            max_threshold: 25,
            initial_biomass: &[(3, 3)],
            obstacles: &[(2, 2), (4, 4)],
            initial_walls: &[],
            star_thresholds: (4, 7),
        },
        Level {
            title: "Level 6: Central Rock Fortress",
            description: "Four central containment pillars restrict open corridor pathways.",
            rows: 8,
            cols: 8,
            walls_per_turn: 2,
            spread_steps: 1,
            max_threshold: 26,
            initial_biomass: &[(1, 2), (6, 5)],
            obstacles: &[(3, 3), (3, 4), (4, 3), (4, 4)],
            initial_walls: &[],
            star_thresholds: (5, 8),
        },
        Level {
            title: "Level 7: Corridor Siege",
            description: "Narrow corridor network. Seal off choke points before infection spreads.",
            rows: 8,
            cols: 8,
            walls_per_turn: 3,
            spread_steps: 1,
            max_threshold: 28,
            initial_biomass: &[(2, 2), (5, 5)],
            obstacles: &[
                (0, 3),
                (1, 3),
                (6, 4),
                (7, 4),
                (3, 0),
                (3, 1),
                (4, 6),
                (4, 7),
            ],
            initial_walls: &[],
            star_thresholds: (5, 8),
        },
        Level {
            title: "Level 8: Outbreak Zero",
            description: "Triple spore outbreak across large grid layout.",
            rows: 9,
            cols: 9,
            walls_per_turn: 3,
            spread_steps: 1,
            max_threshold: 32,
            initial_biomass: &[(1, 4), (7, 1), (7, 7)],
            obstacles: &[(4, 4)],
            initial_walls: &[],
            star_thresholds: (5, 9),
        },
        Level {
            title: "Level 9: Bio-Lab Hazard",
            description: "Multi-spore rapid outbreak with facility structural obstacles.",
            rows: 9,
            cols: 9,
            walls_per_turn: 3,
            spread_steps: 2,
            max_threshold: 35,
            initial_biomass: &[(2, 2), (6, 6)],
            obstacles: &[(2, 4), (4, 2), (4, 6), (6, 4), (1, 1), (7, 7)],
            initial_walls: &[],
            star_thresholds: (6, 9),
        },
        Level {
            title: "Level 10: Bio-Reactor Meltdown",
            description: "FINAL PROTOCOL: 4 active spores in a 10x10 reactor core with tight capacity!",
            rows: 10,
            cols: 10,
            walls_per_turn: 3,
            spread_steps: 2,
            max_threshold: 40,
            initial_biomass: &[(2, 2), (2, 7), (7, 2), (7, 7)],
            obstacles: &[
                (4, 4),
                (4, 5),
                (5, 4),
                (5, 5),
                (1, 4),
                (4, 1),
                (5, 8),
                (8, 5),
            ],
            initial_walls: &[],
            star_thresholds: (6, 10),
        },
    ];
    assert(levels@ =~= level_catalogue());
    levels
}

} // verus!
