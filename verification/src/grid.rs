//! The facility grid: cells, the wall edges between them, and the set of
//! active biomass cells.

use vstd::prelude::*;

verus! {

/// What occupies one cell of the facility grid.
#[derive(Debug, Clone, Copy, PartialEq, Eq, Structural)]
pub enum CellType {
    Empty,
    Biomass,
    Obstacle,
}

/// The state of one edge between two cells.
#[derive(Debug, Clone, Copy, PartialEq, Eq, Structural)]
pub enum EdgeState {
    Passable,
    Wall,
}

/// An edge of the grid.
///
/// `Horizontal { r, c }` lies between cell `(r - 1, c)` and cell `(r, c)`, for
/// `r` in `0..=rows` and `c` in `0..cols`; `Vertical { r, c }` lies between
/// cell `(r, c - 1)` and cell `(r, c)`, for `r` in `0..rows` and `c` in `0..=cols`.
#[derive(Debug, Clone, Copy, PartialEq, Eq, Hash, Structural)]
pub enum Edge {
    Horizontal { r: usize, c: usize },
    Vertical { r: usize, c: usize },
}

/// The facility grid.
///
/// `cells` is stored row by row, `h_walls` row by row over `rows + 1` edge rows,
/// `v_walls` row by row over `cols + 1` edge columns. `active_biomass` lists
/// every biomass cell exactly once.
#[derive(Debug, Clone)]
pub struct Grid {
    pub rows: usize,
    pub cols: usize,
    pub cells: Vec<CellType>,
    pub h_walls: Vec<EdgeState>,
    pub v_walls: Vec<EdgeState>,
    pub active_biomass: Vec<(usize, usize)>,
}

/// `0 <= r * cols + c < rows * cols` for a cell inside a `rows` by `cols` grid.
pub proof fn lemma_index_in_bounds(rows: int, cols: int, r: int, c: int)
    requires
        0 <= r < rows,
        0 <= c < cols,
    ensures
        0 <= r * cols + c < rows * cols,
{
    assert(0 <= r * cols) by (nonlinear_arith)
        requires
            0 <= r,
            0 <= cols,
    ;
    assert(r * cols + cols <= rows * cols) by (nonlinear_arith)
        requires
            r + 1 <= rows,
            0 <= cols,
    ;
}

/// The sizes of the cell and edge arrays are bounded by `(rows + 1) * (cols + 1)`.
pub proof fn lemma_dims_fit(rows: int, cols: int)
    requires
        0 <= rows,
        0 <= cols,
    ensures
        rows * cols <= (rows + 1) * (cols + 1),
        (rows + 1) * cols <= (rows + 1) * (cols + 1),
        rows * (cols + 1) <= (rows + 1) * (cols + 1),
        (rows + 1) * (cols + 1) == rows * cols + rows + cols + 1,
        (rows + 1) * cols == rows * cols + cols,
        rows * (cols + 1) == rows * cols + rows,
{
    assert((rows + 1) * (cols + 1) == rows * cols + rows + cols + 1) by (nonlinear_arith);
    assert((rows + 1) * cols == rows * cols + cols) by (nonlinear_arith);
    assert(rows * (cols + 1) == rows * cols + rows) by (nonlinear_arith);
    assert(0 <= rows * cols) by (nonlinear_arith)
        requires
            0 <= rows,
            0 <= cols,
    ;
}

/// Row-major indices of two cells of one grid are equal only for the same cell.
pub proof fn lemma_index_injective(cols: int, r1: int, c1: int, r2: int, c2: int)
    requires
        0 <= r1,
        0 <= r2,
        0 <= c1 < cols,
        0 <= c2 < cols,
        r1 * cols + c1 == r2 * cols + c2,
    ensures
        r1 == r2,
        c1 == c2,
{
    if r1 < r2 {
        assert(r1 * cols + cols <= r2 * cols) by (nonlinear_arith)
            requires
                r1 + 1 <= r2,
                0 <= cols,
        ;
    } else if r2 < r1 {
        assert(r2 * cols + cols <= r1 * cols) by (nonlinear_arith)
            requires
                r2 + 1 <= r1,
                0 <= cols,
        ;
    }
}

/// Two cells share a side.
pub open spec fn cells_adjacent(r1: int, c1: int, r2: int, c2: int) -> bool {
    ||| (r1 == r2 && (c1 == c2 + 1 || c2 == c1 + 1))
    ||| (c1 == c2 && (r1 == r2 + 1 || r2 == r1 + 1))
}

pub open spec fn max_int(a: int, b: int) -> int {
    if a >= b {
        a
    } else {
        b
    }
}

/// A vector of `n` copies of `x`.
pub(crate) fn filled<T: Copy>(x: T, n: usize) -> (v: Vec<T>)
    ensures
        v@ == Seq::new(n as nat, |i: int| x),
{
    let mut v: Vec<T> = Vec::new();
    let mut i: usize = 0;
    while i < n
        invariant
            i <= n,
            v@ == Seq::new(i as nat, |j: int| x),
        decreases n - i,
    {
        v.push(x);
        i = i + 1;
        assert(v@ =~= Seq::new(i as nat, |j: int| x));
    }
    v
}

impl Grid {
    /// The cell `(r, c)` lies inside the grid.
    pub open spec fn in_bounds(&self, r: int, c: int) -> bool {
        0 <= r < self.rows && 0 <= c < self.cols
    }

    /// What occupies `(r, c)`; outside the grid every position reads as an obstacle.
    pub open spec fn cell_at(&self, r: int, c: int) -> CellType {
        if self.in_bounds(r, c) {
            self.cells@[r * self.cols + c]
        } else {
            CellType::Obstacle
        }
    }

    /// The edge exists in the grid's edge arrays.
    pub open spec fn edge_in_range(&self, e: Edge) -> bool {
        match e {
            Edge::Horizontal { r, c } => r <= self.rows && c < self.cols,
            Edge::Vertical { r, c } => r < self.rows && c <= self.cols,
        }
    }

    /// The state of an edge; an edge outside the grid reads as a wall.
    pub open spec fn edge_at(&self, e: Edge) -> EdgeState {
        match e {
            Edge::Horizontal { r, c } => if r <= self.rows && c < self.cols {
                self.h_walls@[r * self.cols + c]
            } else {
                EdgeState::Wall
            },
            Edge::Vertical { r, c } => if r < self.rows && c <= self.cols {
                self.v_walls@[r * (self.cols + 1) + c]
            } else {
                EdgeState::Wall
            },
        }
    }

    /// The cells that hold biomass.
    pub open spec fn biomass_cells(&self) -> Set<(usize, usize)> {
        Set::new(|p: (usize, usize)| self.cell_at(p.0 as int, p.1 as int) == CellType::Biomass)
    }

    /// The storage matches the dimensions, and `active_biomass` lists each
    /// biomass cell exactly once.
    pub open spec fn wf(&self) -> bool {
        &&& (self.rows + 1) * (self.cols + 1) <= usize::MAX
        &&& self.cells@.len() == self.rows * self.cols
        &&& self.h_walls@.len() == (self.rows + 1) * self.cols
        &&& self.v_walls@.len() == self.rows * (self.cols + 1)
        &&& self.active_biomass@.no_duplicates()
        &&& self.active_biomass@.to_set() == self.biomass_cells()
    }

    /// Is there a wall between `(r1, c1)` and `(r2, c2)`? Cells that do not
    /// share a side always count as separated.
    pub open spec fn wall_between(&self, r1: int, c1: int, r2: int, c2: int) -> bool {
        if !cells_adjacent(r1, c1, r2, c2) {
            true
        } else if r1 != r2 {
            self.edge_at(Edge::Horizontal { r: max_int(r1, r2) as usize, c: c1 as usize })
                == EdgeState::Wall
        } else {
            self.edge_at(Edge::Vertical { r: r1 as usize, c: max_int(c1, c2) as usize })
                == EdgeState::Wall
        }
    }

    /// A wall may go on this edge: it is passable, lies strictly inside the
    /// grid, and does not separate two obstacles.
    pub open spec fn wall_placeable(&self, e: Edge) -> bool {
        &&& self.edge_at(e) != EdgeState::Wall
        &&& match e {
            Edge::Horizontal { r, c } => 0 < r < self.rows && (self.cell_at(r - 1, c as int)
                != CellType::Obstacle || self.cell_at(r as int, c as int) != CellType::Obstacle),
            Edge::Vertical { r, c } => 0 < c < self.cols && (self.cell_at(r as int, c - 1)
                != CellType::Obstacle || self.cell_at(r as int, c as int) != CellType::Obstacle),
        }
    }

    /// The in-bounds neighbours of `(r, c)`, in the order up, down, left, right.
    pub open spec fn neighbors(&self, r: int, c: int) -> Seq<(usize, usize)> {
        let up: Seq<(usize, usize)> = if self.in_bounds(r - 1, c) {
            seq![((r - 1) as usize, c as usize)]
        } else {
            seq![]
        };
        let down: Seq<(usize, usize)> = if self.in_bounds(r + 1, c) {
            seq![((r + 1) as usize, c as usize)]
        } else {
            seq![]
        };
        let left: Seq<(usize, usize)> = if self.in_bounds(r, c - 1) {
            seq![(r as usize, (c - 1) as usize)]
        } else {
            seq![]
        };
        let right: Seq<(usize, usize)> = if self.in_bounds(r, c + 1) {
            seq![(r as usize, (c + 1) as usize)]
        } else {
            seq![]
        };
        up + down + left + right
    }

    /// Two cells are joined by an open side: both lie in the grid, they share
    /// a side, and no wall stands on it.
    pub open spec fn open_between(&self, a: (usize, usize), b: (usize, usize)) -> bool {
        &&& self.in_bounds(a.0 as int, a.1 as int)
        &&& self.in_bounds(b.0 as int, b.1 as int)
        &&& !self.wall_between(a.0 as int, a.1 as int, b.0 as int, b.1 as int)
    }

    /// An empty grid: every cell empty, every edge passable, no biomass.
    pub fn new(rows: usize, cols: usize) -> (g: Grid)
        requires
            (rows + 1) * (cols + 1) <= usize::MAX,
        ensures
            g.wf(),
            g.rows == rows,
            g.cols == cols,
            forall|r: int, c: int| g.in_bounds(r, c) ==> g.cell_at(r, c) == CellType::Empty,
            forall|e: Edge|
                #[trigger] g.edge_at(e) == if g.edge_in_range(e) {
                    EdgeState::Passable
                } else {
                    EdgeState::Wall
                },
            g.biomass_cells() == Set::<(usize, usize)>::empty(),
            g.active_biomass@.len() == 0,
    {
        proof {
            lemma_dims_fit(rows as int, cols as int);
        }
        let n_cells = rows * cols;
        let n_h = (rows + 1) * cols;
        let n_v = rows * (cols + 1);
        let g = Grid {
            rows,
            cols,
            cells: filled(CellType::Empty, n_cells),
            h_walls: filled(EdgeState::Passable, n_h),
            v_walls: filled(EdgeState::Passable, n_v),
            active_biomass: Vec::new(),
        };
        assert forall|r: int, c: int| g.in_bounds(r, c) implies g.cell_at(r, c)
            == CellType::Empty by {
            lemma_index_in_bounds(rows as int, cols as int, r, c);
        }
        assert forall|e: Edge|
            #[trigger] g.edge_at(e) == if g.edge_in_range(e) {
                EdgeState::Passable
            } else {
                EdgeState::Wall
            } by {
            match e {
                Edge::Horizontal { r, c } => {
                    if g.edge_in_range(e) {
                        lemma_index_in_bounds(rows + 1, cols as int, r as int, c as int);
                    }
                },
                Edge::Vertical { r, c } => {
                    if g.edge_in_range(e) {
                        lemma_index_in_bounds(rows as int, cols + 1, r as int, c as int);
                    }
                },
            }
        }
        assert(g.biomass_cells() =~= Set::<(usize, usize)>::empty()) by {
            assert forall|p: (usize, usize)| !g.biomass_cells().contains(p) by {
                if g.in_bounds(p.0 as int, p.1 as int) {
                    lemma_index_in_bounds(rows as int, cols as int, p.0 as int, p.1 as int);
                }
            }
        }
        assert(g.active_biomass@.to_set() =~= Set::<(usize, usize)>::empty());
        g
    }

    /// Is `(r, c)` inside the grid?
    pub fn is_valid_cell(&self, r: usize, c: usize) -> (b: bool)
        ensures
            b == self.in_bounds(r as int, c as int),
    {
        r < self.rows && c < self.cols
    }

    /// The row-major index of `(r, c)`.
    pub fn cell_idx(&self, r: usize, c: usize) -> (i: usize)
        requires
            self.wf(),
            self.in_bounds(r as int, c as int),
        ensures
            i == r * self.cols + c,
            i < self.cells@.len(),
    {
        proof {
            lemma_index_in_bounds(self.rows as int, self.cols as int, r as int, c as int);
            lemma_dims_fit(self.rows as int, self.cols as int);
        }
        r * self.cols + c
    }

    /// The in-bounds neighbours of `(r, c)`, in the order up, down, left, right.
    pub fn valid_neighbors(&self, r: usize, c: usize) -> (v: Vec<(usize, usize)>)
        ensures
            v@ == self.neighbors(r as int, c as int),
    {
        let mut v: Vec<(usize, usize)> = Vec::new();
        if r >= 1 && r - 1 < self.rows && c < self.cols {
            v.push((r - 1, c));
        }
        if r < self.rows && r + 1 < self.rows && c < self.cols {
            v.push((r + 1, c));
        }
        if c >= 1 && r < self.rows && c - 1 < self.cols {
            v.push((r, c - 1));
        }
        if c < self.cols && c + 1 < self.cols && r < self.rows {
            v.push((r, c + 1));
        }
        assert(v@ =~= self.neighbors(r as int, c as int));
        v
    }

    /// What occupies `(r, c)`; positions outside the grid read as obstacles.
    pub fn get_cell(&self, r: usize, c: usize) -> (t: CellType)
        requires
            self.wf(),
        ensures
            t == self.cell_at(r as int, c as int),
    {
        if self.is_valid_cell(r, c) {
            self.cells[self.cell_idx(r, c)]
        } else {
            CellType::Obstacle
        }
    }

    /// Puts `cell_type` into `(r, c)` and keeps the biomass list in step; a
    /// position outside the grid is ignored.
    pub fn set_cell(&mut self, r: usize, c: usize, cell_type: CellType)
        requires
            old(self).wf(),
        ensures
            final(self).wf(),
            final(self).rows == old(self).rows,
            final(self).cols == old(self).cols,
            final(self).h_walls@ == old(self).h_walls@,
            final(self).v_walls@ == old(self).v_walls@,
            forall|e: Edge| #[trigger] final(self).edge_at(e) == old(self).edge_at(e),
            forall|r2: int, c2: int|
                #[trigger] final(self).cell_at(r2, c2) == if r2 == r && c2 == c && old(
                    self,
                ).in_bounds(r2, c2) {
                    cell_type
                } else {
                    old(self).cell_at(r2, c2)
                },
            old(self).in_bounds(r as int, c as int) ==> final(self).biomass_cells() == if cell_type
                == CellType::Biomass {
                old(self).biomass_cells().insert((r, c))
            } else {
                old(self).biomass_cells().remove((r, c))
            },
            !old(self).in_bounds(r as int, c as int) ==> final(self).biomass_cells() == old(
                self,
            ).biomass_cells(),
    {
        if self.is_valid_cell(r, c) {
            let ghost old_g = *self;
            let idx = self.cell_idx(r, c);
            self.cells.set(idx, cell_type);
            match position_of(&self.active_biomass, (r, c)) {
                Some(pos) => {
                    if cell_type != CellType::Biomass {
                        let ghost before = self.active_biomass@;
                        self.active_biomass.remove(pos);
                        proof {
                            lemma_remove_unique(before, pos as int);
                        }
                    }
                },
                None => {
                    if cell_type == CellType::Biomass {
                        let ghost before = self.active_biomass@;
                        self.active_biomass.push((r, c));
                        proof {
                            before.lemma_push_to_set_commute((r, c));
                            assert(self.active_biomass@.no_duplicates()) by {
                                assert forall|i: int, j: int|
                                    0 <= i < self.active_biomass@.len() && 0 <= j
                                        < self.active_biomass@.len() && i != j implies
                                    self.active_biomass@[i] != self.active_biomass@[j] by {
                                    if i < before.len() && j < before.len() {
                                    } else if i < before.len() {
                                        assert(before.contains(before[i]));
                                    } else {
                                        assert(before.contains(before[j]));
                                    }
                                }
                            }
                        }
                    }
                },
            }
            assert forall|r2: int, c2: int|
                #[trigger] self.cell_at(r2, c2) == if r2 == r && c2 == c && old_g.in_bounds(
                    r2,
                    c2,
                ) {
                    cell_type
                } else {
                    old_g.cell_at(r2, c2)
                } by {
                if self.in_bounds(r2, c2) {
                    lemma_index_in_bounds(self.rows as int, self.cols as int, r2, c2);
                    if r2 * self.cols + c2 == idx {
                        lemma_index_injective(self.cols as int, r2, c2, r as int, c as int);
                    }
                }
            }
            let ghost new_set = if cell_type == CellType::Biomass {
                old_g.biomass_cells().insert((r, c))
            } else {
                old_g.biomass_cells().remove((r, c))
            };
            assert(self.biomass_cells() =~= new_set);
            assert(self.active_biomass@.to_set() =~= new_set);
        }
    }

    /// The number of biomass cells on the grid.
    pub fn count_biomass(&self) -> (n: usize)
        requires
            self.wf(),
        ensures
            n == self.biomass_cells().len(),
            self.biomass_cells().finite(),
    {
        proof {
            self.active_biomass@.unique_seq_to_set();
        }
        self.active_biomass.len()
    }

    /// The state of an edge; edges outside the grid read as walls.
    pub fn get_edge(&self, edge: Edge) -> (s: EdgeState)
        requires
            self.wf(),
        ensures
            s == self.edge_at(edge),
    {
        proof {
            lemma_dims_fit(self.rows as int, self.cols as int);
        }
        match edge {
            Edge::Horizontal { r, c } => {
                if r <= self.rows && c < self.cols {
                    proof {
                        lemma_index_in_bounds(self.rows + 1, self.cols as int, r as int, c as int);
                    }
                    self.h_walls[r * self.cols + c]
                } else {
                    EdgeState::Wall
                }
            },
            Edge::Vertical { r, c } => {
                if r < self.rows && c <= self.cols {
                    proof {
                        lemma_index_in_bounds(self.rows as int, self.cols + 1, r as int, c as int);
                    }
                    self.v_walls[r * (self.cols + 1) + c]
                } else {
                    EdgeState::Wall
                }
            },
        }
    }

    /// Sets the state of an edge; an edge outside the grid is ignored.
    pub fn set_edge(&mut self, edge: Edge, state: EdgeState)
        requires
            old(self).wf(),
        ensures
            final(self).wf(),
            final(self).rows == old(self).rows,
            final(self).cols == old(self).cols,
            final(self).cells@ == old(self).cells@,
            final(self).active_biomass@ == old(self).active_biomass@,
            forall|r: int, c: int| #[trigger] final(self).cell_at(r, c) == old(self).cell_at(r, c),
            final(self).biomass_cells() == old(self).biomass_cells(),
            forall|e: Edge|
                #[trigger] final(self).edge_at(e) == if e == edge && old(self).edge_in_range(e) {
                    state
                } else {
                    old(self).edge_at(e)
                },
    {
        proof {
            lemma_dims_fit(self.rows as int, self.cols as int);
        }
        let ghost old_g = *self;
        match edge {
            Edge::Horizontal { r, c } => {
                if r <= self.rows && c < self.cols {
                    proof {
                        lemma_index_in_bounds(self.rows + 1, self.cols as int, r as int, c as int);
                    }
                    self.h_walls.set(r * self.cols + c, state);
                }
            },
            Edge::Vertical { r, c } => {
                if r < self.rows && c <= self.cols {
                    proof {
                        lemma_index_in_bounds(self.rows as int, self.cols + 1, r as int, c as int);
                    }
                    self.v_walls.set(r * (self.cols + 1) + c, state);
                }
            },
        }
        assert(self.biomass_cells() =~= old_g.biomass_cells());
        assert forall|e: Edge|
            #[trigger] self.edge_at(e) == if e == edge && old_g.edge_in_range(e) {
                state
            } else {
                old_g.edge_at(e)
            } by {
            match e {
                Edge::Horizontal { r: r2, c: c2 } => {
                    if old_g.edge_in_range(e) {
                        lemma_index_in_bounds(self.rows + 1, self.cols as int, r2 as int, c2 as int);
                        if let Edge::Horizontal { r, c } = edge {
                            if old_g.edge_in_range(edge) && r2 * self.cols + c2 == r * self.cols + c {
                                lemma_index_injective(
                                    self.cols as int,
                                    r2 as int,
                                    c2 as int,
                                    r as int,
                                    c as int,
                                );
                            }
                        }
                    }
                },
                Edge::Vertical { r: r2, c: c2 } => {
                    if old_g.edge_in_range(e) {
                        lemma_index_in_bounds(self.rows as int, self.cols + 1, r2 as int, c2 as int);
                        if let Edge::Vertical { r, c } = edge {
                            if old_g.edge_in_range(edge) && r2 * (self.cols + 1) + c2 == r * (
                            self.cols + 1) + c {
                                lemma_index_injective(
                                    self.cols + 1,
                                    r2 as int,
                                    c2 as int,
                                    r as int,
                                    c as int,
                                );
                            }
                        }
                    }
                },
            }
        }
    }

    /// Is there a wall between `(r1, c1)` and `(r2, c2)`? Cells that do not
    /// share a side always count as separated.
    pub fn has_wall_between(&self, r1: usize, c1: usize, r2: usize, c2: usize) -> (b: bool)
        requires
            self.wf(),
        ensures
            b == self.wall_between(r1 as int, c1 as int, r2 as int, c2 as int),
    {
        let dr: usize = if r1 >= r2 {
            r1 - r2
        } else {
            r2 - r1
        };
        let dc: usize = if c1 >= c2 {
            c1 - c2
        } else {
            c2 - c1
        };
        if !((dr == 1 && dc == 0) || (dr == 0 && dc == 1)) {
            return true;
        }
        if r1 != r2 {
            let wall_r: usize = if r1 >= r2 {
                r1
            } else {
                r2
            };
            self.get_edge(Edge::Horizontal { r: wall_r, c: c1 }) == EdgeState::Wall
        } else {
            let wall_c: usize = if c1 >= c2 {
                c1
            } else {
                c2
            };
            self.get_edge(Edge::Vertical { r: r1, c: wall_c }) == EdgeState::Wall
        }
    }

    /// May a wall be placed on this edge? It must be passable, lie strictly
    /// inside the grid, and not separate two obstacles.
    pub fn can_place_wall(&self, edge: Edge) -> (b: bool)
        requires
            self.wf(),
        ensures
            b == self.wall_placeable(edge),
            match edge {
                Edge::Horizontal { r, c } => b == (self.edge_at(edge) == EdgeState::Passable && 0 < r
                    && r < self.rows && c < self.cols && !(self.cell_at(r - 1, c as int)
                    == CellType::Obstacle && self.cell_at(r as int, c as int) == CellType::Obstacle)),
                Edge::Vertical { r, c } => b == (self.edge_at(edge) == EdgeState::Passable && 0 < c
                    && c < self.cols && r < self.rows && !(self.cell_at(r as int, c - 1)
                    == CellType::Obstacle && self.cell_at(r as int, c as int) == CellType::Obstacle)),
            },
    {
        if self.get_edge(edge) == EdgeState::Wall {
            return false;
        }
        match edge {
            Edge::Horizontal { r, c } => {
                (r > 0 && r < self.rows) && (self.get_cell(r - 1, c) != CellType::Obstacle
                    || self.get_cell(r, c) != CellType::Obstacle)
            },
            Edge::Vertical { r, c } => {
                (c > 0 && c < self.cols) && (self.get_cell(r, c - 1) != CellType::Obstacle
                    || self.get_cell(r, c) != CellType::Obstacle)
            },
        }
    }

    /// Is there any edge on which a wall may still be placed?
    pub fn has_any_legal_wall_placement(&self) -> (b: bool)
        requires
            self.wf(),
        ensures
            b == exists|e: Edge| #[trigger] self.wall_placeable(e),
    {
        let mut r: usize = 1;
        while r < self.rows
            invariant
                self.wf(),
                1 <= r <= self.rows || self.rows == 0,
                forall|e: Edge|
                    #![trigger self.wall_placeable(e)]
                    e is Horizontal && e->Horizontal_r < r ==> !self.wall_placeable(e),
            decreases self.rows - r,
        {
            let mut c: usize = 0;
            while c < self.cols
                invariant
                    self.wf(),
                    1 <= r < self.rows,
                    c <= self.cols,
                    forall|e: Edge|
                        #![trigger self.wall_placeable(e)]
                        e is Horizontal && (e->Horizontal_r < r || (e->Horizontal_r == r
                            && e->Horizontal_c < c)) ==> !self.wall_placeable(e),
                decreases self.cols - c,
            {
                if self.can_place_wall(Edge::Horizontal { r, c }) {
                    assert(self.wall_placeable(Edge::Horizontal { r, c }));
                    return true;
                }
                c = c + 1;
            }
            r = r + 1;
        }
        let mut r: usize = 0;
        while r < self.rows
            invariant
                self.wf(),
                r <= self.rows,
                forall|e: Edge|
                    #![trigger self.wall_placeable(e)]
                    e is Horizontal ==> !self.wall_placeable(e),
                forall|e: Edge|
                    #![trigger self.wall_placeable(e)]
                    e is Vertical && e->Vertical_r < r ==> !self.wall_placeable(e),
            decreases self.rows - r,
        {
            let mut c: usize = 1;
            while c < self.cols
                invariant
                    self.wf(),
                    r < self.rows,
                    1 <= c,
                    c <= self.cols || self.cols == 0,
                    forall|e: Edge|
                        #![trigger self.wall_placeable(e)]
                        e is Horizontal ==> !self.wall_placeable(e),
                    forall|e: Edge|
                        #![trigger self.wall_placeable(e)]
                        e is Vertical && (e->Vertical_r < r || (e->Vertical_r == r
                            && e->Vertical_c < c)) ==> !self.wall_placeable(e),
                decreases self.cols - c,
            {
                if self.can_place_wall(Edge::Vertical { r, c }) {
                    assert(self.wall_placeable(Edge::Vertical { r, c }));
                    return true;
                }
                c = c + 1;
            }
            r = r + 1;
        }
        false
    }
}

/// A wall may go exactly on a passable edge strictly inside the grid whose
/// two cells are not both obstacles: a horizontal edge `(r, c)` with
/// `0 < r < rows` and `c < cols`, a vertical edge `(r, c)` with
/// `0 < c < cols` and `r < rows`.
pub proof fn lemma_wall_placeable_exact(g: &Grid, e: Edge)
    ensures
        match e {
            Edge::Horizontal { r, c } => g.wall_placeable(e) == (g.edge_at(e) == EdgeState::Passable
                && 0 < r && r < g.rows && c < g.cols && !(g.cell_at(r - 1, c as int)
                == CellType::Obstacle && g.cell_at(r as int, c as int) == CellType::Obstacle)),
            Edge::Vertical { r, c } => g.wall_placeable(e) == (g.edge_at(e) == EdgeState::Passable
                && 0 < c && c < g.cols && r < g.rows && !(g.cell_at(r as int, c - 1)
                == CellType::Obstacle && g.cell_at(r as int, c as int) == CellType::Obstacle)),
        },
{
}

/// A wall between two cells is the same seen from either side.
pub proof fn lemma_wall_between_symmetric(g: &Grid, r1: int, c1: int, r2: int, c2: int)
    ensures
        g.wall_between(r1, c1, r2, c2) == g.wall_between(r2, c2, r1, c1),
{
}

/// Joined by an open side is a symmetric relation.
pub proof fn lemma_open_between_symmetric(g: &Grid, a: (usize, usize), b: (usize, usize))
    ensures
        g.open_between(a, b) == g.open_between(b, a),
{
    lemma_wall_between_symmetric(g, a.0 as int, a.1 as int, b.0 as int, b.1 as int);
}

/// The neighbour list of a cell holds exactly the in-bounds cells that share a
/// side with it.
pub proof fn lemma_neighbors_exact(g: &Grid, r: int, c: int, p: (usize, usize))
    ensures
        g.neighbors(r, c).contains(p) <==> (g.in_bounds(p.0 as int, p.1 as int) && cells_adjacent(
            r,
            c,
            p.0 as int,
            p.1 as int,
        )),
{
    let s = g.neighbors(r, c);
    if g.in_bounds(p.0 as int, p.1 as int) && cells_adjacent(r, c, p.0 as int, p.1 as int) {
        let up: Seq<(usize, usize)> = if g.in_bounds(r - 1, c) {
            seq![((r - 1) as usize, c as usize)]
        } else {
            seq![]
        };
        let down: Seq<(usize, usize)> = if g.in_bounds(r + 1, c) {
            seq![((r + 1) as usize, c as usize)]
        } else {
            seq![]
        };
        let left: Seq<(usize, usize)> = if g.in_bounds(r, c - 1) {
            seq![(r as usize, (c - 1) as usize)]
        } else {
            seq![]
        };
        if p.0 == r - 1 {
            assert(s[0] == p);
        } else if p.0 == r + 1 {
            assert(s[up.len() as int] == p);
        } else if p.1 == c - 1 {
            assert(s[(up.len() + down.len()) as int] == p);
        } else {
            assert(s[(up.len() + down.len() + left.len()) as int] == p);
        }
    }
}

/// Position of `x` in `v`, if it occurs.
fn position_of(v: &Vec<(usize, usize)>, x: (usize, usize)) -> (res: Option<usize>)
    ensures
        match res {
            Some(i) => i < v@.len() && v@[i as int] == x,
            None => !v@.contains(x),
        },
{
    let mut i: usize = 0;
    while i < v.len()
        invariant
            i <= v@.len(),
            forall|j: int| 0 <= j < i ==> v@[j] != x,
        decreases v@.len() - i,
    {
        let p = v[i];
        if p.0 == x.0 && p.1 == x.1 {
            return Some(i);
        }
        i = i + 1;
    }
    None
}

/// Removing one element from a sequence without repeats removes exactly that
/// element from its set and keeps the sequence free of repeats.
proof fn lemma_remove_unique<T>(s: Seq<T>, i: int)
    requires
        s.no_duplicates(),
        0 <= i < s.len(),
    ensures
        s.remove(i).no_duplicates(),
        s.remove(i).to_set() == s.to_set().remove(s[i]),
{
    let t = s.remove(i);
    assert forall|a: int, b: int| 0 <= a < t.len() && 0 <= b < t.len() && a != b implies t[a]
        != t[b] by {
        let a2 = if a < i {
            a
        } else {
            a + 1
        };
        let b2 = if b < i {
            b
        } else {
            b + 1
        };
        assert(t[a] == s[a2] && t[b] == s[b2]);
    }
    assert forall|y: T| #[trigger] t.to_set().contains(y) <==> s.to_set().remove(s[i]).contains(y) by {
        if t.contains(y) {
            let k = choose|k: int| 0 <= k < t.len() && t[k] == y;
            let k2 = if k < i {
                k
            } else {
                k + 1
            };
            assert(s[k2] == y);
            assert(k2 != i);
        }
        if s.contains(y) && y != s[i] {
            let k = choose|k: int| 0 <= k < s.len() && s[k] == y;
            assert(k != i);
            if k < i {
                assert(t[k] == y);
            } else {
                assert(t[k - 1] == y);
            }
        }
    }
    assert(t.to_set() =~= s.to_set().remove(s[i]));
}

} // verus!
