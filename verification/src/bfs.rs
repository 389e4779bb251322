//! Biomass spread and the sealed-enclosure die-off rule.

use vstd::prelude::*;
use crate::grid::{
    CellType, Edge, Grid, cells_adjacent, filled, max_int, lemma_dims_fit, lemma_index_in_bounds, lemma_index_injective,
    lemma_neighbors_exact, lemma_open_between_symmetric,
};

verus! {

/// One clone of the spread: the biomass cell `from` infects the cell `to`.
#[derive(Debug, Clone, Copy, PartialEq, Eq)]
pub struct CloneEvent {
    pub from: (usize, usize),
    pub to: (usize, usize),
}

/// The cell holds biomass.
pub open spec fn is_biomass(g: &Grid, p: (usize, usize)) -> bool {
    g.cell_at(p.0 as int, p.1 as int) == CellType::Biomass
}

/// A walk through biomass cells in which each step crosses an open side.
pub open spec fn biomass_path(g: &Grid, path: Seq<(usize, usize)>) -> bool {
    &&& path.len() > 0
    &&& forall|i: int| 0 <= i < path.len() ==> #[trigger] is_biomass(g, path[i])
    &&& forall|i: int| 0 <= i < path.len() - 1 ==> #[trigger] g.open_between(path[i], path[i + 1])
}

/// `b` lies in the same biomass component as `a`.
pub open spec fn connected(g: &Grid, a: (usize, usize), b: (usize, usize)) -> bool {
    exists|path: Seq<(usize, usize)>|
        #[trigger] biomass_path(g, path) && path[0] == a && path.last() == b
}

/// The cell has an open side towards an empty cell.
pub open spec fn touches_empty(g: &Grid, a: (usize, usize)) -> bool {
    exists|e: (usize, usize)|
        g.cell_at(e.0 as int, e.1 as int) == CellType::Empty && #[trigger] g.open_between(a, e)
}

/// The sealed-enclosure rule: a biomass cell starves when no cell of its
/// component has an open side towards an empty cell.
pub open spec fn starved(g: &Grid, a: (usize, usize)) -> bool {
    &&& is_biomass(g, a)
    &&& forall|b: (usize, usize)| #[trigger] connected(g, a, b) ==> !touches_empty(g, b)
}

/// Every open biomass neighbour of a cell of `s` lies in `s`.
pub open spec fn closed_under_spread(g: &Grid, s: Seq<(usize, usize)>) -> bool {
    forall|x: (usize, usize), y: (usize, usize)|
        #![trigger s.contains(x), g.open_between(x, y)]
        s.contains(x) && g.open_between(x, y) && is_biomass(g, y) ==> s.contains(y)
}

/// A biomass cell is in its own component.
pub proof fn lemma_connected_refl(g: &Grid, a: (usize, usize))
    requires
        is_biomass(g, a),
    ensures
        connected(g, a, a),
{
    let p = seq![a];
    assert(biomass_path(g, p));
}

/// A component grows by one open step into biomass.
pub proof fn lemma_connected_step(g: &Grid, a: (usize, usize), x: (usize, usize), y: (usize, usize))
    requires
        connected(g, a, x),
        g.open_between(x, y),
        is_biomass(g, y),
    ensures
        connected(g, a, y),
{
    let p = choose|p: Seq<(usize, usize)>| #[trigger] biomass_path(g, p) && p[0] == a && p.last() == x;
    let q = p.push(y);
    assert forall|i: int| 0 <= i < q.len() implies #[trigger] is_biomass(g, q[i]) by {
        if i < p.len() {
            assert(q[i] == p[i]);
        }
    }
    assert forall|i: int| 0 <= i < q.len() - 1 implies #[trigger] g.open_between(q[i], q[i + 1]) by {
        if i < p.len() - 1 {
            assert(q[i] == p[i] && q[i + 1] == p[i + 1]);
        }
    }
    assert(biomass_path(g, q));
}

/// Being in one component is symmetric.
pub proof fn lemma_connected_symm(g: &Grid, a: (usize, usize), b: (usize, usize))
    requires
        connected(g, a, b),
    ensures
        connected(g, b, a),
{
    let p = choose|p: Seq<(usize, usize)>| #[trigger] biomass_path(g, p) && p[0] == a && p.last() == b;
    let q = p.reverse();
    assert forall|i: int| 0 <= i < q.len() implies #[trigger] is_biomass(g, q[i]) by {
        assert(q[i] == p[p.len() - 1 - i]);
    }
    assert forall|i: int| 0 <= i < q.len() - 1 implies #[trigger] g.open_between(q[i], q[i + 1]) by {
        let j = p.len() - 2 - i;
        assert(q[i] == p[j + 1] && q[i + 1] == p[j]);
        assert(g.open_between(p[j], p[j + 1]));
        lemma_open_between_symmetric(g, p[j], p[j + 1]);
    }
    assert(biomass_path(g, q));
}

/// Being in one component is transitive.
pub proof fn lemma_connected_trans(g: &Grid, a: (usize, usize), b: (usize, usize), c: (usize, usize))
    requires
        connected(g, a, b),
        connected(g, b, c),
    ensures
        connected(g, a, c),
{
    let p = choose|p: Seq<(usize, usize)>| #[trigger] biomass_path(g, p) && p[0] == a && p.last() == b;
    let q = choose|q: Seq<(usize, usize)>| #[trigger] biomass_path(g, q) && q[0] == b && q.last() == c;
    let r = p + q.drop_first();
    assert forall|i: int| 0 <= i < r.len() implies #[trigger] is_biomass(g, r[i]) by {
        if i < p.len() {
            assert(r[i] == p[i]);
        } else {
            assert(r[i] == q[i - p.len() + 1]);
        }
    }
    assert forall|i: int| 0 <= i < r.len() - 1 implies #[trigger] g.open_between(r[i], r[i + 1]) by {
        if i < p.len() - 1 {
            assert(r[i] == p[i] && r[i + 1] == p[i + 1]);
        } else {
            let j = i - p.len() + 1;
            assert(r[i] == q[j] && r[i + 1] == q[j + 1]);
        }
    }
    assert(biomass_path(g, r));
    assert(r.last() == c);
}

/// A set that contains `a` and is closed under open biomass steps contains
/// `a`'s whole component.
pub proof fn lemma_closed_contains_component(
    g: &Grid,
    s: Seq<(usize, usize)>,
    a: (usize, usize),
    b: (usize, usize),
)
    requires
        s.contains(a),
        closed_under_spread(g, s),
        connected(g, a, b),
    ensures
        s.contains(b),
{
    let p = choose|p: Seq<(usize, usize)>| #[trigger] biomass_path(g, p) && p[0] == a && p.last() == b;
    lemma_closed_contains_path_prefix(g, s, p, p.len() - 1);
}

proof fn lemma_closed_contains_path_prefix(
    g: &Grid,
    s: Seq<(usize, usize)>,
    p: Seq<(usize, usize)>,
    k: int,
)
    requires
        biomass_path(g, p),
        s.contains(p[0]),
        closed_under_spread(g, s),
        0 <= k < p.len(),
    ensures
        s.contains(p[k]),
    decreases k,
{
    if k > 0 {
        lemma_closed_contains_path_prefix(g, s, p, k - 1);
        assert(g.open_between(p[k - 1], p[(k - 1) + 1]));
        assert(is_biomass(g, p[k]));
    }
}

/// Starvation is decided per component: every cell of a starved cell's
/// component starves too.
pub proof fn lemma_starved_component(g: &Grid, a: (usize, usize), b: (usize, usize))
    requires
        starved(g, a),
        connected(g, a, b),
    ensures
        starved(g, b),
{
    let p = choose|p: Seq<(usize, usize)>| #[trigger] biomass_path(g, p) && p[0] == a && p.last() == b;
    assert(is_biomass(g, p[p.len() - 1]));
    assert forall|c: (usize, usize)| #[trigger] connected(g, b, c) implies !touches_empty(g, c) by {
        lemma_connected_trans(g, a, b, c);
    }
}

/// A starving cell has no open side towards an empty cell.
pub proof fn lemma_starved_sealed(g: &Grid, a: (usize, usize))
    requires
        starved(g, a),
    ensures
        !touches_empty(g, a),
{
    lemma_connected_refl(g, a);
}

proof fn lemma_path_prefix_connected(g: &Grid, path: Seq<(usize, usize)>, i: int)
    requires
        biomass_path(g, path),
        0 <= i < path.len(),
    ensures
        connected(g, path[0], path[i]),
{
    let q = path.subrange(0, i + 1);
    assert forall|k: int| 0 <= k < q.len() implies #[trigger] is_biomass(g, q[k]) by {
        assert(q[k] == path[k]);
    }
    assert forall|k: int| 0 <= k < q.len() - 1 implies #[trigger] g.open_between(q[k], q[k + 1]) by {
        assert(q[k] == path[k] && q[k + 1] == path[k + 1]);
    }
    assert(biomass_path(g, q));
    assert(q.last() == path[i]);
}

/// The die-off leaves no sealed biomass behind: once every starved cell of
/// `pre` is emptied, walls and all other cells kept, no biomass cell of the
/// result starves.
pub proof fn lemma_dieoff_complete(pre: &Grid, post: &Grid)
    requires
        post.rows == pre.rows,
        post.cols == pre.cols,
        forall|e: Edge| #[trigger] post.edge_at(e) == pre.edge_at(e),
        forall|r: int, c: int|
            #[trigger] post.cell_at(r, c) == if pre.in_bounds(r, c) && starved(
                pre,
                (r as usize, c as usize),
            ) {
                CellType::Empty
            } else {
                pre.cell_at(r, c)
            },
    ensures
        forall|p: (usize, usize)| !#[trigger] starved(post, p),
{
    assert forall|x: (usize, usize), y: (usize, usize)|
        #[trigger] post.open_between(x, y) == pre.open_between(x, y) by {
        if cells_adjacent(x.0 as int, x.1 as int, y.0 as int, y.1 as int) {
            if x.0 != y.0 {
                let e = Edge::Horizontal {
                    r: max_int(x.0 as int, y.0 as int) as usize,
                    c: x.1,
                };
                assert(post.edge_at(e) == pre.edge_at(e));
            } else {
                let e = Edge::Vertical {
                    r: x.0,
                    c: max_int(x.1 as int, y.1 as int) as usize,
                };
                assert(post.edge_at(e) == pre.edge_at(e));
            }
        }
    }
    assert forall|b: (usize, usize)| !#[trigger] starved(post, b) by {
        if is_biomass(post, b) {
            assert(post.cell_at(b.0 as int, b.1 as int) == CellType::Biomass);
            assert(is_biomass(pre, b));
            assert(!starved(pre, b));
            let c = choose|c: (usize, usize)| #[trigger] connected(pre, b, c) && touches_empty(pre, c);
            let path = choose|path: Seq<(usize, usize)>|
                #[trigger] biomass_path(pre, path) && path[0] == b && path.last() == c;
            assert forall|i: int| 0 <= i < path.len() implies #[trigger] is_biomass(post, path[i]) by {
                let q = path[i];
                lemma_path_prefix_connected(pre, path, i);
                if starved(pre, q) {
                    lemma_connected_symm(pre, b, q);
                    lemma_starved_component(pre, q, b);
                }
                assert(post.cell_at(q.0 as int, q.1 as int) == pre.cell_at(q.0 as int, q.1 as int));
            }
            assert forall|i: int| 0 <= i < path.len() - 1 implies #[trigger] post.open_between(
                path[i],
                path[i + 1],
            ) by {
                assert(pre.open_between(path[i], path[i + 1]));
            }
            assert(biomass_path(post, path));
            assert(connected(post, b, c));
            let e = choose|e: (usize, usize)|
                pre.cell_at(e.0 as int, e.1 as int) == CellType::Empty && #[trigger] pre.open_between(c, e);
            assert(post.cell_at(e.0 as int, e.1 as int) == CellType::Empty);
            assert(post.open_between(c, e));
            assert(touches_empty(post, c));
        }
    }
}

/// The row-major index of a cell.
pub open spec fn flat(g: &Grid, p: (usize, usize)) -> int {
    p.0 * g.cols + p.1
}

/// `a` is a prefix of `b`.
pub open spec fn is_prefix<T>(a: Seq<T>, b: Seq<T>) -> bool {
    &&& a.len() <= b.len()
    &&& forall|i: int| 0 <= i < a.len() ==> #[trigger] a[i] == b[i]
}

/// The search order lists distinct biomass cells, and the visited marks are
/// set exactly for the cells in the search order.
pub open spec fn search_state(g: &Grid, order: Seq<(usize, usize)>, visited: Seq<bool>) -> bool {
    &&& visited.len() == g.rows * g.cols
    &&& order.no_duplicates()
    &&& forall|q: int|
        0 <= q < order.len() ==> g.in_bounds(#[trigger] order[q].0 as int, order[q].1 as int)
            && is_biomass(g, order[q])
    &&& forall|p: (usize, usize)|
        g.in_bounds(p.0 as int, p.1 as int) ==> (#[trigger] visited[flat(g, p)] <==> order.contains(
            p,
        ))
}

proof fn lemma_prefix_contains<T>(a: Seq<T>, b: Seq<T>, x: T)
    requires
        is_prefix(a, b),
        a.contains(x),
    ensures
        b.contains(x),
{
    let i = choose|i: int| 0 <= i < a.len() && a[i] == x;
    assert(b[i] == x);
}

/// Marks `p` as visited and appends it to the search order.
fn mark_visited(
    grid: &Grid,
    p: (usize, usize),
    visited: &mut Vec<bool>,
    order: &mut Vec<(usize, usize)>,
)
    requires
        grid.wf(),
        search_state(grid, old(order)@, old(visited)@),
        grid.in_bounds(p.0 as int, p.1 as int),
        is_biomass(grid, p),
        !old(order)@.contains(p),
    ensures
        search_state(grid, final(order)@, final(visited)@),
        final(order)@ == old(order)@.push(p),
{
    let ghost old_order = order@;
    let ghost old_visited = visited@;
    let idx = grid.cell_idx(p.0, p.1);
    visited.set(idx, true);
    order.push(p);
    assert forall|x: (usize, usize)| grid.in_bounds(x.0 as int, x.1 as int) implies (
    #[trigger] visited@[flat(grid, x)] <==> order@.contains(x)) by {
        lemma_index_in_bounds(grid.rows as int, grid.cols as int, x.0 as int, x.1 as int);
        if flat(grid, x) == idx {
            lemma_index_injective(grid.cols as int, x.0 as int, x.1 as int, p.0 as int, p.1 as int);
            assert(order@[order@.len() - 1] == p);
        } else {
            assert(visited@[flat(grid, x)] == old_visited[flat(grid, x)]);
            if old_order.contains(x) {
                let i = choose|i: int| 0 <= i < old_order.len() && old_order[i] == x;
                assert(order@[i] == x);
            }
            if order@.contains(x) {
                let i = choose|i: int| 0 <= i < order@.len() && order@[i] == x;
                if i < old_order.len() {
                    assert(old_order[i] == x);
                }
            }
        }
    }
    assert forall|a: int, b: int|
        0 <= a < order@.len() && 0 <= b < order@.len() && a != b implies order@[a]
        != order@[b] by {
        if a < old_order.len() && b < old_order.len() {
        } else if a < old_order.len() {
            assert(old_order.contains(old_order[a]));
        } else {
            assert(old_order.contains(old_order[b]));
        }
    }
}

/// Looks at the four sides of `cur`: marks each biomass neighbour across an
/// open side that is not yet visited, and records whether an empty cell lies
/// across an open side.
fn visit_neighbors(
    grid: &Grid,
    cur: (usize, usize),
    visited: &mut Vec<bool>,
    order: &mut Vec<(usize, usize)>,
) -> (touches: bool)
    requires
        grid.wf(),
        search_state(grid, old(order)@, old(visited)@),
        grid.in_bounds(cur.0 as int, cur.1 as int),
    ensures
        search_state(grid, final(order)@, final(visited)@),
        is_prefix(old(order)@, final(order)@),
        forall|y: (usize, usize)|
            #[trigger] grid.open_between(cur, y) && is_biomass(grid, y) ==> final(order)@.contains(
                y,
            ),
        forall|q: int|
            old(order)@.len() <= q < final(order)@.len() ==> grid.open_between(
                cur,
                #[trigger] final(order)@[q],
            ),
        touches == touches_empty(grid, cur),
{
    let ghost order0 = order@;
    let nbrs = grid.valid_neighbors(cur.0, cur.1);
    let mut touches = false;
    let mut k: usize = 0;
    while k < nbrs.len()
        invariant
            grid.wf(),
            grid.in_bounds(cur.0 as int, cur.1 as int),
            nbrs@ == grid.neighbors(cur.0 as int, cur.1 as int),
            k <= nbrs@.len(),
            search_state(grid, order@, visited@),
            is_prefix(order0, order@),
            forall|j: int|
                0 <= j < k && grid.open_between(cur, #[trigger] nbrs@[j]) && is_biomass(
                    grid,
                    nbrs@[j],
                ) ==> order@.contains(nbrs@[j]),
            forall|q: int|
                order0.len() <= q < order@.len() ==> grid.open_between(cur, #[trigger] order@[q]),
            touches <==> exists|j: int|
                0 <= j < k && grid.open_between(cur, #[trigger] nbrs@[j]) && grid.cell_at(
                    nbrs@[j].0 as int,
                    nbrs@[j].1 as int,
                ) == CellType::Empty,
        decreases nbrs@.len() - k,
    {
        let nb = nbrs[k];
        let ghost touches_before = touches;
        assert(nb == nbrs@[k as int]);
        proof {
            lemma_neighbors_exact(grid, cur.0 as int, cur.1 as int, nb);
            assert(nbrs@.contains(nb));
            assert(grid.in_bounds(nb.0 as int, nb.1 as int));
        }
        if !grid.has_wall_between(cur.0, cur.1, nb.0, nb.1) {
            let t = grid.get_cell(nb.0, nb.1);
            if t == CellType::Empty {
                touches = true;
            } else if t == CellType::Biomass {
                let idx = grid.cell_idx(nb.0, nb.1);
                if visited[idx] {
                    assert(visited@[flat(grid, nb)]);
                } else {
                    assert(!visited@[flat(grid, nb)]);
                    let ghost before = order@;
                    mark_visited(grid, nb, visited, order);
                    assert forall|j: int|
                        0 <= j < k && grid.open_between(cur, #[trigger] nbrs@[j]) && is_biomass(
                            grid,
                            nbrs@[j],
                        ) implies order@.contains(nbrs@[j]) by {
                        lemma_prefix_contains(before, order@, nbrs@[j]);
                    }
                    assert(order@[order@.len() - 1] == nb);
                    assert forall|q: int| order0.len() <= q < order@.len() implies grid.open_between(
                        cur,
                        #[trigger] order@[q],
                    ) by {
                        if q < before.len() {
                            assert(order@[q] == before[q]);
                        }
                    }
                }
            }
        }
        proof {
            assert(grid.open_between(cur, nb) && is_biomass(grid, nb) ==> order@.contains(nb));
            let hit = grid.open_between(cur, nbrs@[k as int]) && grid.cell_at(
                nbrs@[k as int].0 as int,
                nbrs@[k as int].1 as int,
            ) == CellType::Empty;
            if grid.wall_between(cur.0 as int, cur.1 as int, nb.0 as int, nb.1 as int) {
                assert(!hit);
                assert(touches == touches_before);
            } else {
                assert(grid.open_between(cur, nb));
            }
            assert(touches == (touches_before || hit));
            if touches {
                if !hit {
                    let j = choose|j: int|
                        0 <= j < k && grid.open_between(cur, #[trigger] nbrs@[j]) && grid.cell_at(
                            nbrs@[j].0 as int,
                            nbrs@[j].1 as int,
                        ) == CellType::Empty;
                    assert(0 <= j < k + 1);
                }
            } else {
                assert forall|j: int| 0 <= j < k + 1 implies !(grid.open_between(
                    cur,
                    #[trigger] nbrs@[j],
                ) && grid.cell_at(nbrs@[j].0 as int, nbrs@[j].1 as int) == CellType::Empty) by {
                }
            }
        }
        k = k + 1;
    }
    proof {
        assert forall|y: (usize, usize)|
            #[trigger] grid.open_between(cur, y) && is_biomass(grid, y) implies order@.contains(y) by {
            lemma_neighbors_exact(grid, cur.0 as int, cur.1 as int, y);
            let j = choose|j: int| 0 <= j < nbrs@.len() && nbrs@[j] == y;
            assert(grid.open_between(cur, nbrs@[j]));
        }
        if touches_empty(grid, cur) {
            let e = choose|e: (usize, usize)|
                grid.cell_at(e.0 as int, e.1 as int) == CellType::Empty && #[trigger] grid.open_between(
                    cur,
                    e,
                );
            lemma_neighbors_exact(grid, cur.0 as int, cur.1 as int, e);
            let j = choose|j: int| 0 <= j < nbrs@.len() && nbrs@[j] == e;
            assert(grid.open_between(cur, nbrs@[j]));
        }
    }
    touches
}

/// The search order never lists more cells than the grid has.
proof fn lemma_search_len_bound(g: &Grid, order: Seq<(usize, usize)>, visited: Seq<bool>)
    requires
        g.wf(),
        search_state(g, order, visited),
    ensures
        order.len() <= g.rows * g.cols,
{
    lemma_distinct_cells_bound(g, order);
}

/// A list of distinct cells of the grid has at most `rows * cols` entries.
proof fn lemma_distinct_cells_bound(g: &Grid, cells: Seq<(usize, usize)>)
    requires
        g.wf(),
        cells.no_duplicates(),
        forall|q: int|
            0 <= q < cells.len() ==> g.in_bounds(#[trigger] cells[q].0 as int, cells[q].1 as int),
    ensures
        cells.len() <= g.rows * g.cols,
{
    let n = g.rows * g.cols;
    let s = cells.map_values(|p: (usize, usize)| flat(g, p));
    assert forall|a: int, b: int| 0 <= a < s.len() && 0 <= b < s.len() && a != b implies s[a]
        != s[b] by {
        assert(g.in_bounds(cells[a].0 as int, cells[a].1 as int));
        assert(g.in_bounds(cells[b].0 as int, cells[b].1 as int));
        if s[a] == s[b] {
            lemma_index_injective(
                g.cols as int,
                cells[a].0 as int,
                cells[a].1 as int,
                cells[b].0 as int,
                cells[b].1 as int,
            );
        }
    }
    assert(s.to_set().subset_of(vstd::set_lib::set_int_range(0, n))) by {
        assert forall|x: int| s.to_set().contains(x) implies vstd::set_lib::set_int_range(
            0,
            n,
        ).contains(x) by {
            let k = choose|k: int| 0 <= k < s.len() && s[k] == x;
            assert(g.in_bounds(cells[k].0 as int, cells[k].1 as int));
            lemma_index_in_bounds(g.rows as int, g.cols as int, cells[k].0 as int, cells[k].1 as int);
        }
    }
    vstd::set_lib::lemma_int_range(0, n);
    vstd::set_lib::lemma_len_subset(s.to_set(), vstd::set_lib::set_int_range(0, n));
    s.unique_seq_to_set();
}

/// Once the search of a component is complete, every cell of it starves
/// exactly when none of its cells has an open side towards an empty cell.
proof fn lemma_component_decides(
    g: &Grid,
    order: Seq<(usize, usize)>,
    comp_start: int,
    start: (usize, usize),
    has_access: bool,
)
    requires
        0 <= comp_start < order.len(),
        order[comp_start] == start,
        closed_under_spread(g, order),
        closed_under_spread(g, order.subrange(0, comp_start)),
        !order.subrange(0, comp_start).contains(start),
        forall|q: int| comp_start <= q < order.len() ==> #[trigger] connected(g, start, order[q]),
        has_access <==> exists|q: int|
            comp_start <= q < order.len() && #[trigger] touches_empty(g, order[q]),
    ensures
        forall|q: int|
            comp_start <= q < order.len() ==> (#[trigger] starved(g, order[q]) <==> !has_access),
{
    let prefix = order.subrange(0, comp_start);
    assert(order.contains(start)) by {
        assert(order[comp_start] == start);
    }
    assert forall|q: int| comp_start <= q < order.len() implies (#[trigger] starved(g, order[q])
        <==> !has_access) by {
        let x = order[q];
        assert(connected(g, start, x));
        let p = choose|p: Seq<(usize, usize)>| #[trigger] biomass_path(g, p) && p[0] == start && p.last() == x;
        assert(is_biomass(g, p[p.len() - 1]));
        if !has_access {
            assert forall|b: (usize, usize)| #[trigger] connected(g, x, b) implies !touches_empty(
                g,
                b,
            ) by {
                lemma_connected_trans(g, start, x, b);
                lemma_closed_contains_component(g, order, start, b);
                let qb = choose|qb: int| 0 <= qb < order.len() && order[qb] == b;
                if qb < comp_start {
                    assert(prefix[qb] == b);
                    lemma_connected_symm(g, start, b);
                    lemma_closed_contains_component(g, prefix, b, start);
                } else {
                    assert(connected(g, start, order[qb]));
                }
            }
        } else {
            let qa = choose|qa: int|
                comp_start <= qa < order.len() && #[trigger] touches_empty(g, order[qa]);
            lemma_connected_symm(g, start, x);
            lemma_connected_trans(g, x, start, order[qa]);
        }
    }
}

/// Evaluates the sealed-enclosure rule: returns, each once, the biomass
/// cells whose component has no open path across passable edges to any
/// empty cell. These cells die off.
pub fn evaluate_sealed_enclosure_dieoff(grid: &Grid) -> (starved_cells: Vec<(usize, usize)>)
    requires
        grid.wf(),
    ensures
        starved_cells@.no_duplicates(),
        forall|p: (usize, usize)| #[trigger] starved_cells@.contains(p) <==> starved(grid, p),
{
    proof {
        lemma_dims_fit(grid.rows as int, grid.cols as int);
    }
    let n: usize = grid.rows * grid.cols;
    let mut visited: Vec<bool> = filled(false, n);
    let mut order: Vec<(usize, usize)> = Vec::new();
    let mut starved_cells: Vec<(usize, usize)> = Vec::new();
    proof {
        assert forall|p: (usize, usize)| grid.in_bounds(p.0 as int, p.1 as int) implies (
        #[trigger] visited@[flat(grid, p)] <==> order@.contains(p)) by {
            lemma_index_in_bounds(grid.rows as int, grid.cols as int, p.0 as int, p.1 as int);
        }
    }
    let mut i: usize = 0;
    while i < grid.active_biomass.len()
        invariant
            grid.wf(),
            search_state(grid, order@, visited@),
            closed_under_spread(grid, order@),
            i <= grid.active_biomass@.len(),
            forall|j: int| 0 <= j < i ==> order@.contains(#[trigger] grid.active_biomass@[j]),
            starved_cells@.no_duplicates(),
            forall|p: (usize, usize)|
                #[trigger] starved_cells@.contains(p) <==> (order@.contains(p) && starved(grid, p)),
        decreases grid.active_biomass@.len() - i,
    {
        let start = grid.active_biomass[i];
        proof {
            assert(grid.active_biomass@.to_set().contains(start));
            assert(grid.biomass_cells().contains(start));
        }
        let sidx = grid.cell_idx(start.0, start.1);
        if visited[sidx] {
            assert(visited@[flat(grid, start)]);
        } else {
            assert(!visited@[flat(grid, start)]);
            let ghost prefix = order@;
            let ghost done = starved_cells@;
            let comp_start = order.len();
            mark_visited(grid, start, &mut visited, &mut order);
            proof {
                lemma_connected_refl(grid, start);
                assert(order@[comp_start as int] == start);
            }
            let mut head: usize = comp_start;
            let mut has_access = false;
            while head < order.len()
                invariant
                    grid.wf(),
                    search_state(grid, order@, visited@),
                    comp_start == prefix.len(),
                    is_prefix(prefix, order@),
                    comp_start <= head <= order@.len(),
                    comp_start < order@.len(),
                    order@[comp_start as int] == start,
                    closed_under_spread(grid, prefix),
                    !prefix.contains(start),
                    forall|q: int|
                        comp_start <= q < order@.len() ==> #[trigger] connected(grid, start, order@[q]),
                    forall|q: int, y: (usize, usize)|
                        #![trigger order@[q], grid.open_between(order@[q], y)]
                        comp_start <= q < head && grid.open_between(order@[q], y) && is_biomass(
                            grid,
                            y,
                        ) ==> order@.contains(y),
                    has_access <==> exists|q: int|
                        comp_start <= q < head && #[trigger] touches_empty(grid, order@[q]),
                decreases grid.rows * grid.cols - head,
            {
                proof {
                    lemma_search_len_bound(grid, order@, visited@);
                }
                let cur = order[head];
                let ghost before = order@;
                let ghost access_before = has_access;
                let touches = visit_neighbors(grid, cur, &mut visited, &mut order);
                if touches {
                    has_access = true;
                }
                proof {
                    assert forall|q: int| comp_start <= q < order@.len() implies #[trigger] connected(
                        grid,
                        start,
                        order@[q],
                    ) by {
                        if q < before.len() {
                            assert(order@[q] == before[q]);
                        } else {
                            assert(connected(grid, start, before[head as int]));
                            assert(grid.open_between(cur, order@[q]));
                            lemma_connected_step(grid, start, cur, order@[q]);
                        }
                    }
                    assert forall|q: int, y: (usize, usize)|
                        comp_start <= q < head + 1 && grid.open_between(order@[q], y) && is_biomass(
                            grid,
                            y,
                        ) implies order@.contains(y) by {
                        if q < head {
                            assert(order@[q] == before[q]);
                            assert(before.contains(y));
                            lemma_prefix_contains(before, order@, y);
                        }
                    }
                    assert forall|j: int| 0 <= j < prefix.len() implies #[trigger] prefix[j]
                        == order@[j] by {
                        assert(prefix[j] == before[j]);
                    }
                    if has_access {
                        if !access_before {
                            assert(touches_empty(grid, order@[head as int]));
                        } else {
                            let q0 = choose|q: int|
                                comp_start <= q < head && #[trigger] touches_empty(grid, before[q]);
                            assert(order@[q0] == before[q0]);
                            assert(touches_empty(grid, order@[q0]));
                        }
                    } else {
                        assert forall|q: int| comp_start <= q < head + 1 implies !#[trigger] touches_empty(
                            grid,
                            order@[q],
                        ) by {
                            if q < head {
                                assert(order@[q] == before[q]);
                            }
                        }
                    }
                }
                head = head + 1;
            }
            proof {
                assert(order@.subrange(0, comp_start as int) =~= prefix);
                assert(closed_under_spread(grid, order@)) by {
                    assert forall|x: (usize, usize), y: (usize, usize)|
                        #![trigger order@.contains(x), grid.open_between(x, y)]
                        order@.contains(x) && grid.open_between(x, y) && is_biomass(grid, y)
                            implies order@.contains(y) by {
                        let q = choose|q: int| 0 <= q < order@.len() && order@[q] == x;
                        if q < comp_start {
                            assert(prefix[q] == x);
                            assert(prefix.contains(x));
                            assert(prefix.contains(y));
                            lemma_prefix_contains(prefix, order@, y);
                        } else {
                            assert(grid.open_between(order@[q], y));
                        }
                    }
                }
                lemma_component_decides(grid, order@, comp_start as int, start, has_access);
            }
            if !has_access {
                let end = order.len();
                let mut k: usize = comp_start;
                while k < end
                    invariant
                        comp_start <= k <= end,
                        end == order@.len(),
                        order@.no_duplicates(),
                        is_prefix(prefix, order@),
                        comp_start == prefix.len(),
                        starved_cells@.no_duplicates(),
                        forall|p: (usize, usize)|
                            #[trigger] starved_cells@.contains(p) <==> (done.contains(p) || exists|
                                q: int,
                            | comp_start <= q < k && order@[q] == p),
                        forall|p: (usize, usize)| #[trigger] done.contains(p) ==> prefix.contains(p),
                    decreases end - k,
                {
                    let cell = order[k];
                    proof {
                        assert(!starved_cells@.contains(cell)) by {
                            if done.contains(cell) {
                                let q = choose|q: int| 0 <= q < prefix.len() && prefix[q] == cell;
                                assert(order@[q] == cell);
                            }
                            if exists|q: int| comp_start <= q < k && order@[q] == cell {
                                let q = choose|q: int| comp_start <= q < k && order@[q] == cell;
                                assert(order@[q] == order@[k as int]);
                            }
                        }
                    }
                    let ghost before = starved_cells@;
                    starved_cells.push(cell);
                    proof {
                        assert forall|a: int, b: int|
                            0 <= a < starved_cells@.len() && 0 <= b < starved_cells@.len() && a
                                != b implies starved_cells@[a] != starved_cells@[b] by {
                            if a < before.len() && b < before.len() {
                            } else if a < before.len() {
                                assert(before.contains(before[a]));
                            } else {
                                assert(before.contains(before[b]));
                            }
                        }
                        assert forall|p: (usize, usize)| #[trigger] starved_cells@.contains(p) <==> (
                        done.contains(p) || exists|q: int| comp_start <= q < k + 1 && order@[q] == p) by {
                            if starved_cells@.contains(p) {
                                let j = choose|j: int| 0 <= j < starved_cells@.len() && starved_cells@[j] == p;
                                if j < before.len() {
                                    assert(before.contains(p));
                                } else {
                                    assert(order@[k as int] == p);
                                }
                            }
                            if exists|q: int| comp_start <= q < k + 1 && order@[q] == p {
                                let q = choose|q: int| comp_start <= q < k + 1 && order@[q] == p;
                                if q < k {
                                    assert(before.contains(p));
                                    let j = choose|j: int| 0 <= j < before.len() && before[j] == p;
                                    assert(starved_cells@[j] == p);
                                } else {
                                    assert(starved_cells@[before.len() as int] == p);
                                }
                            }
                            if done.contains(p) {
                                assert(before.contains(p));
                                let j = choose|j: int| 0 <= j < before.len() && before[j] == p;
                                assert(starved_cells@[j] == p);
                            }
                        }
                    }
                    k = k + 1;
                }
            }
            proof {
                assert forall|p: (usize, usize)| #[trigger] starved_cells@.contains(p) <==> (
                order@.contains(p) && starved(grid, p)) by {
                    if order@.contains(p) {
                        let q = choose|q: int| 0 <= q < order@.len() && order@[q] == p;
                        if q < comp_start {
                            assert(prefix[q] == p);
                        } else {
                            assert(starved(grid, order@[q]) <==> !has_access);
                        }
                    }
                    if done.contains(p) {
                        lemma_prefix_contains(prefix, order@, p);
                    }
                }
            }
        }
        proof {
            assert forall|j: int| 0 <= j < i + 1 implies order@.contains(
                #[trigger] grid.active_biomass@[j],
            ) by {
                if j < i {
                    // order only grew
                }
            }
        }
        i = i + 1;
    }
    proof {
        assert forall|p: (usize, usize)| #[trigger] starved_cells@.contains(p) <==> starved(grid, p) by {
            if starved(grid, p) {
                assert(grid.biomass_cells().contains(p));
                assert(grid.active_biomass@.to_set().contains(p));
                let j = choose|j: int| 0 <= j < grid.active_biomass@.len() && grid.active_biomass@[j] == p;
                assert(order@.contains(grid.active_biomass@[j]));
            }
        }
    }
    starved_cells
}

/// The largest range below which `random_index` is drawn.
pub const RANDOM_RANGE_LIMIT: u64 = 0x20_0000_0000_0000;

/// Draws an index below `n` from macroquad's global generator
/// (`macroquad::rand::gen_range(0, n)`, the function of the `quad-rand` crate
/// that macroquad re-exports). That function scales a 32-bit draw `k` by
/// `k / 2^32 < 1` in `f64` and truncates; for `n <= 2^53` the product stays
/// below `n`. Which index comes back depends on the generator's state: only
/// its range is stated.
#[verifier::external_body]
fn random_index(n: usize) -> (i: usize)
    requires
        0 < n <= RANDOM_RANGE_LIMIT,
    ensures
        i < n,
{
    macroquad::rand::gen_range(0, n)
}

/// A copy of a list of cells.
pub(crate) fn copy_cells(v: &Vec<(usize, usize)>) -> (res: Vec<(usize, usize)>)
    ensures
        res@ == v@,
{
    let mut res: Vec<(usize, usize)> = Vec::new();
    let mut i: usize = 0;
    while i < v.len()
        invariant
            i <= v@.len(),
            res@ == v@.subrange(0, i as int),
        decreases v@.len() - i,
    {
        res.push(v[i]);
        i = i + 1;
        assert(res@ =~= v@.subrange(0, i as int));
    }
    assert(res@ =~= v@);
    res
}

/// Does `v` list `x`?
fn contains_cell(v: &Vec<(usize, usize)>, x: (usize, usize)) -> (b: bool)
    ensures
        b == v@.contains(x),
{
    let mut i: usize = 0;
    while i < v.len()
        invariant
            i <= v@.len(),
            forall|j: int| 0 <= j < i ==> v@[j] != x,
        decreases v@.len() - i,
    {
        let p = v[i];
        if p.0 == x.0 && p.1 == x.1 {
            assert(v@[i as int] == x);
            return true;
        }
        i = i + 1;
    }
    false
}

/// Shuffles the list in place (Fisher-Yates, from the back): the same cells,
/// each as often as before, in an order drawn from the global generator.
fn shuffle_cells(v: &mut Vec<(usize, usize)>)
    requires
        old(v)@.len() <= RANDOM_RANGE_LIMIT,
    ensures
        final(v)@.len() == old(v)@.len(),
        final(v)@.to_multiset() == old(v)@.to_multiset(),
{
    let ghost orig = v@;
    let len = v.len();
    if len > 1 {
        let mut i: usize = len - 1;
        while i >= 1
            invariant
                v@.len() == len,
                len <= RANDOM_RANGE_LIMIT,
                i < len,
                v@.to_multiset() == orig.to_multiset(),
            decreases i,
        {
            let j = random_index(i + 1);
            let a = v[i];
            let b = v[j];
            let ghost before = v@;
            v.set(i, b);
            v.set(j, a);
            proof {
                let mid = before.update(i as int, b);
                vstd::seq_lib::to_multiset_update(before, i as int, b);
                vstd::seq_lib::to_multiset_update(mid, j as int, a);
                assert(mid[j as int] == b);
                assert(v@ == mid.update(j as int, a));
                before.to_multiset_ensures();
                assert(before.to_multiset().count(a) > 0) by {
                    assert(before.contains(a)) by {
                        assert(before[i as int] == a);
                    }
                }
                assert(v@.to_multiset() =~= before.to_multiset());
            }
            i = i - 1;
        }
    }
}

/// The cells that one step of the spread infects.
pub open spec fn step_targets(ev: Seq<CloneEvent>) -> Set<(usize, usize)> {
    Set::new(|p: (usize, usize)| exists|k: int| 0 <= k < ev.len() && #[trigger] ev[k].to == p)
}

/// The cells infected by the first `s` steps.
pub open spec fn targets_before(hist: Seq<Seq<CloneEvent>>, s: int) -> Set<(usize, usize)>
    decreases s,
{
    if s <= 0 {
        Set::empty()
    } else {
        targets_before(hist, s - 1).union(step_targets(hist[s - 1]))
    }
}

/// The cells that hold biomass before step `s`: the grid's biomass and the
/// cells infected by the earlier steps.
pub open spec fn occupied(g: &Grid, hist: Seq<Seq<CloneEvent>>, s: int) -> Set<(usize, usize)> {
    g.biomass_cells().union(targets_before(hist, s))
}

/// The number of clones in the first `s` steps.
pub open spec fn clones_before(hist: Seq<Seq<CloneEvent>>, s: int) -> int
    decreases s,
{
    if s <= 0 {
        0
    } else {
        clones_before(hist, s - 1) + hist[s - 1].len()
    }
}

/// Cell `x` has an open side towards an empty cell outside `occ`.
pub open spec fn can_spread(g: &Grid, x: (usize, usize), occ: Set<(usize, usize)>) -> bool {
    exists|y: (usize, usize)|
        #[trigger] g.open_between(x, y) && g.cell_at(y.0 as int, y.1 as int) == CellType::Empty
            && !occ.contains(y)
}

/// One clone goes from a cell of `occ` across an open side into an empty
/// cell outside `occ`.
pub open spec fn clone_ok(g: &Grid, occ: Set<(usize, usize)>, e: CloneEvent) -> bool {
    &&& occ.contains(e.from)
    &&& g.open_between(e.from, e.to)
    &&& g.cell_at(e.to.0 as int, e.to.1 as int) == CellType::Empty
    &&& !occ.contains(e.to)
}

/// A list of clones made from the cells of `occ`: at least one clone; each
/// goes from a cell of `occ` across an open side into an empty cell outside
/// `occ`; no cell clones twice and no cell is infected twice.
pub open spec fn events_valid(g: &Grid, occ: Set<(usize, usize)>, ev: Seq<CloneEvent>) -> bool {
    &&& ev.len() > 0
    &&& forall|k: int| 0 <= k < ev.len() ==> #[trigger] clone_ok(g, occ, ev[k])
    &&& forall|k1: int, k2: int|
        0 <= k1 < ev.len() && 0 <= k2 < ev.len() && k1 != k2 ==> #[trigger] ev[k1].from
            != #[trigger] ev[k2].from && ev[k1].to != ev[k2].to
}

/// Step `s` is a valid list of clones from the cells that hold biomass before it.
pub open spec fn step_valid(g: &Grid, hist: Seq<Seq<CloneEvent>>, s: int) -> bool {
    events_valid(g, occupied(g, hist, s), hist[s])
}

/// Unless step `s` used up the clone budget, every biomass cell that did not
/// clone in it had nowhere left to clone into by the end of the step.
pub open spec fn step_complete(g: &Grid, hist: Seq<Seq<CloneEvent>>, s: int, max_clones: int) -> bool {
    clones_before(hist, s + 1) < max_clones ==> forall|x: (usize, usize)|
        #![trigger occupied(g, hist, s).contains(x)]
        occupied(g, hist, s).contains(x) && !(exists|k: int|
            0 <= k < hist[s].len() && #[trigger] hist[s][k].from == x) ==> !can_spread(
            g,
            x,
            occupied(g, hist, s + 1),
        )
}

/// Step `s` is valid and complete.
pub open spec fn step_sound(g: &Grid, hist: Seq<Seq<CloneEvent>>, s: int, max_clones: int) -> bool {
    step_valid(g, hist, s) && step_complete(g, hist, s, max_clones)
}

/// What every run of the spread satisfies, whatever the generator draws: at
/// most `max_steps` steps and `max_clones` clones, each step valid and
/// complete, and when it stops early with budget left, no biomass cell can
/// spread any more.
pub open spec fn expansion_valid(
    g: &Grid,
    hist: Seq<Seq<CloneEvent>>,
    max_steps: int,
    max_clones: int,
) -> bool {
    &&& hist.len() <= max_steps
    &&& clones_before(hist, hist.len() as int) <= max_clones
    &&& forall|s: int|
        0 <= s < hist.len() ==> #[trigger] step_sound(g, hist, s, max_clones)
    &&& (hist.len() < max_steps && clones_before(hist, hist.len() as int) < max_clones) ==> forall|
        x: (usize, usize),
    |
        #[trigger] occupied(g, hist, hist.len() as int).contains(x) ==> !can_spread(
            g,
            x,
            occupied(g, hist, hist.len() as int),
        )
}

/// The event lists of a step history.
pub open spec fn history_view(steps: Seq<Vec<CloneEvent>>) -> Seq<Seq<CloneEvent>> {
    steps.map_values(|v: Vec<CloneEvent>| v@)
}

/// Adding a step leaves what the earlier steps infected and cloned unchanged.
proof fn lemma_history_prefix(hist: Seq<Seq<CloneEvent>>, ev: Seq<CloneEvent>, t: int)
    requires
        0 <= t <= hist.len(),
    ensures
        targets_before(hist.push(ev), t) == targets_before(hist, t),
        clones_before(hist.push(ev), t) == clones_before(hist, t),
    decreases t,
{
    if t > 0 {
        lemma_history_prefix(hist, ev, t - 1);
        assert(hist.push(ev)[t - 1] == hist[t - 1]);
    }
}

/// Adding a step keeps the earlier steps valid and complete.
proof fn lemma_history_extend(
    g: &Grid,
    hist: Seq<Seq<CloneEvent>>,
    ev: Seq<CloneEvent>,
    max_clones: int,
)
    requires
        forall|s: int|
            0 <= s < hist.len() ==> #[trigger] step_sound(g, hist, s, max_clones),
    ensures
        forall|s: int|
            0 <= s < hist.len() ==> #[trigger] step_sound(g, hist.push(ev), s, max_clones),
        targets_before(hist.push(ev), hist.len() + 1int) == targets_before(hist, hist.len() as int).union(
            step_targets(ev),
        ),
        clones_before(hist.push(ev), hist.len() + 1int) == clones_before(hist, hist.len() as int)
            + ev.len(),
        occupied(g, hist.push(ev), hist.len() as int) == occupied(g, hist, hist.len() as int),
        hist.push(ev)[hist.len() as int] == ev,
{
    let h2 = hist.push(ev);
    assert forall|s: int| 0 <= s < hist.len() implies #[trigger] step_sound(g, h2, s, max_clones) by {
        assert(step_sound(g, hist, s, max_clones));
        lemma_history_prefix(hist, ev, s);
        lemma_history_prefix(hist, ev, s + 1);
        assert(h2[s] == hist[s]);
        assert(step_valid(g, hist, s));
        assert(occupied(g, h2, s) == occupied(g, hist, s));
        assert(occupied(g, h2, s + 1) == occupied(g, hist, s + 1));
        assert(step_valid(g, h2, s));
        assert(clones_before(h2, s + 1) == clones_before(hist, s + 1));
        assert(step_sound(g, hist, s, max_clones));
        assert(step_complete(g, hist, s, max_clones));
        assert(step_complete(g, h2, s, max_clones));
    }
    lemma_history_prefix(hist, ev, hist.len() as int);
    assert(h2[hist.len() as int] == ev);
}

/// The cells `(r, c)` may clone into: its neighbours across an open side that
/// are empty and not listed in `taken`, in the order up, down, left, right.
#[verifier::rlimit(30)]
fn open_candidates(grid: &Grid, r: usize, c: usize, taken: &Vec<(usize, usize)>) -> (v: Vec<
    (usize, usize),
>)
    requires
        grid.wf(),
        grid.in_bounds(r as int, c as int),
    ensures
        v@.len() <= 4,
        forall|p: (usize, usize)|
            #[trigger] v@.contains(p) <==> (grid.open_between((r, c), p) && grid.cell_at(
                p.0 as int,
                p.1 as int,
            ) == CellType::Empty && !taken@.contains(p)),
{
    let nbrs = grid.valid_neighbors(r, c);
    let mut v: Vec<(usize, usize)> = Vec::new();
    let mut k: usize = 0;
    while k < nbrs.len()
        invariant
            grid.wf(),
            grid.in_bounds(r as int, c as int),
            nbrs@ == grid.neighbors(r as int, c as int),
            k <= nbrs@.len(),
            v@.len() <= k,
            forall|p: (usize, usize)|
                #[trigger] v@.contains(p) <==> (exists|j: int| 0 <= j < k && nbrs@[j] == p)
                    && grid.open_between((r, c), p) && grid.cell_at(p.0 as int, p.1 as int)
                    == CellType::Empty && !taken@.contains(p),
        decreases nbrs@.len() - k,
    {
        let nb = nbrs[k];
        proof {
            lemma_neighbors_exact(grid, r as int, c as int, nb);
            assert(nbrs@.contains(nb));
        }
        let ghost before = v@;
        if !grid.has_wall_between(r, c, nb.0, nb.1) && grid.get_cell(nb.0, nb.1) == CellType::Empty
            && !contains_cell(taken, nb) {
            v.push(nb);
        }
        proof {
            assert forall|p: (usize, usize)|
                #[trigger] v@.contains(p) <==> (exists|j: int| 0 <= j < k + 1 && nbrs@[j] == p)
                    && grid.open_between((r, c), p) && grid.cell_at(p.0 as int, p.1 as int)
                    == CellType::Empty && !taken@.contains(p) by {
                if v@.contains(p) {
                    let i = choose|i: int| 0 <= i < v@.len() && v@[i] == p;
                    if i < before.len() {
                        assert(before.contains(p));
                        let j = choose|j: int| 0 <= j < k && nbrs@[j] == p;
                        assert(0 <= j < k + 1);
                    } else {
                        assert(nbrs@[k as int] == p);
                    }
                }
                if (exists|j: int| 0 <= j < k + 1 && nbrs@[j] == p) && grid.open_between((r, c), p)
                    && grid.cell_at(p.0 as int, p.1 as int) == CellType::Empty
                    && !taken@.contains(p) {
                    let j = choose|j: int| 0 <= j < k + 1 && nbrs@[j] == p;
                    if j < k {
                        assert(before.contains(p));
                        let i = choose|i: int| 0 <= i < before.len() && before[i] == p;
                        assert(v@[i] == p);
                    } else {
                        assert(v@[v@.len() - 1] == p);
                    }
                }
            }
        }
        k = k + 1;
    }
    proof {
        assert forall|p: (usize, usize)|
            #[trigger] v@.contains(p) <==> (grid.open_between((r, c), p) && grid.cell_at(
                p.0 as int,
                p.1 as int,
            ) == CellType::Empty && !taken@.contains(p)) by {
            if grid.open_between((r, c), p) {
                lemma_neighbors_exact(grid, r as int, c as int, p);
                let j = choose|j: int| 0 <= j < nbrs@.len() && nbrs@[j] == p;
            }
        }
        assert(nbrs@.len() <= 4);
    }
    v
}

/// Two lists with the same multiset of entries hold the same cells, and one is
/// free of repeats when the other is.
proof fn lemma_same_entries(a: Seq<(usize, usize)>, b: Seq<(usize, usize)>)
    requires
        a.to_multiset() == b.to_multiset(),
        a.no_duplicates(),
    ensures
        b.no_duplicates(),
        forall|x: (usize, usize)| #[trigger] b.contains(x) <==> a.contains(x),
{
    a.to_multiset_ensures();
    b.to_multiset_ensures();
    a.lemma_multiset_has_no_duplicates();
    assert forall|x: (usize, usize)| #[trigger] b.to_multiset().contains(x) implies b.to_multiset().count(x) == 1 by {
        assert(a.to_multiset().count(x) == b.to_multiset().count(x));
        assert(a.to_multiset().contains(x));
    }
    b.lemma_multiset_has_no_duplicates_conv();
    assert forall|x: (usize, usize)| #[trigger] b.contains(x) <==> a.contains(x) by {
        assert(a.to_multiset().count(x) == b.to_multiset().count(x));
        assert(a.contains(x) <==> a.to_multiset().count(x) > 0);
        assert(b.contains(x) <==> b.to_multiset().count(x) > 0);
    }
}

/// An entry of a concatenation comes from one of the two parts.
proof fn lemma_concat_contains<T>(a: Seq<T>, b: Seq<T>, x: T)
    ensures
        (a + b).contains(x) <==> a.contains(x) || b.contains(x),
{
    if (a + b).contains(x) {
        let i = choose|i: int| 0 <= i < (a + b).len() && (a + b)[i] == x;
        if i >= a.len() {
            assert(b[i - a.len()] == x);
        }
    }
    if a.contains(x) {
        let i = choose|i: int| 0 <= i < a.len() && a[i] == x;
        assert((a + b)[i] == x);
    }
    if b.contains(x) {
        let i = choose|i: int| 0 <= i < b.len() && b[i] == x;
        assert((a + b)[a.len() + i] == x);
    }
}

/// The infected cells of a step, in order.
pub open spec fn event_targets(ev: Seq<CloneEvent>) -> Seq<(usize, usize)> {
    ev.map_values(|e: CloneEvent| e.to)
}

proof fn lemma_event_targets(ev: Seq<CloneEvent>, y: (usize, usize))
    ensures
        event_targets(ev).contains(y) <==> step_targets(ev).contains(y),
{
    if event_targets(ev).contains(y) {
        let i = choose|i: int| 0 <= i < event_targets(ev).len() && event_targets(ev)[i] == y;
        assert(ev[i].to == y);
    }
    if step_targets(ev).contains(y) {
        let k = choose|k: int| 0 <= k < ev.len() && #[trigger] ev[k].to == y;
        assert(event_targets(ev)[k] == y);
    }
}

/// Performs the spread step by step, up to `max_steps` steps and at most
/// `max_clones` clones in all. In each step every biomass cell, in an order
/// drawn at random, clones once into a neighbour chosen at random among the
/// empty, not yet infected cells across an open side, while the budget lasts.
/// The spread stops early when a step finds nothing to clone into. Returns the
/// clones of each step.
pub fn expand_biomass_step_by_step(grid: &Grid, max_steps: usize, max_clones: usize) -> (steps: Vec<
    Vec<CloneEvent>,
>)
    requires
        grid.wf(),
        grid.rows * grid.cols <= RANDOM_RANGE_LIMIT,
    ensures
        expansion_valid(grid, history_view(steps@), max_steps as int, max_clones as int),
        (max_steps == 0 || max_clones == 0) ==> steps@.len() == 0,
{
    let mut steps: Vec<Vec<CloneEvent>> = Vec::new();
    if max_steps == 0 || max_clones == 0 {
        proof {
            assert(history_view(steps@) =~= Seq::<Seq<CloneEvent>>::empty());
        }
        return steps;
    }
    let mut current = copy_cells(&grid.active_biomass);
    let mut total: usize = 0;
    let mut step: usize = 0;
    let mut stalled = false;
    proof {
        assert(history_view(steps@) =~= Seq::<Seq<CloneEvent>>::empty());
        assert(occupied(grid, history_view(steps@), 0) =~= grid.biomass_cells());
    }
    while step < max_steps && total < max_clones && !stalled
        invariant
            grid.wf(),
            grid.rows * grid.cols <= RANDOM_RANGE_LIMIT,
            max_clones > 0,
            history_view(steps@).len() == step,
            step <= max_steps,
            total == clones_before(history_view(steps@), step as int),
            total <= max_clones,
            current@.no_duplicates(),
            current@.to_set() == occupied(grid, history_view(steps@), step as int),
            forall|x: (usize, usize)|
                #[trigger] occupied(grid, history_view(steps@), step as int).contains(x)
                    ==> grid.in_bounds(x.0 as int, x.1 as int),
            forall|s: int|
                0 <= s < step ==> #[trigger] step_sound(grid, history_view(steps@), s, max_clones as int),
            stalled ==> forall|x: (usize, usize)|
                #[trigger] occupied(grid, history_view(steps@), step as int).contains(x)
                    ==> !can_spread(grid, x, occupied(grid, history_view(steps@), step as int)),
        decreases 2 * (max_steps - step) + if stalled {
            0int
        } else {
            1int
        },
    {
        let ghost hist = history_view(steps@);
        let ghost occ = occupied(grid, hist, step as int);
        proof {
            assert forall|q: int| 0 <= q < current@.len() implies grid.in_bounds(
                #[trigger] current@[q].0 as int,
                current@[q].1 as int,
            ) by {
                assert(current@.to_set().contains(current@[q]));
            }
            lemma_distinct_cells_bound(grid, current@);
        }
        let mut list = copy_cells(&current);
        shuffle_cells(&mut list);
        proof {
            lemma_same_entries(current@, list@);
        }
        let mut taken = copy_cells(&current);
        let mut events: Vec<CloneEvent> = Vec::new();
        let base = total;
        assert(hist == history_view(steps@));
        let mut m: usize = 0;
        while m < list.len() && total < max_clones
            invariant
                grid.wf(),
                hist == history_view(steps@),
                hist.len() == step,
                occ == occupied(grid, hist, step as int),
                base == clones_before(hist, step as int),
                forall|s: int|
                    0 <= s < step ==> #[trigger] step_sound(grid, hist, s, max_clones as int),
                forall|x: (usize, usize)| #[trigger] occ.contains(x) ==> grid.in_bounds(x.0 as int, x.1 as int),
                list@.no_duplicates(),
                current@.no_duplicates(),
                forall|x: (usize, usize)| #[trigger] list@.contains(x) <==> occ.contains(x),
                current@.to_set() == occ,
                m <= list@.len(),
                total == base + events@.len(),
                total <= max_clones,
                taken@ == current@ + event_targets(events@),
                forall|k: int|
                    0 <= k < events@.len() ==> exists|j: int|
                        0 <= j < m && list@[j] == #[trigger] events@[k].from,
                forall|k: int| 0 <= k < events@.len() ==> #[trigger] clone_ok(grid, occ, events@[k]),
                forall|k1: int, k2: int|
                    0 <= k1 < events@.len() && 0 <= k2 < events@.len() && k1 != k2
                        ==> #[trigger] events@[k1].from != #[trigger] events@[k2].from
                        && events@[k1].to != events@[k2].to,
                forall|j: int, y: (usize, usize)|
                    #![trigger list@[j], grid.open_between(list@[j], y)]
                    0 <= j < m && !(exists|k: int|
                        0 <= k < events@.len() && #[trigger] events@[k].from == list@[j])
                        && grid.open_between(list@[j], y) && grid.cell_at(y.0 as int, y.1 as int)
                        == CellType::Empty ==> taken@.contains(y),
            decreases list@.len() - m,
        {
            let cell = list[m];
            proof {
                assert(list@.contains(cell));
                assert(occ.contains(cell));
            }
            let cands = open_candidates(grid, cell.0, cell.1, &taken);
            let ghost taken_before = taken@;
            let ghost events_before = events@;
            if cands.len() > 0 {
                let idx = random_index(cands.len());
                let target = cands[idx];
                proof {
                    assert(cands@.contains(target));
                    assert((cell.0, cell.1) == cell);
                    lemma_concat_contains(current@, event_targets(events@), target);
                    assert(!occ.contains(target)) by {
                        assert(!current@.contains(target));
                        assert(current@.to_set().contains(target) == current@.contains(target));
                    }
                }
                taken.push(target);
                events.push(CloneEvent { from: cell, to: target });
                total = total + 1;
                proof {
                    assert(event_targets(events@) =~= event_targets(events_before).push(target));
                    assert(taken@ =~= current@ + event_targets(events@));
                    assert forall|k: int| 0 <= k < events_before.len() implies events_before[k].to
                        != target by {
                        assert(event_targets(events_before)[k] == events_before[k].to);
                        assert(clone_ok(grid, occ, events_before[k]));
                        lemma_concat_contains(current@, event_targets(events_before), events_before[k].to);
                    }
                    assert forall|k: int| 0 <= k < events_before.len() implies events_before[k].from
                        != cell by {
                        let j = choose|j: int| 0 <= j < m && list@[j] == events_before[k].from;
                    }
                    assert(clone_ok(grid, occ, CloneEvent { from: cell, to: target }));
                    assert forall|k: int| 0 <= k < events@.len() implies #[trigger] clone_ok(
                        grid,
                        occ,
                        events@[k],
                    ) by {
                        if k < events_before.len() {
                            assert(events@[k] == events_before[k]);
                        }
                    }
                    assert forall|k1: int, k2: int|
                        0 <= k1 < events@.len() && 0 <= k2 < events@.len() && k1 != k2
                            implies #[trigger] events@[k1].from != #[trigger] events@[k2].from
                            && events@[k1].to != events@[k2].to by {
                        if k1 < events_before.len() && k2 < events_before.len() {
                            assert(events@[k1] == events_before[k1]);
                            assert(events@[k2] == events_before[k2]);
                        } else if k1 < events_before.len() {
                            assert(events@[k1] == events_before[k1]);
                        } else {
                            assert(events@[k2] == events_before[k2]);
                        }
                    }
                    assert forall|k: int| 0 <= k < events@.len() implies exists|j: int|
                        0 <= j < m + 1 && list@[j] == #[trigger] events@[k].from by {
                        if k < events_before.len() {
                            assert(events@[k] == events_before[k]);
                            let j = choose|j: int| 0 <= j < m && list@[j] == events_before[k].from;
                        } else {
                            assert(list@[m as int] == events@[k].from);
                        }
                    }
                    assert forall|j: int, y: (usize, usize)|
                        0 <= j < m + 1 && !(exists|k: int|
                            0 <= k < events@.len() && #[trigger] events@[k].from == list@[j])
                            && grid.open_between(list@[j], y) && grid.cell_at(y.0 as int, y.1 as int)
                            == CellType::Empty implies taken@.contains(y) by {
                        if j == m {
                            assert(events@[events@.len() - 1].from == list@[j]);
                        } else {
                            assert forall|k: int| 0 <= k < events_before.len() implies events_before[k].from != list@[j] by {
                                assert(events@[k] == events_before[k]);
                            }
                            assert(taken_before.contains(y));
                            let i = choose|i: int| 0 <= i < taken_before.len() && taken_before[i] == y;
                            assert(taken@[i] == y);
                        }
                    }
                }
            } else {
                proof {
                    assert forall|j: int, y: (usize, usize)|
                        0 <= j < m + 1 && !(exists|k: int|
                            0 <= k < events@.len() && #[trigger] events@[k].from == list@[j])
                            && grid.open_between(list@[j], y) && grid.cell_at(y.0 as int, y.1 as int)
                            == CellType::Empty implies taken@.contains(y) by {
                        if j == m {
                            assert(!cands@.contains(y));
                        }
                    }
                    assert forall|k: int| 0 <= k < events@.len() implies exists|j: int|
                        0 <= j < m + 1 && list@[j] == #[trigger] events@[k].from by {
                        let j = choose|j: int| 0 <= j < m && list@[j] == events@[k].from;
                    }
                }
            }
            m = m + 1;
        }
        let ghost ev = events@;
        proof {
            assert forall|y: (usize, usize)| #[trigger] taken@.contains(y) <==> (occ.contains(y)
                || step_targets(ev).contains(y)) by {
                lemma_concat_contains(current@, event_targets(ev), y);
                lemma_event_targets(ev, y);
                assert(current@.to_set().contains(y) == current@.contains(y));
            }
        }
        if events.len() == 0 {
            stalled = true;
            proof {
                assert(m == list@.len());
                assert forall|x: (usize, usize)| #[trigger] occ.contains(x) implies !can_spread(
                    grid,
                    x,
                    occ,
                ) by {
                    assert(list@.contains(x));
                    let j = choose|j: int| 0 <= j < list@.len() && list@[j] == x;
                    if can_spread(grid, x, occ) {
                        let y = choose|y: (usize, usize)|
                            #[trigger] grid.open_between(x, y) && grid.cell_at(y.0 as int, y.1 as int)
                                == CellType::Empty && !occ.contains(y);
                        assert(grid.open_between(list@[j], y));
                        assert(taken@.contains(y));
                        assert(!step_targets(ev).contains(y));
                    }
                }
            }
        } else {
            proof {
                lemma_history_extend(grid, hist, ev, max_clones as int);
            }
            let ghost old_current = current@;
            steps.push(events);
            current = taken;
            proof {
                let hist2 = hist.push(ev);
                assert(history_view(steps@) =~= hist2);
                let occ2 = occupied(grid, hist2, step + 1int);
                assert(occ2 =~= occ.union(step_targets(ev)));
                assert(events_valid(grid, occ, ev));
                assert(step_valid(grid, hist2, step as int));
                assert(step_complete(grid, hist2, step as int, max_clones as int)) by {
                    if clones_before(hist2, step + 1int) < max_clones {
                        assert(m == list@.len());
                        assert forall|x: (usize, usize)|
                            #![trigger occupied(grid, hist2, step as int).contains(x)]
                            occupied(grid, hist2, step as int).contains(x) && !(exists|k: int|
                                0 <= k < hist2[step as int].len() && #[trigger] hist2[step as int][k].from
                                    == x) implies !can_spread(grid, x, occ2) by {
                            assert(list@.contains(x));
                            let j = choose|j: int| 0 <= j < list@.len() && list@[j] == x;
                            if can_spread(grid, x, occ2) {
                                let y = choose|y: (usize, usize)|
                                    #[trigger] grid.open_between(x, y) && grid.cell_at(
                                        y.0 as int,
                                        y.1 as int,
                                    ) == CellType::Empty && !occ2.contains(y);
                                assert forall|k: int| 0 <= k < ev.len() implies ev[k].from != list@[j] by {
                                    assert(hist2[step as int][k] == ev[k]);
                                }
                                assert(grid.open_between(list@[j], y));
                                assert(taken@.contains(y));
                            }
                        }
                    }
                }
                assert(current@.to_set() =~= occ2);
                assert(current@.no_duplicates()) by {
                    let a = current@;
                    assert forall|i: int, j: int| 0 <= i < a.len() && 0 <= j < a.len() && i != j implies a[i]
                        != a[j] by {
                        let cl = old_current.len();
                        assert(a == old_current + event_targets(ev));
                        if i >= cl && j >= cl {
                            assert(a[i] == ev[i - cl].to);
                            assert(a[j] == ev[j - cl].to);
                            assert(ev[i - cl].from != ev[j - cl].from);
                        } else if i < cl && j < cl {
                            assert(a[i] == old_current[i]);
                            assert(a[j] == old_current[j]);
                        } else if i >= cl {
                            assert(a[i] == ev[i - cl].to);
                            assert(clone_ok(grid, occ, ev[i - cl]));
                            assert(!occ.contains(ev[i - cl].to));
                            assert(a[j] == old_current[j]);
                            assert(old_current.to_set().contains(old_current[j]));
                        } else if j >= cl {
                            assert(a[j] == ev[j - cl].to);
                            assert(clone_ok(grid, occ, ev[j - cl]));
                            assert(!occ.contains(ev[j - cl].to));
                            assert(a[i] == old_current[i]);
                            assert(old_current.to_set().contains(old_current[i]));
                        }
                    }
                }
                assert forall|x: (usize, usize)| #[trigger] occ2.contains(x) implies grid.in_bounds(
                    x.0 as int,
                    x.1 as int,
                ) by {
                    if !occ.contains(x) {
                        let k = choose|k: int| 0 <= k < ev.len() && #[trigger] ev[k].to == x;
                        assert(clone_ok(grid, occ, ev[k]));
                    }
                }
                assert(total == clones_before(hist2, step + 1int));
            }
            step = step + 1;
        }
    }
    steps
}

} // verus!
