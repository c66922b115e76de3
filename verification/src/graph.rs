//! The graph-construction-and-search engine: translates the grid's
//! directional and reflective semantics into an explicit directed graph (two
//! nodes per cell, one per travel orientation) and finds a start-to-target
//! path over it.
//!
//! Every cell (r, c) owns two nodes: a forward node `2*(r*cols + c)` and a
//! backward node `2*(r*cols + c) + 1`. A circle arrow inverts the effective
//! travel direction of a hop and lands the token in the opposite
//! orientation; both effects reduce to one flag: the hop is "flipped" when
//! exactly one of (arrow is a circle, source orientation is backward) holds.
use vstd::arithmetic::div_mod::lemma_fundamental_div_mod_converse;
use vstd::prelude::*;

use crate::pgraph::{
    graph_add_edge, graph_add_node, graph_astar_zero, graph_edges, graph_new, graph_nodes,
    path_exists, seq_connects,
};
use crate::{in_bounds_spec, is_target_cell, target_cell, unique_target, wf_grid, Arrow, Coord,
    Direction, Input};

verus! {

/// The unit step vector of a heading, as (row delta, column delta).
pub open spec fn spec_vel(d: Direction) -> (int, int) {
    match d {
        Direction::N => (-1, 0),
        Direction::E => (0, 1),
        Direction::S => (1, 0),
        Direction::W => (0, -1),
        Direction::NE => (-1, 1),
        Direction::SE => (1, 1),
        Direction::SW => (1, -1),
        Direction::NW => (-1, -1),
    }
}

/// The unit step vector of a heading.
pub fn get_vel(dir: Direction) -> (r: Coord)
    ensures
        (r.0 as int, r.1 as int) == spec_vel(dir),
{
    match dir {
        Direction::N => Coord(-1, 0),
        Direction::E => Coord(0, 1),
        Direction::S => Coord(1, 0),
        Direction::W => Coord(0, -1),
        Direction::NE => Coord(-1, 1),
        Direction::SE => Coord(1, 1),
        Direction::SW => Coord(1, -1),
        Direction::NW => Coord(-1, -1),
    }
}

/// The number of columns of a grid.
pub open spec fn grid_cols(g: Seq<Seq<Arrow>>) -> int {
    g[0].len() as int
}

/// Whether a hop out of `a`, leaving in the `back` orientation, runs against
/// the arrow's printed heading and lands in the orientation opposite to
/// `back`. A plain arrow keeps a forward hop forward; a circle arrow flips
/// it; leaving backward flips it once more.
pub open spec fn hop_flipped(a: Arrow, back: bool) -> bool {
    (a.circle is True) != back
}

/// The step vector a ray walks with, for a hop leaving `a` in the `back`
/// orientation.
pub open spec fn pass_vel(a: Arrow, back: bool) -> (int, int) {
    let v = spec_vel(a.direction);
    if hop_flipped(a, back) {
        (-v.0, -v.1)
    } else {
        v
    }
}

/// The node index of cell (r, c) in the given orientation.
pub open spec fn node_id(cols: int, r: int, c: int, back: bool) -> int {
    2 * (r * cols + c) + (if back {
        1int
    } else {
        0int
    })
}

/// The position reached after `k` steps of `v` from (r, c).
pub open spec fn ray_pos(r: int, c: int, v: (int, int), k: int) -> (int, int) {
    (r + k * v.0, c + k * v.1)
}

/// Whether the graph of grid `g` holds a directed edge from `src` to `dst`
/// because the ray leaving cell (r, c) in the `back` orientation reaches, at
/// its `k`-th step, an in-bounds cell of a different color.
pub open spec fn cell_edge(
    g: Seq<Seq<Arrow>>,
    r: int,
    c: int,
    back: bool,
    k: int,
    src: int,
    dst: int,
) -> bool {
    let a = g[r][c];
    let v = pass_vel(a, back);
    let p = ray_pos(r, c, v, k);
    &&& in_bounds_spec(g, r, c)
    &&& !(a.circle is Target)
    &&& k >= 1
    &&& in_bounds_spec(g, p.0, p.1)
    &&& g[p.0][p.1].color != a.color
    &&& src == node_id(grid_cols(g), r, c, back)
    &&& dst == node_id(grid_cols(g), p.0, p.1, hop_flipped(a, back))
}

/// Whether the graph of grid `g` holds a directed edge from `src` to `dst`.
pub open spec fn has_edge(g: Seq<Seq<Arrow>>, src: int, dst: int) -> bool {
    exists|r: int, c: int, back: bool, k: int| cell_edge(g, r, c, back, k, src, dst)
}

/// The full edge set of the graph built from grid `g`.
pub open spec fn grid_edge_set(g: Seq<Seq<Arrow>>) -> Set<(usize, usize)> {
    Set::new(|e: (usize, usize)| has_edge(g, e.0 as int, e.1 as int))
}

/// The edges contributed by the ray of one cell and orientation.
pub open spec fn cell_ray_edge(
    g: Seq<Seq<Arrow>>,
    r: int,
    c: int,
    back: bool,
    s: int,
    d: int,
) -> bool {
    exists|k: int| cell_edge(g, r, c, back, k, s, d)
}

/// The edges contributed by one orientation pass over the whole grid.
pub open spec fn pass_edge(g: Seq<Seq<Arrow>>, back: bool, s: int, d: int) -> bool {
    exists|r: int, c: int, k: int| cell_edge(g, r, c, back, k, s, d)
}

/// The edges contributed, within one pass, by the cells of row-major index
/// below `m`.
pub open spec fn pass_edge_upto(g: Seq<Seq<Arrow>>, back: bool, m: int, s: int, d: int) -> bool {
    exists|r: int, c: int, k: int|
        r * grid_cols(g) + c < m && cell_edge(g, r, c, back, k, s, d)
}

/// The edges contributed by the ray steps below `bound` of one cell and
/// orientation.
pub open spec fn ray_edge_below(
    g: Seq<Seq<Arrow>>,
    r: int,
    c: int,
    back: bool,
    bound: int,
    s: int,
    d: int,
) -> bool {
    exists|k: int| k < bound && cell_edge(g, r, c, back, k, s, d)
}

/// The 1-based human-readable coordinate of the cell that node `n` belongs
/// to.
pub open spec fn human_coord(cols: int, n: int) -> Coord {
    Coord((((n / 2) / cols) + 1) as isize, (((n / 2) % cols) + 1) as isize)
}

/// The forward goal node: the forward node of the grid's target cell.
pub open spec fn goal_fwd(g: Seq<Seq<Arrow>>) -> usize {
    node_id(grid_cols(g), target_cell(g).0, target_cell(g).1, false) as usize
}

/// The backward goal node: the backward node of the grid's target cell.
pub open spec fn goal_bwd(g: Seq<Seq<Arrow>>) -> usize {
    node_id(grid_cols(g), target_cell(g).0, target_cell(g).1, true) as usize
}

/// What `Solver::solve` promises: the path is empty exactly when neither
/// goal node is reachable from the start forward node over the grid's edge
/// set; a non-empty path is some edge walk from the start node to a goal
/// node, rendered cell by cell as 1-based coordinates, so it begins at
/// (1, 1) and ends at the target cell's 1-based coordinate.
pub open spec fn solve_post(g: Seq<Seq<Arrow>>, path: Seq<Coord>) -> bool {
    let es = grid_edge_set(g);
    &&& (path.len() == 0 <==> !path_exists(es, 0usize, goal_fwd(g)) && !path_exists(
        es,
        0usize,
        goal_bwd(g),
    ))
    &&& (path.len() > 0 ==> exists|p: Seq<usize>|
        (seq_connects(es, p, 0usize, goal_fwd(g)) || seq_connects(es, p, 0usize, goal_bwd(g)))
            && path == p.map_values(|n: usize| human_coord(grid_cols(g), n as int)))
    &&& (path.len() > 0 ==> path[0] == Coord(1, 1) && path[path.len() - 1] == Coord(
        (target_cell(g).0 + 1) as isize,
        (target_cell(g).1 + 1) as isize,
    ))
}

/// Row-major cell indices are unique: two cells with the same index are the
/// same cell.
proof fn lemma_rowmajor_inj(cols: int, r1: int, c1: int, r2: int, c2: int)
    requires
        cols >= 1,
        r1 >= 0,
        r2 >= 0,
        0 <= c1 < cols,
        0 <= c2 < cols,
        r1 * cols + c1 == r2 * cols + c2,
    ensures
        r1 == r2,
        c1 == c2,
{
    let x = r1 * cols + c1;
    lemma_fundamental_div_mod_converse(x, cols, r1, c1);
    lemma_fundamental_div_mod_converse(x, cols, r2, c2);
}

/// Node indices decode uniquely back to their cell and orientation.
proof fn lemma_node_id_inj(cols: int, r1: int, c1: int, b1: bool, r2: int, c2: int, b2: bool)
    requires
        cols >= 1,
        r1 >= 0,
        r2 >= 0,
        0 <= c1 < cols,
        0 <= c2 < cols,
        node_id(cols, r1, c1, b1) == node_id(cols, r2, c2, b2),
    ensures
        r1 == r2,
        c1 == c2,
        b1 == b2,
{
    let n = node_id(cols, r1, c1, b1);
    let o1: int = if b1 { 1 } else { 0 };
    let o2: int = if b2 { 1 } else { 0 };
    lemma_fundamental_div_mod_converse(n, 2, r1 * cols + c1, o1);
    lemma_fundamental_div_mod_converse(n, 2, r2 * cols + c2, o2);
    lemma_rowmajor_inj(cols, r1, c1, r2, c2);
}

/// A node index decodes, by halving then dividing by the column count, to
/// the cell it was built from, and every node of a well-formed grid lies
/// below twice the cell count.
proof fn lemma_node_decode(rows: int, cols: int, r: int, c: int, back: bool)
    requires
        rows >= 1,
        cols >= 1,
        0 <= r < rows,
        0 <= c < cols,
    ensures
        ({
            let n = node_id(cols, r, c, back);
            &&& 0 <= n < 2 * (rows * cols)
            &&& (n / 2) / cols == r
            &&& (n / 2) % cols == c
        }),
{
    let o: int = if back {
        1
    } else {
        0
    };
    let n = node_id(cols, r, c, back);
    lemma_fundamental_div_mod_converse(n, 2, r * cols + c, o);
    lemma_fundamental_div_mod_converse(r * cols + c, cols, r, c);
    assert(0 <= r * cols + c && r * cols + c < rows * cols) by (nonlinear_arith)
        requires
            0 <= r < rows,
            0 <= c < cols,
    ;
}

/// Positions along a ray leave the grid for good: any position between the
/// cell itself and an in-bounds position is in bounds too.
proof fn lemma_ray_segment(
    g: Seq<Seq<Arrow>>,
    r: int,
    c: int,
    v: (int, int),
    k1: int,
    k2: int,
)
    requires
        g.len() >= 1,
        g[0].len() >= 1,
        -1 <= v.0 <= 1,
        -1 <= v.1 <= 1,
        in_bounds_spec(g, r, c),
        0 <= k1 <= k2,
        in_bounds_spec(g, ray_pos(r, c, v, k2).0, ray_pos(r, c, v, k2).1),
    ensures
        in_bounds_spec(g, ray_pos(r, c, v, k1).0, ray_pos(r, c, v, k1).1),
{
    let rows = g.len() as int;
    let cols = g[0].len() as int;
    assert(0 <= r + k1 * v.0 < rows) by (nonlinear_arith)
        requires
            -1 <= v.0 <= 1,
            0 <= k1 <= k2,
            0 <= r < rows,
            0 <= r + k2 * v.0 < rows,
    ;
    assert(0 <= c + k1 * v.1 < cols) by (nonlinear_arith)
        requires
            -1 <= v.1 <= 1,
            0 <= k1 <= k2,
            0 <= c < cols,
            0 <= c + k2 * v.1 < cols,
    ;
}

/// A ray takes fewer steps than the grid has rows and columns together
/// before it leaves the grid.
proof fn lemma_ray_step_bound(g: Seq<Seq<Arrow>>, r: int, c: int, v: (int, int), k: int)
    requires
        g.len() >= 1,
        g[0].len() >= 1,
        -1 <= v.0 <= 1,
        -1 <= v.1 <= 1,
        !(v.0 == 0 && v.1 == 0),
        in_bounds_spec(g, r, c),
        k >= 0,
        in_bounds_spec(g, ray_pos(r, c, v, k).0, ray_pos(r, c, v, k).1),
    ensures
        k < g.len() + g[0].len(),
{
    let rows = g.len() as int;
    let cols = g[0].len() as int;
    if v.0 != 0 {
        assert(k < rows) by (nonlinear_arith)
            requires
                -1 <= v.0 <= 1,
                v.0 != 0,
                k >= 0,
                0 <= r < rows,
                0 <= r + k * v.0 < rows,
        ;
    } else {
        assert(k < cols) by (nonlinear_arith)
            requires
                -1 <= v.1 <= 1,
                v.1 != 0,
                k >= 0,
                0 <= c < cols,
                0 <= c + k * v.1 < cols,
        ;
    }
}

/// The step vector of a hop is never the zero vector.
proof fn lemma_pass_vel_nonzero(a: Arrow, back: bool)
    ensures
        -1 <= pass_vel(a, back).0 <= 1,
        -1 <= pass_vel(a, back).1 <= 1,
        !(pass_vel(a, back).0 == 0 && pass_vel(a, back).1 == 0),
{
}

/// The solver: holds the puzzle input and searches its hop graph.
#[derive(Debug, Clone)]
pub struct Solver {
    pub input: Input,
}

impl Solver {
    pub fn new(input: Input) -> (s: Self)
        ensures
            s.input == input,
    {
        Self { input }
    }

    /// Walks the ray of one cell in one orientation and adds one edge per
    /// differently-colored in-bounds cell it crosses, up to the grid
    /// boundary.
    fn add_ray(
        &self,
        g: &mut petgraph::graph::Graph<(), usize, petgraph::Directed, usize>,
        r: usize,
        c: usize,
        back: bool,
    )
        requires
            self.input.wf(),
            in_bounds_spec(self.input.sgrid(), r as int, c as int),
            !(self.input.sgrid()[r as int][c as int].circle is Target),
            graph_nodes(*old(g)) == 2 * (self.input.sgrid().len() * grid_cols(self.input.sgrid())),
        ensures
            graph_nodes(*final(g)) == graph_nodes(*old(g)),
            forall|s: usize, d: usize|
                #![trigger graph_edges(*final(g)).contains((s, d))]
                graph_edges(*final(g)).contains((s, d)) <==> graph_edges(*old(g)).contains((s, d))
                    || cell_ray_edge(self.input.sgrid(), r as int, c as int, back, s as int, d as int),
    {
        let ghost sg = self.input.sgrid();
        let ghost rows_i = sg.len() as int;
        let ghost cols_i = grid_cols(sg);
        let grid = &self.input.grid;
        let rows = grid.len();
        let cols = grid[0].len();
        let arrow = grid[r][c];
        proof {
            assert(sg[r as int] == grid@[r as int]@);
            assert(arrow == sg[r as int][c as int]);
        }
        let flip = arrow.is_circle() != back;
        let mut vel = get_vel(arrow.direction);
        if flip {
            vel = Coord(-vel.0, -vel.1);
        }
        let ghost v = pass_vel(arrow, back);
        proof {
            assert((vel.0 as int, vel.1 as int) == v);
            lemma_pass_vel_nonzero(arrow, back);
            assert(r * cols + c < rows * cols) by (nonlinear_arith)
                requires
                    0 <= r < rows,
                    0 <= c < cols,
            ;
            assert(rows_i <= rows_i * cols_i && cols_i <= rows_i * cols_i) by (nonlinear_arith)
                requires
                    rows_i >= 1,
                    cols_i >= 1,
            ;
        }
        let src: usize = 2 * (r * cols + c) + if back {
            1
        } else {
            0
        };
        proof {
            assert(src as int == node_id(cols_i, r as int, c as int, back));
        }
        let mut cur = arrow.loc.plus(vel);
        let ghost mut kk: int = 1;
        proof {
            assert(arrow.loc == Coord(r as isize, c as isize));
            assert((cur.0 as int, cur.1 as int) == ray_pos(r as int, c as int, v, 1));
        }
        while self.input.in_bounds(&cur)
            invariant
                self.input.wf(),
                sg == self.input.sgrid(),
                rows_i == sg.len() as int,
                cols_i == grid_cols(sg),
                rows == sg.len(),
                cols == grid_cols(sg),
                in_bounds_spec(sg, r as int, c as int),
                arrow == sg[r as int][c as int],
                !(arrow.circle is Target),
                v == pass_vel(arrow, back),
                (vel.0 as int, vel.1 as int) == v,
                flip == hop_flipped(arrow, back),
                1 <= kk <= rows_i + cols_i,
                (cur.0 as int, cur.1 as int) == ray_pos(r as int, c as int, v, kk),
                src as int == node_id(cols_i, r as int, c as int, back),
                graph_nodes(*g) == 2 * (rows_i * cols_i),
                forall|s: usize, d: usize|
                    #![trigger graph_edges(*g).contains((s, d))]
                    graph_edges(*g).contains((s, d)) <==> graph_edges(*old(g)).contains((s, d))
                        || ray_edge_below(sg, r as int, c as int, back, kk, s as int, d as int),
            decreases rows_i + cols_i - kk,
        {
            let rr = cur.0 as usize;
            let cc = cur.1 as usize;
            proof {
                assert(rows_i <= rows_i * cols_i && cols_i <= rows_i * cols_i) by (nonlinear_arith)
                    requires
                        rows_i >= 1,
                        cols_i >= 1,
                ;
                assert(sg[rr as int] == self.input.grid@[rr as int]@);
                assert(sg[rr as int].len() == cols_i);
            }
            let check = self.input.grid[rr][cc];
            proof {
                assert(check == sg[rr as int][cc as int]);
                assert(rr * cols + cc < rows * cols) by (nonlinear_arith)
                    requires
                        0 <= rr < rows,
                        0 <= cc < cols,
                ;
            }
            if check.color != arrow.color {
                let dst: usize = 2 * (rr * cols + cc) + if flip {
                    1
                } else {
                    0
                };
                proof {
                    assert(flip == hop_flipped(arrow, back));
                    assert(dst as int == node_id(cols_i, rr as int, cc as int, hop_flipped(arrow, back)));
                    assert(cell_edge(sg, r as int, c as int, back, kk, src as int, dst as int));
                    lemma_node_decode(rows_i, cols_i, rr as int, cc as int, hop_flipped(arrow, back));
                    lemma_node_decode(rows_i, cols_i, r as int, c as int, back);
                }
                graph_add_edge(g, src, dst);
                proof {
                    assert forall|s: usize, d: usize|
                        cell_edge(sg, r as int, c as int, back, kk, s as int, d as int) implies s
                        == src && d == dst by {}
                }
            } else {
                proof {
                    assert forall|s: usize, d: usize|
                        !cell_edge(sg, r as int, c as int, back, kk, s as int, d as int) by {}
                }
            }
            proof {
                lemma_ray_step_bound(sg, r as int, c as int, v, kk);
            }
            proof {
                assert((kk + 1) * v.0 == kk * v.0 + v.0) by (nonlinear_arith);
                assert((kk + 1) * v.1 == kk * v.1 + v.1) by (nonlinear_arith);
            }
            cur = cur.plus(vel);
            proof {
                kk = kk + 1;
                assert forall|s: usize, d: usize|
                    #![trigger graph_edges(*g).contains((s, d))]
                    graph_edges(*g).contains((s, d)) <==> graph_edges(*old(g)).contains((s, d))
                        || ray_edge_below(sg, r as int, c as int, back, kk, s as int, d as int) by {
                    if graph_edges(*g).contains((s, d)) {
                    }
                    if ray_edge_below(sg, r as int, c as int, back, kk, s as int, d as int) {
                        let k = choose|k: int|
                            k < kk && cell_edge(sg, r as int, c as int, back, k, s as int, d as int);
                        assert(k < kk);
                    }
                }
            }
        }
        proof {
            assert forall|s: usize, d: usize|
                cell_ray_edge(sg, r as int, c as int, back, s as int, d as int) implies ray_edge_below(
                sg,
                r as int,
                c as int,
                back,
                kk,
                s as int,
                d as int,
            ) by {
                let k = choose|k: int| cell_edge(sg, r as int, c as int, back, k, s as int, d as int);
                if k >= kk {
                    let p = ray_pos(r as int, c as int, v, k);
                    assert(in_bounds_spec(sg, p.0, p.1));
                    lemma_ray_segment(sg, r as int, c as int, v, kk, k);
                    assert(false);
                }
            }
        }
    }

    /// Runs one orientation pass: walks every non-target cell's ray and adds
    /// its edges.
    fn add_pass(
        &self,
        g: &mut petgraph::graph::Graph<(), usize, petgraph::Directed, usize>,
        back: bool,
    )
        requires
            self.input.wf(),
            graph_nodes(*old(g)) == 2 * (self.input.sgrid().len() * grid_cols(self.input.sgrid())),
        ensures
            graph_nodes(*final(g)) == graph_nodes(*old(g)),
            forall|s: usize, d: usize|
                #![trigger graph_edges(*final(g)).contains((s, d))]
                graph_edges(*final(g)).contains((s, d)) <==> graph_edges(*old(g)).contains((s, d))
                    || pass_edge(self.input.sgrid(), back, s as int, d as int),
    {
        let ghost sg = self.input.sgrid();
        let ghost rows_i = sg.len() as int;
        let ghost cols_i = grid_cols(sg);
        let rows = self.input.grid.len();
        let cols = self.input.grid[0].len();
        let mut r: usize = 0;
        while r < rows
            invariant
                self.input.wf(),
                sg == self.input.sgrid(),
                rows_i == sg.len() as int,
                cols_i == grid_cols(sg),
                rows == sg.len(),
                cols == grid_cols(sg),
                0 <= r <= rows,
                graph_nodes(*g) == 2 * (rows_i * cols_i),
                forall|s: usize, d: usize|
                    #![trigger graph_edges(*g).contains((s, d))]
                    graph_edges(*g).contains((s, d)) <==> graph_edges(*old(g)).contains((s, d))
                        || pass_edge_upto(sg, back, (r as int) * cols_i, s as int, d as int),
            decreases rows - r,
        {
            let mut c: usize = 0;
            while c < cols
                invariant
                    self.input.wf(),
                    sg == self.input.sgrid(),
                    rows_i == sg.len() as int,
                    cols_i == grid_cols(sg),
                    rows == sg.len(),
                    cols == grid_cols(sg),
                    0 <= r < rows,
                    0 <= c <= cols,
                    graph_nodes(*g) == 2 * (rows_i * cols_i),
                    forall|s: usize, d: usize|
                        #![trigger graph_edges(*g).contains((s, d))]
                        graph_edges(*g).contains((s, d)) <==> graph_edges(*old(g)).contains((s, d))
                            || pass_edge_upto(
                            sg,
                            back,
                            (r as int) * cols_i + c as int,
                            s as int,
                            d as int,
                        ),
                decreases cols - c,
            {
                let ghost m = (r as int) * cols_i + c as int;
                let arrow = self.input.grid[r][c];
                proof {
                    assert(sg[r as int] == self.input.grid@[r as int]@);
                    assert(arrow == sg[r as int][c as int]);
                }
                if !arrow.is_target() {
                    self.add_ray(g, r, c, back);
                }
                proof {
                    assert forall|s: usize, d: usize|
                        #![trigger graph_edges(*g).contains((s, d))]
                        graph_edges(*g).contains((s, d)) <==> graph_edges(*old(g)).contains((s, d))
                            || pass_edge_upto(sg, back, m + 1, s as int, d as int) by {
                        if pass_edge_upto(sg, back, m + 1, s as int, d as int) {
                            let (r2, c2, k) = choose|r2: int, c2: int, k: int|
                                r2 * grid_cols(sg) + c2 < m + 1 && cell_edge(
                                    sg,
                                    r2,
                                    c2,
                                    back,
                                    k,
                                    s as int,
                                    d as int,
                                );
                            if r2 * cols_i + c2 == m {
                                lemma_rowmajor_inj(cols_i, r2, c2, r as int, c as int);
                                assert(cell_ray_edge(sg, r as int, c as int, back, s as int, d as int));
                            } else {
                                assert(pass_edge_upto(sg, back, m, s as int, d as int));
                            }
                        }
                        if cell_ray_edge(sg, r as int, c as int, back, s as int, d as int) {
                            let k = choose|k: int|
                                cell_edge(sg, r as int, c as int, back, k, s as int, d as int);
                            assert((r as int) * cols_i + (c as int) < m + 1);
                        }
                        if pass_edge_upto(sg, back, m, s as int, d as int) {
                            let (r2, c2, k) = choose|r2: int, c2: int, k: int|
                                r2 * grid_cols(sg) + c2 < m && cell_edge(
                                    sg,
                                    r2,
                                    c2,
                                    back,
                                    k,
                                    s as int,
                                    d as int,
                                );
                            assert(r2 * grid_cols(sg) + c2 < m + 1);
                        }
                    }
                }
                c = c + 1;
            }
            proof {
                assert((r as int) * cols_i + cols_i == (r as int + 1) * cols_i) by (nonlinear_arith);
            }
            r = r + 1;
        }
        proof {
            assert forall|s: usize, d: usize|
                pass_edge(sg, back, s as int, d as int) implies pass_edge_upto(
                sg,
                back,
                rows_i * cols_i,
                s as int,
                d as int,
            ) by {
                let (r2, c2, k) = choose|r2: int, c2: int, k: int|
                    cell_edge(sg, r2, c2, back, k, s as int, d as int);
                assert(r2 * cols_i + c2 < rows_i * cols_i) by (nonlinear_arith)
                    requires
                        0 <= r2 < rows_i,
                        0 <= c2 < cols_i,
                ;
            }
        }
    }

    /// Builds the hop graph of the held grid: two nodes per cell (the
    /// forward node of cell (r, c) is `2*(r*cols + c)`, its backward node is
    /// the index above it), and exactly the edges that the grid's rays
    /// generate.
    pub fn build_graph(&self) -> (g: petgraph::graph::Graph<(), usize, petgraph::Directed, usize>)
        requires
            self.input.wf(),
        ensures
            graph_nodes(g) == 2 * (self.input.sgrid().len() * grid_cols(self.input.sgrid())),
            graph_edges(g) == grid_edge_set(self.input.sgrid()),
    {
        let ghost sg = self.input.sgrid();
        let ghost rows_i = sg.len() as int;
        let ghost cols_i = grid_cols(sg);
        let rows = self.input.grid.len();
        let cols = self.input.grid[0].len();
        let total = 2 * (rows * cols);
        let mut g = graph_new();
        let mut i: usize = 0;
        while i < total
            invariant
                0 <= i <= total,
                total == 2 * (rows_i * cols_i),
                graph_nodes(g) == i,
                graph_edges(g) == Set::<(usize, usize)>::empty(),
            decreases total - i,
        {
            let _ = graph_add_node(&mut g);
            i = i + 1;
        }
        self.add_pass(&mut g, false);
        self.add_pass(&mut g, true);
        proof {
            assert forall|s: usize, d: usize|
                has_edge(sg, s as int, d as int) implies (pass_edge(sg, false, s as int, d as int)
                || pass_edge(sg, true, s as int, d as int)) by {
                let (r2, c2, back, k) = choose|r2: int, c2: int, back: bool, k: int|
                    cell_edge(sg, r2, c2, back, k, s as int, d as int);
                if back {
                    assert(pass_edge(sg, true, s as int, d as int));
                } else {
                    assert(pass_edge(sg, false, s as int, d as int));
                }
            }
            assert(graph_edges(g) =~= grid_edge_set(sg));
        }
        g
    }

    /// Solves the puzzle: builds the hop graph, searches it from the start
    /// cell's forward node to either node of the unique target cell, and
    /// renders the nodes found back as 1-based grid coordinates. An empty
    /// result means no path exists; it is not an error.
    #[verifier::rlimit(100)]
    pub fn solve(&self) -> (path: Vec<Coord>)
        requires
            self.input.wf(),
            unique_target(self.input.sgrid()),
        ensures
            solve_post(self.input.sgrid(), path@),
    {
        let ghost sg = self.input.sgrid();
        let ghost rows_i = sg.len() as int;
        let ghost cols_i = grid_cols(sg);
        let rows = self.input.grid.len();
        let cols = self.input.grid[0].len();
        let g = self.build_graph();
        let ghost tcell = target_cell(sg);
        proof {
            assert(1 <= rows_i * cols_i) by (nonlinear_arith)
                requires
                    rows_i >= 1,
                    cols_i >= 1,
            ;
            assert(rows_i <= rows_i * cols_i && cols_i <= rows_i * cols_i) by (nonlinear_arith)
                requires
                    rows_i >= 1,
                    cols_i >= 1,
            ;
            assert(is_target_cell(sg, tcell.0, tcell.1));
            lemma_node_decode(rows_i, cols_i, tcell.0, tcell.1, false);
            lemma_node_decode(rows_i, cols_i, tcell.0, tcell.1, true);
            lemma_node_decode(rows_i, cols_i, 0, 0, false);
        }
        let t = self.input.target();
        let tr = t.0 as usize;
        let tc = t.1 as usize;
        let start: usize = 0;
        let goal_f: usize = 2 * (tr * cols + tc);
        let goal_b: usize = goal_f + 1;
        proof {
            assert(tr as int == tcell.0 && tc as int == tcell.1);
            assert(tr * cols + tc < rows * cols) by (nonlinear_arith)
                requires
                    0 <= tr < rows,
                    0 <= tc < cols,
            ;
            assert(goal_f as int == node_id(cols_i, tcell.0, tcell.1, false));
            assert(goal_f == goal_fwd(sg));
            assert(goal_b == goal_bwd(sg));
        }
        let found = graph_astar_zero(&g, start, goal_f, goal_b);
        match found {
            None => {
                Vec::new()
            },
            Some(nodes) => {
                let ghost es = grid_edge_set(sg);
                let n = nodes.len();
                let mut path: Vec<Coord> = Vec::new();
                let mut i: usize = 0;
                while i < n
                    invariant
                        0 <= i <= n,
                        n == nodes@.len(),
                        cols_i >= 1,
                        rows_i >= 1,
                        rows_i * cols_i >= 1,
                        rows_i * cols_i < 0x4000_0000,
                        rows_i <= rows_i * cols_i,
                        cols_i <= rows_i * cols_i,
                        cols == cols_i,
                        forall|j: int| 0 <= j < n ==> (#[trigger] nodes@[j]) < 2 * (rows_i * cols_i),
                        path@.len() == i,
                        forall|j: int|
                            0 <= j < i ==> (#[trigger] path@[j]) == human_coord(
                                cols_i,
                                nodes@[j] as int,
                            ),
                    decreases n - i,
                {
                    let node = nodes[i];
                    let cell = node / 2;
                    proof {
                        assert(cell as int == (node as int) / 2);
                        vstd::arithmetic::div_mod::lemma_fundamental_div_mod(cell as int, cols_i);
                        vstd::arithmetic::div_mod::lemma_mod_pos_bound(cell as int, cols_i);
                        assert((cell as int) < rows_i * cols_i);
                        let q = (cell as int) / cols_i;
                        let rm = (cell as int) % cols_i;
                        assert(0 <= q < rows_i) by (nonlinear_arith)
                            requires
                                cols_i >= 1,
                                rows_i >= 1,
                                0 <= rm < cols_i,
                                cell as int == cols_i * q + rm,
                                0 <= (cell as int) < rows_i * cols_i,
                        ;
                    }
                    let cr = cell / cols;
                    let cc = cell % cols;
                    path.push(Coord(cr as isize + 1, cc as isize + 1));
                    i = i + 1;
                }
                proof {
                    let conv = |nn: usize| human_coord(cols_i, nn as int);
                    assert(path@ =~= nodes@.map_values(conv));
                    assert(seq_connects(es, nodes@, start, nodes@[nodes@.len() - 1]));
                    assert(path_exists(es, 0usize, goal_fwd(sg)) || path_exists(
                        es,
                        0usize,
                        goal_bwd(sg),
                    ));
                    let lastn = nodes@[nodes@.len() - 1];
                    assert(path@[path@.len() - 1] == human_coord(cols_i, lastn as int));
                    assert(human_coord(cols_i, goal_fwd(sg) as int) == Coord(
                        (tcell.0 + 1) as isize,
                        (tcell.1 + 1) as isize,
                    ));
                    assert(human_coord(cols_i, goal_bwd(sg) as int) == Coord(
                        (tcell.0 + 1) as isize,
                        (tcell.1 + 1) as isize,
                    ));
                    assert(human_coord(cols_i, 0) == Coord(1, 1)) by {
                        lemma_node_decode(rows_i, cols_i, 0, 0, false);
                    }
                    assert(solve_post(sg, path@));
                }
                path
            },
        }
    }
}


/// The cell a node index belongs to, as (row, column).
pub open spec fn node_cell(cols: int, n: int) -> (int, int) {
    ((n / 2) / cols, (n / 2) % cols)
}

/// Law: no edge ever originates at either orientation's node of a target
/// cell.
pub proof fn lemma_no_edge_from_target(g: Seq<Seq<Arrow>>, src: usize, dst: usize)
    requires
        wf_grid(g),
        grid_edge_set(g).contains((src, dst)),
    ensures
        ({
            let sc = node_cell(grid_cols(g), src as int);
            !(g[sc.0][sc.1].circle is Target)
        }),
{
    let (r, c, back, k) = choose|r: int, c: int, back: bool, k: int|
        cell_edge(g, r, c, back, k, src as int, dst as int);
    lemma_node_decode(g.len() as int, grid_cols(g), r, c, back);
}

/// Law: no edge ever connects two cells of equal color.
pub proof fn lemma_edge_colors_differ(g: Seq<Seq<Arrow>>, src: usize, dst: usize)
    requires
        wf_grid(g),
        grid_edge_set(g).contains((src, dst)),
    ensures
        ({
            let sc = node_cell(grid_cols(g), src as int);
            let dc = node_cell(grid_cols(g), dst as int);
            g[sc.0][sc.1].color != g[dc.0][dc.1].color
        }),
{
    let (r, c, back, k) = choose|r: int, c: int, back: bool, k: int|
        cell_edge(g, r, c, back, k, src as int, dst as int);
    let a = g[r][c];
    let p = ray_pos(r, c, pass_vel(a, back), k);
    lemma_node_decode(g.len() as int, grid_cols(g), r, c, back);
    lemma_node_decode(g.len() as int, grid_cols(g), p.0, p.1, hop_flipped(a, back));
}

} // verus!
