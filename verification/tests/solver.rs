use maze_project::graph::{get_vel, Solver};
use maze_project::{Arrow, Circle, Color, Coord, Direction, Input};
use petgraph::graph::NodeIndex;

fn arrow(r: isize, c: isize, color: Color, circle: Circle, dir: Direction) -> Arrow {
    Arrow::new(Coord(r, c), color, circle, dir)
}

fn target(r: isize, c: isize) -> Arrow {
    Arrow::new(Coord(r, c), Color::Clear, Circle::Target, Direction::N)
}

/// Grid 1x2: (1,1) is a plain red arrow pointing east, (1,2) the target.
fn grid_forward_hop() -> Vec<Vec<Arrow>> {
    vec![vec![
        arrow(0, 0, Color::Red, Circle::False, Direction::E),
        target(0, 1),
    ]]
}

/// Grid 1x2: (1,1) points west, straight off the grid; no edge exists.
fn grid_dead_end() -> Vec<Vec<Arrow>> {
    vec![vec![
        arrow(0, 0, Color::Red, Circle::False, Direction::W),
        target(0, 1),
    ]]
}

/// Grid 2x2 whose only route ends on the target's backward node: the start
/// cell is a circle arrow printed west (so it hops east into the backward
/// orientation), and (1,2)'s backward ray runs south onto the target.
fn grid_circle_reversal() -> Vec<Vec<Arrow>> {
    vec![
        vec![
            arrow(0, 0, Color::Red, Circle::True, Direction::W),
            arrow(0, 1, Color::Blue, Circle::False, Direction::N),
        ],
        vec![
            arrow(1, 0, Color::Red, Circle::False, Direction::N),
            target(1, 1),
        ],
    ]
}

#[test]
fn direction_vectors_are_fixed() {
    assert_eq!(get_vel(Direction::N), Coord(-1, 0));
    assert_eq!(get_vel(Direction::E), Coord(0, 1));
    assert_eq!(get_vel(Direction::S), Coord(1, 0));
    assert_eq!(get_vel(Direction::W), Coord(0, -1));
    assert_eq!(get_vel(Direction::NE), Coord(-1, 1));
    assert_eq!(get_vel(Direction::SE), Coord(1, 1));
    assert_eq!(get_vel(Direction::SW), Coord(1, -1));
    assert_eq!(get_vel(Direction::NW), Coord(-1, -1));
}

#[test]
fn graph_has_two_nodes_per_cell() {
    let s = Solver::new(Input::from_grid(grid_forward_hop()));
    assert_eq!(s.build_graph().node_count(), 4);
    let s = Solver::new(Input::from_grid(grid_circle_reversal()));
    assert_eq!(s.build_graph().node_count(), 8);
}

#[test]
fn no_edge_originates_from_target_nodes() {
    // In the 2x2 reversal grid the target cell (1,1) owns nodes 6 and 7.
    let s = Solver::new(Input::from_grid(grid_circle_reversal()));
    let g = s.build_graph();
    for dst in 0..8usize {
        assert!(!g.contains_edge(NodeIndex::new(6), NodeIndex::new(dst)));
        assert!(!g.contains_edge(NodeIndex::new(7), NodeIndex::new(dst)));
    }
}

#[test]
fn no_edge_connects_equal_colors() {
    let grid = grid_circle_reversal();
    let s = Solver::new(Input::from_grid(grid.clone()));
    let g = s.build_graph();
    for a in 0..8usize {
        for b in 0..8usize {
            if g.contains_edge(NodeIndex::new(a), NodeIndex::new(b)) {
                let (ar, ac) = ((a / 2) / 2, (a / 2) % 2);
                let (br, bc) = ((b / 2) / 2, (b / 2) % 2);
                assert_ne!(grid[ar][ac].color, grid[br][bc].color);
            }
        }
    }
}

#[test]
fn forward_hop_reaches_target() {
    let s = Solver::new(Input::from_grid(grid_forward_hop()));
    assert_eq!(s.solve(), vec![Coord(1, 1), Coord(1, 2)]);
}

#[test]
fn dead_end_yields_empty_path() {
    let s = Solver::new(Input::from_grid(grid_dead_end()));
    assert_eq!(s.solve(), Vec::<Coord>::new());
}

#[test]
fn circle_reversal_ends_on_backward_target_node() {
    let s = Solver::new(Input::from_grid(grid_circle_reversal()));
    // The only route is f(1,1) -> b(1,2) -> b(2,2): the goal match happens
    // on the target's backward node, never its forward one.
    assert_eq!(s.solve(), vec![Coord(1, 1), Coord(1, 2), Coord(2, 2)]);
}

#[test]
fn single_cell_grid_is_already_solved() {
    let s = Solver::new(Input::from_grid(vec![vec![target(0, 0)]]));
    assert_eq!(s.solve(), vec![Coord(1, 1)]);
}

#[test]
fn path_endpoints_are_start_and_target() {
    let path = Solver::new(Input::from_grid(grid_circle_reversal())).solve();
    assert!(!path.is_empty());
    assert_eq!(path[0], Coord(1, 1));
    assert_eq!(path[path.len() - 1], Coord(2, 2));
}

#[test]
fn in_bounds_checks_all_four_sides() {
    let inp = Input::from_grid(grid_circle_reversal());
    assert!(inp.in_bounds(&Coord(0, 0)));
    assert!(inp.in_bounds(&Coord(1, 1)));
    assert!(!inp.in_bounds(&Coord(-1, 0)));
    assert!(!inp.in_bounds(&Coord(0, -1)));
    assert!(!inp.in_bounds(&Coord(2, 0)));
    assert!(!inp.in_bounds(&Coord(0, 2)));
}

#[test]
fn start_and_target_corners() {
    let inp = Input::from_grid(grid_circle_reversal());
    assert_eq!(inp.start(), Coord(0, 0));
    assert_eq!(inp.target(), Coord(1, 1));
}

#[test]
fn target_found_away_from_the_corner() {
    // 1x3 grid whose target sits in the middle: the goal is that cell, not
    // the bottom-right corner.
    let grid = vec![vec![
        arrow(0, 0, Color::Red, Circle::False, Direction::E),
        target(0, 1),
        arrow(0, 2, Color::Blue, Circle::False, Direction::W),
    ]];
    let inp = Input::from_grid(grid);
    assert_eq!(inp.target(), Coord(0, 1));
    let path = Solver::new(inp).solve();
    assert_eq!(path, vec![Coord(1, 1), Coord(1, 2)]);
}

#[test]
fn unique_target_is_recognised() {
    assert!(Input::from_grid(grid_forward_hop()).has_unique_target());
    assert!(Input::from_grid(grid_circle_reversal()).has_unique_target());
    // Two target cells.
    let two = vec![vec![target(0, 0), target(0, 1)]];
    assert!(!Input::from_grid(two).has_unique_target());
    // No target cell at all.
    let none = vec![vec![
        arrow(0, 0, Color::Red, Circle::False, Direction::E),
        arrow(0, 1, Color::Blue, Circle::False, Direction::W),
    ]];
    assert!(!Input::from_grid(none).has_unique_target());
}

#[test]
fn records_build_the_forward_hop_grid() {
    let recs = vec![(
        1usize,
        1usize,
        Color::Red,
        Circle::False,
        Direction::E,
    )];
    let inp = Input::from_records(1, 2, &recs, 1, 2).unwrap();
    let s = Solver::new(inp);
    assert_eq!(s.solve(), vec![Coord(1, 1), Coord(1, 2)]);
}

#[test]
fn record_outside_extent_is_rejected() {
    let recs = vec![(
        3usize,
        1usize,
        Color::Red,
        Circle::False,
        Direction::E,
    )];
    assert_eq!(Input::from_records(1, 2, &recs, 1, 2).err(), Some(()));
}

#[test]
fn target_outside_extent_is_rejected() {
    let recs = vec![(
        1usize,
        1usize,
        Color::Red,
        Circle::False,
        Direction::E,
    )];
    assert_eq!(Input::from_records(1, 2, &recs, 2, 2).err(), Some(()));
}

#[test]
fn unlisted_cells_stay_target_placeholders() {
    // Only one of the three arrow cells is listed: the other two stay
    // target-kind placeholders, so the grid has no unique target.
    let recs = vec![(
        1usize,
        1usize,
        Color::Red,
        Circle::False,
        Direction::E,
    )];
    let inp = Input::from_records(2, 2, &recs, 2, 2).unwrap();
    assert!(!inp.grid[0][0].is_target());
    assert!(inp.grid[0][1].is_target());
    assert!(inp.grid[1][0].is_target());
    assert!(inp.grid[1][1].is_target());
    assert!(!inp.has_unique_target());
}
