//! A solver for a directional-arrow grid puzzle: every cell but one holds an
//! arrow with a color, a compass direction and an optional "circle"
//! (reflector) mark; the remaining cell is the target. A token starts at the
//! top-left cell and hops along an arrow's ray to any differently-colored
//! cell; circle arrows invert the effective travel direction of hops landing
//! on or leaving them. The solver builds an explicit directed graph (two
//! nodes per cell, one per travel orientation) and searches it for a path
//! from the start to the target.
use vstd::prelude::*;

pub mod graph;
mod pgraph;

verus! {

/// A grid coordinate as a signed (row, column) pair, zero-based. Signed so
/// that ray-walking can step past the top or left boundary and be caught by a
/// bounds check.
#[derive(Debug, Clone, Copy, PartialEq, Eq, Structural, Hash)]
pub struct Coord(pub isize, pub isize);

impl Coord {
    /// Componentwise translation of a coordinate by another.
    pub fn plus(self, other: Coord) -> (r: Coord)
        requires
            isize::MIN <= self.0 + other.0 <= isize::MAX,
            isize::MIN <= self.1 + other.1 <= isize::MAX,
        ensures
            r.0 == self.0 + other.0,
            r.1 == self.1 + other.1,
    {
        Coord(self.0 + other.0, self.1 + other.1)
    }
}

/// An arrow's color. `Clear` is reserved for the target cell, which never
/// matches any arrow's color.
#[derive(Debug, Clone, Copy, PartialEq, Eq, Structural)]
pub enum Color {
    Clear,
    Red,
    Blue,
}

impl Color {
    /// Parses a color token: `R` is red, `B` is blue, anything else is
    /// rejected.
    pub fn from_str(s: &str) -> (r: Result<Color, ()>)
        ensures
            r == (if s@ == "R"@ {
                Ok(Color::Red)
            } else if s@ == "B"@ {
                Ok(Color::Blue)
            } else {
                Err::<Color, ()>(())
            }),
    {
        proof {
            reveal_strlit("R");
            reveal_strlit("B");
        }
        let n = s.unicode_len();
        if n == 1 {
            let c = s.get_char(0);
            if c == 'R' {
                proof {
                    assert(s@ =~= "R"@);
                }
                return Ok(Color::Red);
            }
            if c == 'B' {
                proof {
                    assert(s@ =~= "B"@);
                }
                return Ok(Color::Blue);
            }
        }
        Err(())
    }
}

/// Whether a cell holds a plain arrow (`False`), a circle (reflector) arrow
/// (`True`), or is the target cell (`Target`).
#[derive(Debug, Clone, Copy, PartialEq, Eq, Structural)]
pub enum Circle {
    Target,
    True,
    False,
}

impl Circle {
    /// Parses a circle token: `C` marks a circle arrow, `N` a plain one;
    /// anything else is rejected.
    pub fn from_str(s: &str) -> (r: Result<Circle, ()>)
        ensures
            r == (if s@ == "C"@ {
                Ok(Circle::True)
            } else if s@ == "N"@ {
                Ok(Circle::False)
            } else {
                Err::<Circle, ()>(())
            }),
    {
        proof {
            reveal_strlit("C");
            reveal_strlit("N");
        }
        let n = s.unicode_len();
        if n == 1 {
            let c = s.get_char(0);
            if c == 'C' {
                proof {
                    assert(s@ =~= "C"@);
                }
                return Ok(Circle::True);
            }
            if c == 'N' {
                proof {
                    assert(s@ =~= "N"@);
                }
                return Ok(Circle::False);
            }
        }
        Err(())
    }
}

/// One of the eight compass headings an arrow can point in.
#[derive(Debug, Clone, Copy, PartialEq, Eq, Structural)]
pub enum Direction {
    N,
    E,
    S,
    W,
    NE,
    SE,
    SW,
    NW,
}

impl Direction {
    /// Parses a direction token: one of the eight compass headings, written
    /// `N`, `E`, `S`, `W`, `NE`, `SE`, `SW` or `NW`; anything else is
    /// rejected.
    pub fn from_str(s: &str) -> (r: Result<Direction, ()>)
        ensures
            r == (if s@ == "N"@ {
                Ok(Direction::N)
            } else if s@ == "E"@ {
                Ok(Direction::E)
            } else if s@ == "S"@ {
                Ok(Direction::S)
            } else if s@ == "W"@ {
                Ok(Direction::W)
            } else if s@ == "NE"@ {
                Ok(Direction::NE)
            } else if s@ == "SE"@ {
                Ok(Direction::SE)
            } else if s@ == "SW"@ {
                Ok(Direction::SW)
            } else if s@ == "NW"@ {
                Ok(Direction::NW)
            } else {
                Err::<Direction, ()>(())
            }),
    {
        proof {
            reveal_strlit("N");
            reveal_strlit("E");
            reveal_strlit("S");
            reveal_strlit("W");
            reveal_strlit("NE");
            reveal_strlit("SE");
            reveal_strlit("SW");
            reveal_strlit("NW");
        }
        let n = s.unicode_len();
        if n == 1 {
            let c = s.get_char(0);
            if c == 'N' {
                proof {
                    assert(s@ =~= "N"@);
                }
                return Ok(Direction::N);
            }
            if c == 'E' {
                proof {
                    assert(s@ =~= "E"@);
                }
                return Ok(Direction::E);
            }
            if c == 'S' {
                proof {
                    assert(s@ =~= "S"@);
                }
                return Ok(Direction::S);
            }
            if c == 'W' {
                proof {
                    assert(s@ =~= "W"@);
                }
                return Ok(Direction::W);
            }
        } else if n == 2 {
            let c0 = s.get_char(0);
            let c1 = s.get_char(1);
            if c0 == 'N' && c1 == 'E' {
                proof {
                    assert(s@ =~= "NE"@);
                }
                return Ok(Direction::NE);
            }
            if c0 == 'S' && c1 == 'E' {
                proof {
                    assert(s@ =~= "SE"@);
                }
                return Ok(Direction::SE);
            }
            if c0 == 'S' && c1 == 'W' {
                proof {
                    assert(s@ =~= "SW"@);
                }
                return Ok(Direction::SW);
            }
            if c0 == 'N' && c1 == 'W' {
                proof {
                    assert(s@ =~= "NW"@);
                }
                return Ok(Direction::NW);
            }
        }
        Err(())
    }
}

/// One grid cell's attributes: its location, color, circle-kind and heading.
#[derive(Debug, Clone, Copy)]
pub struct Arrow {
    pub loc: Coord,
    pub color: Color,
    pub circle: Circle,
    pub direction: Direction,
}

impl Arrow {
    pub fn new(loc: Coord, color: Color, circle: Circle, direction: Direction) -> (a: Arrow)
        ensures
            a.loc == loc,
            a.color == color,
            a.circle == circle,
            a.direction == direction,
    {
        Arrow { loc, color, circle, direction }
    }

    /// Whether this arrow is a circle (reflector) arrow.
    pub fn is_circle(&self) -> (r: bool)
        ensures
            r == (self.circle is True),
    {
        self.circle == Circle::True
    }

    /// Whether this cell is the target cell.
    pub fn is_target(&self) -> (r: bool)
        ensures
            r == (self.circle is Target),
    {
        self.circle == Circle::Target
    }
}

impl Default for Arrow {
    /// A placeholder cell: a target-kind arrow at the origin.
    fn default() -> (a: Arrow)
        ensures
            a.loc == Coord(0, 0),
            a.color is Clear,
            a.circle is Target,
            a.direction is N,
    {
        Arrow { loc: Coord(0, 0), color: Color::Clear, circle: Circle::Target, direction: Direction::N }
    }
}

/// Whether (r, c) addresses a cell of the grid `g`.
pub open spec fn in_bounds_spec(g: Seq<Seq<Arrow>>, r: int, c: int) -> bool {
    0 <= r < g.len() && 0 <= c < g[0].len()
}

/// A well-formed grid: rectangular, at least one cell, small enough that
/// every node index fits the machine, and each arrow's recorded location
/// agrees with the cell it occupies.
pub open spec fn wf_grid(g: Seq<Seq<Arrow>>) -> bool {
    &&& g.len() >= 1
    &&& g[0].len() >= 1
    &&& g.len() * g[0].len() < 0x4000_0000
    &&& forall|i: int| 0 <= i < g.len() ==> (#[trigger] g[i]).len() == g[0].len()
    &&& forall|i: int, j: int|
        in_bounds_spec(g, i, j) ==> (#[trigger] g[i][j]).loc == Coord(i as isize, j as isize)
}

/// Whether (i, j) addresses the grid's target cell.
pub open spec fn is_target_cell(g: Seq<Seq<Arrow>>, i: int, j: int) -> bool {
    in_bounds_spec(g, i, j) && g[i][j].circle is Target
}

/// Whether the grid holds exactly one target cell.
pub open spec fn unique_target(g: Seq<Seq<Arrow>>) -> bool {
    &&& exists|i: int, j: int| is_target_cell(g, i, j)
    &&& forall|i1: int, j1: int, i2: int, j2: int|
        is_target_cell(g, i1, j1) && is_target_cell(g, i2, j2) ==> i1 == i2 && j1 == j2
}

/// The (row, column) of the grid's target cell; meaningful under
/// `unique_target`.
pub open spec fn target_cell(g: Seq<Seq<Arrow>>) -> (int, int) {
    choose|i: int, j: int| is_target_cell(g, i, j)
}

/// A rectangular grid of vectors, seen as a sequence of rows.
pub open spec fn grid_view(g: Seq<Vec<Arrow>>) -> Seq<Seq<Arrow>> {
    Seq::new(g.len(), |i: int| g[i]@)
}

/// The grid every build starts from: each cell a target-kind placeholder
/// carrying its own location.
pub open spec fn placeholder_grid(rows: int, cols: int) -> Seq<Seq<Arrow>> {
    Seq::new(
        rows as nat,
        |i: int|
            Seq::new(
                cols as nat,
                |j: int|
                    (Arrow {
                        loc: Coord(i as isize, j as isize),
                        color: Color::Clear,
                        circle: Circle::Target,
                        direction: Direction::N,
                    }),
            ),
    )
}

/// Whether one textual record's 1-based coordinates lie within the declared
/// grid extent.
pub open spec fn rec_ok(rows: int, cols: int, rec: (usize, usize, Color, Circle, Direction)) -> bool {
    1 <= rec.0 <= rows && 1 <= rec.1 <= cols
}

/// The grid after one record is placed: the addressed cell holds the
/// record's arrow, located at that cell.
pub open spec fn place_rec(
    g: Seq<Seq<Arrow>>,
    rec: (usize, usize, Color, Circle, Direction),
) -> Seq<Seq<Arrow>> {
    let i = rec.0 - 1;
    let j = rec.1 - 1;
    g.update(
        i,
        g[i].update(
            j,
            (Arrow {
                loc: Coord(i as isize, j as isize),
                color: rec.2,
                circle: rec.3,
                direction: rec.4,
            }),
        ),
    )
}

/// The grid after a sequence of records is placed in order; a later record
/// overwrites an earlier one addressing the same cell.
pub open spec fn place_recs(
    g: Seq<Seq<Arrow>>,
    recs: Seq<(usize, usize, Color, Circle, Direction)>,
) -> Seq<Seq<Arrow>>
    decreases recs.len(),
{
    if recs.len() == 0 {
        g
    } else {
        place_recs(place_rec(g, recs[0]), recs.skip(1))
    }
}

/// The puzzle input: a rectangular grid of arrows.
#[derive(Debug, Clone)]
pub struct Input {
    pub grid: Vec<Vec<Arrow>>,
}

impl Input {
    /// The grid as a mathematical sequence of rows.
    pub open spec fn sgrid(&self) -> Seq<Seq<Arrow>> {
        grid_view(self.grid@)
    }

    /// Well-formedness of the held grid.
    pub open spec fn wf(&self) -> bool {
        wf_grid(self.sgrid())
    }

    pub fn from_grid(grid: Vec<Vec<Arrow>>) -> (inp: Self)
        ensures
            inp.grid == grid,
    {
        Self { grid }
    }

    /// Builds the puzzle input from parsed textual records: the declared
    /// grid extent, one record per arrow cell (1-based coordinates), and
    /// the 1-based coordinates of the target cell. A record addressing a
    /// cell outside the extent is rejected; cells no record addresses stay
    /// target-kind placeholders.
    pub fn from_records(
        rows: usize,
        cols: usize,
        recs: &Vec<(usize, usize, Color, Circle, Direction)>,
        fin_row: usize,
        fin_col: usize,
    ) -> (r: Result<Input, ()>)
        requires
            1 <= rows,
            1 <= cols,
            rows * cols < 0x4000_0000,
        ensures
            ({
                let finrec = (fin_row, fin_col, Color::Clear, Circle::Target, Direction::N);
                let ok_inputs = (forall|u: int|
                    0 <= u < recs@.len() ==> rec_ok(rows as int, cols as int, #[trigger] recs@[u]))
                    && rec_ok(rows as int, cols as int, finrec);
                &&& (r is Ok <==> ok_inputs)
                &&& (r matches Ok(inp) ==> inp.wf() && inp.sgrid() == place_rec(
                    place_recs(placeholder_grid(rows as int, cols as int), recs@),
                    finrec,
                ))
            }),
    {
        proof {
            assert(rows <= rows * cols && cols <= rows * cols) by (nonlinear_arith)
                requires
                    rows >= 1,
                    cols >= 1,
            ;
        }
        let ghost base = placeholder_grid(rows as int, cols as int);
        let mut grid: Vec<Vec<Arrow>> = Vec::new();
        let mut i: usize = 0;
        while i < rows
            invariant
                i <= rows,
                rows >= 1,
                cols >= 1,
                rows * cols < 0x4000_0000,
                rows <= rows * cols,
                cols <= rows * cols,
                base == placeholder_grid(rows as int, cols as int),
                grid@.len() == i,
                forall|a: int| 0 <= a < i ==> #[trigger] grid@[a]@ == base[a],
            decreases rows - i,
        {
            let mut row: Vec<Arrow> = Vec::new();
            let mut j: usize = 0;
            while j < cols
                invariant
                    j <= cols,
                    rows >= 1,
                    cols >= 1,
                    i < rows,
                    rows * cols < 0x4000_0000,
                    rows <= rows * cols,
                    cols <= rows * cols,
                    row@.len() == j,
                    forall|b: int|
                        0 <= b < j ==> #[trigger] row@[b] == (Arrow {
                            loc: Coord(i as isize, b as isize),
                            color: Color::Clear,
                            circle: Circle::Target,
                            direction: Direction::N,
                        }),
                decreases cols - j,
            {
                row.push(
                    Arrow {
                        loc: Coord(i as isize, j as isize),
                        color: Color::Clear,
                        circle: Circle::Target,
                        direction: Direction::N,
                    },
                );
                j = j + 1;
            }
            proof {
                assert(row@ =~= base[i as int]);
            }
            grid.push(row);
            i = i + 1;
        }
        let ghost all0 = place_recs(base, recs@);
        proof {
            assert(grid_view(grid@) =~= base);
            assert(recs@.skip(0) =~= recs@);
        }
        let mut t: usize = 0;
        while t < recs.len()
            invariant
                t <= recs@.len(),
                rows >= 1,
                cols >= 1,
                rows * cols < 0x4000_0000,
                rows <= rows * cols,
                cols <= rows * cols,
                base == placeholder_grid(rows as int, cols as int),
                all0 == place_recs(base, recs@),
                grid@.len() == rows,
                forall|a: int| 0 <= a < rows ==> (#[trigger] grid@[a]@).len() == cols,
                forall|a: int, b: int|
                    0 <= a < rows && 0 <= b < cols ==> (#[trigger] grid@[a]@[b]).loc == Coord(
                        a as isize,
                        b as isize,
                    ),
                place_recs(grid_view(grid@), recs@.skip(t as int)) == all0,
                forall|u: int| 0 <= u < t ==> rec_ok(rows as int, cols as int, #[trigger] recs@[u]),
            decreases recs@.len() - t,
        {
            let (rr, cc, colr, circ, dirn) = recs[t];
            if rr < 1 || rr > rows || cc < 1 || cc > cols {
                proof {
                    assert(!rec_ok(rows as int, cols as int, recs@[t as int]));
                }
                return Err(());
            }
            let i0 = rr - 1;
            let j0 = cc - 1;
            let ghost gv0 = grid_view(grid@);
            let mut rowv = grid.remove(i0);
            rowv[j0] = Arrow {
                loc: Coord(i0 as isize, j0 as isize),
                color: colr,
                circle: circ,
                direction: dirn,
            };
            grid.insert(i0, rowv);
            proof {
                assert(grid_view(grid@) =~~= place_rec(gv0, recs@[t as int]));
                assert(recs@.skip(t as int)[0] == recs@[t as int]);
                assert(recs@.skip(t as int).skip(1) =~= recs@.skip(t as int + 1));
            }
            t = t + 1;
        }
        proof {
            assert(recs@.skip(recs@.len() as int) =~= Seq::<(
                usize,
                usize,
                Color,
                Circle,
                Direction,
            )>::empty());
            assert(grid_view(grid@) == all0);
        }
        if fin_row < 1 || fin_row > rows || fin_col < 1 || fin_col > cols {
            return Err(());
        }
        let ghost finrec = (fin_row, fin_col, Color::Clear, Circle::Target, Direction::N);
        let i0 = fin_row - 1;
        let j0 = fin_col - 1;
        let ghost gv0 = grid_view(grid@);
        let mut rowv = grid.remove(i0);
        rowv[j0] = Arrow {
            loc: Coord(i0 as isize, j0 as isize),
            color: Color::Clear,
            circle: Circle::Target,
            direction: Direction::N,
        };
        grid.insert(i0, rowv);
        proof {
            assert(grid_view(grid@) =~~= place_rec(gv0, finrec));
        }
        let inp = Input { grid };
        proof {
            assert(inp.sgrid() == place_rec(all0, finrec));
            assert(wf_grid(inp.sgrid()));
        }
        Ok(inp)
    }

    /// Whether `coord` addresses a cell of this grid.
    pub fn in_bounds(&self, coord: &Coord) -> (r: bool)
        requires
            self.grid@.len() >= 1,
        ensures
            r == in_bounds_spec(self.sgrid(), coord.0 as int, coord.1 as int),
    {
        coord.0 >= 0 && coord.1 >= 0 && (coord.0 as usize) < self.grid.len() && (coord.1
            as usize) < self.grid[0].len()
    }

    /// The token's starting coordinate: the top-left cell.
    pub fn start(&self) -> (r: Coord)
        ensures
            r == Coord(0, 0),
    {
        Coord(0, 0)
    }

    /// The coordinate of the grid's unique target cell: the destination of
    /// the solve.
    pub fn target(&self) -> (r: Coord)
        requires
            self.wf(),
            unique_target(self.sgrid()),
        ensures
            r == Coord(target_cell(self.sgrid()).0 as isize, target_cell(self.sgrid()).1 as isize),
    {
        let ghost sg = self.sgrid();
        let rows = self.grid.len();
        let cols = self.grid[0].len();
        proof {
            assert((rows as int) <= (rows as int) * (cols as int) && (cols as int) <= (rows as int)
                * (cols as int)) by (nonlinear_arith)
                requires
                    rows >= 1,
                    cols >= 1,
            ;
        }
        let mut i: usize = 0;
        while i < rows
            invariant
                self.wf(),
                unique_target(sg),
                sg == self.sgrid(),
                rows == sg.len(),
                cols == sg[0].len(),
                rows < 0x4000_0000,
                cols < 0x4000_0000,
                i <= rows,
                forall|a: int, b: int|
                    0 <= a < i && 0 <= b < cols ==> !((#[trigger] sg[a][b]).circle is Target),
            decreases rows - i,
        {
            let mut j: usize = 0;
            while j < cols
                invariant
                    self.wf(),
                    unique_target(sg),
                    sg == self.sgrid(),
                    rows == sg.len(),
                    cols == sg[0].len(),
                    rows < 0x4000_0000,
                    cols < 0x4000_0000,
                    i < rows,
                    j <= cols,
                    forall|a: int, b: int|
                        0 <= a < i && 0 <= b < cols ==> !((#[trigger] sg[a][b]).circle is Target),
                    forall|b: int| 0 <= b < j ==> !((#[trigger] sg[i as int][b]).circle is Target),
                decreases cols - j,
            {
                if self.grid[i][j].is_target() {
                    proof {
                        assert(sg[i as int] == self.grid@[i as int]@);
                        assert(is_target_cell(sg, i as int, j as int));
                        let t = target_cell(sg);
                        assert(is_target_cell(sg, t.0, t.1));
                        assert(t.0 == i as int && t.1 == j as int);
                    }
                    return Coord(i as isize, j as isize);
                }
                proof {
                    assert(sg[i as int] == self.grid@[i as int]@);
                }
                j = j + 1;
            }
            i = i + 1;
        }
        proof {
            let t = target_cell(sg);
            assert(is_target_cell(sg, t.0, t.1));
            assert(false);
        }
        Coord(0, 0)
    }

    /// Whether the held grid has exactly one target cell, the shape every
    /// solvable puzzle input must have.
    pub fn has_unique_target(&self) -> (r: bool)
        requires
            self.wf(),
        ensures
            r == unique_target(self.sgrid()),
    {
        let ghost sg = self.sgrid();
        let rows = self.grid.len();
        let cols = self.grid[0].len();
        let mut found: Option<(usize, usize)> = None;
        let mut i: usize = 0;
        while i < rows
            invariant
                self.wf(),
                sg == self.sgrid(),
                rows == sg.len(),
                cols == sg[0].len(),
                i <= rows,
                match found {
                    None => forall|a: int, b: int|
                        0 <= a < i && 0 <= b < cols ==> !((#[trigger] sg[a][b]).circle is Target),
                    Some(t) => {
                        &&& (t.0 as int) < i
                        &&& (t.1 as int) < cols
                        &&& is_target_cell(sg, t.0 as int, t.1 as int)
                        &&& forall|a: int, b: int|
                            0 <= a < i && 0 <= b < cols && !(a == t.0 as int && b == t.1 as int)
                                ==> !((#[trigger] sg[a][b]).circle is Target)
                    },
                },
            decreases rows - i,
        {
            let mut j: usize = 0;
            while j < cols
                invariant
                    self.wf(),
                    sg == self.sgrid(),
                    rows == sg.len(),
                    cols == sg[0].len(),
                    i < rows,
                    j <= cols,
                    match found {
                        None => {
                            &&& (forall|a: int, b: int|
                                0 <= a < i && 0 <= b < cols ==> !((#[trigger] sg[a][b]).circle
                                    is Target))
                            &&& (forall|b: int|
                                0 <= b < j ==> !((#[trigger] sg[i as int][b]).circle is Target))
                        },
                        Some(t) => {
                            &&& (t.0 as int) < i || ((t.0 as int) == i && (t.1 as int) < j)
                            &&& (t.1 as int) < cols
                            &&& is_target_cell(sg, t.0 as int, t.1 as int)
                            &&& (forall|a: int, b: int|
                                0 <= a < i && 0 <= b < cols && !(a == t.0 as int && b == t.1
                                    as int) ==> !((#[trigger] sg[a][b]).circle is Target))
                            &&& (forall|b: int|
                                0 <= b < j && !(i == t.0 as int && b == t.1 as int) ==> !((
                                #[trigger] sg[i as int][b]).circle is Target))
                        },
                    },
                decreases cols - j,
            {
                proof {
                    assert(sg[i as int] == self.grid@[i as int]@);
                }
                if self.grid[i][j].is_target() {
                    match found {
                        None => {
                            found = Some((i, j));
                        },
                        Some(t) => {
                            proof {
                                assert(is_target_cell(sg, i as int, j as int));
                                assert(is_target_cell(sg, t.0 as int, t.1 as int));
                                assert(!(t.0 as int == i as int && t.1 as int == j as int));
                                if unique_target(sg) {
                                    assert(t.0 as int == i as int && t.1 as int == j as int);
                                }
                            }
                            return false;
                        },
                    }
                }
                j = j + 1;
            }
            i = i + 1;
        }
        match found {
            None => {
                proof {
                    if unique_target(sg) {
                        let (a, b) = choose|a: int, b: int| is_target_cell(sg, a, b);
                        assert(false);
                    }
                }
                false
            },
            Some(t) => {
                proof {
                    assert(is_target_cell(sg, t.0 as int, t.1 as int));
                    assert forall|x1: int, y1: int, x2: int, y2: int|
                        is_target_cell(sg, x1, y1) && is_target_cell(sg, x2, y2) implies x1 == x2
                        && y1 == y2 by {
                        assert(x1 == t.0 as int && y1 == t.1 as int);
                        assert(x2 == t.0 as int && y2 == t.1 as int);
                    }
                }
                true
            },
        }
    }
}

} // verus!
