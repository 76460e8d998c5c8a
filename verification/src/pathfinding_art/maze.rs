//! The maze grid: cells, walls, and the passages between neighbouring cells.
use vstd::prelude::*;

verus! {

/// Direction index of the north wall.
pub const N: usize = 0;
/// Direction index of the east wall.
pub const E: usize = 1;
/// Direction index of the south wall.
pub const S: usize = 2;
/// Direction index of the west wall.
pub const W: usize = 3;

/// A single cell in the maze grid.
#[derive(Debug, Clone)]
pub struct Cell {
    pub x: u32,
    pub y: u32,
    /// Walls present on each side: `[N, E, S, W]`.
    pub walls: [bool; 4],
}

impl Cell {
    pub(crate) fn new(x: u32, y: u32) -> (c: Self)
        ensures
            c.x == x,
            c.y == y,
            forall|d: int| 0 <= d < 4 ==> #[trigger] c.walls[d],
    {
        Cell { x, y, walls: [true, true, true, true] }
    }
}

/// A rectangular grid of cells forming a maze; `cells[y][x]` is the cell at column `x`, row `y`.
#[derive(Debug, Clone)]
pub struct Maze {
    pub width: u32,
    pub height: u32,
    pub cells: Vec<Vec<Cell>>,
}

/// A grid position `(x, y)`.
pub type Pos = (u32, u32);

impl Maze {
    /// The grid holds `height` rows of `width` cells each.
    pub open spec fn wf(&self) -> bool {
        &&& self.cells@.len() == self.height
        &&& forall|y: int| 0 <= y < self.height ==> #[trigger] self.cells@[y]@.len() == self.width
    }

    pub open spec fn in_bounds(&self, p: Pos) -> bool {
        p.0 < self.width && p.1 < self.height
    }

    /// Whether the wall on side `d` of the cell at `(x, y)` is present.
    pub open spec fn wall(&self, x: int, y: int, d: int) -> bool {
        self.cells@[y]@[x].walls[d]
    }

    /// Every cell's coordinates match its place in the grid.
    pub open spec fn coords_match(&self) -> bool {
        forall|x: int, y: int|
            0 <= x < self.width && 0 <= y < self.height ==> (#[trigger] self.cells@[y]@[x]).x == x
                && self.cells@[y]@[x].y == y
    }

    /// Every wall shared by two cells is seen the same way from both sides.
    pub open spec fn consistent(&self) -> bool {
        &&& forall|x: int, y: int|
            0 <= x && x + 1 < self.width && 0 <= y < self.height ==> #[trigger] self.wall(x, y, E as int)
                == self.wall(x + 1, y, W as int)
        &&& forall|x: int, y: int|
            0 <= x < self.width && 0 <= y && y + 1 < self.height ==> #[trigger] self.wall(x, y, S as int)
                == self.wall(x, y + 1, N as int)
    }

    /// The outer border of the grid is closed on all four sides.
    pub open spec fn border_closed(&self) -> bool {
        &&& forall|x: int| 0 <= x < self.width && self.height > 0 ==> #[trigger] self.wall(x, 0, N as int)
        &&& forall|x: int|
            0 <= x < self.width && self.height > 0 ==> #[trigger] self.wall(x, self.height - 1, S as int)
        &&& forall|y: int| 0 <= y < self.height && self.width > 0 ==> #[trigger] self.wall(0, y, W as int)
        &&& forall|y: int|
            0 <= y < self.height && self.width > 0 ==> #[trigger] self.wall(self.width - 1, y, E as int)
    }

    /// Every wall of every cell is present.
    pub open spec fn all_walls(&self) -> bool {
        forall|x: int, y: int, d: int|
            0 <= x < self.width && 0 <= y < self.height && 0 <= d < 4 ==> #[trigger] self.wall(x, y, d)
    }

    /// The cells reachable in one move from `(x, y)` through a missing wall, in the
    /// order north, east, south, west.  Only the wall of `(x, y)` itself is consulted.
    pub open spec fn neighbours_spec(&self, x: u32, y: u32) -> Seq<Pos> {
        let s0 = Seq::<Pos>::empty();
        let s1 = if y > 0 && !self.wall(x as int, y as int, N as int) {
            s0.push((x, (y - 1) as u32))
        } else {
            s0
        };
        let s2 = if x + 1 < self.width && !self.wall(x as int, y as int, E as int) {
            s1.push(((x + 1) as u32, y))
        } else {
            s1
        };
        let s3 = if y + 1 < self.height && !self.wall(x as int, y as int, S as int) {
            s2.push((x, (y + 1) as u32))
        } else {
            s2
        };
        if x > 0 && !self.wall(x as int, y as int, W as int) {
            s3.push(((x - 1) as u32, y))
        } else {
            s3
        }
    }

    /// The grid neighbours of `(x, y)` with the direction that leads to each, walls ignored.
    pub open spec fn all_neighbours_spec(&self, x: u32, y: u32) -> Seq<(u32, u32, usize)> {
        let s0 = Seq::<(u32, u32, usize)>::empty();
        let s1 = if y > 0 { s0.push((x, (y - 1) as u32, N)) } else { s0 };
        let s2 = if x + 1 < self.width { s1.push(((x + 1) as u32, y, E)) } else { s1 };
        let s3 = if y + 1 < self.height { s2.push((x, (y + 1) as u32, S)) } else { s2 };
        if x > 0 { s3.push(((x - 1) as u32, y, W)) } else { s3 }
    }

    /// One move from the in-grid cell `a` to `b` through a missing wall of `a`.
    pub open spec fn step(&self, a: Pos, b: Pos) -> bool {
        &&& self.in_bounds(a)
        &&& {
            ||| a.1 > 0 && !self.wall(a.0 as int, a.1 as int, N as int) && b == (a.0, (a.1 - 1) as u32)
            ||| a.0 + 1 < self.width && !self.wall(a.0 as int, a.1 as int, E as int) && b == (
                (a.0 + 1) as u32,
                a.1,
            )
            ||| a.1 + 1 < self.height && !self.wall(a.0 as int, a.1 as int, S as int) && b == (
                a.0,
                (a.1 + 1) as u32,
            )
            ||| a.0 > 0 && !self.wall(a.0 as int, a.1 as int, W as int) && b == ((a.0 - 1) as u32, a.1)
        }
    }

    /// `p` is a walk through the maze: each position is one move from the one before.
    pub open spec fn is_path(&self, p: Seq<Pos>) -> bool {
        &&& p.len() >= 1
        &&& forall|i: int| 0 <= i < p.len() - 1 ==> #[trigger] self.step(p[i], p[i + 1])
    }

    /// `p` is a walk from `a` to `b`.
    pub open spec fn path_between(&self, p: Seq<Pos>, a: Pos, b: Pos) -> bool {
        &&& self.is_path(p)
        &&& p[0] == a
        &&& p.last() == b
    }

    /// `p` is a walk from `a` to `b` and no walk between them is shorter.
    pub open spec fn shortest_between(&self, p: Seq<Pos>, a: Pos, b: Pos) -> bool {
        &&& self.path_between(p, a, b)
        &&& forall|w: Seq<Pos>| #[trigger] self.path_between(w, a, b) ==> p.len() <= w.len()
    }

    /// `b` can be reached from `a` by walking through missing walls.
    pub open spec fn reachable(&self, a: Pos, b: Pos) -> bool {
        exists|p: Seq<Pos>| #[trigger] self.path_between(p, a, b)
    }

    /// Every cell can be reached from every other cell.
    pub open spec fn connected(&self) -> bool {
        forall|a: Pos, b: Pos|
            self.in_bounds(a) && self.in_bounds(b) ==> #[trigger] self.reachable(a, b)
    }

    /// `(x, y)` is either inside the grid or every neighbour probe of it is skipped,
    /// so listing its open neighbours reads no cell outside the grid.
    pub open spec fn probe_ok(&self, x: u32, y: u32) -> bool {
        &&& y > 0 ==> self.in_bounds((x, y))
        &&& x + 1 < self.width ==> self.in_bounds((x, y))
        &&& y + 1 < self.height ==> self.in_bounds((x, y))
        &&& x > 0 ==> self.in_bounds((x, y))
    }

    /// Create a new maze with all walls intact.
    pub fn new(width: u32, height: u32) -> (m: Self)
        ensures
            m.width == width,
            m.height == height,
            m.wf(),
            m.all_walls(),
            m.coords_match(),
    {
        let mut cells: Vec<Vec<Cell>> = Vec::new();
        let mut y: u32 = 0;
        while y < height
            invariant
                y <= height,
                cells@.len() == y,
                forall|yy: int| 0 <= yy < y ==> #[trigger] cells@[yy]@.len() == width,
                forall|xx: int, yy: int, d: int|
                    0 <= xx < width && 0 <= yy < y && 0 <= d < 4 ==> #[trigger] cells@[yy]@[xx].walls[d],
                forall|xx: int, yy: int|
                    0 <= xx < width && 0 <= yy < y ==> (#[trigger] cells@[yy]@[xx]).x == xx
                        && cells@[yy]@[xx].y == yy,
            decreases height - y,
        {
            let mut row: Vec<Cell> = Vec::new();
            let mut x: u32 = 0;
            while x < width
                invariant
                    x <= width,
                    row@.len() == x,
                    forall|xx: int, d: int| 0 <= xx < x && 0 <= d < 4 ==> #[trigger] row@[xx].walls[d],
                    forall|xx: int| 0 <= xx < x ==> (#[trigger] row@[xx]).x == xx && row@[xx].y == y,
                decreases width - x,
            {
                row.push(Cell::new(x, y));
                x = x + 1;
            }
            cells.push(row);
            y = y + 1;
        }
        Maze { width, height, cells }
    }

    /// Query whether a wall is present.
    pub fn has_wall(&self, x: u32, y: u32, dir: usize) -> (b: bool)
        requires
            self.wf(),
            x < self.width,
            y < self.height,
            dir < 4,
        ensures
            b == self.wall(x as int, y as int, dir as int),
    {
        self.cells[y as usize][x as usize].walls[dir]
    }

    /// Remove the wall on `direction` of cell `(x, y)` and the matching wall on the
    /// neighbour, when that neighbour lies inside the grid.
    pub fn remove_wall(&mut self, x: u32, y: u32, direction: usize)
        requires
            old(self).wf(),
            x < old(self).width,
            y < old(self).height,
            direction < 4,
        ensures
            Self::wall_removed(old(self), final(self), x, y, direction),
    {
        self.cells[y as usize][x as usize].walls[direction] = false;
        if direction == N && y > 0 {
            self.cells[(y - 1) as usize][x as usize].walls[S] = false;
        } else if direction == S && y + 1 < self.height {
            self.cells[(y + 1) as usize][x as usize].walls[N] = false;
        } else if direction == E && x + 1 < self.width {
            self.cells[y as usize][(x + 1) as usize].walls[W] = false;
        } else if direction == W && x > 0 {
            self.cells[y as usize][(x - 1) as usize].walls[E] = false;
        }
    }

    /// `new` is `old` with wall `dir` of `(x, y)` cleared, together with the matching wall
    /// of the neighbour on that side when the neighbour lies inside the grid.
    pub open spec fn wall_removed(old: &Maze, new: &Maze, x: u32, y: u32, dir: usize) -> bool {
        &&& new.wf()
        &&& new.width == old.width
        &&& new.height == old.height
        &&& forall|xx: int, yy: int, d: int|
            0 <= xx < new.width && 0 <= yy < new.height && 0 <= d < 4 ==> #[trigger] new.wall(xx, yy, d)
                == (old.wall(xx, yy, d) && !Self::removed(
                x as int,
                y as int,
                dir as int,
                old.width as int,
                old.height as int,
                xx,
                yy,
                d,
            ))
        &&& forall|xx: int, yy: int|
            0 <= xx < new.width && 0 <= yy < new.height ==> (#[trigger] new.cells@[yy]@[xx]).x
                == old.cells@[yy]@[xx].x && new.cells@[yy]@[xx].y == old.cells@[yy]@[xx].y
    }

    /// Side `d` of `(x, y)` faces another cell of the grid.
    pub open spec fn dir_valid(&self, x: int, y: int, d: int) -> bool {
        ||| d == N && y > 0
        ||| d == E && x + 1 < self.width
        ||| d == S && y + 1 < self.height
        ||| d == W && x > 0
    }

    /// The cell on side `d` of `(x, y)`.
    pub open spec fn dir_target(x: u32, y: u32, d: usize) -> Pos {
        if d == N {
            (x, (y - 1) as u32)
        } else if d == E {
            ((x + 1) as u32, y)
        } else if d == S {
            (x, (y + 1) as u32)
        } else {
            ((x - 1) as u32, y)
        }
    }

    /// Whether removing wall `dir` of `(x, y)` in a `w`×`h` grid clears wall `d` of `(xx, yy)`.
    pub open spec fn removed(x: int, y: int, dir: int, w: int, h: int, xx: int, yy: int, d: int) -> bool {
        ||| xx == x && yy == y && d == dir
        ||| dir == N && y > 0 && xx == x && yy == y - 1 && d == S
        ||| dir == S && y + 1 < h && xx == x && yy == y + 1 && d == N
        ||| dir == E && x + 1 < w && xx == x + 1 && yy == y && d == W
        ||| dir == W && x > 0 && xx == x - 1 && yy == y && d == E
    }

    /// Return neighbours reachable from `(x, y)` (no wall between them).
    pub(crate) fn neighbours(&self, x: u32, y: u32) -> (r: Vec<Pos>)
        requires
            self.wf(),
            self.probe_ok(x, y),
        ensures
            r@ == self.neighbours_spec(x, y),
    {
        let mut result: Vec<Pos> = Vec::new();
        if y > 0 && !self.has_wall(x, y, N) {
            result.push((x, y - 1));
        }
        if x + 1 < self.width && !self.has_wall(x, y, E) {
            result.push((x + 1, y));
        }
        if y + 1 < self.height && !self.has_wall(x, y, S) {
            result.push((x, y + 1));
        }
        if x > 0 && !self.has_wall(x, y, W) {
            result.push((x - 1, y));
        }
        result
    }

    /// Return all four directional neighbours that exist (regardless of walls).
    pub(crate) fn all_neighbours(&self, x: u32, y: u32) -> (r: Vec<(u32, u32, usize)>)
        requires
            x < u32::MAX,
            y < u32::MAX,
        ensures
            r@ == self.all_neighbours_spec(x, y),
    {
        let mut result: Vec<(u32, u32, usize)> = Vec::new();
        if y > 0 {
            result.push((x, y - 1, N));
        }
        if x + 1 < self.width {
            result.push((x + 1, y, E));
        }
        if y + 1 < self.height {
            result.push((x, y + 1, S));
        }
        if x > 0 {
            result.push((x - 1, y, W));
        }
        result
    }
}

} // verus!
