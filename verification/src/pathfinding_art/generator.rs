//! Maze generation: recursive backtracker, Prim's algorithm and Sidewinder.
use vstd::prelude::*;
use super::maze::{Maze, Pos, E, N, S, W};
use super::grid::{new_grid, count_grid, dims, closed_at, lemma_count_grid_le, lemma_count_grid_set, lemma_closed_covers};
use super::solver::marked_in;
use super::reach::{
    fewer_walls, lemma_all_neighbours, lemma_remove_valid, lemma_reach_refl, lemma_reach_extend,
    lemma_reach_mono, lemma_connected_from_root, lemma_step_symm, lemma_reach_trans,
};

verus! {

/// One step of the generator: `s * 6364136223846793005 + 1442695040888963407` modulo 2^64.
pub open spec fn lcg_step(s: u64) -> u64 {
    vstd::wrapping::u64_specs::wrapping_add(
        vstd::wrapping::u64_specs::wrapping_mul(s, 6364136223846793005u64),
        1442695040888963407u64,
    )
}

/// Simple linear-congruential PRNG.
pub(crate) struct LcgRng(pub(crate) u64);

impl LcgRng {
    pub(crate) fn new(seed: u64) -> (r: Self)
        ensures
            r.0 == vstd::wrapping::u64_specs::wrapping_add(seed, 1u64),
    {
        LcgRng(seed.wrapping_add(1))
    }

    pub(crate) fn next(&mut self) -> (r: u64)
        ensures
            final(self).0 == lcg_step(old(self).0),
            r == final(self).0,
    {
        self.0 = self.0.wrapping_mul(6364136223846793005).wrapping_add(1442695040888963407);
        self.0
    }

    pub(crate) fn next_usize(&mut self) -> (r: usize)
        ensures
            final(self).0 == lcg_step(old(self).0),
            r == final(self).0 as usize,
    {
        self.next() as usize
    }

    pub(crate) fn next_bool(&mut self) -> (r: bool)
        ensures
            final(self).0 == lcg_step(old(self).0),
            r == (final(self).0 & 1 == 0),
    {
        self.next() & 1 == 0
    }
}

/// A freshly built maze with every wall present has consistent walls and a closed border.
proof fn lemma_fresh_maze(m: &Maze)
    requires
        m.wf(),
        m.all_walls(),
    ensures
        m.consistent(),
        m.border_closed(),
{
    assert forall|x: int, y: int|
        0 <= x && x + 1 < m.width && 0 <= y < m.height implies #[trigger] m.wall(x, y, E as int) == m.wall(
            x + 1,
            y,
            W as int,
        ) by {
        assert(m.wall(x, y, E as int));
        assert(m.wall(x + 1, y, W as int));
    }
    assert forall|x: int, y: int|
        0 <= x < m.width && 0 <= y && y + 1 < m.height implies #[trigger] m.wall(x, y, S as int) == m.wall(
            x,
            y + 1,
            N as int,
        ) by {
        assert(m.wall(x, y, S as int));
        assert(m.wall(x, y + 1, N as int));
    }
    assert forall|x: int| 0 <= x < m.width && m.height > 0 implies #[trigger] m.wall(x, 0, N as int) by {
        assert(m.wall(x, 0, N as int));
    }
    assert forall|x: int| 0 <= x < m.width && m.height > 0 implies #[trigger] m.wall(x, m.height - 1, S as int) by {
        assert(m.wall(x, m.height - 1, S as int));
    }
    assert forall|y: int| 0 <= y < m.height && m.width > 0 implies #[trigger] m.wall(0, y, W as int) by {
        assert(m.wall(0, y, W as int));
    }
    assert forall|y: int| 0 <= y < m.height && m.width > 0 implies #[trigger] m.wall(m.width - 1, y, E as int) by {
        assert(m.wall(m.width - 1, y, E as int));
    }
}

/// A wall removal: a cell and the side whose wall is removed.
pub type Carve = (u32, u32, usize);

/// Carving `c` in a `w` x `h` grid clears side `d` of `(xx, yy)`.
pub open spec fn removes(c: Carve, w: int, h: int, xx: int, yy: int, d: int) -> bool {
    Maze::removed(c.0 as int, c.1 as int, c.2 as int, w, h, xx, yy, d)
}

/// Some carve of `carves` clears side `d` of `(xx, yy)`.
pub open spec fn opened_by(carves: Seq<Carve>, w: int, h: int, xx: int, yy: int, d: int) -> bool {
    exists|i: int| 0 <= i < carves.len() && #[trigger] removes(carves[i], w, h, xx, yy, d)
}

/// Every wall of `m` stands except those that `carves` cleared.
pub open spec fn carved(m: Maze, carves: Seq<Carve>) -> bool {
    forall|xx: int, yy: int, d: int|
        0 <= xx < m.width && 0 <= yy < m.height && 0 <= d < 4 ==> #[trigger] m.wall(xx, yy, d) == !opened_by(
            carves,
            m.width as int,
            m.height as int,
            xx,
            yy,
            d,
        )
}

proof fn lemma_carved_fresh(m: Maze)
    requires
        m.wf(),
        m.all_walls(),
    ensures
        carved(m, Seq::empty()),
{
}

proof fn lemma_carved_step(m0: Maze, m1: Maze, carves: Seq<Carve>, c: Carve)
    requires
        carved(m0, carves),
        Maze::wall_removed(&m0, &m1, c.0, c.1, c.2),
    ensures
        carved(m1, carves.push(c)),
{
    let cs = carves.push(c);
    assert forall|xx: int, yy: int, d: int|
        0 <= xx < m1.width && 0 <= yy < m1.height && 0 <= d < 4 implies #[trigger] m1.wall(xx, yy, d) == !opened_by(
            cs,
            m1.width as int,
            m1.height as int,
            xx,
            yy,
            d,
        ) by {
        let w = m1.width as int;
        let h = m1.height as int;
        if opened_by(carves, w, h, xx, yy, d) {
            let i = choose|i: int| 0 <= i < carves.len() && #[trigger] removes(carves[i], w, h, xx, yy, d);
            assert(cs[i] == carves[i]);
        }
        if opened_by(cs, w, h, xx, yy, d) {
            let i = choose|i: int| 0 <= i < cs.len() && #[trigger] removes(cs[i], w, h, xx, yy, d);
            if i < carves.len() {
                assert(cs[i] == carves[i]);
            }
        }
        assert(removes(cs[carves.len() as int], w, h, xx, yy, d) == Maze::removed(
            c.0 as int,
            c.1 as int,
            c.2 as int,
            w,
            h,
            xx,
            yy,
            d,
        ));
    }
}

/// The shape every generated maze has: the requested size, cells that know their
/// place, shared walls seen alike from both sides, a closed border, and every cell
/// reachable from every other.
pub open spec fn generated(m: Maze, width: u32, height: u32) -> bool {
    &&& m.width == width
    &&& m.height == height
    &&& m.wf()
    &&& m.coords_match()
    &&& m.consistent()
    &&& m.border_closed()
    &&& m.connected()
}

/// The cells on sides of `(x, y)` that face the grid and are not yet marked in `visited`.
fn unvisited_neighbours(maze: &Maze, visited: &Vec<Vec<bool>>, x: u32, y: u32) -> (r: Vec<(u32, u32, usize)>)
    requires
        maze.wf(),
        maze.in_bounds((x, y)),
        dims(visited@, maze.width as int, maze.height as int),
    ensures
        forall|i: int|
            0 <= i < r@.len() ==> {
                let e = #[trigger] r@[i];
                &&& e.2 < 4
                &&& maze.dir_valid(x as int, y as int, e.2 as int)
                &&& (e.0, e.1) == Maze::dir_target(x, y, e.2)
                &&& !visited@[e.1 as int]@[e.0 as int]
            },
        r@.len() == 0 ==> closed_at(visited@, maze.width as int, maze.height as int, x as int, y as int),
        r@ == unseen(maze.all_neighbours_spec(x, y), marked_in(visited@)),
{
    let nbrs = maze.all_neighbours(x, y);
    proof {
        lemma_all_neighbours(maze, x, y);
    }
    let mut unvisited: Vec<(u32, u32, usize)> = Vec::new();
    let mut k: usize = 0;
    while k < nbrs.len()
        invariant
            nbrs@ == maze.all_neighbours_spec(x, y),
            maze.in_bounds((x, y)),
            maze.wf(),
            dims(visited@, maze.width as int, maze.height as int),
            k <= nbrs@.len(),
            forall|i: int|
                0 <= i < nbrs@.len() ==> {
                    let e = #[trigger] nbrs@[i];
                    &&& e.2 < 4
                    &&& maze.dir_valid(x as int, y as int, e.2 as int)
                    &&& (e.0, e.1) == Maze::dir_target(x, y, e.2)
                },
            forall|i: int|
                0 <= i < unvisited@.len() ==> {
                    let e = #[trigger] unvisited@[i];
                    &&& e.2 < 4
                    &&& maze.dir_valid(x as int, y as int, e.2 as int)
                    &&& (e.0, e.1) == Maze::dir_target(x, y, e.2)
                    &&& !visited@[e.1 as int]@[e.0 as int]
                },
            unvisited@.len() == 0 ==> forall|j: int|
                0 <= j < k ==> visited@[(#[trigger] nbrs@[j]).1 as int]@[nbrs@[j].0 as int],
            unvisited@ == unseen(nbrs@.subrange(0, k as int), marked_in(visited@)),
        decreases nbrs@.len() - k,
    {
        let e = nbrs[k];
        proof {
            assert(nbrs@.subrange(0, k as int + 1).drop_last() =~= nbrs@.subrange(0, k as int));
            assert(nbrs@.subrange(0, k as int + 1).last() == e);
        }
        if !visited[e.1 as usize][e.0 as usize] {
            unvisited.push(e);
        }
        k = k + 1;
    }
    proof {
        assert(nbrs@.subrange(0, nbrs@.len() as int) =~= nbrs@);
    }
    proof {
        if unvisited@.len() == 0 {
            if x + 1 < maze.width {
                let j = choose|j: int| 0 <= j < nbrs@.len() && nbrs@[j] == ((x + 1) as u32, y, E);
                assert(visited@[nbrs@[j].1 as int]@[nbrs@[j].0 as int]);
            }
            if y + 1 < maze.height {
                let j = choose|j: int| 0 <= j < nbrs@.len() && nbrs@[j] == (x, (y + 1) as u32, S);
                assert(visited@[nbrs@[j].1 as int]@[nbrs@[j].0 as int]);
            }
            if x > 0 {
                let j = choose|j: int| 0 <= j < nbrs@.len() && nbrs@[j] == ((x - 1) as u32, y, W);
                assert(visited@[nbrs@[j].1 as int]@[nbrs@[j].0 as int]);
            }
            if y > 0 {
                let j = choose|j: int| 0 <= j < nbrs@.len() && nbrs@[j] == (x, (y - 1) as u32, N);
                assert(visited@[nbrs@[j].1 as int]@[nbrs@[j].0 as int]);
            }
        }
    }
    unvisited
}

/// What the depth-first carving keeps true between steps.
spec fn dfs_inv(m: Maze, v: Seq<Vec<bool>>, st: Seq<Pos>, width: u32, height: u32) -> bool {
    &&& m.wf()
    &&& m.width == width
    &&& m.height == height
    &&& m.coords_match()
    &&& m.consistent()
    &&& m.border_closed()
    &&& width > 0
    &&& height > 0
    &&& dims(v, width as int, height as int)
    &&& v[0]@[0]
    &&& count_grid(v) <= height * width
    &&& forall|x: int, y: int|
        0 <= x < width && 0 <= y < height && #[trigger] v[y]@[x] ==> m.reachable((0, 0), (x as u32, y as u32))
    &&& forall|i: int| 0 <= i < st.len() ==> m.in_bounds(#[trigger] st[i]) && v[st[i].1 as int]@[st[i].0 as int]
    &&& forall|i: int, j: int| 0 <= i < j < st.len() ==> st[i] != st[j]
    &&& forall|x: int, y: int|
        0 <= x < width && 0 <= y < height && #[trigger] v[y]@[x] && !st.contains((x as u32, y as u32))
            ==> closed_at(v, width as int, height as int, x, y)
}

/// Dropping the top of the stack once all its grid neighbours are marked keeps the invariant.
proof fn lemma_dfs_pop(m: Maze, v: Seq<Vec<bool>>, st: Seq<Pos>, width: u32, height: u32)
    requires
        dfs_inv(m, v, st, width, height),
        st.len() > 0,
        closed_at(v, width as int, height as int, st.last().0 as int, st.last().1 as int),
    ensures
        dfs_inv(m, v, st.drop_last(), width, height),
{
    let top = st.last();
    let st2 = st.drop_last();
    assert forall|xx: int, yy: int|
        0 <= xx < width && 0 <= yy < height && #[trigger] v[yy]@[xx] && !st2.contains((xx as u32, yy as u32))
            implies closed_at(v, width as int, height as int, xx, yy) by {
        if xx != top.0 || yy != top.1 {
            if st.contains((xx as u32, yy as u32)) {
                let i = choose|i: int| 0 <= i < st.len() && st[i] == (xx as u32, yy as u32);
                if i < st.len() - 1 {
                    assert(st2[i] == st[i]);
                }
            }
        }
    }
    assert forall|i: int| 0 <= i < st2.len() implies m.in_bounds(#[trigger] st2[i]) && v[st2[i].1 as int]@[st2[i].0 as int] by {
        assert(st2[i] == st[i]);
    }
    assert forall|i: int, j: int| 0 <= i < j < st2.len() implies st2[i] != st2[j] by {
        assert(st2[i] == st[i]);
        assert(st2[j] == st[j]);
    }
}

/// Carving from the top of the stack into an unmarked neighbour, marking it and pushing
/// it keeps the invariant.
proof fn lemma_dfs_push(
    m0: Maze,
    m: Maze,
    v0: Seq<Vec<bool>>,
    v: Seq<Vec<bool>>,
    st: Seq<Pos>,
    width: u32,
    height: u32,
    dir: usize,
)
    requires
        dfs_inv(m0, v0, st, width, height),
        st.len() > 0,
        dir < 4,
        m0.dir_valid(st.last().0 as int, st.last().1 as int, dir as int),
        Maze::wall_removed(&m0, &m, st.last().0, st.last().1, dir),
        ({
            let t = Maze::dir_target(st.last().0, st.last().1, dir);
            &&& !v0[t.1 as int]@[t.0 as int]
            &&& v.len() == v0.len()
            &&& v[t.1 as int]@ == v0[t.1 as int]@.update(t.0 as int, true)
            &&& forall|yy: int| 0 <= yy < v0.len() && yy != t.1 ==> #[trigger] v[yy] == v0[yy]
        }),
    ensures
        dfs_inv(m, v, st.push(Maze::dir_target(st.last().0, st.last().1, dir)), width, height),
        count_grid(v) == count_grid(v0) + 1,
{
    let x = st.last().0;
    let y = st.last().1;
    let t = Maze::dir_target(x, y, dir);
    let nx = t.0;
    let ny = t.1;
    let st2 = st.push(t);
    lemma_remove_valid(&m0, &m, x, y, dir);
    lemma_count_grid_set(v0, v, nx as int, ny as int);
    assert(dims(v, width as int, height as int)) by {
        assert forall|yy: int| 0 <= yy < height implies #[trigger] v[yy]@.len() == width by {
            if yy != ny {
                assert(v[yy] == v0[yy]);
            }
        }
    }
    lemma_count_grid_le(v, width as nat);
    assert(m0.reachable((0, 0), (x, y)));
    lemma_reach_mono(&m0, &m, (0, 0), (x, y));
    lemma_reach_extend(&m, (0, 0), (x, y), t);
    assert(v[0]@[0]) by {
        if ny != 0 {
            assert(v[0] == v0[0]);
        }
    }
    assert forall|xx: int, yy: int|
        0 <= xx < width && 0 <= yy < height && #[trigger] v[yy]@[xx] implies m.reachable((0, 0), (xx as u32, yy as u32)) by {
        if xx != nx || yy != ny {
            if yy != ny {
                assert(v[yy] == v0[yy]);
            }
            assert(v0[yy]@[xx]);
            lemma_reach_mono(&m0, &m, (0, 0), (xx as u32, yy as u32));
        }
    }
    assert forall|i: int| 0 <= i < st2.len() implies m.in_bounds(#[trigger] st2[i]) && v[st2[i].1 as int]@[st2[i].0 as int] by {
        if i < st.len() {
            assert(st2[i] == st[i]);
            let q = st[i];
            if q.1 != ny {
                assert(v[q.1 as int] == v0[q.1 as int]);
            }
        }
    }
    assert forall|i: int, j: int| 0 <= i < j < st2.len() implies st2[i] != st2[j] by {
        assert(st2[i] == st[i]);
        if j < st.len() {
            assert(st2[j] == st[j]);
        } else {
            let q = st[i];
            assert(v0[q.1 as int]@[q.0 as int]);
        }
    }
    assert forall|xx: int, yy: int|
        0 <= xx < width && 0 <= yy < height && #[trigger] v[yy]@[xx] && !st2.contains((xx as u32, yy as u32))
            implies closed_at(v, width as int, height as int, xx, yy) by {
        assert(st2[st2.len() - 1] == t);
        if st.contains((xx as u32, yy as u32)) {
            let i = choose|i: int| 0 <= i < st.len() && st[i] == (xx as u32, yy as u32);
            assert(st2[i] == st[i]);
        }
        if yy != ny {
            assert(v[yy] == v0[yy]);
        }
        assert(v0[yy]@[xx]);
        assert(closed_at(v0, width as int, height as int, xx, yy));
        if yy + 1 < height && yy + 1 != ny {
            assert(v[yy + 1] == v0[yy + 1]);
        }
        if yy > 0 && yy - 1 != ny {
            assert(v[yy - 1] == v0[yy - 1]);
        }
    }
}

/// A frontier entry `(nx, ny, fx, fy, dir)`: the in-maze cell `(fx, fy)` faces the grid
/// on side `dir`, and `(nx, ny)` is the cell on that side.
pub type FrontierEntry = (u32, u32, u32, u32, usize);

spec fn entry_ok(m: Maze, v: Seq<Vec<bool>>, e: FrontierEntry) -> bool {
    &&& m.in_bounds((e.2, e.3))
    &&& v[e.3 as int]@[e.2 as int]
    &&& e.4 < 4
    &&& m.dir_valid(e.2 as int, e.3 as int, e.4 as int)
    &&& (e.0, e.1) == Maze::dir_target(e.2, e.3, e.4)
}

/// Every side of `(x, y)` that faces the grid leads to a marked cell or is waiting in the frontier.
spec fn covered(m: Maze, v: Seq<Vec<bool>>, fr: Seq<FrontierEntry>, x: u32, y: u32) -> bool {
    forall|d: usize|
        d < 4 && m.dir_valid(x as int, y as int, d as int) ==> ({
            let t = #[trigger] Maze::dir_target(x, y, d);
            v[t.1 as int]@[t.0 as int] || fr.contains((t.0, t.1, x, y, d))
        })
}

/// What Prim's growth keeps true between steps, apart from frontier coverage.
spec fn prim_core(m: Maze, v: Seq<Vec<bool>>, fr: Seq<FrontierEntry>, width: u32, height: u32, root: Pos) -> bool {
    &&& m.wf()
    &&& m.width == width
    &&& m.height == height
    &&& m.coords_match()
    &&& m.consistent()
    &&& m.border_closed()
    &&& width > 0
    &&& height > 0
    &&& m.in_bounds(root)
    &&& dims(v, width as int, height as int)
    &&& v[root.1 as int]@[root.0 as int]
    &&& count_grid(v) <= height * width
    &&& forall|x: int, y: int|
        0 <= x < width && 0 <= y < height && #[trigger] v[y]@[x] ==> m.reachable(root, (x as u32, y as u32))
    &&& forall|i: int| 0 <= i < fr.len() ==> entry_ok(m, v, #[trigger] fr[i])
}

/// What Prim's growth keeps true between steps.
spec fn prim_inv(m: Maze, v: Seq<Vec<bool>>, fr: Seq<FrontierEntry>, width: u32, height: u32, root: Pos) -> bool {
    &&& prim_core(m, v, fr, width, height, root)
    &&& forall|x: u32, y: u32| x < width && y < height && v[y as int]@[x as int] ==> #[trigger] covered(m, v, fr, x, y)
}

/// Taking out an entry whose cell is already marked keeps the invariant.
proof fn lemma_prim_skip(m: Maze, v: Seq<Vec<bool>>, fr: Seq<FrontierEntry>, width: u32, height: u32, root: Pos, i: int)
    requires
        prim_inv(m, v, fr, width, height, root),
        0 <= i < fr.len(),
        v[fr[i].1 as int]@[fr[i].0 as int],
    ensures
        prim_inv(m, v, fr.update(i, fr.last()).drop_last(), width, height, root),
{
    let fr2 = fr.update(i, fr.last()).drop_last();
    assert forall|j: int| 0 <= j < fr2.len() implies entry_ok(m, v, #[trigger] fr2[j]) by {
        if j == i {
            assert(entry_ok(m, v, fr[fr.len() - 1]));
        } else {
            assert(entry_ok(m, v, fr[j]));
        }
    }
    assert forall|x: u32, y: u32| x < width && y < height && v[y as int]@[x as int] implies #[trigger] covered(m, v, fr2, x, y) by {
        assert(covered(m, v, fr, x, y));
        assert forall|d: usize| d < 4 && m.dir_valid(x as int, y as int, d as int) implies ({
            let t = #[trigger] Maze::dir_target(x, y, d);
            v[t.1 as int]@[t.0 as int] || fr2.contains((t.0, t.1, x, y, d))
        }) by {
            let t = Maze::dir_target(x, y, d);
            if !v[t.1 as int]@[t.0 as int] {
                lemma_swap_remove_keeps(fr, i, (t.0, t.1, x, y, d));
            }
        }
    }
}

/// Carving the wall of an entry whose cell is unmarked and marking that cell keeps
/// everything but the coverage of the new cell.
proof fn lemma_prim_carve(
    m0: Maze,
    m: Maze,
    v0: Seq<Vec<bool>>,
    v: Seq<Vec<bool>>,
    fr: Seq<FrontierEntry>,
    width: u32,
    height: u32,
    root: Pos,
    i: int,
)
    requires
        prim_inv(m0, v0, fr, width, height, root),
        0 <= i < fr.len(),
        !v0[fr[i].1 as int]@[fr[i].0 as int],
        Maze::wall_removed(&m0, &m, fr[i].2, fr[i].3, fr[i].4),
        v.len() == v0.len(),
        v[fr[i].1 as int]@ == v0[fr[i].1 as int]@.update(fr[i].0 as int, true),
        forall|yy: int| 0 <= yy < v0.len() && yy != fr[i].1 ==> #[trigger] v[yy] == v0[yy],
    ensures
        prim_core(m, v, fr.update(i, fr.last()).drop_last(), width, height, root),
        count_grid(v) == count_grid(v0) + 1,
        forall|x: u32, y: u32|
            x < width && y < height && v[y as int]@[x as int] && (x, y) != (fr[i].0, fr[i].1) ==> #[trigger] covered(
                m,
                v,
                fr.update(i, fr.last()).drop_last(),
                x,
                y,
            ),
{
    let e = fr[i];
    let fr2 = fr.update(i, fr.last()).drop_last();
    let (nx, ny, fx, fy, dir) = e;
    assert(entry_ok(m0, v0, e));
    lemma_remove_valid(&m0, &m, fx, fy, dir);
    lemma_count_grid_set(v0, v, nx as int, ny as int);
    assert(dims(v, width as int, height as int)) by {
        assert forall|yy: int| 0 <= yy < height implies #[trigger] v[yy]@.len() == width by {
            if yy != ny {
                assert(v[yy] == v0[yy]);
            }
        }
    }
    assert forall|xx: int, yy: int| 0 <= xx < width && 0 <= yy < height && v0[yy]@[xx] implies #[trigger] v[yy]@[xx] by {
        if yy != ny {
            assert(v[yy] == v0[yy]);
        }
    }
    lemma_count_grid_le(v, width as nat);
    assert(m0.reachable(root, (fx, fy)));
    lemma_reach_mono(&m0, &m, root, (fx, fy));
    lemma_reach_extend(&m, root, (fx, fy), (nx, ny));
    assert forall|xx: int, yy: int|
        0 <= xx < width && 0 <= yy < height && #[trigger] v[yy]@[xx] implies m.reachable(root, (xx as u32, yy as u32)) by {
        if xx != nx || yy != ny {
            if yy != ny {
                assert(v[yy] == v0[yy]);
            }
            assert(v0[yy]@[xx]);
            lemma_reach_mono(&m0, &m, root, (xx as u32, yy as u32));
        }
    }
    assert forall|j: int| 0 <= j < fr2.len() implies entry_ok(m, v, #[trigger] fr2[j]) by {
        let q = if j == i { fr[fr.len() - 1] } else { fr[j] };
        assert(entry_ok(m0, v0, q));
        assert(v0[q.3 as int]@[q.2 as int]);
    }
    assert forall|x: u32, y: u32|
        x < width && y < height && v[y as int]@[x as int] && (x, y) != (nx, ny) implies #[trigger] covered(m, v, fr2, x, y) by {
        assert(v0[y as int]@[x as int]);
        assert(covered(m0, v0, fr, x, y));
        assert forall|d: usize| d < 4 && m.dir_valid(x as int, y as int, d as int) implies ({
            let t = #[trigger] Maze::dir_target(x, y, d);
            v[t.1 as int]@[t.0 as int] || fr2.contains((t.0, t.1, x, y, d))
        }) by {
            let t = Maze::dir_target(x, y, d);
            if !v[t.1 as int]@[t.0 as int] {
                assert(!v0[t.1 as int]@[t.0 as int]);
                assert(fr.contains((t.0, t.1, x, y, d)));
                if (t.0, t.1, x, y, d) != e {
                    lemma_swap_remove_keeps(fr, i, (t.0, t.1, x, y, d));
                }
            }
        }
    }
}

/// Appending the new cell's frontier entries restores the full invariant.
proof fn lemma_prim_extend(
    m: Maze,
    v: Seq<Vec<bool>>,
    fr2: Seq<FrontierEntry>,
    fr3: Seq<FrontierEntry>,
    width: u32,
    height: u32,
    root: Pos,
    n: Pos,
)
    requires
        prim_core(m, v, fr2, width, height, root),
        forall|x: u32, y: u32|
            x < width && y < height && v[y as int]@[x as int] && (x, y) != n ==> #[trigger] covered(m, v, fr2, x, y),
        fr3.len() >= fr2.len(),
        fr3.subrange(0, fr2.len() as int) == fr2,
        forall|i: int| fr2.len() <= i < fr3.len() ==> entry_ok(m, v, #[trigger] fr3[i]),
        covered(m, v, fr3, n.0, n.1),
    ensures
        prim_inv(m, v, fr3, width, height, root),
{
    assert forall|i: int| 0 <= i < fr3.len() implies entry_ok(m, v, #[trigger] fr3[i]) by {
        if i < fr2.len() {
            assert(fr3[i] == fr3.subrange(0, fr2.len() as int)[i]);
            assert(entry_ok(m, v, fr2[i]));
        }
    }
    assert forall|x: u32, y: u32| x < width && y < height && v[y as int]@[x as int] implies #[trigger] covered(m, v, fr3, x, y) by {
        if (x, y) != n {
            assert(covered(m, v, fr2, x, y));
            assert forall|d: usize| d < 4 && m.dir_valid(x as int, y as int, d as int) implies ({
                let t = #[trigger] Maze::dir_target(x, y, d);
                v[t.1 as int]@[t.0 as int] || fr3.contains((t.0, t.1, x, y, d))
            }) by {
                let t = Maze::dir_target(x, y, d);
                if !v[t.1 as int]@[t.0 as int] {
                    let j = choose|j: int| 0 <= j < fr2.len() && fr2[j] == (t.0, t.1, x, y, d);
                    assert(fr3[j] == fr3.subrange(0, fr2.len() as int)[j]);
                }
            }
        }
    }
}

/// Appends a frontier entry for every side of `(x, y)` that faces an unmarked cell.
fn push_frontier(maze: &Maze, in_maze: &Vec<Vec<bool>>, frontier: &mut Vec<FrontierEntry>, x: u32, y: u32)
    requires
        maze.wf(),
        maze.in_bounds((x, y)),
        dims(in_maze@, maze.width as int, maze.height as int),
        in_maze@[y as int]@[x as int],
    ensures
        final(frontier)@.len() >= old(frontier)@.len(),
        final(frontier)@.subrange(0, old(frontier)@.len() as int) == old(frontier)@,
        forall|i: int|
            old(frontier)@.len() <= i < final(frontier)@.len() ==> entry_ok(*maze, in_maze@, #[trigger] final(frontier)@[i]),
        covered(*maze, in_maze@, final(frontier)@, x, y),
        final(frontier)@ == old(frontier)@ + as_frontier(unseen(maze.all_neighbours_spec(x, y), marked_in(in_maze@)), x, y),
{
    let nbrs = maze.all_neighbours(x, y);
    proof {
        lemma_all_neighbours(maze, x, y);
    }
    let ghost f0 = frontier@;
    let mut k: usize = 0;
    while k < nbrs.len()
        invariant
            nbrs@ == maze.all_neighbours_spec(x, y),
            maze.in_bounds((x, y)),
            maze.wf(),
            dims(in_maze@, maze.width as int, maze.height as int),
            in_maze@[y as int]@[x as int],
            k <= nbrs@.len(),
            forall|i: int|
                0 <= i < nbrs@.len() ==> {
                    let e = #[trigger] nbrs@[i];
                    &&& e.2 < 4
                    &&& maze.dir_valid(x as int, y as int, e.2 as int)
                    &&& (e.0, e.1) == Maze::dir_target(x, y, e.2)
                },
            frontier@.len() >= f0.len(),
            frontier@.subrange(0, f0.len() as int) == f0,
            forall|i: int| f0.len() <= i < frontier@.len() ==> entry_ok(*maze, in_maze@, #[trigger] frontier@[i]),
            forall|j: int|
                0 <= j < k ==> ({
                    let e = #[trigger] nbrs@[j];
                    in_maze@[e.1 as int]@[e.0 as int] || frontier@.contains((e.0, e.1, x, y, e.2))
                }),
            frontier@ == f0 + as_frontier(unseen(nbrs@.subrange(0, k as int), marked_in(in_maze@)), x, y),
        decreases nbrs@.len() - k,
    {
        let e = nbrs[k];
        let ghost fr_before = frontier@;
        proof {
            assert(nbrs@.subrange(0, k as int + 1).drop_last() =~= nbrs@.subrange(0, k as int));
            assert(nbrs@.subrange(0, k as int + 1).last() == e);
        }
        if !in_maze[e.1 as usize][e.0 as usize] {
            frontier.push((e.0, e.1, x, y, e.2));
            proof {
                let u = unseen(nbrs@.subrange(0, k as int), marked_in(in_maze@));
                assert(as_frontier(u.push(e), x, y) =~= as_frontier(u, x, y).push((e.0, e.1, x, y, e.2)));
                assert(frontier@[frontier@.len() - 1] == (e.0, e.1, x, y, e.2));
                assert(frontier@.subrange(0, f0.len() as int) =~= fr_before.subrange(0, f0.len() as int));
                assert forall|j: int| 0 <= j < k implies ({
                    let e2 = #[trigger] nbrs@[j];
                    in_maze@[e2.1 as int]@[e2.0 as int] || frontier@.contains((e2.0, e2.1, x, y, e2.2))
                }) by {
                    let e2 = nbrs@[j];
                    if !in_maze@[e2.1 as int]@[e2.0 as int] {
                        let i = choose|i: int| 0 <= i < fr_before.len() && fr_before[i] == (e2.0, e2.1, x, y, e2.2);
                        assert(frontier@[i] == fr_before[i]);
                    }
                }
            }
        }
        k = k + 1;
    }
    proof {
        assert(nbrs@.subrange(0, nbrs@.len() as int) =~= nbrs@);
        assert forall|d: usize| d < 4 && maze.dir_valid(x as int, y as int, d as int) implies ({
            let t = #[trigger] Maze::dir_target(x, y, d);
            in_maze@[t.1 as int]@[t.0 as int] || frontier@.contains((t.0, t.1, x, y, d))
        }) by {
            let t = Maze::dir_target(x, y, d);
            assert(nbrs@.contains((t.0, t.1, d)));
            let j = choose|j: int| 0 <= j < nbrs@.len() && nbrs@[j] == (t.0, t.1, d);
        }
    }
}

/// A frontier with one entry taken out still holds every other entry.
proof fn lemma_swap_remove_keeps(fr: Seq<FrontierEntry>, i: int, q: FrontierEntry)
    requires
        0 <= i < fr.len(),
        fr.contains(q),
        q != fr[i],
    ensures
        fr.update(i, fr.last()).drop_last().contains(q),
{
    let r = fr.update(i, fr.last()).drop_last();
    let j = choose|j: int| 0 <= j < fr.len() && fr[j] == q;
    if j == fr.len() - 1 {
        assert(r[i] == q);
    } else {
        assert(r[j] == q);
    }
}

/// Every marked cell has all its grid neighbours marked once the frontier is empty.
proof fn lemma_prim_done(m: Maze, v: Seq<Vec<bool>>, width: u32, height: u32, root: Pos)
    requires
        prim_inv(m, v, Seq::empty(), width, height, root),
    ensures
        forall|x: int, y: int| 0 <= x < width && 0 <= y < height ==> #[trigger] v[y]@[x],
{
    assert forall|xx: int, yy: int|
        0 <= xx < width && 0 <= yy < height && #[trigger] v[yy]@[xx] implies closed_at(v, width as int, height as int, xx, yy) by {
        let x = xx as u32;
        let y = yy as u32;
        assert(covered(m, v, Seq::empty(), x, y));
        if x + 1 < width {
            let t = Maze::dir_target(x, y, E);
            assert(!Seq::<FrontierEntry>::empty().contains((t.0, t.1, x, y, E)));
        }
        if y + 1 < height {
            let t = Maze::dir_target(x, y, S);
            assert(!Seq::<FrontierEntry>::empty().contains((t.0, t.1, x, y, S)));
        }
        if x > 0 {
            let t = Maze::dir_target(x, y, W);
            assert(!Seq::<FrontierEntry>::empty().contains((t.0, t.1, x, y, W)));
        }
        if y > 0 {
            let t = Maze::dir_target(x, y, N);
            assert(!Seq::<FrontierEntry>::empty().contains((t.0, t.1, x, y, N)));
        }
    }
    lemma_closed_covers(v, width as int, height as int, root.0 as int, root.1 as int);
}

/// All cells of the rows above `y`, and the first `upto` cells of row `y`, are reachable from the origin.
spec fn reached_prefix(m: Maze, y: u32, upto: int) -> bool {
    &&& forall|c: Pos| m.in_bounds(c) && c.1 < y ==> #[trigger] m.reachable((0, 0), c)
    &&& forall|k: int| 0 <= k < upto ==> #[trigger] m.reachable((0, 0), (k as u32, y))
}

/// The east walls between cells `start` .. `end - 1` of row `y` are all missing.
spec fn run_open(m: Maze, y: int, start: int, end: int) -> bool {
    forall|k: int| start <= k && k + 1 < end ==> !#[trigger] m.wall(k, y, E as int)
}

proof fn lemma_prefix_mono(m0: Maze, m: Maze, y: u32, upto: int)
    requires
        fewer_walls(&m0, &m),
        reached_prefix(m0, y, upto),
    ensures
        reached_prefix(m, y, upto),
{
    assert forall|c: Pos| m.in_bounds(c) && c.1 < y implies #[trigger] m.reachable((0, 0), c) by {
        lemma_reach_mono(&m0, &m, (0, 0), c);
    }
    assert forall|k: int| 0 <= k < upto implies #[trigger] m.reachable((0, 0), (k as u32, y)) by {
        lemma_reach_mono(&m0, &m, (0, 0), (k as u32, y));
    }
}

proof fn lemma_run_mono(m0: Maze, m: Maze, y: int, start: int, end: int)
    requires
        fewer_walls(&m0, &m),
        run_open(m0, y, start, end),
        0 <= y < m0.height,
        0 <= start,
        end <= m0.width,
    ensures
        run_open(m, y, start, end),
{
    assert forall|k: int| start <= k && k + 1 < end implies !#[trigger] m.wall(k, y, E as int) by {
        assert(!m0.wall(k, y, E as int));
    }
}

/// Along a row whose east walls between `a` and `b` are missing, `a` and `b` reach each other.
proof fn lemma_row_walk(m: Maze, y: u32, a: u32, b: u32)
    requires
        m.wf(),
        m.consistent(),
        y < m.height,
        a <= b < m.width,
        run_open(m, y as int, a as int, b as int + 1),
    ensures
        m.reachable((a, y), (b, y)),
        m.reachable((b, y), (a, y)),
    decreases b - a,
{
    if a == b {
        lemma_reach_refl(&m, (a, y));
    } else {
        lemma_row_walk(m, y, a, (b - 1) as u32);
        assert(!m.wall(b - 1, y as int, E as int));
        assert(m.step(((b - 1) as u32, y), (b, y)));
        lemma_reach_extend(&m, (a, y), ((b - 1) as u32, y), (b, y));
        lemma_step_symm(&m, ((b - 1) as u32, y), (b, y));
        lemma_reach_refl(&m, (b, y));
        lemma_reach_extend(&m, (b, y), (b, y), ((b - 1) as u32, y));
        lemma_reach_trans(&m, (b, y), ((b - 1) as u32, y), (a, y));
    }
}

/// Carving north from a member of the current run joins the whole run to the rows above.
proof fn lemma_sidewinder_north(m0: Maze, m: Maze, y: u32, run_start: u32, x: u32, member: u32)
    requires
        m0.wf(),
        m0.consistent(),
        m0.border_closed(),
        1 <= y < m0.height,
        run_start <= member <= x < m0.width,
        reached_prefix(m0, y, run_start as int),
        run_open(m0, y as int, run_start as int, x as int + 1),
        Maze::wall_removed(&m0, &m, member, y, N),
    ensures
        fewer_walls(&m0, &m),
        m.consistent(),
        m.border_closed(),
        reached_prefix(m, y, x as int + 1),
        run_open(m, y as int, x as int + 1, x as int + 1),
{
    lemma_remove_valid(&m0, &m, member, y, N);
    lemma_prefix_mono(m0, m, y, run_start as int);
    lemma_run_mono(m0, m, y as int, run_start as int, x as int + 1);
    let up: Pos = (member, (y - 1) as u32);
    assert(m.reachable((0, 0), up));
    lemma_step_symm(&m, (member, y), up);
    lemma_reach_extend(&m, (0, 0), up, (member, y));
    assert forall|k: int| 0 <= k < x + 1 implies #[trigger] m.reachable((0, 0), (k as u32, y)) by {
        if k >= run_start {
            if k <= member {
                assert(run_open(m, y as int, k, member as int + 1));
                lemma_row_walk(m, y, k as u32, member);
                lemma_reach_trans(&m, (0, 0), (member, y), (k as u32, y));
            } else {
                assert(run_open(m, y as int, member as int, k + 1));
                lemma_row_walk(m, y, member, k as u32);
                lemma_reach_trans(&m, (0, 0), (member, y), (k as u32, y));
            }
        }
    }
}

/// The generator's first state for a seed.
pub open spec fn lcg_start(seed: u64) -> u64 {
    vstd::wrapping::u64_specs::wrapping_add(seed, 1u64)
}

/// The carves Sidewinder makes from cell `(x, y)` on, in rows below the top,
/// with the current run starting at `run_start` and generator state `r`: each
/// cell but the last of a row flips a coin (the low bit of the next state) to
/// carve east; otherwise a member of the run, picked by the next draw, is
/// carved north and a new run starts.
pub open spec fn sidewinder_from(r: u64, w: u32, h: u32, y: u32, x: u32, run_start: u32) -> Seq<Carve>
    decreases h - y, w - x,
{
    if y >= h {
        Seq::empty()
    } else if x >= w {
        sidewinder_from(r, w, h, (y + 1) as u32, 0, 0)
    } else {
        let at_east = x + 1 >= w;
        let r1 = if at_east {
            r
        } else {
            lcg_step(r)
        };
        if !at_east && (r1 & 1 == 0) {
            seq![(x, y, E)] + sidewinder_from(r1, w, h, y, (x + 1) as u32, run_start)
        } else {
            let r2 = lcg_step(r1);
            let member = (run_start + ((r2 as usize) as u32) as int % (x - run_start + 1)) as u32;
            seq![(member, y, N)] + sidewinder_from(r2, w, h, y, (x + 1) as u32, (x + 1) as u32)
        }
    }
}

/// All carves of Sidewinder for a seed: the top row opened east to west, then
/// the rows below.
pub open spec fn sidewinder_carves(seed: u64, w: u32, h: u32) -> Seq<Carve> {
    Seq::new((w - 1) as nat, |i: int| (i as u32, 0u32, E)) + sidewinder_from(lcg_start(seed), w, h, 1, 0, 0)
}

/// The in-grid cells beside `(x, y)` with the side they lie on, in the order
/// north, east, south, west.
pub open spec fn grid_neighbours(w: u32, h: u32, x: u32, y: u32) -> Seq<(u32, u32, usize)> {
    let s0 = Seq::<(u32, u32, usize)>::empty();
    let s1 = if y > 0 {
        s0.push((x, (y - 1) as u32, N))
    } else {
        s0
    };
    let s2 = if x + 1 < w {
        s1.push(((x + 1) as u32, y, E))
    } else {
        s1
    };
    let s3 = if y + 1 < h {
        s2.push((x, (y + 1) as u32, S))
    } else {
        s2
    };
    if x > 0 {
        s3.push(((x - 1) as u32, y, W))
    } else {
        s3
    }
}

/// The entries of `nbrs` whose cell is not `seen`, in order.
pub open spec fn unseen(nbrs: Seq<(u32, u32, usize)>, seen: spec_fn(Pos) -> bool) -> Seq<(u32, u32, usize)>
    decreases nbrs.len(),
{
    if nbrs.len() == 0 {
        nbrs
    } else {
        let rest = unseen(nbrs.drop_last(), seen);
        let e = nbrs.last();
        if seen((e.0, e.1)) {
            rest
        } else {
            rest.push(e)
        }
    }
}

proof fn lemma_unseen_agree(nbrs: Seq<(u32, u32, usize)>, p: spec_fn(Pos) -> bool, q: spec_fn(Pos) -> bool)
    requires
        forall|i: int| 0 <= i < nbrs.len() ==> p(((#[trigger] nbrs[i]).0, nbrs[i].1)) == q((nbrs[i].0, nbrs[i].1)),
    ensures
        unseen(nbrs, p) == unseen(nbrs, q),
    decreases nbrs.len(),
{
    if nbrs.len() > 0 {
        let d = nbrs.drop_last();
        assert forall|i: int| 0 <= i < d.len() implies p(((#[trigger] d[i]).0, d[i].1)) == q((d[i].0, d[i].1)) by {
            assert(d[i] == nbrs[i]);
        }
        lemma_unseen_agree(d, p, q);
        assert(nbrs.last() == nbrs[nbrs.len() - 1]);
    }
}

/// The state of the depth-first carving: visited cells, the stack of cells
/// being explored, the generator state, and the carves so far.
pub struct DfsState {
    pub visited: Set<Pos>,
    pub stack: Seq<Pos>,
    pub rng: u64,
    pub carves: Seq<Carve>,
}

/// One step of the depth-first carving: with no unvisited neighbour the top
/// of the stack is dropped; otherwise the next draw picks one, the wall
/// towards it is carved, and it is visited and pushed.
pub open spec fn dfs_step(w: u32, h: u32, s: DfsState) -> DfsState {
    if s.stack.len() == 0 {
        s
    } else {
        let top = s.stack.last();
        let un = unseen(grid_neighbours(w, h, top.0, top.1), |c: Pos| s.visited.contains(c));
        if un.len() == 0 {
            DfsState { stack: s.stack.drop_last(), ..s }
        } else {
            let r = lcg_step(s.rng);
            let e = un[((r as usize) as int) % (un.len() as int)];
            DfsState {
                visited: s.visited.insert((e.0, e.1)),
                stack: s.stack.push((e.0, e.1)),
                rng: r,
                carves: s.carves.push((top.0, top.1, e.2)),
            }
        }
    }
}

/// The depth-first carving after `k` steps from the top-left cell.
#[verifier::opaque]
pub open spec fn dfs_run(w: u32, h: u32, seed: u64, k: nat) -> DfsState
    decreases k,
{
    if k == 0 {
        DfsState { visited: set![(0u32, 0u32)], stack: seq![(0u32, 0u32)], rng: lcg_start(seed), carves: Seq::empty() }
    } else {
        dfs_step(w, h, dfs_run(w, h, seed, (k - 1) as nat))
    }
}

/// The carves of the recursive backtracker: those of the depth-first carving
/// once its stack is empty.
pub open spec fn backtracker_carves(seed: u64, w: u32, h: u32) -> Seq<Carve> {
    dfs_run(w, h, seed, choose|k: nat| (#[trigger] dfs_run(w, h, seed, k)).stack.len() == 0).carves
}

proof fn lemma_dfs_run_start(w: u32, h: u32, seed: u64)
    ensures
        dfs_run(w, h, seed, 0) == (DfsState {
            visited: set![(0u32, 0u32)],
            stack: seq![(0u32, 0u32)],
            rng: lcg_start(seed),
            carves: Seq::empty(),
        }),
{
    reveal(dfs_run);
}

proof fn lemma_dfs_run_next(w: u32, h: u32, seed: u64, k: nat)
    ensures
        dfs_run(w, h, seed, k + 1) == dfs_step(w, h, dfs_run(w, h, seed, k)),
{
    reveal(dfs_run);
}

proof fn lemma_dfs_settled(w: u32, h: u32, seed: u64, k0: nat, k: nat)
    requires
        dfs_run(w, h, seed, k0).stack.len() == 0,
        k >= k0,
    ensures
        dfs_run(w, h, seed, k) == dfs_run(w, h, seed, k0),
    decreases k - k0,
{
    if k > k0 {
        lemma_dfs_settled(w, h, seed, k0, (k - 1) as nat);
        lemma_dfs_run_next(w, h, seed, (k - 1) as nat);
    }
}

/// On an empty grid the carving stops after one step, having carved nothing.
proof fn lemma_dfs_empty_grid(w: u32, h: u32, seed: u64)
    requires
        w == 0 || h == 0,
        !(w == 0 && h >= 2),
        !(h == 0 && w >= 2),
    ensures
        backtracker_carves(seed, w, h) == Seq::<Carve>::empty(),
{
    lemma_dfs_run_start(w, h, seed);
    lemma_dfs_run_next(w, h, seed, 0);
    let s0 = dfs_run(w, h, seed, 0);
    assert(grid_neighbours(w, h, 0, 0) =~= Seq::<(u32, u32, usize)>::empty());
    assert(unseen(grid_neighbours(w, h, 0, 0), |c: Pos| s0.visited.contains(c)) =~= Seq::<(u32, u32, usize)>::empty());
    assert(dfs_run(w, h, seed, 1).stack =~= Seq::<Pos>::empty());
    lemma_backtracker_carves(w, h, seed, 1);
}

proof fn lemma_backtracker_carves(w: u32, h: u32, seed: u64, k0: nat)
    requires
        dfs_run(w, h, seed, k0).stack.len() == 0,
    ensures
        backtracker_carves(seed, w, h) == dfs_run(w, h, seed, k0).carves,
{
    let k1 = choose|k: nat| (#[trigger] dfs_run(w, h, seed, k)).stack.len() == 0;
    if k1 >= k0 {
        lemma_dfs_settled(w, h, seed, k0, k1);
    } else {
        lemma_dfs_settled(w, h, seed, k1, k0);
    }
}

/// Frontier entries from cell `(x, y)` towards each of `es`.
pub open spec fn as_frontier(es: Seq<(u32, u32, usize)>, x: u32, y: u32) -> Seq<FrontierEntry> {
    Seq::new(es.len(), |i: int| (es[i].0, es[i].1, x, y, es[i].2))
}

/// The state of Prim's growth: cells in the maze, the frontier of walls to
/// consider, the generator state, and the carves so far.
pub struct PrimState {
    pub in_maze: Set<Pos>,
    pub frontier: Seq<FrontierEntry>,
    pub rng: u64,
    pub carves: Seq<Carve>,
}

/// The starting cell of Prim's growth, drawn from the first two states, and
/// the generator state after the draws.
pub open spec fn prim_root(seed: u64, w: u32, h: u32) -> (Pos, u64) {
    let r1 = lcg_step(lcg_start(seed));
    let r2 = lcg_step(r1);
    ((((r1 as usize) as u32) % w, ((r2 as usize) as u32) % h), r2)
}

/// One step of Prim's growth: the next draw picks a frontier entry, which is
/// swapped out; if its cell is new, the wall is carved, the cell joins the
/// maze, and entries towards its new neighbours are appended.
pub open spec fn prim_step(w: u32, h: u32, s: PrimState) -> PrimState {
    if s.frontier.len() == 0 {
        s
    } else {
        let r = lcg_step(s.rng);
        let idx = ((r as usize) as int) % (s.frontier.len() as int);
        let e = s.frontier[idx];
        let rest = s.frontier.update(idx, s.frontier.last()).drop_last();
        if s.in_maze.contains((e.0, e.1)) {
            PrimState { frontier: rest, rng: r, ..s }
        } else {
            let grown = s.in_maze.insert((e.0, e.1));
            PrimState {
                in_maze: grown,
                frontier: rest + as_frontier(unseen(grid_neighbours(w, h, e.0, e.1), |c: Pos| grown.contains(c)), e.0, e.1),
                rng: r,
                carves: s.carves.push((e.2, e.3, e.4)),
            }
        }
    }
}

/// Prim's growth after `k` steps.
#[verifier::opaque]
pub open spec fn prim_run(w: u32, h: u32, seed: u64, k: nat) -> PrimState
    decreases k,
{
    if k == 0 {
        let (root, r) = prim_root(seed, w, h);
        let start = set![root];
        PrimState {
            in_maze: start,
            frontier: as_frontier(unseen(grid_neighbours(w, h, root.0, root.1), |c: Pos| start.contains(c)), root.0, root.1),
            rng: r,
            carves: Seq::empty(),
        }
    } else {
        prim_step(w, h, prim_run(w, h, seed, (k - 1) as nat))
    }
}

/// The carves of Prim's algorithm: those of the growth once its frontier is empty.
pub open spec fn prims_carves(seed: u64, w: u32, h: u32) -> Seq<Carve> {
    prim_run(w, h, seed, choose|k: nat| (#[trigger] prim_run(w, h, seed, k)).frontier.len() == 0).carves
}

proof fn lemma_prim_run_start(w: u32, h: u32, seed: u64)
    ensures
        prim_run(w, h, seed, 0) == ({
            let (root, r) = prim_root(seed, w, h);
            let start = set![root];
            PrimState {
                in_maze: start,
                frontier: as_frontier(unseen(grid_neighbours(w, h, root.0, root.1), |c: Pos| start.contains(c)), root.0, root.1),
                rng: r,
                carves: Seq::empty(),
            }
        }),
{
    reveal(prim_run);
}

proof fn lemma_prim_run_next(w: u32, h: u32, seed: u64, k: nat)
    ensures
        prim_run(w, h, seed, k + 1) == prim_step(w, h, prim_run(w, h, seed, k)),
{
    reveal(prim_run);
}

proof fn lemma_prim_settled(w: u32, h: u32, seed: u64, k0: nat, k: nat)
    requires
        prim_run(w, h, seed, k0).frontier.len() == 0,
        k >= k0,
    ensures
        prim_run(w, h, seed, k) == prim_run(w, h, seed, k0),
    decreases k - k0,
{
    if k > k0 {
        lemma_prim_settled(w, h, seed, k0, (k - 1) as nat);
        lemma_prim_run_next(w, h, seed, (k - 1) as nat);
    }
}

proof fn lemma_prims_carves(w: u32, h: u32, seed: u64, k0: nat)
    requires
        prim_run(w, h, seed, k0).frontier.len() == 0,
    ensures
        prims_carves(seed, w, h) == prim_run(w, h, seed, k0).carves,
{
    let k1 = choose|k: nat| (#[trigger] prim_run(w, h, seed, k)).frontier.len() == 0;
    if k1 >= k0 {
        lemma_prim_settled(w, h, seed, k0, k1);
    } else {
        lemma_prim_settled(w, h, seed, k1, k0);
    }
}

/// Maze generation algorithms.
#[derive(Debug, Default)]
pub struct MazeGenerator;

impl MazeGenerator {
    /// Recursive backtracker (DFS) — produces long winding corridors.
    pub fn recursive_backtracker(width: u32, height: u32, seed: u64) -> (m: Maze)
        requires
            !(width == 0 && height >= 2),
            !(height == 0 && width >= 2),
        ensures
            generated(m, width, height),
            carved(m, backtracker_carves(seed, width, height)),
    {
        let mut maze = Maze::new(width, height);
        proof {
            lemma_fresh_maze(&maze);
            lemma_carved_fresh(maze);
        }
        if width == 0 || height == 0 {
            // The only cell that could be visited has no neighbour: nothing is carved.
            proof {
                lemma_dfs_empty_grid(width, height, seed);
            }
            return maze;
        }
        let mut visited: Vec<Vec<bool>> = new_grid(width, height, false);
        let mut stack: Vec<Pos> = Vec::new();
        let mut rng = LcgRng::new(seed);

        let ghost v_init = visited@;
        visited[0][0] = true;
        stack.push((0, 0));
        proof {
            lemma_reach_refl(&maze, (0, 0));
            lemma_count_grid_le(visited@, width as nat);
            assert forall|x: int, y: int|
                0 <= x < width && 0 <= y < height && #[trigger] visited@[y]@[x] implies x == 0 && y == 0 by {
                if y != 0 {
                    assert(visited@[y] == v_init[y]);
                }
            }
            assert(stack@[0] == (0u32, 0u32));
            assert(stack@.contains((0u32, 0u32)));
            assert(dims(visited@, width as int, height as int)) by {
                assert forall|yy: int| 0 <= yy < height implies #[trigger] visited@[yy]@.len() == width by {
                    if yy != 0 {
                        assert(visited@[yy] == v_init[yy]);
                    }
                }
            }
        }

        let ghost mut k: nat = 0;
        proof {
            lemma_dfs_run_start(width, height, seed);
            assert(stack@ =~= dfs_run(width, height, seed, 0).stack);
            assert forall|c: Pos| maze.in_bounds(c) implies #[trigger] visited@[c.1 as int]@[c.0 as int] == dfs_run(
                width,
                height,
                seed,
                0,
            ).visited.contains(c) by {
                if c.1 != 0 {
                    assert(visited@[c.1 as int] == v_init[c.1 as int]);
                }
            }
        }
        while stack.len() > 0
            invariant
                dfs_inv(maze, visited@, stack@, width, height),
                stack@ == dfs_run(width, height, seed, k).stack,
                rng.0 == dfs_run(width, height, seed, k).rng,
                carved(maze, dfs_run(width, height, seed, k).carves),
                forall|c: Pos| maze.in_bounds(c) ==> #[trigger] visited@[c.1 as int]@[c.0 as int] == dfs_run(
                    width,
                    height,
                    seed,
                    k,
                ).visited.contains(c),
            decreases height * width - count_grid(visited@), stack@.len(),
        {
            let ghost st = dfs_run(width, height, seed, k);
            let top = stack[stack.len() - 1];
            let x = top.0;
            let y = top.1;
            let unvisited = unvisited_neighbours(&maze, &visited, x, y);
            proof {
                assert(maze.in_bounds(top));
                let nb = maze.all_neighbours_spec(x, y);
                lemma_all_neighbours(&maze, x, y);
                assert forall|i: int| 0 <= i < nb.len() implies marked_in(visited@)(((#[trigger] nb[i]).0, nb[i].1))
                    == (|c: Pos| st.visited.contains(c))((nb[i].0, nb[i].1)) by {
                    assert(maze.in_bounds((nb[i].0, nb[i].1)));
                }
                lemma_unseen_agree(nb, marked_in(visited@), |c: Pos| st.visited.contains(c));
                assert(nb == grid_neighbours(width, height, x, y));
                assert(top == st.stack.last());
            }
            if unvisited.len() == 0 {
                proof {
                    lemma_dfs_pop(maze, visited@, stack@, width, height);
                }
                stack.pop();
                proof {
                    lemma_dfs_run_next(width, height, seed, k);
                    k = k + 1;
                    assert(stack@ =~= dfs_run(width, height, seed, k).stack);
                }
            } else {
                let r = rng.next_usize();
                let idx = r % unvisited.len();
                let (nx, ny, dir) = unvisited[idx];
                let ghost m0 = maze;
                let ghost v0 = visited@;
                proof {
                    assert(unvisited@[idx as int] == (nx, ny, dir));
                }
                maze.remove_wall(x, y, dir);
                visited[ny as usize][nx as usize] = true;
                proof {
                    lemma_dfs_push(m0, maze, v0, visited@, stack@, width, height, dir);
                    lemma_carved_step(m0, maze, st.carves, (x, y, dir));
                }
                stack.push((nx, ny));
                proof {
                    lemma_dfs_run_next(width, height, seed, k);
                    k = k + 1;
                    let st2 = dfs_run(width, height, seed, k);
                    assert(st2 == dfs_step(width, height, st));
                    assert(((r as usize) as int) % (unvisited@.len() as int) == idx as int);
                    assert(stack@ =~= st2.stack);
                    assert forall|c: Pos| maze.in_bounds(c) implies #[trigger] visited@[c.1 as int]@[c.0 as int]
                        == st2.visited.contains(c) by {
                        if c.1 != ny {
                            assert(visited@[c.1 as int] == v0[c.1 as int]);
                        } else if c.0 != nx {
                            assert(visited@[c.1 as int]@[c.0 as int] == v0[c.1 as int]@[c.0 as int]);
                        }
                    }
                }
            }
        }
        proof {
            lemma_backtracker_carves(width, height, seed, k);
            lemma_closed_covers(visited@, width as int, height as int, 0, 0);
            assert forall|c: Pos| maze.in_bounds(c) implies #[trigger] maze.reachable((0, 0), c) by {
                assert(visited@[c.1 as int]@[c.0 as int]);
            }
            lemma_connected_from_root(&maze, (0, 0));
        }
        maze
    }

    /// Prim's algorithm — produces mazes with many short dead ends.
    pub fn prims_algorithm(width: u32, height: u32, seed: u64) -> (m: Maze)
        requires
            width > 0,
            height > 0,
        ensures
            generated(m, width, height),
            carved(m, prims_carves(seed, width, height)),
    {
        let mut maze = Maze::new(width, height);
        proof {
            lemma_fresh_maze(&maze);
            lemma_carved_fresh(maze);
        }
        let mut in_maze: Vec<Vec<bool>> = new_grid(width, height, false);
        let mut frontier: Vec<FrontierEntry> = Vec::new();
        let mut rng = LcgRng::new(seed);

        let sx = (#[verifier::truncate] (rng.next_usize() as u32)) % width;
        let sy = (#[verifier::truncate] (rng.next_usize() as u32)) % height;
        let ghost v_init = in_maze@;
        in_maze[sy as usize][sx as usize] = true;
        proof {
            lemma_reach_refl(&maze, (sx, sy));
            assert(dims(in_maze@, width as int, height as int)) by {
                assert forall|yy: int| 0 <= yy < height implies #[trigger] in_maze@[yy]@.len() == width by {
                    if yy != sy {
                        assert(in_maze@[yy] == v_init[yy]);
                    }
                }
            }
            lemma_count_grid_le(in_maze@, width as nat);
            assert forall|x: int, y: int|
                0 <= x < width && 0 <= y < height && #[trigger] in_maze@[y]@[x] implies x == sx && y == sy by {
                if y != sy {
                    assert(in_maze@[y] == v_init[y]);
                }
            }
        }
        push_frontier(&maze, &in_maze, &mut frontier, sx, sy);
        proof {
            assert(frontier@.subrange(0, 0) =~= Seq::<FrontierEntry>::empty());
            lemma_prim_extend(maze, in_maze@, Seq::empty(), frontier@, width, height, (sx, sy), (sx, sy));
            lemma_prim_run_start(width, height, seed);
            let st0 = prim_run(width, height, seed, 0);
            let nb = maze.all_neighbours_spec(sx, sy);
            lemma_all_neighbours(&maze, sx, sy);
            assert forall|i: int| 0 <= i < nb.len() implies marked_in(in_maze@)(((#[trigger] nb[i]).0, nb[i].1))
                == (|c: Pos| st0.in_maze.contains(c))((nb[i].0, nb[i].1)) by {
                assert(maze.in_bounds((nb[i].0, nb[i].1)));
            }
            lemma_unseen_agree(nb, marked_in(in_maze@), |c: Pos| st0.in_maze.contains(c));
            assert(nb == grid_neighbours(width, height, sx, sy));
            assert(Seq::<FrontierEntry>::empty() + as_frontier(unseen(nb, marked_in(in_maze@)), sx, sy) =~= as_frontier(
                unseen(nb, marked_in(in_maze@)),
                sx,
                sy,
            ));
            assert(frontier@ == st0.frontier);
            assert forall|c: Pos| maze.in_bounds(c) implies #[trigger] in_maze@[c.1 as int]@[c.0 as int]
                == st0.in_maze.contains(c) by {
                if in_maze@[c.1 as int]@[c.0 as int] {
                    assert(c.0 == sx && c.1 == sy);
                }
            }
        }
        let ghost mut k: nat = 0;

        while frontier.len() > 0
            invariant
                prim_inv(maze, in_maze@, frontier@, width, height, (sx, sy)),
                frontier@ == prim_run(width, height, seed, k).frontier,
                rng.0 == prim_run(width, height, seed, k).rng,
                carved(maze, prim_run(width, height, seed, k).carves),
                forall|c: Pos| maze.in_bounds(c) ==> #[trigger] in_maze@[c.1 as int]@[c.0 as int] == prim_run(
                    width,
                    height,
                    seed,
                    k,
                ).in_maze.contains(c),
            decreases height * width - count_grid(in_maze@), frontier@.len(),
        {
            let ghost st = prim_run(width, height, seed, k);
            let idx = rng.next_usize() % frontier.len();
            let ghost fr0 = frontier@;
            let (nx, ny, fx, fy, dir) = frontier.swap_remove(idx);
            proof {
                assert(entry_ok(maze, in_maze@, fr0[idx as int]));
                lemma_prim_run_next(width, height, seed, k);
                assert(fr0[idx as int] == (nx, ny, fx, fy, dir));
                assert(maze.in_bounds((nx, ny)));
            }
            if in_maze[ny as usize][nx as usize] {
                proof {
                    lemma_prim_skip(maze, in_maze@, fr0, width, height, (sx, sy), idx as int);
                    k = k + 1;
                    assert(frontier@ == prim_run(width, height, seed, k).frontier);
                }
                continue;
            }
            let ghost m0 = maze;
            let ghost v0 = in_maze@;
            maze.remove_wall(fx, fy, dir);
            in_maze[ny as usize][nx as usize] = true;
            proof {
                lemma_prim_carve(m0, maze, v0, in_maze@, fr0, width, height, (sx, sy), idx as int);
                lemma_carved_step(m0, maze, st.carves, (fx, fy, dir));
            }
            let ghost fr2 = frontier@;
            push_frontier(&maze, &in_maze, &mut frontier, nx, ny);
            proof {
                lemma_prim_extend(maze, in_maze@, fr2, frontier@, width, height, (sx, sy), (nx, ny));
                k = k + 1;
                let st2 = prim_run(width, height, seed, k);
                assert forall|c: Pos| maze.in_bounds(c) implies #[trigger] in_maze@[c.1 as int]@[c.0 as int]
                    == st2.in_maze.contains(c) by {
                    if c.1 != ny {
                        assert(in_maze@[c.1 as int] == v0[c.1 as int]);
                    } else if c.0 != nx {
                        assert(in_maze@[c.1 as int]@[c.0 as int] == v0[c.1 as int]@[c.0 as int]);
                    }
                }
                let nb = maze.all_neighbours_spec(nx, ny);
                lemma_all_neighbours(&maze, nx, ny);
                assert forall|i: int| 0 <= i < nb.len() implies marked_in(in_maze@)(((#[trigger] nb[i]).0, nb[i].1))
                    == (|c: Pos| st2.in_maze.contains(c))((nb[i].0, nb[i].1)) by {
                    assert(maze.in_bounds((nb[i].0, nb[i].1)));
                }
                lemma_unseen_agree(nb, marked_in(in_maze@), |c: Pos| st2.in_maze.contains(c));
                assert(nb == grid_neighbours(width, height, nx, ny));
                assert(frontier@ == st2.frontier);
            }
        }
        proof {
            lemma_prims_carves(width, height, seed, k);
            assert(frontier@ =~= Seq::<FrontierEntry>::empty());
            lemma_prim_done(maze, in_maze@, width, height, (sx, sy));
            assert forall|c: Pos| maze.in_bounds(c) implies #[trigger] maze.reachable((sx, sy), c) by {
                assert(in_maze@[c.1 as int]@[c.0 as int]);
            }
            lemma_connected_from_root(&maze, (sx, sy));
        }
        maze
    }

    /// Sidewinder algorithm — produces mazes with a strong horizontal bias.
    pub fn sidewinder(width: u32, height: u32, seed: u64) -> (m: Maze)
        requires
            width >= 1,
            height >= 1 || width == 1,
        ensures
            generated(m, width, height),
            carved(m, sidewinder_carves(seed, width, height)),
    {
        let mut maze = Maze::new(width, height);
        proof {
            lemma_fresh_maze(&maze);
            lemma_carved_fresh(maze);
        }
        let mut rng = LcgRng::new(seed);
        let ghost target = sidewinder_carves(seed, width, height);
        let ghost mut done: Seq<Carve> = Seq::empty();

        // Top row: open all east walls except last
        let mut x0: u32 = 0;
        while x0 < width - 1
            invariant
                maze.wf(),
                maze.width == width,
                maze.height == height,
                maze.coords_match(),
                maze.consistent(),
                maze.border_closed(),
                width >= 1,
                height >= 1 || width == 1,
                x0 <= width - 1,
                height >= 1 ==> run_open(maze, 0, 0, x0 as int + 1),
                carved(maze, done),
                done == Seq::new(x0 as nat, |i: int| (i as u32, 0u32, E)),
                rng.0 == lcg_start(seed),
            decreases width - 1 - x0,
        {
            let ghost m0 = maze;
            maze.remove_wall(x0, 0, E);
            proof {
                lemma_carved_step(m0, maze, done, (x0, 0u32, E));
                done = done.push((x0, 0u32, E));
                assert(done =~= Seq::new((x0 + 1) as nat, |i: int| (i as u32, 0u32, E)));
                lemma_remove_valid(&m0, &maze, x0, 0, E);
                lemma_run_mono(m0, maze, 0, 0, x0 as int + 1);
                assert(!maze.wall(x0 as int, 0, E as int));
            }
            x0 = x0 + 1;
        }
        proof {
            if height >= 1 {
                assert forall|k: int| 0 <= k < width implies #[trigger] maze.reachable((0, 0), (k as u32, 0u32)) by {
                    lemma_row_walk(maze, 0, 0, k as u32);
                }
                assert forall|c: Pos| maze.in_bounds(c) && c.1 < 1 implies #[trigger] maze.reachable((0, 0), c) by {
                    assert(maze.reachable((0, 0), (c.0 as int as u32, 0u32)));
                }
            }
        }

        if height == 0 {
            proof {
                assert(target =~= done);
            }
            return maze;
        }
        proof {
            assert(done + sidewinder_from(rng.0, width, height, 1, 0, 0) == target);
        }
        let mut y: u32 = 1;
        while y < height
            invariant
                carved(maze, done),
                done + sidewinder_from(rng.0, width, height, y, 0, 0) == target,
                maze.wf(),
                maze.width == width,
                maze.height == height,
                maze.coords_match(),
                maze.consistent(),
                maze.border_closed(),
                width >= 1,
                height >= 1,
                1 <= y <= height,
                reached_prefix(maze, y, 0),
            decreases height - y,
        {
            let mut run_start: u32 = 0;
            let mut x: u32 = 0;
            while x < width
                invariant
                    maze.wf(),
                    maze.width == width,
                    maze.height == height,
                    maze.coords_match(),
                    maze.consistent(),
                    maze.border_closed(),
                    width >= 1,
                    1 <= y < height,
                    run_start <= x <= width,
                    x == width ==> run_start == width,
                    reached_prefix(maze, y, run_start as int),
                    run_open(maze, y as int, run_start as int, x as int + 1),
                    carved(maze, done),
                    done + sidewinder_from(rng.0, width, height, y, x, run_start) == target,
                decreases width - x,
            {
                let ghost r0 = rng.0;
                let ghost d0 = done;
                let at_east_boundary = x + 1 >= width;
                let carve_east = if at_east_boundary {
                    false
                } else {
                    rng.next_bool()
                };

                let ghost m0 = maze;
                if carve_east {
                    maze.remove_wall(x, y, E);
                    proof {
                        lemma_carved_step(m0, maze, done, (x, y, E));
                        done = done.push((x, y, E));
                        assert(sidewinder_from(r0, width, height, y, x, run_start) == seq![(x, y, E)]
                            + sidewinder_from(rng.0, width, height, y, (x + 1) as u32, run_start));
                        assert(done + sidewinder_from(rng.0, width, height, y, (x + 1) as u32, run_start) =~= d0
                            + sidewinder_from(r0, width, height, y, x, run_start));
                        lemma_remove_valid(&m0, &maze, x, y, E);
                        lemma_prefix_mono(m0, maze, y, run_start as int);
                        lemma_run_mono(m0, maze, y as int, run_start as int, x as int + 1);
                        assert(!maze.wall(x as int, y as int, E as int));
                    }
                } else {
                    // Carve north from a random cell in the current run
                    let run_len = x - run_start + 1;
                    let ghost r1 = rng.0;
                    let member = run_start + ((#[verifier::truncate] (rng.next_usize() as u32)) % run_len);
                    maze.remove_wall(member, y, N);
                    proof {
                        lemma_carved_step(m0, maze, done, (member, y, N));
                        done = done.push((member, y, N));
                        assert(r1 == if at_east_boundary {
                            r0
                        } else {
                            lcg_step(r0)
                        });
                        assert(sidewinder_from(r0, width, height, y, x, run_start) == seq![(member, y, N)]
                            + sidewinder_from(rng.0, width, height, y, (x + 1) as u32, (x + 1) as u32));
                        assert(done + sidewinder_from(rng.0, width, height, y, (x + 1) as u32, (x + 1) as u32) =~= d0
                            + sidewinder_from(r0, width, height, y, x, run_start));
                        lemma_sidewinder_north(m0, maze, y, run_start, x, member);
                    }
                    run_start = x + 1;
                }
                x = x + 1;
            }
            proof {
                assert forall|c: Pos| maze.in_bounds(c) && c.1 < y + 1 implies #[trigger] maze.reachable((0, 0), c) by {
                    if c.1 == y {
                        assert(maze.reachable((0, 0), (c.0 as int as u32, y)));
                    }
                }
                assert(sidewinder_from(rng.0, width, height, y, x, run_start) == sidewinder_from(
                    rng.0,
                    width,
                    height,
                    (y + 1) as u32,
                    0,
                    0,
                ));
            }
            y = y + 1;
        }
        proof {
            if height >= 1 {
                assert forall|c: Pos| maze.in_bounds(c) implies #[trigger] maze.reachable((0, 0), c) by {
                    assert(c.1 < height);
                }
                lemma_connected_from_root(&maze, (0, 0));
            }
            assert(done + Seq::<Carve>::empty() =~= done);
        }
        maze
    }
}

/// Any maze the generators build can be solved between any two of its cells:
/// the cells are reachable from each other, and the solvers' probe of the
/// start cell stays inside the grid.
pub proof fn law_generated_mazes_are_solvable(m: Maze, width: u32, height: u32, a: Pos, b: Pos)
    requires
        generated(m, width, height),
        m.in_bounds(a),
        m.in_bounds(b),
    ensures
        m.reachable(a, b),
        m.probe_ok(a.0, a.1),
{
    assert(m.reachable(a, b));
}

} // verus!
