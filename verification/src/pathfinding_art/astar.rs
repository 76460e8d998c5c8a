//! A* search through a maze with the Manhattan-distance heuristic.
use vstd::prelude::*;
use super::maze::{Maze, Pos};
use super::grid::{
    new_grid, score_sum, score_weight, some_count, lemma_score_update, lemma_score_sum_nonneg,
    lemma_some_count_le, lemma_some_count_pos,
};
use super::reach::lemma_neighbours_are_steps;
use super::solver::{PathFinder, CameFrom, cf_dims, chain_ok, reconstruct_path, same_pos, lemma_offgrid_isolated, lemma_closed_set_blocks};

verus! {

/// An open-set entry `(x, y, f)`: a cell and its estimated total cost `g + h`.
pub type OpenEntry = (u32, u32, u128);

/// A table of best-known path lengths from the start.
pub type Scores = Vec<Vec<Option<u64>>>;

pub open spec fn score_dims(gs: Seq<Vec<Option<u64>>>, w: int, h: int) -> bool {
    &&& gs.len() == h
    &&& forall|y: int| 0 <= y < h ==> #[trigger] gs[y]@.len() == w
}

/// The cells that have a score.
pub open spec fn scored(gs: Seq<Vec<Option<u64>>>) -> spec_fn(Pos) -> bool {
    |c: Pos| gs[c.1 as int]@[c.0 as int] is Some
}

/// The score of each scored cell.
pub open spec fn score_of(gs: Seq<Vec<Option<u64>>>) -> spec_fn(Pos) -> int {
    |c: Pos| gs[c.1 as int]@[c.0 as int]->0 as int
}

/// Some open entry is for cell `c`.
pub open spec fn in_open(open: Seq<OpenEntry>, c: Pos) -> bool {
    exists|i: int| 0 <= i < open.len() && (#[trigger] open[i]).0 == c.0 && open[i].1 == c.1
}

/// What A* keeps true between steps, apart from closure.
spec fn astar_core(
    m: Maze,
    gs: Seq<Vec<Option<u64>>>,
    cf: Seq<Vec<Option<Pos>>>,
    open: Seq<OpenEntry>,
    start: Pos,
    end: Pos,
) -> bool {
    &&& m.wf()
    &&& m.in_bounds(start)
    &&& start != end
    &&& score_dims(gs, m.width as int, m.height as int)
    &&& cf_dims(cf, m.width as int, m.height as int)
    &&& gs[start.1 as int]@[start.0 as int] == Some(0u64)
    &&& cf[start.1 as int]@[start.0 as int] is None
    &&& some_count(gs) <= m.height * m.width
    &&& forall|c: Pos|
        m.in_bounds(c) && (#[trigger] gs[c.1 as int]@[c.0 as int]) is Some ==> gs[c.1 as int]@[c.0 as int]->0
            < some_count(gs)
    &&& forall|i: int|
        0 <= i < open.len() ==> m.in_bounds(((#[trigger] open[i]).0, open[i].1)) && gs[open[i].1 as int]@[open[i].0 as int] is Some
    &&& chain_ok(m, cf, scored(gs), score_of(gs), start)
    &&& m.in_bounds(end) && gs[end.1 as int]@[end.0 as int] is Some ==> in_open(open, end)
}

/// Every scored cell with no open entry, other than `skip` when `use_skip` holds, has
/// every cell one move away scored.
spec fn astar_closed(m: Maze, gs: Seq<Vec<Option<u64>>>, open: Seq<OpenEntry>, skip: Pos, use_skip: bool) -> bool {
    forall|c: Pos, b: Pos|
        m.in_bounds(c) && gs[c.1 as int]@[c.0 as int] is Some && !in_open(open, c) && !(use_skip && c == skip)
            && #[trigger] m.step(c, b) ==> gs[b.1 as int]@[b.0 as int] is Some
}

impl PathFinder {
    /// Manhattan distance heuristic.
    pub fn manhattan(a: Pos, b: Pos) -> (d: u64)
        ensures
            d == (if a.0 >= b.0 { a.0 - b.0 } else { b.0 - a.0 }) + (if a.1 >= b.1 {
                a.1 - b.1
            } else {
                b.1 - a.1
            }),
    {
        let dx: u64 = if a.0 >= b.0 { (a.0 - b.0) as u64 } else { (b.0 - a.0) as u64 };
        let dy: u64 = if a.1 >= b.1 { (a.1 - b.1) as u64 } else { (b.1 - a.1) as u64 };
        dx + dy
    }
}

/// One scored cell's neighbours relaxed: wherever going through `pos` is shorter than the
/// best known way, record it, and open an entry for the cell.
fn astar_expand(
    maze: &Maze,
    gs: &mut Scores,
    came_from: &mut CameFrom,
    open: &mut Vec<OpenEntry>,
    pos: Pos,
    end: Pos,
    Ghost(start): Ghost<Pos>,
)
    requires
        astar_core(*maze, old(gs)@, old(came_from)@, old(open)@, start, end),
        astar_closed(*maze, old(gs)@, old(open)@, pos, true),
        astar_order(*maze, old(gs)@, old(came_from)@, old(open)@, start, end, pos, true),
        maze.in_bounds(pos),
        old(gs)@[pos.1 as int]@[pos.0 as int] is Some,
        pos != end,
    ensures
        astar_core(*maze, final(gs)@, final(came_from)@, final(open)@, start, end),
        astar_closed(*maze, final(gs)@, final(open)@, pos, false),
        astar_order(*maze, final(gs)@, final(came_from)@, final(open)@, start, end, pos, false),
        score_sum(final(gs)@, maze.height * maze.width) <= score_sum(old(gs)@, maze.height * maze.width),
        score_sum(final(gs)@, maze.height * maze.width) == score_sum(old(gs)@, maze.height * maze.width)
            ==> final(open)@ == old(open)@,
{
    let ghost k = maze.height * maze.width;
    let nbrs = maze.neighbours(pos.0, pos.1);
    proof {
        assert forall|b: Pos| nbrs@.contains(b) <==> #[trigger] maze.step(pos, b) by {
            lemma_neighbours_are_steps(maze, pos.0, pos.1, b);
        }
    }
    let ghost gs0 = gs@;
    let ghost open0 = open@;
    let mut i: usize = 0;
    while i < nbrs.len()
        invariant
            nbrs@ == maze.neighbours_spec(pos.0, pos.1),
            forall|b: Pos| nbrs@.contains(b) <==> #[trigger] maze.step(pos, b),
            i <= nbrs@.len(),
            k == maze.height * maze.width,
            maze.in_bounds(pos),
            gs@[pos.1 as int]@[pos.0 as int] is Some,
            pos != end,
            astar_core(*maze, gs@, came_from@, open@, start, end),
            astar_closed(*maze, gs@, open@, pos, true),
            astar_order(*maze, gs@, came_from@, open@, start, end, pos, true),
            g_of(gs@, pos) == g_of(gs0, pos),
            forall|j: int| 0 <= j < i ==> #[trigger] gs@[nbrs@[j].1 as int]@[nbrs@[j].0 as int] is Some,
            forall|j: int| 0 <= j < i ==> g_of(gs@, #[trigger] nbrs@[j]) <= g_of(gs@, pos) + 1,
            score_sum(gs@, k) <= score_sum(gs0, k),
            score_sum(gs@, k) == score_sum(gs0, k) ==> open@ == open0,
        decreases nbrs@.len() - i,
    {
        let nb = nbrs[i];
        proof {
            assert(nbrs@.contains(nb));
            assert(maze.step(pos, nb));
        }
        let gp: u64 = match gs[pos.1 as usize][pos.0 as usize] {
            Some(v) => v,
            None => 0,
        };
        proof {
            lemma_some_count_le(gs@, maze.width as nat);
            assert(gp < some_count(gs@));
            assert(maze.height * maze.width <= u32::MAX * u32::MAX) by (nonlinear_arith)
                requires
                    maze.height <= u32::MAX,
                    maze.width <= u32::MAX,
            ;
        }
        let tentative = gp + 1;
        let better = match gs[nb.1 as usize][nb.0 as usize] {
            None => true,
            Some(v) => tentative < v,
        };
        if better {
            let ghost g1 = gs@;
            let ghost cf1 = came_from@;
            let ghost o1 = open@;
            let old_entry = gs[nb.1 as usize][nb.0 as usize];
            gs[nb.1 as usize][nb.0 as usize] = Some(tentative);
            came_from[nb.1 as usize][nb.0 as usize] = Some(pos);
            let f: u128 = tentative as u128 + PathFinder::manhattan(nb, end) as u128;
            open.push((nb.0, nb.1, f));
            proof {
                lemma_astar_relax(*maze, g1, gs@, cf1, came_from@, o1, open@, start, end, pos, nb, tentative, f);
                assert(pos != nb);
                assert(g_of(gs@, pos) == g_of(g1, pos));
                assert forall|j: int| 0 <= j < i + 1 implies g_of(gs@, #[trigger] nbrs@[j]) <= g_of(gs@, pos) + 1 by {
                    if j < i {
                        let b = nbrs@[j];
                        assert(g1[b.1 as int]@[b.0 as int] is Some);
                        assert(maze.step(pos, b));
                        assert(maze.in_bounds(b));
                    }
                }
            }
        }
        i = i + 1;
    }
    proof {
        assert forall|c: Pos, b: Pos|
            maze.in_bounds(c) && gs@[c.1 as int]@[c.0 as int] is Some && !in_open(open@, c) && !(false && c == pos)
                && #[trigger] maze.step(c, b) implies gs@[b.1 as int]@[b.0 as int] is Some by {
            if c == pos {
                assert(nbrs@.contains(b));
                let j = choose|j: int| 0 <= j < nbrs@.len() && nbrs@[j] == b;
                assert(gs@[nbrs@[j].1 as int]@[nbrs@[j].0 as int] is Some);
            }
        }
        assert(expanded(*maze, gs@, pos)) by {
            assert forall|b: Pos| #[trigger] maze.step(pos, b) implies gs@[b.1 as int]@[b.0 as int] is Some && g_of(
                gs@,
                b,
            ) <= g_of(gs@, pos) + 1 by {
                assert(nbrs@.contains(b));
                let j = choose|j: int| 0 <= j < nbrs@.len() && nbrs@[j] == b;
                assert(gs@[nbrs@[j].1 as int]@[nbrs@[j].0 as int] is Some);
                assert(g_of(gs@, nbrs@[j]) <= g_of(gs@, pos) + 1);
            }
        }
    }
}

/// Recording a shorter way to `nb` through `pos` keeps the invariant, lowers the weight
/// sum, and leaves every cell that was scored still scored.
proof fn lemma_astar_relax(
    m: Maze,
    g1: Seq<Vec<Option<u64>>>,
    g2: Seq<Vec<Option<u64>>>,
    cf1: Seq<Vec<Option<Pos>>>,
    cf2: Seq<Vec<Option<Pos>>>,
    o1: Seq<OpenEntry>,
    o2: Seq<OpenEntry>,
    start: Pos,
    end: Pos,
    pos: Pos,
    nb: Pos,
    tentative: u64,
    f: u128,
)
    requires
        astar_core(m, g1, cf1, o1, start, end),
        astar_closed(m, g1, o1, pos, true),
        m.in_bounds(pos),
        m.step(pos, nb),
        g1[pos.1 as int]@[pos.0 as int] is Some,
        tentative == g1[pos.1 as int]@[pos.0 as int]->0 + 1,
        match g1[nb.1 as int]@[nb.0 as int] {
            None => true,
            Some(v) => tentative < v,
        },
        g2.len() == g1.len(),
        g2[nb.1 as int]@ == g1[nb.1 as int]@.update(nb.0 as int, Some(tentative)),
        forall|yy: int| 0 <= yy < g1.len() && yy != nb.1 ==> #[trigger] g2[yy] == g1[yy],
        cf2.len() == cf1.len(),
        cf2[nb.1 as int]@ == cf1[nb.1 as int]@.update(nb.0 as int, Some(pos)),
        forall|yy: int| 0 <= yy < cf1.len() && yy != nb.1 ==> #[trigger] cf2[yy] == cf1[yy],
        o2 == o1.push((nb.0, nb.1, f)),
        astar_order(m, g1, cf1, o1, start, end, pos, true),
        f == tentative + manhattan_spec(nb, end),
    ensures
        astar_core(m, g2, cf2, o2, start, end),
        astar_closed(m, g2, o2, pos, true),
        astar_order(m, g2, cf2, o2, start, end, pos, true),
        g_of(g2, nb) == tentative,
        g2[nb.1 as int]@[nb.0 as int] is Some,
        forall|c: Pos| m.in_bounds(c) && #[trigger] g1[c.1 as int]@[c.0 as int] is Some ==> g_of(g2, c) <= g_of(g1, c),
        score_sum(g2, m.height * m.width) < score_sum(g1, m.height * m.width),
        g2[pos.1 as int]@[pos.0 as int] is Some,
        forall|c: Pos| m.in_bounds(c) && g1[c.1 as int]@[c.0 as int] is Some ==> #[trigger] g2[c.1 as int]@[c.0 as int] is Some,
{
    let k = m.height * m.width;
    let old_e = g1[nb.1 as int]@[nb.0 as int];
    let gp = g1[pos.1 as int]@[pos.0 as int]->0;
    lemma_score_update(g1, g2, k, nb.0 as int, nb.1 as int, Some(tentative));
    assert(nb != start) by {
        if nb == start {
            assert(old_e == Some(0u64));
        }
    }
    assert(nb != pos);
    // facts about unchanged cells
    assert forall|c: Pos| m.in_bounds(c) && c != nb implies #[trigger] g2[c.1 as int]@[c.0 as int] == g1[c.1 as int]@[c.0 as int]
        && cf2[c.1 as int]@[c.0 as int] == cf1[c.1 as int]@[c.0 as int] by {
        if c.1 != nb.1 {
            assert(g2[c.1 as int] == g1[c.1 as int]);
            assert(cf2[c.1 as int] == cf1[c.1 as int]);
        }
    }
    assert(g2[nb.1 as int]@[nb.0 as int] == Some(tentative));
    assert(cf2[nb.1 as int]@[nb.0 as int] == Some(pos));
    assert(score_dims(g2, m.width as int, m.height as int)) by {
        assert forall|yy: int| 0 <= yy < m.height implies #[trigger] g2[yy]@.len() == m.width by {
            if yy != nb.1 {
                assert(g2[yy] == g1[yy]);
            }
        }
    }
    assert(cf_dims(cf2, m.width as int, m.height as int)) by {
        assert forall|yy: int| 0 <= yy < m.height implies #[trigger] cf2[yy]@.len() == m.width by {
            if yy != nb.1 {
                assert(cf2[yy] == cf1[yy]);
            }
        }
    }
    lemma_some_count_le(g2, m.width as nat);
    assert(gp < some_count(g1));
    // scores stay below the count of scored cells
    assert forall|c: Pos|
        m.in_bounds(c) && (#[trigger] g2[c.1 as int]@[c.0 as int]) is Some implies g2[c.1 as int]@[c.0 as int]->0
            < some_count(g2) by {
        if c != nb {
            assert(g1[c.1 as int]@[c.0 as int] is Some);
        }
    }
    assert forall|i: int|
        0 <= i < o2.len() implies m.in_bounds(((#[trigger] o2[i]).0, o2[i].1)) && g2[o2[i].1 as int]@[o2[i].0 as int] is Some by {
        if i < o1.len() {
            assert(o2[i] == o1[i]);
            let c = (o1[i].0, o1[i].1);
            assert(g1[c.1 as int]@[c.0 as int] is Some);
        }
    }
    assert(chain_ok(m, cf2, scored(g2), score_of(g2), start)) by {
        assert forall|c: Pos| m.in_bounds(c) && #[trigger] scored(g2)(c) && c != start implies {
            let e = cf2[c.1 as int]@[c.0 as int];
            &&& e is Some
            &&& m.in_bounds(e->0)
            &&& scored(g2)(e->0)
            &&& m.step(e->0, c)
            &&& 0 <= score_of(g2)(e->0) < score_of(g2)(c)
        } by {
            if c != nb {
                assert(scored(g1)(c));
                let e = cf1[c.1 as int]@[c.0 as int];
                assert(scored(g1)(e->0));
                if e->0 == nb {
                    assert(score_of(g1)(nb) < score_of(g1)(c));
                } else {
                    let q = e->0;
                    assert(g2[q.1 as int]@[q.0 as int] == g1[q.1 as int]@[q.0 as int]);
                }
            }
        }
    }
    assert(o2[o1.len() as int] == (nb.0, nb.1, f));
    if m.in_bounds(end) && g2[end.1 as int]@[end.0 as int] is Some {
        if end == nb {
            assert(in_open(o2, end)) by {
                assert(o2[o1.len() as int].0 == end.0 && o2[o1.len() as int].1 == end.1);
            }
        } else {
            assert(g1[end.1 as int]@[end.0 as int] is Some);
            let i = choose|i: int| 0 <= i < o1.len() && (#[trigger] o1[i]).0 == end.0 && o1[i].1 == end.1;
            assert(o2[i] == o1[i]);
        }
    }
    assert forall|c: Pos, b: Pos|
        m.in_bounds(c) && g2[c.1 as int]@[c.0 as int] is Some && !in_open(o2, c) && !(true && c == pos)
            && #[trigger] m.step(c, b) implies g2[b.1 as int]@[b.0 as int] is Some by {
        if c == nb {
            assert(o2[o1.len() as int].0 == c.0 && o2[o1.len() as int].1 == c.1);
        }
        assert(g1[c.1 as int]@[c.0 as int] is Some);
        if in_open(o1, c) {
            let i = choose|i: int| 0 <= i < o1.len() && (#[trigger] o1[i]).0 == c.0 && o1[i].1 == c.1;
            assert(o2[i] == o1[i]);
        }
        assert(g1[b.1 as int]@[b.0 as int] is Some);
        if b != nb {
            assert(g2[b.1 as int]@[b.0 as int] == g1[b.1 as int]@[b.0 as int]);
        }
    }
    assert forall|c: Pos| m.in_bounds(c) && g1[c.1 as int]@[c.0 as int] is Some implies #[trigger] g2[c.1 as int]@[c.0 as int] is Some by {
        if c != nb {
            assert(g2[c.1 as int]@[c.0 as int] == g1[c.1 as int]@[c.0 as int]);
        }
    }
    assert(score_weight(old_e, k) > tentative) by {
        lemma_some_count_le(g1, m.width as nat);
    }
    assert forall|c: Pos| m.in_bounds(c) && #[trigger] g1[c.1 as int]@[c.0 as int] is Some implies g_of(g2, c) <= g_of(g1, c) by {
        if c != nb {
            assert(g2[c.1 as int]@[c.0 as int] == g1[c.1 as int]@[c.0 as int]);
        }
    }
    assert(astar_order(m, g2, cf2, o2, start, end, pos, true)) by {
        assert forall|c: Pos|
            m.in_bounds(c) && #[trigger] g2[c.1 as int]@[c.0 as int] is Some && c != start implies g_of(
                g2,
                cf2[c.1 as int]@[c.0 as int]->0,
            ) + 1 <= g_of(g2, c) by {
            if c != nb {
                assert(g1[c.1 as int]@[c.0 as int] is Some);
                assert(scored(g1)(c));
                let e = cf1[c.1 as int]@[c.0 as int];
                assert(scored(g1)(e->0));
                assert(m.in_bounds(e->0));
                let q = e->0;
                assert(g1[q.1 as int]@[q.0 as int] is Some);
                assert(g_of(g2, e->0) <= g_of(g1, e->0));
            }
        }
        assert forall|i: int|
            0 <= i < o2.len() implies (#[trigger] o2[i]).2 >= g_of(g2, (o2[i].0, o2[i].1)) + manhattan_spec(
                (o2[i].0, o2[i].1),
                end,
            ) by {
            if i < o1.len() {
                assert(o2[i] == o1[i]);
                let c = (o1[i].0, o1[i].1);
                assert(g1[c.1 as int]@[c.0 as int] is Some);
                assert(g_of(g2, c) <= g_of(g1, c));
            }
        }
        assert forall|c: Pos|
            m.in_bounds(c) && #[trigger] g2[c.1 as int]@[c.0 as int] is Some && !(true && c == pos) implies fresh_entry(
                g2,
                o2,
                c,
                end,
            ) || expanded(m, g2, c) by {
            if c == nb {
                assert(o2[o1.len() as int].0 == c.0 && o2[o1.len() as int].1 == c.1 && o2[o1.len() as int].2 == g_of(g2, c)
                    + manhattan_spec(c, end));
            } else {
                assert(g1[c.1 as int]@[c.0 as int] is Some);
                assert(g2[c.1 as int]@[c.0 as int] == g1[c.1 as int]@[c.0 as int]);
                if fresh_entry(g1, o1, c, end) {
                    let i = choose|i: int|
                        0 <= i < o1.len() && (#[trigger] o1[i]).0 == c.0 && o1[i].1 == c.1 && o1[i].2 == g_of(g1, c)
                            + manhattan_spec(c, end);
                    assert(o2[i] == o1[i]);
                } else {
                    assert forall|b: Pos| #[trigger] m.step(c, b) implies g2[b.1 as int]@[b.0 as int] is Some && g_of(
                        g2,
                        b,
                    ) <= g_of(g2, c) + 1 by {
                        assert(expanded(m, g1, c));
                        assert(g1[b.1 as int]@[b.0 as int] is Some);
                    }
                }
            }
        }
    }
}

/// Taking out the open entry at `idx` keeps the core invariant and leaves only its cell
/// possibly unclosed.
proof fn lemma_astar_pop(
    m: Maze,
    gs: Seq<Vec<Option<u64>>>,
    cf: Seq<Vec<Option<Pos>>>,
    open: Seq<OpenEntry>,
    start: Pos,
    end: Pos,
    idx: int,
)
    requires
        astar_core(m, gs, cf, open, start, end),
        astar_closed(m, gs, open, start, false),
        astar_order(m, gs, cf, open, start, end, start, false),
        0 <= idx < open.len(),
        (open[idx].0, open[idx].1) != end,
    ensures
        astar_core(m, gs, cf, open.update(idx, open.last()).drop_last(), start, end),
        astar_closed(m, gs, open.update(idx, open.last()).drop_last(), (open[idx].0, open[idx].1), true),
        astar_order(m, gs, cf, open.update(idx, open.last()).drop_last(), start, end, (open[idx].0, open[idx].1), true),
{
    let o2 = open.update(idx, open.last()).drop_last();
    let pos = (open[idx].0, open[idx].1);
    assert forall|i: int|
        0 <= i < o2.len() implies m.in_bounds(((#[trigger] o2[i]).0, o2[i].1)) && gs[o2[i].1 as int]@[o2[i].0 as int] is Some by {
        if i == idx {
            let j = open.len() - 1;
            assert(m.in_bounds((open[j].0, open[j].1)));
        } else {
            assert(o2[i] == open[i]);
        }
    }
    assert forall|c: Pos| c != pos && in_open(open, c) implies in_open(o2, c) by {
        let i = choose|i: int| 0 <= i < open.len() && (#[trigger] open[i]).0 == c.0 && open[i].1 == c.1;
        if i == open.len() - 1 {
            assert(o2[idx].0 == c.0 && o2[idx].1 == c.1);
        } else {
            assert(o2[i] == open[i]);
        }
    }
    if m.in_bounds(end) && gs[end.1 as int]@[end.0 as int] is Some {
        assert(in_open(open, end));
    }
    assert forall|c: Pos, b: Pos|
        m.in_bounds(c) && gs[c.1 as int]@[c.0 as int] is Some && !in_open(o2, c) && !(true && c == pos)
            && #[trigger] m.step(c, b) implies gs[b.1 as int]@[b.0 as int] is Some by {
        assert(!in_open(open, c));
    }
    assert forall|i: int|
        0 <= i < o2.len() implies (#[trigger] o2[i]).2 >= g_of(gs, (o2[i].0, o2[i].1)) + manhattan_spec(
            (o2[i].0, o2[i].1),
            end,
        ) by {
        if i == idx {
            let j = open.len() - 1;
            assert(open[j].2 >= g_of(gs, (open[j].0, open[j].1)) + manhattan_spec((open[j].0, open[j].1), end));
        } else {
            assert(o2[i] == open[i]);
        }
    }
    assert forall|c: Pos|
        m.in_bounds(c) && #[trigger] gs[c.1 as int]@[c.0 as int] is Some && !(true && c == pos) implies fresh_entry(
            gs,
            o2,
            c,
            end,
        ) || expanded(m, gs, c) by {
        if fresh_entry(gs, open, c, end) {
            let i = choose|i: int|
                0 <= i < open.len() && (#[trigger] open[i]).0 == c.0 && open[i].1 == c.1 && open[i].2 == g_of(gs, c)
                    + manhattan_spec(c, end);
            if i == open.len() - 1 {
                assert(o2[idx] == open[i]);
            } else {
                assert(i != idx);
                assert(o2[i] == open[i]);
            }
        }
    }
}

/// The Manhattan distance between two cells.
pub open spec fn manhattan_spec(a: Pos, b: Pos) -> int {
    (if a.0 >= b.0 {
        a.0 - b.0
    } else {
        b.0 - a.0
    }) + (if a.1 >= b.1 {
        a.1 - b.1
    } else {
        b.1 - a.1
    })
}

/// The score of a scored cell.
pub open spec fn g_of(gs: Seq<Vec<Option<u64>>>, c: Pos) -> int {
    gs[c.1 as int]@[c.0 as int]->0 as int
}

/// Some open entry for `c` carries exactly the estimate `g + h` of its score.
pub open spec fn fresh_entry(gs: Seq<Vec<Option<u64>>>, open: Seq<OpenEntry>, c: Pos, end: Pos) -> bool {
    exists|i: int|
        0 <= i < open.len() && (#[trigger] open[i]).0 == c.0 && open[i].1 == c.1 && open[i].2 == g_of(gs, c)
            + manhattan_spec(c, end)
}

/// `c` has been expanded at its current score: every neighbour is scored at
/// most one above it.
pub open spec fn expanded(m: Maze, gs: Seq<Vec<Option<u64>>>, c: Pos) -> bool {
    forall|b: Pos| #[trigger] m.step(c, b) ==> gs[b.1 as int]@[b.0 as int] is Some && g_of(gs, b) <= g_of(gs, c) + 1
}

/// The order A* keeps: each recorded parent scores at least one below its
/// child; no open entry underestimates its cell's score plus the heuristic;
/// and every scored cell (other than `skip` when `use_skip` holds) either has
/// an entry carrying its current estimate or has been expanded at its score.
spec fn astar_order(
    m: Maze,
    gs: Seq<Vec<Option<u64>>>,
    cf: Seq<Vec<Option<Pos>>>,
    open: Seq<OpenEntry>,
    start: Pos,
    end: Pos,
    skip: Pos,
    use_skip: bool,
) -> bool {
    &&& forall|c: Pos|
        m.in_bounds(c) && #[trigger] gs[c.1 as int]@[c.0 as int] is Some && c != start ==> g_of(
            gs,
            cf[c.1 as int]@[c.0 as int]->0,
        ) + 1 <= g_of(gs, c)
    &&& forall|i: int|
        0 <= i < open.len() ==> (#[trigger] open[i]).2 >= g_of(gs, (open[i].0, open[i].1)) + manhattan_spec(
            (open[i].0, open[i].1),
            end,
        )
    &&& forall|c: Pos|
        m.in_bounds(c) && #[trigger] gs[c.1 as int]@[c.0 as int] is Some && !(use_skip && c == skip) ==> fresh_entry(
            gs,
            open,
            c,
            end,
        ) || expanded(m, gs, c)
}

/// The Manhattan distance never exceeds the number of moves of a walk.
proof fn lemma_manhattan_admissible(m: Maze, w: Seq<Pos>, i: int)
    requires
        m.is_path(w),
        0 <= i < w.len(),
    ensures
        manhattan_spec(w[i], w.last()) <= w.len() - 1 - i,
    decreases w.len() - i,
{
    if i < w.len() - 1 {
        lemma_manhattan_admissible(m, w, i + 1);
        assert(m.step(w[i], w[i + 1]));
    }
}

/// Along a walk from the start that keeps within scores at most its length,
/// either some open entry's estimate is at most the walk's length, or the
/// walk's end is scored at most its length.
proof fn lemma_astar_lower(
    m: Maze,
    gs: Seq<Vec<Option<u64>>>,
    cf: Seq<Vec<Option<Pos>>>,
    open: Seq<OpenEntry>,
    start: Pos,
    end: Pos,
    w: Seq<Pos>,
    i: int,
)
    requires
        astar_order(m, gs, cf, open, start, end, start, false),
        m.is_path(w),
        w.last() == end,
        0 <= i < w.len(),
        m.in_bounds(w[i]),
        gs[w[i].1 as int]@[w[i].0 as int] is Some,
        g_of(gs, w[i]) <= i,
    ensures
        (exists|k: int| 0 <= k < open.len() && (#[trigger] open[k]).2 <= w.len() - 1) || (gs[end.1 as int]@[
            end.0 as int] is Some && g_of(gs, end) <= w.len() - 1),
    decreases w.len() - i,
{
    let c = w[i];
    if i < w.len() - 1 {
        if fresh_entry(gs, open, c, end) {
            let k = choose|k: int|
                0 <= k < open.len() && (#[trigger] open[k]).0 == c.0 && open[k].1 == c.1 && open[k].2 == g_of(gs, c)
                    + manhattan_spec(c, end);
            lemma_manhattan_admissible(m, w, i);
            assert(open[k].2 <= w.len() - 1);
        } else {
            assert(m.step(w[i], w[i + 1]));
            assert(m.in_bounds(w[i + 1]));
            lemma_astar_lower(m, gs, cf, open, start, end, w, i + 1);
        }
    }
}

/// Along a walk that follows the recorded parents from the start, each cell
/// scores at least its position.
proof fn lemma_score_along(
    m: Maze,
    gs: Seq<Vec<Option<u64>>>,
    cf: Seq<Vec<Option<Pos>>>,
    open: Seq<OpenEntry>,
    start: Pos,
    end: Pos,
    p: Seq<Pos>,
    i: int,
)
    requires
        astar_core(m, gs, cf, open, start, end),
        astar_order(m, gs, cf, open, start, end, start, false),
        p.len() >= 1,
        p[0] == start,
        forall|k: int| 0 <= k < p.len() ==> m.in_bounds(#[trigger] p[k]) && gs[p[k].1 as int]@[p[k].0 as int] is Some,
        forall|k: int| 0 <= k < p.len() - 1 ==> #[trigger] cf[p[k + 1].1 as int]@[p[k + 1].0 as int] == Some(p[k]),
        0 <= i < p.len(),
    ensures
        g_of(gs, p[i]) >= i,
    decreases i,
{
    if i > 0 {
        lemma_score_along(m, gs, cf, open, start, end, p, i - 1);
        let k = i - 1;
        assert(cf[p[k + 1].1 as int]@[p[k + 1].0 as int] == Some(p[k]));
        assert(p[i] != start);
        assert(gs[p[i].1 as int]@[p[i].0 as int] is Some);
    }
}

impl PathFinder {
    /// A* search through the maze.
    ///
    /// Returns a shortest walk from `start` to `end` through missing walls when one
    /// exists, and `None` exactly when `end` cannot be reached from `start`.
    pub fn astar(maze: &Maze, start: Pos, end: Pos) -> (r: Option<Vec<Pos>>)
        requires
            maze.wf(),
            start == end || maze.probe_ok(start.0, start.1),
        ensures
            match r {
                Some(p) => maze.shortest_between(p@, start, end),
                None => !maze.reachable(start, end),
            },
    {
        if same_pos(start, end) {
            let mut p: Vec<Pos> = Vec::new();
            p.push(end);
            proof {
                assert(maze.path_between(p@, start, end));
            }
            return Some(p);
        }
        if !(start.0 < maze.width && start.1 < maze.height) {
            // No neighbour of an off-grid start is ever probed, so nothing is explored.
            proof {
                lemma_offgrid_isolated(*maze, start, end);
            }
            return None;
        }
        let mut g_score: Scores = new_grid(maze.width, maze.height, None);
        let mut came_from: CameFrom = new_grid(maze.width, maze.height, None);
        let mut open: Vec<OpenEntry> = Vec::new();

        let ghost g_init = g_score@;
        g_score[start.1 as usize][start.0 as usize] = Some(0);
        let h0 = PathFinder::manhattan(start, end);
        open.push((start.0, start.1, h0 as u128));
        let ghost k = maze.height * maze.width;
        proof {
            assert forall|c: Pos| maze.in_bounds(c) && c != start implies #[trigger] g_score@[c.1 as int]@[c.0 as int] is None by {
                if c.1 != start.1 {
                    assert(g_score@[c.1 as int] == g_init[c.1 as int]);
                }
            }
            assert(score_dims(g_score@, maze.width as int, maze.height as int)) by {
                assert forall|yy: int| 0 <= yy < maze.height implies #[trigger] g_score@[yy]@.len() == maze.width by {
                    if yy != start.1 {
                        assert(g_score@[yy] == g_init[yy]);
                    }
                }
            }
            lemma_some_count_le(g_score@, maze.width as nat);
            lemma_some_count_pos(g_score@, start.0 as int, start.1 as int);
            assert(open@[0].0 == start.0 && open@[0].1 == start.1);
            assert(in_open(open@, start));
            assert(chain_ok(*maze, came_from@, scored(g_score@), score_of(g_score@), start));
            lemma_score_sum_nonneg(g_score@, k);
            assert(astar_order(*maze, g_score@, came_from@, open@, start, end, start, false)) by {
                assert(open@[0].0 == start.0 && open@[0].1 == start.1 && open@[0].2 == g_of(g_score@, start)
                    + manhattan_spec(start, end));
            }
        }

        while open.len() > 0
            invariant
                astar_core(*maze, g_score@, came_from@, open@, start, end),
                astar_closed(*maze, g_score@, open@, start, false),
                astar_order(*maze, g_score@, came_from@, open@, start, end, start, false),
                k == maze.height * maze.width,
                score_sum(g_score@, k) >= 0,
            decreases score_sum(g_score@, k), open@.len(),
        {
            // Take an entry of least estimated total cost.
            let mut best: usize = 0;
            let mut j: usize = 1;
            while j < open.len()
                invariant
                    0 <= best < open@.len(),
                    1 <= j <= open@.len(),
                    forall|t: int| 0 <= t < j ==> open@[best as int].2 <= (#[trigger] open@[t]).2,
                decreases open@.len() - j,
            {
                if open[j].2 < open[best].2 {
                    best = j;
                }
                j = j + 1;
            }
            let ghost o0 = open@;
            let current = open.swap_remove(best);
            let pos: Pos = (current.0, current.1);
            if same_pos(pos, end) {
                let path = reconstruct_path(
                    maze,
                    &came_from,
                    end,
                    Ghost(start),
                    Ghost(scored(g_score@)),
                    Ghost(score_of(g_score@)),
                );
                proof {
                    let p = path@;
                    let gs = g_score@;
                    lemma_score_along(*maze, gs, came_from@, o0, start, end, p, p.len() - 1);
                    assert(o0[best as int].2 >= g_of(gs, end) + manhattan_spec(end, end));
                    assert forall|w: Seq<Pos>| #[trigger] maze.path_between(w, start, end) implies p.len() <= w.len() by {
                        assert(gs[start.1 as int]@[start.0 as int] == Some(0u64));
                        lemma_astar_lower(*maze, gs, came_from@, o0, start, end, w, 0);
                        if exists|t: int| 0 <= t < o0.len() && (#[trigger] o0[t]).2 <= w.len() - 1 {
                            let t = choose|t: int| 0 <= t < o0.len() && (#[trigger] o0[t]).2 <= w.len() - 1;
                            assert(o0[best as int].2 <= o0[t].2);
                        }
                    }
                }
                return Some(path);
            }
            proof {
                lemma_astar_pop(*maze, g_score@, came_from@, o0, start, end, best as int);
                assert(maze.in_bounds((o0[best as int].0, o0[best as int].1)));
            }
            astar_expand(maze, &mut g_score, &mut came_from, &mut open, pos, end, Ghost(start));
            proof {
                lemma_score_sum_nonneg(g_score@, k);
                assert(astar_order(*maze, g_score@, came_from@, open@, start, end, start, false));
            }
        }
        proof {
            assert forall|c: Pos, d: Pos|
                maze.in_bounds(c) && scored(g_score@)(c) && #[trigger] maze.step(c, d) implies scored(g_score@)(d) by {
                assert(!in_open(open@, c));
            }
            assert(!in_open(open@, end));
            lemma_closed_set_blocks(*maze, scored(g_score@), start, end);
        }
        None
    }
}

/// Any two shortest walks between the same cells have the same length; so BFS
/// and A* answer every query with walks of equal length.
pub proof fn law_shortest_walks_agree(m: Maze, p: Seq<Pos>, q: Seq<Pos>, a: Pos, b: Pos)
    requires
        m.shortest_between(p, a, b),
        m.shortest_between(q, a, b),
    ensures
        p.len() == q.len(),
{
    assert(m.path_between(q, a, b));
    assert(m.path_between(p, a, b));
}

} // verus!
