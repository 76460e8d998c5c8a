//! Maze solving: breadth-first search and A* search.
use vstd::prelude::*;
use std::collections::VecDeque;
use super::maze::{Maze, Pos};
use super::grid::{new_grid, count_grid, dims, lemma_count_grid_le, lemma_count_grid_set};
use super::reach::{lemma_neighbours_are_steps, lemma_reach_refl, lemma_reach_extend};

verus! {

/// A table of the cell each cell was first reached from.
pub type CameFrom = Vec<Vec<Option<Pos>>>;

/// `cf` has `h` rows of `w` entries.
pub open spec fn cf_dims(cf: Seq<Vec<Option<Pos>>>, w: int, h: int) -> bool {
    &&& cf.len() == h
    &&& forall|y: int| 0 <= y < h ==> #[trigger] cf[y]@.len() == w
}

/// Following `cf` back from any marked cell other than `start` moves one step at a time,
/// through marked cells, to cells of strictly smaller rank.
pub open spec fn chain_ok(
    m: Maze,
    cf: Seq<Vec<Option<Pos>>>,
    marked: spec_fn(Pos) -> bool,
    rank: spec_fn(Pos) -> int,
    start: Pos,
) -> bool {
    forall|c: Pos|
        m.in_bounds(c) && #[trigger] marked(c) && c != start ==> {
            let e = cf[c.1 as int]@[c.0 as int];
            &&& e is Some
            &&& m.in_bounds(e->0)
            &&& marked(e->0)
            &&& m.step(e->0, c)
            &&& 0 <= rank(e->0) < rank(c)
        }
}

/// Equality of grid positions.
pub(crate) fn same_pos(a: Pos, b: Pos) -> (r: bool)
    ensures
        r == (a == b),
{
    a.0 == b.0 && a.1 == b.1
}

/// Walk `came_from` back from `end` to `start` and return the cells in walking order.
#[verifier::rlimit(40)]
pub(crate) fn reconstruct_path(
    maze: &Maze,
    came_from: &CameFrom,
    end: Pos,
    Ghost(start): Ghost<Pos>,
    Ghost(marked): Ghost<spec_fn(Pos) -> bool>,
    Ghost(rank): Ghost<spec_fn(Pos) -> int>,
) -> (path: Vec<Pos>)
    requires
        maze.wf(),
        cf_dims(came_from@, maze.width as int, maze.height as int),
        maze.in_bounds(end),
        marked(end),
        maze.in_bounds(start),
        came_from@[start.1 as int]@[start.0 as int] is None,
        chain_ok(*maze, came_from@, marked, rank, start),
        forall|c: Pos| maze.in_bounds(c) && #[trigger] marked(c) ==> rank(c) >= 0,
    ensures
        maze.path_between(path@, start, end),
        forall|i: int| 0 <= i < path@.len() ==> maze.in_bounds(#[trigger] path@[i]) && marked(path@[i]),
        forall|i: int|
            0 <= i < path@.len() - 1 ==> #[trigger] came_from@[path@[i + 1].1 as int]@[path@[i + 1].0 as int] == Some(
                path@[i],
            ),
{
    let mut rev: Vec<Pos> = Vec::new();
    rev.push(end);
    let mut current = end;
    loop
        invariant
            maze.wf(),
            cf_dims(came_from@, maze.width as int, maze.height as int),
            maze.in_bounds(current),
            marked(current),
            maze.in_bounds(start),
            came_from@[start.1 as int]@[start.0 as int] is None,
            chain_ok(*maze, came_from@, marked, rank, start),
            forall|c: Pos| maze.in_bounds(c) && #[trigger] marked(c) ==> rank(c) >= 0,
            rev@.len() >= 1,
            rev@[0] == end,
            rev@.last() == current,
            forall|i: int| 0 <= i < rev@.len() - 1 ==> #[trigger] maze.step(rev@[i + 1], rev@[i]),
            forall|i: int| 0 <= i < rev@.len() ==> maze.in_bounds(#[trigger] rev@[i]) && marked(rev@[i]),
            forall|i: int|
                0 <= i < rev@.len() - 1 ==> #[trigger] came_from@[rev@[i].1 as int]@[rev@[i].0 as int] == Some(
                    rev@[i + 1],
                ),
        ensures
            current == start,
        decreases rank(current),
    {
        match came_from[current.1 as usize][current.0 as usize] {
            Some(prev) => {
                let ghost old_rev = rev@;
                rev.push(prev);
                proof {
                    assert forall|i: int| 0 <= i < rev@.len() - 1 implies #[trigger] maze.step(rev@[i + 1], rev@[i]) by {
                        if i < old_rev.len() - 1 {
                            assert(rev@[i + 1] == old_rev[i + 1]);
                        }
                    }
                    assert forall|i: int| 0 <= i < rev@.len() implies maze.in_bounds(#[trigger] rev@[i]) && marked(rev@[i]) by {
                        if i < old_rev.len() {
                            assert(rev@[i] == old_rev[i]);
                        }
                    }
                    assert forall|i: int|
                        0 <= i < rev@.len() - 1 implies #[trigger] came_from@[rev@[i].1 as int]@[rev@[i].0 as int] == Some(
                            rev@[i + 1],
                        ) by {
                        if i < old_rev.len() - 1 {
                            assert(rev@[i + 1] == old_rev[i + 1]);
                            assert(rev@[i] == old_rev[i]);
                        } else {
                            assert(rev@[i] == old_rev[i]);
                        }
                    }
                }
                current = prev;
            },
            None => {
                break;
            },
        }
    }
    let mut path: Vec<Pos> = Vec::new();
    let mut k: usize = rev.len();
    while k > 0
        invariant
            k <= rev@.len(),
            rev@.len() >= 1,
            path@.len() == rev@.len() - k,
            forall|i: int| 0 <= i < path@.len() ==> #[trigger] path@[i] == rev@[rev@.len() - 1 - i],
        decreases k,
    {
        k = k - 1;
        path.push(rev[k]);
    }
    proof {
        assert(current == start);
        assert forall|i: int| 0 <= i < path@.len() - 1 implies #[trigger] maze.step(path@[i], path@[i + 1]) by {
            let j = rev@.len() - 2 - i;
            assert(maze.step(rev@[j + 1], rev@[j]));
        }
        assert forall|i: int| 0 <= i < path@.len() implies maze.in_bounds(#[trigger] path@[i]) && marked(path@[i]) by {
            assert(path@[i] == rev@[rev@.len() - 1 - i]);
        }
        assert forall|i: int|
            0 <= i < path@.len() - 1 implies #[trigger] came_from@[path@[i + 1].1 as int]@[path@[i + 1].0 as int] == Some(
                path@[i],
            ) by {
            let j = rev@.len() - 2 - i;
            assert(came_from@[rev@[j].1 as int]@[rev@[j].0 as int] == Some(rev@[j + 1]));
        }
    }
    path
}

} // verus!

verus! {

/// The cells marked in a table.
pub open spec fn marked_in(v: Seq<Vec<bool>>) -> spec_fn(Pos) -> bool {
    |c: Pos| v[c.1 as int]@[c.0 as int]
}

/// Ranks read from a map.
pub open spec fn rank_of(r: Map<Pos, int>) -> spec_fn(Pos) -> int {
    |c: Pos| r[c]
}

/// What the breadth-first search keeps true between steps, apart from closure.
spec fn bfs_core(
    m: Maze,
    v: Seq<Vec<bool>>,
    cf: Seq<Vec<Option<Pos>>>,
    q: Seq<Pos>,
    rank: Map<Pos, int>,
    start: Pos,
    end: Pos,
) -> bool {
    &&& m.wf()
    &&& m.in_bounds(start)
    &&& start != end
    &&& dims(v, m.width as int, m.height as int)
    &&& cf_dims(cf, m.width as int, m.height as int)
    &&& v[start.1 as int]@[start.0 as int]
    &&& cf[start.1 as int]@[start.0 as int] is None
    &&& count_grid(v) <= m.height * m.width
    &&& forall|i: int| 0 <= i < q.len() ==> m.in_bounds(#[trigger] q[i]) && v[q[i].1 as int]@[q[i].0 as int]
    &&& chain_ok(m, cf, marked_in(v), rank_of(rank), start)
    &&& forall|c: Pos| m.in_bounds(c) && #[trigger] v[c.1 as int]@[c.0 as int] ==> rank[c] >= 0
    &&& m.in_bounds(end) && v[end.1 as int]@[end.0 as int] ==> q.contains(end)
}

/// Every marked cell outside the queue, other than `skip` when `use_skip` holds, has
/// every cell one move away marked.
spec fn bfs_closed(m: Maze, v: Seq<Vec<bool>>, q: Seq<Pos>, skip: Pos, use_skip: bool) -> bool {
    forall|c: Pos, b: Pos|
        m.in_bounds(c) && v[c.1 as int]@[c.0 as int] && !q.contains(c) && !(use_skip && c == skip) && #[trigger] m.step(
            c,
            b,
        ) ==> v[b.1 as int]@[b.0 as int]
}

/// A set of marked cells that holds `a`, lacks `b`, and is closed under moves contains no walk from `a` to `b`.
pub(crate) proof fn lemma_closed_set_blocks(m: Maze, marked: spec_fn(Pos) -> bool, a: Pos, b: Pos)
    requires
        m.wf(),
        marked(a),
        !(m.in_bounds(b) && marked(b)),
        a != b,
        forall|c: Pos, d: Pos| m.in_bounds(c) && marked(c) && #[trigger] m.step(c, d) ==> marked(d),
    ensures
        !m.reachable(a, b),
{
    if m.reachable(a, b) {
        let p = choose|p: Seq<Pos>| #[trigger] m.path_between(p, a, b);
        assert forall|i: int| 0 <= i < p.len() implies #[trigger] marked(p[i]) by {
            lemma_set_marked_along(m, marked, p, i);
        }
        let j = p.len() - 2;
        assert(m.step(p[j], p[j + 1]));
        assert(marked(p[j + 1]));
    }
}

proof fn lemma_set_marked_along(m: Maze, marked: spec_fn(Pos) -> bool, p: Seq<Pos>, i: int)
    requires
        m.is_path(p),
        marked(p[0]),
        0 <= i < p.len(),
        forall|c: Pos, d: Pos| m.in_bounds(c) && marked(c) && #[trigger] m.step(c, d) ==> marked(d),
    ensures
        marked(p[i]),
    decreases i,
{
    if i > 0 {
        lemma_set_marked_along(m, marked, p, i - 1);
        let j = i - 1;
        assert(m.step(p[j], p[j + 1]));
    }
}

/// A set of marked cells that holds `a`, lacks `b`, and is closed under moves contains no walk from `a` to `b`.
proof fn lemma_closed_blocks(m: Maze, v: Seq<Vec<bool>>, a: Pos, b: Pos)
    requires
        m.wf(),
        dims(v, m.width as int, m.height as int),
        v[a.1 as int]@[a.0 as int],
        !(m.in_bounds(b) && v[b.1 as int]@[b.0 as int]),
        a != b,
        forall|c: Pos, d: Pos|
            m.in_bounds(c) && v[c.1 as int]@[c.0 as int] && #[trigger] m.step(c, d) ==> v[d.1 as int]@[d.0 as int],
    ensures
        !m.reachable(a, b),
{
    if m.reachable(a, b) {
        let p = choose|p: Seq<Pos>| #[trigger] m.path_between(p, a, b);
        assert forall|i: int| 0 <= i < p.len() implies #[trigger] v[p[i].1 as int]@[p[i].0 as int] by {
            lemma_marked_along(m, v, p, i);
        }
        let j = p.len() - 2;
        assert(m.step(p[j], p[j + 1]));
        assert(v[p[j + 1].1 as int]@[p[j + 1].0 as int]);
    }
}

proof fn lemma_marked_along(m: Maze, v: Seq<Vec<bool>>, p: Seq<Pos>, i: int)
    requires
        m.is_path(p),
        v[p[0].1 as int]@[p[0].0 as int],
        0 <= i < p.len(),
        forall|c: Pos, d: Pos|
            m.in_bounds(c) && v[c.1 as int]@[c.0 as int] && #[trigger] m.step(c, d) ==> v[d.1 as int]@[d.0 as int],
    ensures
        v[p[i].1 as int]@[p[i].0 as int],
    decreases i,
{
    if i > 0 {
        lemma_marked_along(m, v, p, i - 1);
        let j = i - 1;
        assert(m.step(p[j], p[j + 1]));
    }
}

/// The state of the breadth-first search: the cells reached, the queue, and
/// for each reached cell but the start the cell it was reached from.
pub struct BfsState {
    pub reached: Set<Pos>,
    pub queue: Seq<Pos>,
    pub parent: Map<Pos, Pos>,
}

/// Visits `nbrs` in order from `pos`: each cell not yet reached is reached,
/// queued, and records `pos` as its parent.
pub open spec fn visit_all(s: BfsState, pos: Pos, nbrs: Seq<Pos>) -> BfsState
    decreases nbrs.len(),
{
    if nbrs.len() == 0 {
        s
    } else {
        let s1 = visit_all(s, pos, nbrs.drop_last());
        let b = nbrs.last();
        if s1.reached.contains(b) {
            s1
        } else {
            BfsState { reached: s1.reached.insert(b), queue: s1.queue.push(b), parent: s1.parent.insert(b, pos) }
        }
    }
}

/// The search has stopped: the queue is empty or its front is the target.
pub open spec fn bfs_done(s: BfsState, end: Pos) -> bool {
    s.queue.len() == 0 || s.queue[0] == end
}

/// One step of the search: the front of the queue is taken out and its open
/// neighbours, in the order north, east, south, west, are visited.
pub open spec fn bfs_step(m: Maze, end: Pos, s: BfsState) -> BfsState {
    if bfs_done(s, end) {
        s
    } else {
        let pos = s.queue[0];
        visit_all(BfsState { queue: s.queue.drop_first(), ..s }, pos, m.neighbours_spec(pos.0, pos.1))
    }
}

/// The search after `k` steps from `start`.
#[verifier::opaque]
pub open spec fn bfs_run(m: Maze, start: Pos, end: Pos, k: nat) -> BfsState
    decreases k,
{
    if k == 0 {
        BfsState { reached: set![start], queue: seq![start], parent: Map::empty() }
    } else {
        bfs_step(m, end, bfs_run(m, start, end, (k - 1) as nat))
    }
}

/// The walk that ends at `c` and goes back along recorded parents, for at
/// most `fuel` moves, to a cell without one.
pub open spec fn walk_back(parent: Map<Pos, Pos>, c: Pos, fuel: nat) -> Seq<Pos>
    decreases fuel,
{
    if fuel == 0 || !parent.dom().contains(c) {
        seq![c]
    } else {
        walk_back(parent, parent[c], (fuel - 1) as nat).push(c)
    }
}

/// What breadth-first search answers: the walk back along the recorded
/// parents from `end` once the search has stopped at it, or nothing when the
/// queue ran dry.
pub open spec fn bfs_answer(m: Maze, start: Pos, end: Pos) -> Option<Seq<Pos>> {
    if start == end {
        Some(seq![end])
    } else if !m.in_bounds(start) {
        None
    } else {
        let s = bfs_run(m, start, end, choose|k: nat| bfs_done(#[trigger] bfs_run(m, start, end, k), end));
        if s.queue.len() == 0 {
            None
        } else {
            Some(walk_back(s.parent, end, usize::MAX as nat))
        }
    }
}

/// The search tables agree with a search state.
spec fn bfs_matches(m: Maze, v: Seq<Vec<bool>>, cf: Seq<Vec<Option<Pos>>>, q: Seq<Pos>, s: BfsState) -> bool {
    &&& q == s.queue
    &&& forall|c: Pos| m.in_bounds(c) ==> (v[c.1 as int]@[c.0 as int] <==> #[trigger] s.reached.contains(c))
    &&& forall|c: Pos| #[trigger] s.reached.contains(c) ==> m.in_bounds(c)
    &&& forall|c: Pos|
        m.in_bounds(c) ==> #[trigger] cf[c.1 as int]@[c.0 as int] == (if s.parent.dom().contains(c) {
            Some(s.parent[c])
        } else {
            None
        })
    &&& forall|c: Pos| #[trigger] s.parent.dom().contains(c) ==> m.in_bounds(c)
}

proof fn lemma_bfs_run_start(m: Maze, start: Pos, end: Pos)
    ensures
        bfs_run(m, start, end, 0) == (BfsState { reached: set![start], queue: seq![start], parent: Map::empty() }),
{
    reveal(bfs_run);
}

proof fn lemma_bfs_run_next(m: Maze, start: Pos, end: Pos, k: nat)
    ensures
        bfs_run(m, start, end, k + 1) == bfs_step(m, end, bfs_run(m, start, end, k)),
{
    reveal(bfs_run);
}

proof fn lemma_bfs_settled(m: Maze, start: Pos, end: Pos, k0: nat, k: nat)
    requires
        bfs_done(bfs_run(m, start, end, k0), end),
        k >= k0,
    ensures
        bfs_run(m, start, end, k) == bfs_run(m, start, end, k0),
    decreases k - k0,
{
    if k > k0 {
        lemma_bfs_settled(m, start, end, k0, (k - 1) as nat);
        lemma_bfs_run_next(m, start, end, (k - 1) as nat);
    }
}

proof fn lemma_bfs_answer(m: Maze, start: Pos, end: Pos, k0: nat)
    requires
        start != end,
        m.in_bounds(start),
        bfs_done(bfs_run(m, start, end, k0), end),
    ensures
        bfs_answer(m, start, end) == (if bfs_run(m, start, end, k0).queue.len() == 0 {
            None
        } else {
            Some(walk_back(bfs_run(m, start, end, k0).parent, end, usize::MAX as nat))
        }),
{
    let k1 = choose|k: nat| bfs_done(#[trigger] bfs_run(m, start, end, k), end);
    if k1 >= k0 {
        lemma_bfs_settled(m, start, end, k0, k1);
    } else {
        lemma_bfs_settled(m, start, end, k1, k0);
    }
}

/// A walk whose every cell after the first records the one before it as its
/// parent, and whose first cell records none, is the walk back from its last cell.
proof fn lemma_walk_back(parent: Map<Pos, Pos>, p: Seq<Pos>, i: int, fuel: nat)
    requires
        0 <= i < p.len(),
        i <= fuel,
        !parent.dom().contains(p[0]),
        forall|k: int| 0 < k < p.len() ==> #[trigger] parent.dom().contains(p[k]) && parent[p[k]] == p[k - 1],
    ensures
        walk_back(parent, p[i], fuel) == p.subrange(0, i + 1),
    decreases i,
{
    if i == 0 {
        assert(p.subrange(0, 1) =~= seq![p[0]]);
    } else {
        assert(parent.dom().contains(p[i]));
        lemma_walk_back(parent, p, i - 1, (fuel - 1) as nat);
        assert(p.subrange(0, i + 1) =~= p.subrange(0, i).push(p[i]));
    }
}

/// Reaching `nb` from `pos` in the tables matches reaching it in the state.
proof fn lemma_bfs_visit(
    m: Maze,
    v1: Seq<Vec<bool>>,
    v2: Seq<Vec<bool>>,
    cf1: Seq<Vec<Option<Pos>>>,
    cf2: Seq<Vec<Option<Pos>>>,
    q1: Seq<Pos>,
    s1: BfsState,
    pos: Pos,
    nb: Pos,
)
    requires
        bfs_matches(m, v1, cf1, q1, s1),
        m.in_bounds(nb),
        !s1.reached.contains(nb),
        v2.len() == v1.len(),
        cf2.len() == cf1.len(),
        v2[nb.1 as int]@ == v1[nb.1 as int]@.update(nb.0 as int, true),
        cf2[nb.1 as int]@ == cf1[nb.1 as int]@.update(nb.0 as int, Some(pos)),
        forall|yy: int| 0 <= yy < v1.len() && yy != nb.1 ==> #[trigger] v2[yy] == v1[yy],
        forall|yy: int| 0 <= yy < cf1.len() && yy != nb.1 ==> #[trigger] cf2[yy] == cf1[yy],
        dims(v1, m.width as int, m.height as int),
        cf_dims(cf1, m.width as int, m.height as int),
    ensures
        bfs_matches(
            m,
            v2,
            cf2,
            q1.push(nb),
            BfsState { reached: s1.reached.insert(nb), queue: s1.queue.push(nb), parent: s1.parent.insert(nb, pos) },
        ),
{
    let s2 = BfsState { reached: s1.reached.insert(nb), queue: s1.queue.push(nb), parent: s1.parent.insert(nb, pos) };
    assert forall|c: Pos| m.in_bounds(c) implies (v2[c.1 as int]@[c.0 as int] <==> #[trigger] s2.reached.contains(c)) by {
        if c.1 != nb.1 {
            assert(v2[c.1 as int] == v1[c.1 as int]);
        } else if c.0 != nb.0 {
            assert(v2[c.1 as int]@[c.0 as int] == v1[c.1 as int]@[c.0 as int]);
        }
    }
    assert forall|c: Pos|
        m.in_bounds(c) implies #[trigger] cf2[c.1 as int]@[c.0 as int] == (if s2.parent.dom().contains(c) {
            Some(s2.parent[c])
        } else {
            None
        }) by {
        if c.1 != nb.1 {
            assert(cf2[c.1 as int] == cf1[c.1 as int]);
        } else if c.0 != nb.0 {
            assert(cf2[c.1 as int]@[c.0 as int] == cf1[c.1 as int]@[c.0 as int]);
        }
    }
}

/// Marks every unmarked open neighbour of `pos`, records `pos` as where it came from,
/// and queues it.
fn bfs_expand(
    maze: &Maze,
    visited: &mut Vec<Vec<bool>>,
    came_from: &mut CameFrom,
    queue: &mut VecDeque<Pos>,
    pos: Pos,
    Ghost(start): Ghost<Pos>,
    Ghost(end): Ghost<Pos>,
    Ghost(rank0): Ghost<Map<Pos, int>>,
    Ghost(s0): Ghost<BfsState>,
) -> (rank: Ghost<Map<Pos, int>>)
    requires
        bfs_matches(*maze, old(visited)@, old(came_from)@, old(queue)@, s0),
        bfs_core(*maze, old(visited)@, old(came_from)@, old(queue)@, rank0, start, end),
        bfs_closed(*maze, old(visited)@, old(queue)@, pos, true),
        bfs_order(*maze, old(visited)@, old(came_from)@, old(queue)@, rank0, start, rank0[pos], pos, true),
        maze.in_bounds(pos),
        old(visited)@[pos.1 as int]@[pos.0 as int],
        pos != end,
    ensures
        bfs_core(*maze, final(visited)@, final(came_from)@, final(queue)@, rank@, start, end),
        bfs_closed(*maze, final(visited)@, final(queue)@, pos, false),
        bfs_order(*maze, final(visited)@, final(came_from)@, final(queue)@, rank@, start, rank0[pos], pos, false),
        bfs_matches(*maze, final(visited)@, final(came_from)@, final(queue)@, visit_all(s0, pos, maze.neighbours_spec(pos.0, pos.1))),
        count_grid(final(visited)@) >= count_grid(old(visited)@),
        count_grid(final(visited)@) == count_grid(old(visited)@) ==> final(queue)@ == old(queue)@,
{
    let nbrs = maze.neighbours(pos.0, pos.1);
    proof {
        assert forall|b: Pos| nbrs@.contains(b) <==> #[trigger] maze.step(pos, b) by {
            lemma_neighbours_are_steps(maze, pos.0, pos.1, b);
        }
    }
    let ghost mut rank = rank0;
    let ghost v0 = visited@;
    let ghost q0 = queue@;
    let mut k: usize = 0;
    while k < nbrs.len()
        invariant
            nbrs@ == maze.neighbours_spec(pos.0, pos.1),
            forall|b: Pos| nbrs@.contains(b) <==> #[trigger] maze.step(pos, b),
            k <= nbrs@.len(),
            maze.in_bounds(pos),
            visited@[pos.1 as int]@[pos.0 as int],
            pos != end,
            bfs_core(*maze, visited@, came_from@, queue@, rank, start, end),
            bfs_closed(*maze, visited@, queue@, pos, true),
            bfs_order(*maze, visited@, came_from@, queue@, rank, start, rank0[pos], pos, true),
            rank[pos] == rank0[pos],
            bfs_matches(*maze, visited@, came_from@, queue@, visit_all(s0, pos, nbrs@.subrange(0, k as int))),
            forall|j: int| 0 <= j < k ==> #[trigger] visited@[nbrs@[j].1 as int]@[nbrs@[j].0 as int],
            count_grid(visited@) >= count_grid(v0),
            count_grid(visited@) == count_grid(v0) ==> queue@ == q0,
        decreases nbrs@.len() - k,
    {
        let nb = nbrs[k];
        let ghost s1 = visit_all(s0, pos, nbrs@.subrange(0, k as int));
        proof {
            assert(nbrs@.subrange(0, k as int + 1).drop_last() =~= nbrs@.subrange(0, k as int));
            assert(nbrs@.subrange(0, k as int + 1).last() == nb);
            assert(nbrs@.contains(nb));
            assert(maze.step(pos, nb));
        }
        if !visited[nb.1 as usize][nb.0 as usize] {
            let ghost v1 = visited@;
            let ghost cf1 = came_from@;
            let ghost q1 = queue@;
            let ghost r1 = rank;
            visited[nb.1 as usize][nb.0 as usize] = true;
            came_from[nb.1 as usize][nb.0 as usize] = Some(pos);
            queue.push_back(nb);
            proof {
                rank = r1.insert(nb, r1[pos] + 1);
                lemma_count_grid_set(v1, visited@, nb.0 as int, nb.1 as int);
                assert(dims(visited@, maze.width as int, maze.height as int)) by {
                    assert forall|yy: int| 0 <= yy < maze.height implies #[trigger] visited@[yy]@.len() == maze.width by {
                        if yy != nb.1 {
                            assert(visited@[yy] == v1[yy]);
                        }
                    }
                }
                lemma_bfs_visit(*maze, v1, visited@, cf1, came_from@, q1, s1, pos, nb);
                assert(cf_dims(came_from@, maze.width as int, maze.height as int)) by {
                    assert forall|yy: int| 0 <= yy < maze.height implies #[trigger] came_from@[yy]@.len() == maze.width by {
                        if yy != nb.1 {
                            assert(came_from@[yy] == cf1[yy]);
                        }
                    }
                }
                lemma_count_grid_le(visited@, maze.width as nat);
                assert forall|c: Pos| maze.in_bounds(c) && v1[c.1 as int]@[c.0 as int] implies #[trigger] visited@[c.1 as int]@[c.0 as int] by {
                    if c.1 != nb.1 {
                        assert(visited@[c.1 as int] == v1[c.1 as int]);
                    }
                }
                assert forall|c: Pos| maze.in_bounds(c) && #[trigger] visited@[c.1 as int]@[c.0 as int] implies (c == nb || v1[c.1 as int]@[c.0 as int]) by {
                    if c.1 != nb.1 {
                        assert(visited@[c.1 as int] == v1[c.1 as int]);
                    }
                }
                assert forall|c: Pos| maze.in_bounds(c) && c != nb implies #[trigger] came_from@[c.1 as int]@[c.0 as int] == cf1[c.1 as int]@[c.0 as int] by {
                    if c.1 != nb.1 {
                        assert(came_from@[c.1 as int] == cf1[c.1 as int]);
                    }
                }
                assert(visited@[start.1 as int]@[start.0 as int]);
                assert(came_from@[start.1 as int]@[start.0 as int] is None);
                assert forall|i: int| 0 <= i < queue@.len() implies maze.in_bounds(#[trigger] queue@[i]) && visited@[queue@[i].1 as int]@[queue@[i].0 as int] by {
                    if i < q1.len() {
                        assert(queue@[i] == q1[i]);
                    }
                }
                assert(chain_ok(*maze, came_from@, marked_in(visited@), rank_of(rank), start)) by {
                    assert forall|c: Pos|
                        maze.in_bounds(c) && #[trigger] marked_in(visited@)(c) && c != start implies {
                            let e = came_from@[c.1 as int]@[c.0 as int];
                            &&& e is Some
                            &&& maze.in_bounds(e->0)
                            &&& marked_in(visited@)(e->0)
                            &&& maze.step(e->0, c)
                            &&& 0 <= rank_of(rank)(e->0) < rank_of(rank)(c)
                        } by {
                        if c != nb {
                            assert(marked_in(v1)(c));
                            let e = cf1[c.1 as int]@[c.0 as int];
                            assert(marked_in(v1)(e->0));
                            assert(e->0 != nb);
                        }
                    }
                }
                assert forall|c: Pos| maze.in_bounds(c) && #[trigger] visited@[c.1 as int]@[c.0 as int] implies rank[c] >= 0 by {
                    if c != nb {
                        assert(v1[c.1 as int]@[c.0 as int]);
                    }
                }
                if maze.in_bounds(end) && visited@[end.1 as int]@[end.0 as int] {
                    if end == nb {
                        assert(queue@[queue@.len() - 1] == nb);
                    } else {
                        assert(v1[end.1 as int]@[end.0 as int]);
                        let i = choose|i: int| 0 <= i < q1.len() && q1[i] == end;
                        assert(queue@[i] == q1[i]);
                    }
                }
                assert forall|c: Pos, b: Pos|
                    maze.in_bounds(c) && visited@[c.1 as int]@[c.0 as int] && !queue@.contains(c) && !(c == pos)
                        && #[trigger] maze.step(c, b) implies visited@[b.1 as int]@[b.0 as int] by {
                    if c == nb {
                        assert(queue@[queue@.len() - 1] == nb);
                    }
                    assert(v1[c.1 as int]@[c.0 as int]);
                    if q1.contains(c) {
                        let i = choose|i: int| 0 <= i < q1.len() && q1[i] == c;
                        assert(queue@[i] == q1[i]);
                    }
                    assert(v1[b.1 as int]@[b.0 as int]);
                }
                let front = rank0[pos];
                assert(bfs_order(*maze, visited@, came_from@, queue@, rank, start, front, pos, true)) by {
                    assert forall|c: Pos|
                        maze.in_bounds(c) && #[trigger] visited@[c.1 as int]@[c.0 as int] && c != start implies
                            rank[came_from@[c.1 as int]@[c.0 as int]->0] + 1 == rank[c] by {
                        if c != nb {
                            assert(v1[c.1 as int]@[c.0 as int]);
                            let e = cf1[c.1 as int]@[c.0 as int];
                            assert(marked_in(v1)(c));
                            assert(marked_in(v1)(e->0));
                        }
                    }
                    assert forall|i: int, j: int| 0 <= i <= j < queue@.len() implies rank[#[trigger] queue@[i]] <= rank[#[trigger] queue@[j]] by {
                        if j < q1.len() {
                            assert(queue@[i] == q1[i]);
                            assert(queue@[j] == q1[j]);
                            assert(v1[q1[i].1 as int]@[q1[i].0 as int]);
                            assert(v1[q1[j].1 as int]@[q1[j].0 as int]);
                        } else if i < q1.len() {
                            assert(queue@[i] == q1[i]);
                            assert(v1[q1[i].1 as int]@[q1[i].0 as int]);
                            assert(front <= r1[q1[i]] <= front + 1);
                        }
                    }
                    assert forall|i: int| 0 <= i < queue@.len() implies front <= #[trigger] rank[queue@[i]] <= front + 1 by {
                        if i < q1.len() {
                            assert(queue@[i] == q1[i]);
                            assert(v1[q1[i].1 as int]@[q1[i].0 as int]);
                        }
                    }
                    assert forall|c: Pos| maze.in_bounds(c) && #[trigger] visited@[c.1 as int]@[c.0 as int] implies rank[c] <= front + 1 by {
                        if c != nb {
                            assert(v1[c.1 as int]@[c.0 as int]);
                        }
                    }
                    assert forall|c: Pos, b: Pos|
                        maze.in_bounds(c) && visited@[c.1 as int]@[c.0 as int] && !queue@.contains(c) && !(true && c == pos)
                            && #[trigger] maze.step(c, b) implies rank[b] <= rank[c] + 1 by {
                        if c == nb {
                            assert(queue@[queue@.len() - 1] == nb);
                        }
                        assert(v1[c.1 as int]@[c.0 as int]);
                        if q1.contains(c) {
                            let i = choose|i: int| 0 <= i < q1.len() && q1[i] == c;
                            assert(queue@[i] == q1[i]);
                        }
                        assert(v1[b.1 as int]@[b.0 as int]);
                    }
                }
            }
        }
        k = k + 1;
    }
    proof {
        assert(nbrs@.subrange(0, nbrs@.len() as int) =~= nbrs@);
        assert forall|c: Pos, b: Pos|
            maze.in_bounds(c) && visited@[c.1 as int]@[c.0 as int] && !queue@.contains(c) && #[trigger] maze.step(c, b)
                implies visited@[b.1 as int]@[b.0 as int] by {
            if c == pos {
                assert(nbrs@.contains(b));
                let j = choose|j: int| 0 <= j < nbrs@.len() && nbrs@[j] == b;
                assert(visited@[nbrs@[j].1 as int]@[nbrs@[j].0 as int]);
            }
        }
        assert forall|c: Pos, b: Pos|
            maze.in_bounds(c) && visited@[c.1 as int]@[c.0 as int] && !queue@.contains(c) && !(false && c == pos)
                && #[trigger] maze.step(c, b) implies rank[b] <= rank[c] + 1 by {
            if c == pos {
                assert(visited@[b.1 as int]@[b.0 as int]);
            }
        }
    }
    Ghost(rank)
}

/// The breadth-first order of the search, around the rank `front` of the cell
/// being expanded: the start has rank 0 and every other marked cell one more
/// than the cell it was reached from; the queue holds ranks `front` and
/// `front + 1` in non-decreasing order; no marked cell is ranked above
/// `front + 1`; and a cell that has left the queue (other than `skip` when
/// `use_skip` holds) has every neighbour at most one rank above it.
spec fn bfs_order(
    m: Maze,
    v: Seq<Vec<bool>>,
    cf: Seq<Vec<Option<Pos>>>,
    q: Seq<Pos>,
    rank: Map<Pos, int>,
    start: Pos,
    front: int,
    skip: Pos,
    use_skip: bool,
) -> bool {
    &&& rank[start] == 0
    &&& forall|c: Pos|
        m.in_bounds(c) && #[trigger] v[c.1 as int]@[c.0 as int] && c != start ==> rank[cf[c.1 as int]@[c.0 as int]->0]
            + 1 == rank[c]
    &&& forall|i: int, j: int| 0 <= i <= j < q.len() ==> rank[#[trigger] q[i]] <= rank[#[trigger] q[j]]
    &&& forall|i: int| 0 <= i < q.len() ==> front <= #[trigger] rank[q[i]] <= front + 1
    &&& forall|c: Pos| m.in_bounds(c) && #[trigger] v[c.1 as int]@[c.0 as int] ==> rank[c] <= front + 1
    &&& forall|c: Pos, b: Pos|
        m.in_bounds(c) && v[c.1 as int]@[c.0 as int] && !q.contains(c) && !(use_skip && c == skip) && #[trigger] m.step(
            c,
            b,
        ) ==> rank[b] <= rank[c] + 1
}

/// With a non-empty queue the order can be stated around the rank of its front.
proof fn lemma_order_refront(
    m: Maze,
    v: Seq<Vec<bool>>,
    cf: Seq<Vec<Option<Pos>>>,
    q: Seq<Pos>,
    rank: Map<Pos, int>,
    start: Pos,
    front: int,
    skip: Pos,
)
    requires
        bfs_order(m, v, cf, q, rank, start, front, skip, false),
        q.len() > 0,
    ensures
        bfs_order(m, v, cf, q, rank, start, rank[q[0]], skip, false),
{
    assert forall|i: int| 0 <= i < q.len() implies rank[q[0]] <= #[trigger] rank[q[i]] <= rank[q[0]] + 1 by {
        assert(rank[q[0]] <= rank[q[i]]);
    }
}

/// Before a cell of rank `front` is expanded, every walk from the start of at
/// most `front` moves ends in a marked cell ranked at most its length.
proof fn lemma_bfs_lower(
    m: Maze,
    v: Seq<Vec<bool>>,
    cf: Seq<Vec<Option<Pos>>>,
    q: Seq<Pos>,
    rank: Map<Pos, int>,
    start: Pos,
    end: Pos,
    front: int,
    w: Seq<Pos>,
    i: int,
)
    requires
        bfs_core(m, v, cf, q, rank, start, end),
        bfs_closed(m, v, q, start, false),
        bfs_order(m, v, cf, q, rank, start, front, start, false),
        m.is_path(w),
        w[0] == start,
        0 <= i < w.len(),
        i <= front,
    ensures
        m.in_bounds(w[i]),
        v[w[i].1 as int]@[w[i].0 as int],
        rank[w[i]] <= i,
    decreases i,
{
    if i > 0 {
        lemma_bfs_lower(m, v, cf, q, rank, start, end, front, w, i - 1);
        let e = w[i - 1];
        assert(m.step(w[i - 1], w[(i - 1) + 1]));
        if q.contains(e) {
            let k = choose|k: int| 0 <= k < q.len() && q[k] == e;
            assert(front <= rank[q[k]]);
        }
    }
}

/// Along a walk that follows the recorded parents from the start, the rank of
/// each cell is its position.
proof fn lemma_rank_along(
    m: Maze,
    v: Seq<Vec<bool>>,
    cf: Seq<Vec<Option<Pos>>>,
    q: Seq<Pos>,
    rank: Map<Pos, int>,
    start: Pos,
    end: Pos,
    front: int,
    p: Seq<Pos>,
    i: int,
)
    requires
        bfs_core(m, v, cf, q, rank, start, end),
        bfs_order(m, v, cf, q, rank, start, front, start, false),
        p.len() >= 1,
        p[0] == start,
        forall|k: int| 0 <= k < p.len() ==> m.in_bounds(#[trigger] p[k]) && v[p[k].1 as int]@[p[k].0 as int],
        forall|k: int| 0 <= k < p.len() - 1 ==> #[trigger] cf[p[k + 1].1 as int]@[p[k + 1].0 as int] == Some(p[k]),
        0 <= i < p.len(),
    ensures
        rank[p[i]] == i,
    decreases i,
{
    if i > 0 {
        lemma_rank_along(m, v, cf, q, rank, start, end, front, p, i - 1);
        let k = i - 1;
        assert(cf[p[k + 1].1 as int]@[p[k + 1].0 as int] == Some(p[k]));
        assert(p[i] != start);
        assert(v[p[i].1 as int]@[p[i].0 as int]);
    }
}

/// Taking the front of the queue keeps the core invariant and leaves only that cell
/// possibly unclosed.
proof fn lemma_bfs_pop(
    m: Maze,
    v: Seq<Vec<bool>>,
    cf: Seq<Vec<Option<Pos>>>,
    q: Seq<Pos>,
    rank: Map<Pos, int>,
    start: Pos,
    end: Pos,
)
    requires
        bfs_core(m, v, cf, q, rank, start, end),
        bfs_closed(m, v, q, start, false),
        bfs_order(m, v, cf, q, rank, start, rank[q[0]], start, false),
        q.len() > 0,
        q[0] != end,
    ensures
        bfs_core(m, v, cf, q.subrange(1, q.len() as int), rank, start, end),
        bfs_closed(m, v, q.subrange(1, q.len() as int), q[0], true),
        bfs_order(m, v, cf, q.subrange(1, q.len() as int), rank, start, rank[q[0]], q[0], true),
{
    let q2 = q.subrange(1, q.len() as int);
    assert forall|i: int, j: int| 0 <= i <= j < q2.len() implies rank[#[trigger] q2[i]] <= rank[#[trigger] q2[j]] by {
        assert(q2[i] == q[i + 1]);
        assert(q2[j] == q[j + 1]);
    }
    assert forall|i: int| 0 <= i < q2.len() implies rank[q[0]] <= #[trigger] rank[q2[i]] <= rank[q[0]] + 1 by {
        assert(q2[i] == q[i + 1]);
    }
    assert forall|c: Pos, b: Pos|
        m.in_bounds(c) && v[c.1 as int]@[c.0 as int] && !q2.contains(c) && !(true && c == q[0]) && #[trigger] m.step(c, b)
            implies rank[b] <= rank[c] + 1 by {
        if q.contains(c) {
            let i = choose|i: int| 0 <= i < q.len() && q[i] == c;
            assert(q2[i - 1] == q[i]);
        }
    }
    assert forall|i: int| 0 <= i < q2.len() implies m.in_bounds(#[trigger] q2[i]) && v[q2[i].1 as int]@[q2[i].0 as int] by {
        assert(q2[i] == q[i + 1]);
    }
    if m.in_bounds(end) && v[end.1 as int]@[end.0 as int] {
        let i = choose|i: int| 0 <= i < q.len() && q[i] == end;
        assert(q2[i - 1] == q[i]);
    }
    assert forall|c: Pos, b: Pos|
        m.in_bounds(c) && v[c.1 as int]@[c.0 as int] && !q2.contains(c) && !(true && c == q[0]) && #[trigger] m.step(c, b)
            implies v[b.1 as int]@[b.0 as int] by {
        if q.contains(c) {
            let i = choose|i: int| 0 <= i < q.len() && q[i] == c;
            assert(q2[i - 1] == q[i]);
        }
    }
}

/// A walk from an off-grid cell never leaves it.
pub(crate) proof fn lemma_offgrid_isolated(m: Maze, a: Pos, b: Pos)
    requires
        !m.in_bounds(a),
        a != b,
    ensures
        !m.reachable(a, b),
{
    if m.reachable(a, b) {
        let p = choose|p: Seq<Pos>| #[trigger] m.path_between(p, a, b);
        if p.len() == 1 {
            assert(p.last() == p[0]);
        }
        let i = 0int;
        assert(m.step(p[i], p[i + 1]));
    }
}

/// Maze-solving algorithms.
#[derive(Debug, Default)]
pub struct PathFinder;

impl PathFinder {
    /// Breadth-first search through the maze.
    ///
    /// Returns a shortest walk from `start` to `end` through missing walls when one
    /// exists, and `None` exactly when `end` cannot be reached from `start`.
    pub fn bfs(maze: &Maze, start: Pos, end: Pos) -> (r: Option<Vec<Pos>>)
        requires
            maze.wf(),
            start == end || maze.probe_ok(start.0, start.1),
        ensures
            match r {
                Some(p) => maze.shortest_between(p@, start, end) && bfs_answer(*maze, start, end) == Some(p@),
                None => !maze.reachable(start, end) && bfs_answer(*maze, start, end) is None,
            },
    {
        if same_pos(start, end) {
            let mut p: Vec<Pos> = Vec::new();
            p.push(end);
            proof {
                assert(maze.path_between(p@, start, end));
                assert(p@ =~= seq![end]);
            }
            return Some(p);
        }
        if !(start.0 < maze.width && start.1 < maze.height) {
            // No neighbour of an off-grid start is ever probed, so nothing is explored.
            proof {
                lemma_offgrid_isolated(*maze, start, end);
            }
            return None;
        }
        let mut visited: Vec<Vec<bool>> = new_grid(maze.width, maze.height, false);
        let mut came_from: CameFrom = new_grid(maze.width, maze.height, None);
        let mut queue: VecDeque<Pos> = VecDeque::new();

        let ghost v_init = visited@;
        visited[start.1 as usize][start.0 as usize] = true;
        queue.push_back(start);
        let ghost mut rank: Map<Pos, int> = Map::empty().insert(start, 0);
        proof {
            assert(dims(visited@, maze.width as int, maze.height as int)) by {
                assert forall|yy: int| 0 <= yy < maze.height implies #[trigger] visited@[yy]@.len() == maze.width by {
                    if yy != start.1 {
                        assert(visited@[yy] == v_init[yy]);
                    }
                }
            }
            lemma_count_grid_le(visited@, maze.width as nat);
            assert forall|c: Pos| maze.in_bounds(c) && #[trigger] visited@[c.1 as int]@[c.0 as int] implies c == start by {
                if c.1 != start.1 {
                    assert(visited@[c.1 as int] == v_init[c.1 as int]);
                }
            }
            assert(queue@[0] == start);
            assert(queue@.contains(start));
            assert(chain_ok(*maze, came_from@, marked_in(visited@), rank_of(rank), start));
            assert(bfs_order(*maze, visited@, came_from@, queue@, rank, start, 0, start, false));
            lemma_bfs_run_start(*maze, start, end);
            let s0 = bfs_run(*maze, start, end, 0);
            assert(queue@ =~= s0.queue);
            assert forall|c: Pos| maze.in_bounds(c) implies (visited@[c.1 as int]@[c.0 as int] <==> #[trigger] s0.reached.contains(c)) by {
                if c.1 != start.1 {
                    assert(visited@[c.1 as int] == v_init[c.1 as int]);
                }
            }
        }
        let ghost mut front: int = 0;
        let ghost mut k: nat = 0;

        while queue.len() > 0
            invariant
                bfs_core(*maze, visited@, came_from@, queue@, rank, start, end),
                bfs_closed(*maze, visited@, queue@, start, false),
                bfs_order(*maze, visited@, came_from@, queue@, rank, start, front, start, false),
                queue@.len() > 0 ==> front == rank[queue@[0]],
                bfs_matches(*maze, visited@, came_from@, queue@, bfs_run(*maze, start, end, k)),
            decreases maze.height * maze.width - count_grid(visited@), queue@.len(),
        {
            let ghost q0 = queue@;
            let ghost sk = bfs_run(*maze, start, end, k);
            let pos = match queue.pop_front() {
                Some(p) => p,
                None => {
                    return None;
                },
            };
            if same_pos(pos, end) {
                let path = reconstruct_path(
                    maze,
                    &came_from,
                    end,
                    Ghost(start),
                    Ghost(marked_in(visited@)),
                    Ghost(rank_of(rank)),
                );
                let n_path = path.len();
                proof {
                    let p = path@;
                    assert(bfs_done(sk, end));
                    assert forall|i: int| 0 < i < p.len() implies #[trigger] sk.parent.dom().contains(p[i]) && sk.parent[p[i]]
                        == p[i - 1] by {
                        let j = i - 1;
                        assert(came_from@[p[j + 1].1 as int]@[p[j + 1].0 as int] == Some(p[j]));
                        assert(maze.in_bounds(p[i]));
                    }
                    assert(!sk.parent.dom().contains(p[0]));
                    lemma_walk_back(sk.parent, p, p.len() - 1, usize::MAX as nat);
                    assert(p.subrange(0, p.len() as int) =~= p);
                    lemma_bfs_answer(*maze, start, end, k);
                    lemma_rank_along(*maze, visited@, came_from@, q0, rank, start, end, front, p, p.len() - 1);
                    assert forall|w: Seq<Pos>| #[trigger] maze.path_between(w, start, end) implies p.len() <= w.len() by {
                        if w.len() - 1 < front {
                            lemma_bfs_lower(*maze, visited@, came_from@, q0, rank, start, end, front, w, w.len() - 1);
                        }
                    }
                }
                return Some(path);
            }
            proof {
                lemma_bfs_pop(*maze, visited@, came_from@, q0, rank, start, end);
            }
            proof {
                assert(queue@ =~= sk.queue.drop_first());
            }
            let r = bfs_expand(
                maze,
                &mut visited,
                &mut came_from,
                &mut queue,
                pos,
                Ghost(start),
                Ghost(end),
                Ghost(rank),
                Ghost(BfsState { queue: sk.queue.drop_first(), ..sk }),
            );
            proof {
                lemma_bfs_run_next(*maze, start, end, k);
                k = k + 1;
                rank = r@;
                if queue@.len() > 0 {
                    lemma_order_refront(*maze, visited@, came_from@, queue@, rank, start, front, pos);
                    front = rank[queue@[0]];
                }
                assert(bfs_order(*maze, visited@, came_from@, queue@, rank, start, front, start, false));
            }
        }
        proof {
            assert forall|c: Pos, d: Pos|
                maze.in_bounds(c) && visited@[c.1 as int]@[c.0 as int] && #[trigger] maze.step(c, d) implies visited@[d.1 as int]@[d.0 as int] by {
                assert(!queue@.contains(c));
            }
            assert(!queue@.contains(end));
            lemma_closed_blocks(*maze, visited@, start, end);
            lemma_bfs_answer(*maze, start, end, k);
        }
        None
    }
}

} // verus!
