//! Facts about walks through a maze: how they extend, join, reverse, and survive
//! the removal of walls.
use vstd::prelude::*;
use super::maze::{Maze, Pos, E, N, S, W};

verus! {

/// The open neighbours listed for an in-grid cell are exactly the cells one move away.
pub proof fn lemma_neighbours_are_steps(m: &Maze, x: u32, y: u32, b: Pos)
    requires
        m.in_bounds((x, y)),
    ensures
        m.neighbours_spec(x, y).contains(b) <==> m.step((x, y), b),
{
    let s0 = Seq::<Pos>::empty();
    let s1 = if y > 0 && !m.wall(x as int, y as int, N as int) {
        s0.push((x, (y - 1) as u32))
    } else {
        s0
    };
    let s2 = if x + 1 < m.width && !m.wall(x as int, y as int, E as int) {
        s1.push(((x + 1) as u32, y))
    } else {
        s1
    };
    let s3 = if y + 1 < m.height && !m.wall(x as int, y as int, S as int) {
        s2.push((x, (y + 1) as u32))
    } else {
        s2
    };
    let s4 = m.neighbours_spec(x, y);
    assert(forall|q: Pos, s: Seq<Pos>| #[trigger] s.push(q).contains(b) <==> (s.contains(b) || q == b)) by {
        assert forall|q: Pos, s: Seq<Pos>| #[trigger] s.push(q).contains(b) implies (s.contains(b) || q == b) by {
            let i = choose|i: int| 0 <= i < s.push(q).len() && s.push(q)[i] == b;
            if i < s.len() {
                assert(s[i] == b);
            }
        }
        assert forall|q: Pos, s: Seq<Pos>| (s.contains(b) || q == b) implies #[trigger] s.push(q).contains(b) by {
            if q == b {
                assert(s.push(q)[s.len() as int] == b);
            } else {
                let i = choose|i: int| 0 <= i < s.len() && s[i] == b;
                assert(s.push(q)[i] == b);
            }
        }
    }
    assert(!s0.contains(b));
}

/// A single cell is a walk from itself to itself.
pub proof fn lemma_reach_refl(m: &Maze, a: Pos)
    ensures
        m.reachable(a, a),
{
    let p = seq![a];
    assert(m.path_between(p, a, a));
}

/// A walk to `b` followed by one move to `c` is a walk to `c`.
pub proof fn lemma_reach_extend(m: &Maze, a: Pos, b: Pos, c: Pos)
    requires
        m.reachable(a, b),
        m.step(b, c),
    ensures
        m.reachable(a, c),
{
    let p = choose|p: Seq<Pos>| #[trigger] m.path_between(p, a, b);
    let q = p.push(c);
    assert forall|i: int| 0 <= i < q.len() - 1 implies #[trigger] m.step(q[i], q[i + 1]) by {
        if i < p.len() - 1 {
            assert(m.step(p[i], p[i + 1]));
        }
    }
    assert(m.path_between(q, a, c));
}

/// Walks join end to end.
pub proof fn lemma_reach_trans(m: &Maze, a: Pos, b: Pos, c: Pos)
    requires
        m.reachable(a, b),
        m.reachable(b, c),
    ensures
        m.reachable(a, c),
{
    let p = choose|p: Seq<Pos>| #[trigger] m.path_between(p, a, b);
    let q = choose|q: Seq<Pos>| #[trigger] m.path_between(q, b, c);
    let r = p + q.skip(1);
    assert forall|i: int| 0 <= i < r.len() - 1 implies #[trigger] m.step(r[i], r[i + 1]) by {
        if i < p.len() - 1 {
            assert(m.step(p[i], p[i + 1]));
        } else {
            let j = i - p.len() + 1;
            assert(m.step(q[j], q[j + 1]));
        }
    }
    if q.len() == 1 {
        assert(r =~= p);
    }
    assert(m.path_between(r, a, c));
}

/// With every shared wall seen alike from both sides, a move can be taken back.
pub proof fn lemma_step_symm(m: &Maze, a: Pos, b: Pos)
    requires
        m.wf(),
        m.consistent(),
        m.step(a, b),
    ensures
        m.step(b, a),
{
    if a.1 > 0 && !m.wall(a.0 as int, a.1 as int, N as int) && b == (a.0, (a.1 - 1) as u32) {
        assert(m.wall(b.0 as int, b.1 as int, S as int) == m.wall(b.0 as int, b.1 + 1, N as int));
    } else if a.0 + 1 < m.width && !m.wall(a.0 as int, a.1 as int, E as int) && b == ((a.0 + 1) as u32, a.1) {
        assert(m.wall(a.0 as int, a.1 as int, E as int) == m.wall(a.0 + 1, a.1 as int, W as int));
    } else if a.1 + 1 < m.height && !m.wall(a.0 as int, a.1 as int, S as int) && b == (a.0, (a.1 + 1) as u32) {
        assert(m.wall(a.0 as int, a.1 as int, S as int) == m.wall(a.0 as int, a.1 + 1, N as int));
    } else {
        assert(m.wall(b.0 as int, b.1 as int, E as int) == m.wall(b.0 + 1, b.1 as int, W as int));
    }
}

/// With every shared wall seen alike from both sides, walks can be reversed.
pub proof fn lemma_reach_symm(m: &Maze, a: Pos, b: Pos)
    requires
        m.wf(),
        m.consistent(),
        m.reachable(a, b),
    ensures
        m.reachable(b, a),
{
    let p = choose|p: Seq<Pos>| #[trigger] m.path_between(p, a, b);
    let r = p.reverse();
    assert forall|i: int| 0 <= i < r.len() - 1 implies #[trigger] m.step(r[i], r[i + 1]) by {
        let j = p.len() - 2 - i;
        assert(m.step(p[j], p[j + 1]));
        lemma_step_symm(m, p[j], p[j + 1]);
    }
    assert(m.path_between(r, b, a));
}

/// `m2` has the same grid as `m1` and no wall that `m1` lacks.
pub open spec fn fewer_walls(m1: &Maze, m2: &Maze) -> bool {
    &&& m1.width == m2.width
    &&& m1.height == m2.height
    &&& forall|x: int, y: int, d: int|
        0 <= x < m1.width && 0 <= y < m1.height && 0 <= d < 4 && #[trigger] m2.wall(x, y, d) ==> m1.wall(
            x,
            y,
            d,
        )
}

/// Removing walls keeps every walk open.
pub proof fn lemma_reach_mono(m1: &Maze, m2: &Maze, a: Pos, b: Pos)
    requires
        fewer_walls(m1, m2),
        m1.reachable(a, b),
    ensures
        m2.reachable(a, b),
{
    let p = choose|p: Seq<Pos>| #[trigger] m1.path_between(p, a, b);
    assert forall|i: int| 0 <= i < p.len() - 1 implies #[trigger] m2.step(p[i], p[i + 1]) by {
        assert(m1.step(p[i], p[i + 1]));
        let q = p[i];
        assert(m2.wall(q.0 as int, q.1 as int, N as int) ==> m1.wall(q.0 as int, q.1 as int, N as int));
        assert(m2.wall(q.0 as int, q.1 as int, E as int) ==> m1.wall(q.0 as int, q.1 as int, E as int));
        assert(m2.wall(q.0 as int, q.1 as int, S as int) ==> m1.wall(q.0 as int, q.1 as int, S as int));
        assert(m2.wall(q.0 as int, q.1 as int, W as int) ==> m1.wall(q.0 as int, q.1 as int, W as int));
    }
    assert(m2.path_between(p, a, b));
}

/// The grid neighbours listed for `(x, y)`: each lies on a side that faces the grid,
/// and every such side is listed.
pub proof fn lemma_all_neighbours(m: &Maze, x: u32, y: u32)
    ensures
        forall|i: int|
            0 <= i < m.all_neighbours_spec(x, y).len() ==> {
                let e = #[trigger] m.all_neighbours_spec(x, y)[i];
                &&& e.2 < 4
                &&& m.dir_valid(x as int, y as int, e.2 as int)
                &&& (e.0, e.1) == Maze::dir_target(x, y, e.2)
            },
        y > 0 ==> m.all_neighbours_spec(x, y).contains((x, (y - 1) as u32, N)),
        x + 1 < m.width ==> m.all_neighbours_spec(x, y).contains(((x + 1) as u32, y, E)),
        y + 1 < m.height ==> m.all_neighbours_spec(x, y).contains((x, (y + 1) as u32, S)),
        x > 0 ==> m.all_neighbours_spec(x, y).contains(((x - 1) as u32, y, W)),
{
    let s0 = Seq::<(u32, u32, usize)>::empty();
    let s1 = if y > 0 { s0.push((x, (y - 1) as u32, N)) } else { s0 };
    let s2 = if x + 1 < m.width { s1.push(((x + 1) as u32, y, E)) } else { s1 };
    let s3 = if y + 1 < m.height { s2.push((x, (y + 1) as u32, S)) } else { s2 };
    let s4 = m.all_neighbours_spec(x, y);
    if y > 0 {
        assert(s4[0] == (x, (y - 1) as u32, N));
    }
    if x + 1 < m.width {
        assert(s4[s1.len() as int] == ((x + 1) as u32, y, E));
    }
    if y + 1 < m.height {
        assert(s4[s2.len() as int] == (x, (y + 1) as u32, S));
    }
    if x > 0 {
        assert(s4[s3.len() as int] == ((x - 1) as u32, y, W));
    }
}

/// Clearing a wall that faces another cell removes no wall beyond it, keeps the two
/// views of every shared wall alike and the border closed, and opens a move across it.
pub proof fn lemma_remove_valid(m1: &Maze, m2: &Maze, x: u32, y: u32, d: usize)
    requires
        m1.wf(),
        Maze::wall_removed(m1, m2, x, y, d),
        m1.in_bounds((x, y)),
        d < 4,
        m1.dir_valid(x as int, y as int, d as int),
    ensures
        fewer_walls(m1, m2),
        m1.consistent() ==> m2.consistent(),
        m1.border_closed() ==> m2.border_closed(),
        m2.step((x, y), Maze::dir_target(x, y, d)),
{
    assert(!m2.wall(x as int, y as int, d as int));
    if m1.consistent() {
        assert forall|xx: int, yy: int|
            0 <= xx && xx + 1 < m2.width && 0 <= yy < m2.height implies #[trigger] m2.wall(xx, yy, E as int)
                == m2.wall(xx + 1, yy, W as int) by {
            assert(m1.wall(xx, yy, E as int) == m1.wall(xx + 1, yy, W as int));
        }
        assert forall|xx: int, yy: int|
            0 <= xx < m2.width && 0 <= yy && yy + 1 < m2.height implies #[trigger] m2.wall(xx, yy, S as int)
                == m2.wall(xx, yy + 1, N as int) by {
            assert(m1.wall(xx, yy, S as int) == m1.wall(xx, yy + 1, N as int));
        }
    }
    if m1.border_closed() {
        assert forall|xx: int| 0 <= xx < m2.width && m2.height > 0 implies #[trigger] m2.wall(xx, 0, N as int) by {
            assert(m1.wall(xx, 0, N as int));
        }
        assert forall|xx: int| 0 <= xx < m2.width && m2.height > 0 implies #[trigger] m2.wall(xx, m2.height - 1, S as int) by {
            assert(m1.wall(xx, m1.height - 1, S as int));
        }
        assert forall|yy: int| 0 <= yy < m2.height && m2.width > 0 implies #[trigger] m2.wall(0, yy, W as int) by {
            assert(m1.wall(0, yy, W as int));
        }
        assert forall|yy: int| 0 <= yy < m2.height && m2.width > 0 implies #[trigger] m2.wall(m2.width - 1, yy, E as int) by {
            assert(m1.wall(m1.width - 1, yy, E as int));
        }
    }
}

/// When every cell is reachable from `r` and walls are consistent, the maze is connected.
pub proof fn lemma_connected_from_root(m: &Maze, r: Pos)
    requires
        m.wf(),
        m.consistent(),
        forall|c: Pos| m.in_bounds(c) ==> #[trigger] m.reachable(r, c),
    ensures
        m.connected(),
{
    assert forall|a: Pos, b: Pos| m.in_bounds(a) && m.in_bounds(b) implies #[trigger] m.reachable(a, b) by {
        assert(m.reachable(r, a));
        assert(m.reachable(r, b));
        lemma_reach_symm(m, r, a);
        lemma_reach_trans(m, a, r, b);
    }
}

} // verus!
