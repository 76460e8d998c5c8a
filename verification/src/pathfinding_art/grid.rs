//! Dense per-cell tables over a maze grid, and counting of marked cells.
use vstd::prelude::*;

verus! {

/// A `height`×`width` table whose every entry is `v`.
pub fn new_grid<T: Copy>(width: u32, height: u32, v: T) -> (g: Vec<Vec<T>>)
    ensures
        g@.len() == height,
        forall|y: int| 0 <= y < height ==> #[trigger] g@[y]@.len() == width,
        forall|x: int, y: int| 0 <= x < width && 0 <= y < height ==> #[trigger] g@[y]@[x] == v,
{
    let mut g: Vec<Vec<T>> = Vec::new();
    let mut y: u32 = 0;
    while y < height
        invariant
            y <= height,
            g@.len() == y,
            forall|yy: int| 0 <= yy < y ==> #[trigger] g@[yy]@.len() == width,
            forall|x: int, yy: int| 0 <= x < width && 0 <= yy < y ==> #[trigger] g@[yy]@[x] == v,
        decreases height - y,
    {
        let mut row: Vec<T> = Vec::new();
        let mut x: u32 = 0;
        while x < width
            invariant
                x <= width,
                row@.len() == x,
                forall|xx: int| 0 <= xx < x ==> #[trigger] row@[xx] == v,
            decreases width - x,
        {
            row.push(v);
            x = x + 1;
        }
        g.push(row);
        y = y + 1;
    }
    g
}

/// Number of `true` entries in a row.
pub open spec fn count_row(s: Seq<bool>) -> nat
    decreases s.len(),
{
    if s.len() == 0 {
        0
    } else {
        count_row(s.drop_last()) + if s.last() {
            1nat
        } else {
            0nat
        }
    }
}

/// Number of `true` entries in a table.
pub open spec fn count_grid(g: Seq<Vec<bool>>) -> nat
    decreases g.len(),
{
    if g.len() == 0 {
        0
    } else {
        count_grid(g.drop_last()) + count_row(g.last()@)
    }
}

pub proof fn lemma_count_row_le(s: Seq<bool>)
    ensures
        count_row(s) <= s.len(),
    decreases s.len(),
{
    if s.len() > 0 {
        lemma_count_row_le(s.drop_last());
    }
}

/// Setting an unset entry of a row raises its count by one.
pub proof fn lemma_count_row_set(s: Seq<bool>, i: int)
    requires
        0 <= i < s.len(),
        !s[i],
    ensures
        count_row(s.update(i, true)) == count_row(s) + 1,
    decreases s.len(),
{
    let t = s.update(i, true);
    if i == s.len() - 1 {
        assert(t.drop_last() =~= s.drop_last());
    } else {
        assert(t.drop_last() =~= s.drop_last().update(i, true));
        lemma_count_row_set(s.drop_last(), i);
    }
}

pub proof fn lemma_count_grid_le(g: Seq<Vec<bool>>, w: nat)
    requires
        forall|y: int| 0 <= y < g.len() ==> #[trigger] g[y]@.len() == w,
    ensures
        count_grid(g) <= g.len() * w,
    decreases g.len(),
{
    if g.len() > 0 {
        lemma_count_grid_le(g.drop_last(), w);
        lemma_count_row_le(g.last()@);
        assert((g.len() - 1) * w + w == g.len() * w) by (nonlinear_arith);
    }
}

/// Setting an unset entry of a table raises its count by one.
pub proof fn lemma_count_grid_set(g: Seq<Vec<bool>>, g2: Seq<Vec<bool>>, x: int, y: int)
    requires
        0 <= y < g.len(),
        0 <= x < g[y]@.len(),
        !g[y]@[x],
        g2.len() == g.len(),
        g2[y]@ == g[y]@.update(x, true),
        forall|yy: int| 0 <= yy < g.len() && yy != y ==> #[trigger] g2[yy] == g[yy],
    ensures
        count_grid(g2) == count_grid(g) + 1,
    decreases g.len(),
{
    if y == g.len() - 1 {
        assert(g2.drop_last() =~= g.drop_last());
        lemma_count_row_set(g[y]@, x);
    } else {
        lemma_count_grid_set(g.drop_last(), g2.drop_last(), x, y);
        assert(g2.last() == g.last());
    }
}

} // verus!

verus! {

/// Every grid neighbour of `(x, y)` is marked in `g`.
pub open spec fn closed_at(g: Seq<Vec<bool>>, w: int, h: int, x: int, y: int) -> bool {
    &&& x + 1 < w ==> g[y]@[x + 1]
    &&& y + 1 < h ==> g[y + 1]@[x]
    &&& x > 0 ==> g[y]@[x - 1]
    &&& y > 0 ==> g[y - 1]@[x]
}

/// Table `g` has `h` rows of `w` entries.
pub open spec fn dims(g: Seq<Vec<bool>>, w: int, h: int) -> bool {
    &&& g.len() == h
    &&& forall|y: int| 0 <= y < h ==> #[trigger] g[y]@.len() == w
}

proof fn lemma_walk_to_origin(g: Seq<Vec<bool>>, w: int, h: int, x: int, y: int)
    requires
        dims(g, w, h),
        0 <= x < w,
        0 <= y < h,
        g[y]@[x],
        forall|xx: int, yy: int| 0 <= xx < w && 0 <= yy < h && #[trigger] g[yy]@[xx] ==> closed_at(g, w, h, xx, yy),
    ensures
        g[0]@[0],
    decreases x + y,
{
    if x > 0 {
        assert(closed_at(g, w, h, x, y));
        lemma_walk_to_origin(g, w, h, x - 1, y);
    } else if y > 0 {
        assert(closed_at(g, w, h, x, y));
        lemma_walk_to_origin(g, w, h, x, y - 1);
    }
}

proof fn lemma_walk_from_origin(g: Seq<Vec<bool>>, w: int, h: int, x: int, y: int)
    requires
        dims(g, w, h),
        0 <= x < w,
        0 <= y < h,
        g[0]@[0],
        forall|xx: int, yy: int| 0 <= xx < w && 0 <= yy < h && #[trigger] g[yy]@[xx] ==> closed_at(g, w, h, xx, yy),
    ensures
        g[y]@[x],
    decreases x + y,
{
    if x > 0 {
        lemma_walk_from_origin(g, w, h, x - 1, y);
        assert(closed_at(g, w, h, x - 1, y));
    } else if y > 0 {
        lemma_walk_from_origin(g, w, h, x, y - 1);
        assert(closed_at(g, w, h, x, y - 1));
    }
}

/// A marking of a connected grid that contains one cell and is closed under moving to
/// grid neighbours marks every cell.
pub proof fn lemma_closed_covers(g: Seq<Vec<bool>>, w: int, h: int, rx: int, ry: int)
    requires
        dims(g, w, h),
        0 <= rx < w,
        0 <= ry < h,
        g[ry]@[rx],
        forall|xx: int, yy: int| 0 <= xx < w && 0 <= yy < h && #[trigger] g[yy]@[xx] ==> closed_at(g, w, h, xx, yy),
    ensures
        forall|x: int, y: int| 0 <= x < w && 0 <= y < h ==> #[trigger] g[y]@[x],
{
    lemma_walk_to_origin(g, w, h, rx, ry);
    assert forall|x: int, y: int| 0 <= x < w && 0 <= y < h implies #[trigger] g[y]@[x] by {
        lemma_walk_from_origin(g, w, h, x, y);
    }
}

} // verus!

verus! {

/// Weight of a score entry: its value, or `k` when absent.
pub open spec fn score_weight(o: Option<u64>, k: int) -> int {
    match o {
        Some(v) => v as int,
        None => k,
    }
}

pub open spec fn score_row_sum(s: Seq<Option<u64>>, k: int) -> int
    decreases s.len(),
{
    if s.len() == 0 {
        0
    } else {
        score_row_sum(s.drop_last(), k) + score_weight(s.last(), k)
    }
}

/// Sum of the weights of all entries of a score table.
pub open spec fn score_sum(g: Seq<Vec<Option<u64>>>, k: int) -> int
    decreases g.len(),
{
    if g.len() == 0 {
        0
    } else {
        score_sum(g.drop_last(), k) + score_row_sum(g.last()@, k)
    }
}

pub open spec fn some_row_count(s: Seq<Option<u64>>) -> nat
    decreases s.len(),
{
    if s.len() == 0 {
        0
    } else {
        some_row_count(s.drop_last()) + if s.last() is Some {
            1nat
        } else {
            0nat
        }
    }
}

/// Number of present entries of a score table.
pub open spec fn some_count(g: Seq<Vec<Option<u64>>>) -> nat
    decreases g.len(),
{
    if g.len() == 0 {
        0
    } else {
        some_count(g.drop_last()) + some_row_count(g.last()@)
    }
}

pub proof fn lemma_score_row_nonneg(s: Seq<Option<u64>>, k: int)
    requires
        k >= 0,
    ensures
        score_row_sum(s, k) >= 0,
    decreases s.len(),
{
    if s.len() > 0 {
        lemma_score_row_nonneg(s.drop_last(), k);
    }
}

pub proof fn lemma_score_sum_nonneg(g: Seq<Vec<Option<u64>>>, k: int)
    requires
        k >= 0,
    ensures
        score_sum(g, k) >= 0,
    decreases g.len(),
{
    if g.len() > 0 {
        lemma_score_sum_nonneg(g.drop_last(), k);
        lemma_score_row_nonneg(g.last()@, k);
    }
}

pub proof fn lemma_score_row_update(s: Seq<Option<u64>>, k: int, i: int, o: Option<u64>)
    requires
        0 <= i < s.len(),
    ensures
        score_row_sum(s.update(i, o), k) == score_row_sum(s, k) - score_weight(s[i], k) + score_weight(o, k),
        some_row_count(s.update(i, o)) == some_row_count(s) - (if s[i] is Some { 1int } else { 0int }) + (
        if o is Some {
            1int
        } else {
            0int
        }),
    decreases s.len(),
{
    let t = s.update(i, o);
    if i == s.len() - 1 {
        assert(t.drop_last() =~= s.drop_last());
    } else {
        assert(t.drop_last() =~= s.drop_last().update(i, o));
        lemma_score_row_update(s.drop_last(), k, i, o);
    }
}

/// Changing one entry of a score table changes its weight sum and its count of
/// present entries by exactly that entry's difference.
pub proof fn lemma_score_update(g: Seq<Vec<Option<u64>>>, g2: Seq<Vec<Option<u64>>>, k: int, x: int, y: int, o: Option<u64>)
    requires
        0 <= y < g.len(),
        0 <= x < g[y]@.len(),
        g2.len() == g.len(),
        g2[y]@ == g[y]@.update(x, o),
        forall|yy: int| 0 <= yy < g.len() && yy != y ==> #[trigger] g2[yy] == g[yy],
    ensures
        score_sum(g2, k) == score_sum(g, k) - score_weight(g[y]@[x], k) + score_weight(o, k),
        some_count(g2) == some_count(g) - (if g[y]@[x] is Some { 1int } else { 0int }) + (if o is Some {
            1int
        } else {
            0int
        }),
    decreases g.len(),
{
    if y == g.len() - 1 {
        assert(g2.drop_last() =~= g.drop_last());
        lemma_score_row_update(g[y]@, k, x, o);
    } else {
        lemma_score_update(g.drop_last(), g2.drop_last(), k, x, y, o);
        assert(g2.last() == g.last());
    }
}

pub proof fn lemma_some_row_le(s: Seq<Option<u64>>)
    ensures
        some_row_count(s) <= s.len(),
    decreases s.len(),
{
    if s.len() > 0 {
        lemma_some_row_le(s.drop_last());
    }
}

pub proof fn lemma_some_count_le(g: Seq<Vec<Option<u64>>>, w: nat)
    requires
        forall|y: int| 0 <= y < g.len() ==> #[trigger] g[y]@.len() == w,
    ensures
        some_count(g) <= g.len() * w,
    decreases g.len(),
{
    if g.len() > 0 {
        lemma_some_count_le(g.drop_last(), w);
        lemma_some_row_le(g.last()@);
        assert((g.len() - 1) * w + w == g.len() * w) by (nonlinear_arith);
    }
}

pub proof fn lemma_some_row_pos(s: Seq<Option<u64>>, i: int)
    requires
        0 <= i < s.len(),
        s[i] is Some,
    ensures
        some_row_count(s) >= 1,
    decreases s.len(),
{
    if i < s.len() - 1 {
        lemma_some_row_pos(s.drop_last(), i);
    }
}

/// A table with a present entry has a positive count of present entries.
pub proof fn lemma_some_count_pos(g: Seq<Vec<Option<u64>>>, x: int, y: int)
    requires
        0 <= y < g.len(),
        0 <= x < g[y]@.len(),
        g[y]@[x] is Some,
    ensures
        some_count(g) >= 1,
    decreases g.len(),
{
    if y == g.len() - 1 {
        lemma_some_row_pos(g[y]@, x);
    } else {
        lemma_some_count_pos(g.drop_last(), x, y);
    }
}

} // verus!
