//! Which cells of a grid can be reached from a start cell by steps through
//! cells of given kinds, computed by a depth-first flood fill.
use vstd::prelude::*;
use crate::sim::{Pos, in_board, cell, step_pos, grid_covers};
use crate::text::rows_view;

verus! {

/// `b` is one step from `a` in one of the four directions.
pub open spec fn adjacent(a: Pos, b: Pos) -> bool {
    exists|d: usize| d < 4 && #[trigger] step_pos(a, d) == b
}

/// Cell `c` may be walked through when looking for ores `t`: it is empty or
/// holds such an ore.
pub open spec fn passable(b: Seq<Seq<char>>, t: char, c: Pos) -> bool {
    cell(b, c) == '.' || cell(b, c) == t
}

/// A walk of adjacent steps whose every cell after the first lies on the
/// grid and is passable.
pub open spec fn is_walk(b: Seq<Seq<char>>, n: usize, t: char, w: Seq<Pos>) -> bool {
    &&& w.len() > 0
    &&& forall|k: int|
        1 <= k < w.len() ==> in_board(n, #[trigger] w[k]) && passable(b, t, w[k]) && adjacent(w[k - 1], w[k])
}

/// A walk leads from `s` to `c`.
pub open spec fn reachable(b: Seq<Seq<char>>, n: usize, s: Pos, t: char, c: Pos) -> bool {
    exists|w: Seq<Pos>| #[trigger] is_walk(b, n, t, w) && w[0] == s && w.last() == c
}

/// Every ore `t` of the grid is reachable from `s`.
pub open spec fn ores_reachable(b: Seq<Seq<char>>, n: usize, s: Pos, t: char) -> bool {
    forall|c: Pos| in_board(n, c) && cell(b, c) == t ==> reachable(b, n, s, t, c)
}

/// A grid of flags by rows.
pub open spec fn flag_rows(v: Seq<Vec<bool>>) -> Seq<Seq<bool>> {
    Seq::new(v.len(), |i: int| v[i]@)
}

/// The number of unset flags among the first `j` of a row.
pub open spec fn row_unset(row: Seq<bool>, j: int) -> nat
    decreases j,
{
    if j <= 0 {
        0
    } else {
        row_unset(row, j - 1) + if row[j - 1] { 0nat } else { 1nat }
    }
}

/// The number of unset flags in rows `< i`, columns `< n`.
pub open spec fn grid_unset(g: Seq<Seq<bool>>, n: int, i: int) -> nat
    decreases i,
{
    if i <= 0 {
        0
    } else {
        grid_unset(g, n, i - 1) + row_unset(g[i - 1], n)
    }
}

proof fn lemma_row_set(row: Seq<bool>, k: int, j: int)
    requires
        0 <= k < row.len(),
        j <= row.len(),
        !row[k],
    ensures
        row_unset(row.update(k, true), j) + (if k < j { 1int } else { 0int }) == row_unset(row, j),
    decreases j,
{
    if j > 0 {
        lemma_row_set(row, k, j - 1);
    }
}

proof fn lemma_grid_set(g: Seq<Seq<bool>>, n: int, r: int, row: Seq<bool>, i: int)
    requires
        0 <= r < g.len(),
        i <= g.len(),
        row_unset(row, n) + 1 == row_unset(g[r], n),
    ensures
        grid_unset(g.update(r, row), n, i) + (if r < i { 1int } else { 0int }) == grid_unset(g, n, i),
    decreases i,
{
    if i > 0 {
        lemma_grid_set(g, n, r, row, i - 1);
    }
}

/// Setting an unset flag of the grid leaves one unset flag fewer.
proof fn lemma_set_flag(g: Seq<Seq<bool>>, n: usize, c: Pos)
    requires
        g.len() == n,
        forall|i: int| 0 <= i < n ==> #[trigger] g[i].len() == n,
        in_board(n, c),
        !g[c.0 as int][c.1 as int],
    ensures
        grid_unset(g.update(c.0 as int, g[c.0 as int].update(c.1 as int, true)), n as int, n as int) + 1
            == grid_unset(g, n as int, n as int),
{
    let row = g[c.0 as int];
    lemma_row_set(row, c.1 as int, n as int);
    lemma_grid_set(g, n as int, c.0 as int, row.update(c.1 as int, true), n as int);
}

/// A walk to a cell, extended by one passable step.
proof fn lemma_walk_extend(b: Seq<Seq<char>>, n: usize, s: Pos, t: char, c: Pos, d: usize)
    requires
        reachable(b, n, s, t, c),
        d < 4,
        in_board(n, step_pos(c, d)),
        passable(b, t, step_pos(c, d)),
    ensures
        reachable(b, n, s, t, step_pos(c, d)),
{
    let w = choose|w: Seq<Pos>| #[trigger] is_walk(b, n, t, w) && w[0] == s && w.last() == c;
    let w2 = w.push(step_pos(c, d));
    assert(adjacent(c, step_pos(c, d)));
    assert forall|k: int| 1 <= k < w2.len() implies in_board(n, #[trigger] w2[k]) && passable(b, t, w2[k]) && adjacent(w2[k - 1], w2[k]) by {
        if k < w.len() {
            assert(w2[k] == w[k]);
            assert(w2[k - 1] == w[k - 1]);
        }
    }
    assert(is_walk(b, n, t, w2));
}

/// In a set of cells that holds `s` and every passable neighbour of its
/// cells, every walk from `s` stays.
proof fn lemma_closed_holds_walks(
    b: Seq<Seq<char>>,
    n: usize,
    s: Pos,
    t: char,
    vis: Seq<Seq<bool>>,
    w: Seq<Pos>,
    k: int,
)
    requires
        is_walk(b, n, t, w),
        w[0] == s,
        0 <= k < w.len(),
        vis[s.0 as int][s.1 as int],
        forall|v: Pos, d: usize|
            in_board(n, v) && vis[v.0 as int][v.1 as int] && d < 4 && in_board(n, #[trigger] step_pos(v, d))
                && passable(b, t, step_pos(v, d)) ==> vis[step_pos(v, d).0 as int][step_pos(v, d).1 as int],
        in_board(n, s),
    ensures
        vis[w[k].0 as int][w[k].1 as int],
    decreases k,
{
    if k > 0 {
        lemma_closed_holds_walks(b, n, s, t, vis, w, k - 1);
        assert(in_board(n, w[k]) && passable(b, t, w[k]) && adjacent(w[k - 1], w[k]));
        let d = choose|d: usize| d < 4 && #[trigger] step_pos(w[k - 1], d) == w[k];
        if k - 1 > 0 {
            assert(in_board(n, w[k - 1]));
        }
    }
}

/// The cells reachable from `s` through empty cells and ores `t`: a flag per
/// cell of the `n` by `n` grid.
pub fn reach_from(cs: &Vec<Vec<char>>, n: usize, s: Pos, t: char) -> (vis: Vec<Vec<bool>>)
    requires
        grid_covers(rows_view(cs@), n),
        in_board(n, s),
    ensures
        flag_rows(vis@).len() == n,
        forall|i: int| 0 <= i < n ==> #[trigger] flag_rows(vis@)[i].len() == n,
        forall|c: Pos| in_board(n, c) ==> (flag_rows(vis@)[c.0 as int][c.1 as int] <==> reachable(rows_view(cs@), n, s, t, c)),
{
    let ghost b = rows_view(cs@);
    let mut vis: Vec<Vec<bool>> = Vec::new();
    let mut i: usize = 0;
    while i < n
        invariant
            i <= n,
            vis@.len() == i,
            forall|r: int| 0 <= r < i ==> #[trigger] vis@[r]@ =~= Seq::new(n as nat, |j: int| false),
        decreases n - i,
    {
        let mut row: Vec<bool> = Vec::new();
        let mut j: usize = 0;
        while j < n
            invariant
                j <= n,
                row@ =~= Seq::new(j as nat, |k: int| false),
            decreases n - j,
        {
            row.push(false);
            j = j + 1;
        }
        vis.push(row);
        i = i + 1;
    }
    let ghost g0 = flag_rows(vis@);
    proof {
        assert(is_walk(b, n, t, seq![s]));
        assert(reachable(b, n, s, t, s));
        lemma_set_flag(g0, n, s);
    }
    let mut row: Vec<bool> = Vec::new();
    std::mem::swap(&mut row, &mut vis[s.0]);
    row.set(s.1, true);
    std::mem::swap(&mut row, &mut vis[s.0]);
    assert(flag_rows(vis@) =~= g0.update(s.0 as int, g0[s.0 as int].update(s.1 as int, true)));
    let mut stack: Vec<Pos> = Vec::new();
    stack.push(s);
    assert(stack@[0] == s);
    assert forall|v: Pos| in_board(n, v) && flag_rows(vis@)[v.0 as int][v.1 as int] implies stack@.contains(v) by {
        assert(g0[v.0 as int] =~= Seq::new(n as nat, |j: int| false));
        if v.0 == s.0 {
            assert(flag_rows(vis@)[v.0 as int] == g0[v.0 as int].update(s.1 as int, true));
        } else {
            assert(flag_rows(vis@)[v.0 as int] == g0[v.0 as int]);
        }
        assert(v == s);
    }
    loop
        invariant
            b == rows_view(cs@),
            grid_covers(b, n),
            in_board(n, s),
            flag_rows(vis@).len() == n,
            forall|r: int| 0 <= r < n ==> #[trigger] flag_rows(vis@)[r].len() == n,
            flag_rows(vis@)[s.0 as int][s.1 as int],
            forall|c: Pos| in_board(n, c) && flag_rows(vis@)[c.0 as int][c.1 as int] ==> reachable(b, n, s, t, c),
            forall|k: int| 0 <= k < stack@.len() ==> in_board(n, #[trigger] stack@[k]),
            forall|k: int| 0 <= k < stack@.len() ==> flag_rows(vis@)[(#[trigger] stack@[k]).0 as int][stack@[k].1 as int],
            forall|v: Pos, d: usize|
                in_board(n, v) && flag_rows(vis@)[v.0 as int][v.1 as int] && !stack@.contains(v) && d < 4
                    && in_board(n, #[trigger] step_pos(v, d)) && passable(b, t, step_pos(v, d))
                    ==> flag_rows(vis@)[step_pos(v, d).0 as int][step_pos(v, d).1 as int],
        ensures
            b == rows_view(cs@),
            flag_rows(vis@).len() == n,
            forall|r: int| 0 <= r < n ==> #[trigger] flag_rows(vis@)[r].len() == n,
            flag_rows(vis@)[s.0 as int][s.1 as int],
            forall|c: Pos| in_board(n, c) && flag_rows(vis@)[c.0 as int][c.1 as int] ==> reachable(b, n, s, t, c),
            forall|v: Pos, d: usize|
                in_board(n, v) && flag_rows(vis@)[v.0 as int][v.1 as int] && d < 4
                    && in_board(n, #[trigger] step_pos(v, d)) && passable(b, t, step_pos(v, d))
                    ==> flag_rows(vis@)[step_pos(v, d).0 as int][step_pos(v, d).1 as int],
        decreases 2 * grid_unset(flag_rows(vis@), n as int, n as int) + stack@.len(),
    {
        let ghost st0 = stack@;
        let cur = match stack.pop() {
            Some(c) => c,
            None => {
                assert(stack@.len() == 0);
                break;
            },
        };
        assert(st0[st0.len() - 1] == cur);
        assert(in_board(n, cur));
        assert(stack@ =~= st0.drop_last());
        assert forall|v: Pos| !stack@.contains(v) && v != cur implies !st0.contains(v) by {
            if st0.contains(v) {
                let k = choose|k: int| 0 <= k < st0.len() && st0[k] == v;
                assert(stack@[k] == v);
            }
        }
        let ghost m0 = 2 * grid_unset(flag_rows(vis@), n as int, n as int) + st0.len();
        let mut d: usize = 0;
        while d < 4
            invariant
                d <= 4,
                b == rows_view(cs@),
                grid_covers(b, n),
                in_board(n, s),
                in_board(n, cur),
                flag_rows(vis@).len() == n,
                forall|r: int| 0 <= r < n ==> #[trigger] flag_rows(vis@)[r].len() == n,
                flag_rows(vis@)[s.0 as int][s.1 as int],
                flag_rows(vis@)[cur.0 as int][cur.1 as int],
                forall|c: Pos| in_board(n, c) && flag_rows(vis@)[c.0 as int][c.1 as int] ==> reachable(b, n, s, t, c),
                forall|k: int| 0 <= k < stack@.len() ==> in_board(n, #[trigger] stack@[k]),
                forall|k: int| 0 <= k < stack@.len() ==> flag_rows(vis@)[(#[trigger] stack@[k]).0 as int][stack@[k].1 as int],
                forall|v: Pos, dd: usize|
                    in_board(n, v) && flag_rows(vis@)[v.0 as int][v.1 as int] && !stack@.contains(v) && v != cur && dd < 4
                        && in_board(n, #[trigger] step_pos(v, dd)) && passable(b, t, step_pos(v, dd))
                        ==> flag_rows(vis@)[step_pos(v, dd).0 as int][step_pos(v, dd).1 as int],
                forall|dd: usize|
                    dd < d && in_board(n, #[trigger] step_pos(cur, dd)) && passable(b, t, step_pos(cur, dd))
                        ==> flag_rows(vis@)[step_pos(cur, dd).0 as int][step_pos(cur, dd).1 as int],
                2 * grid_unset(flag_rows(vis@), n as int, n as int) + stack@.len() < m0,
            decreases 4 - d,
        {
            let nb: Pos = if d == 0 {
                (if cur.0 == 0 { usize::MAX } else { cur.0 - 1 }, cur.1)
            } else if d == 1 {
                (if cur.0 == usize::MAX { 0 } else { cur.0 + 1 }, cur.1)
            } else if d == 2 {
                (cur.0, if cur.1 == 0 { usize::MAX } else { cur.1 - 1 })
            } else {
                (cur.0, if cur.1 == usize::MAX { 0 } else { cur.1 + 1 })
            };
            assert(nb == step_pos(cur, d));
            if nb.0 < n && nb.1 < n {
                assert(vis@[nb.0 as int]@ == flag_rows(vis@)[nb.0 as int]);
            }
            if nb.0 < n && nb.1 < n && !vis[nb.0][nb.1] {
                assert(b[nb.0 as int] == cs@[nb.0 as int]@);
                let ch = cs[nb.0][nb.1];
                if ch == '.' || ch == t {
                    let ghost g = flag_rows(vis@);
                    proof {
                        lemma_walk_extend(b, n, s, t, cur, d);
                        assert(vis@[nb.0 as int]@ == g[nb.0 as int]);
                        lemma_set_flag(g, n, nb);
                    }
                    let mut row: Vec<bool> = Vec::new();
                    std::mem::swap(&mut row, &mut vis[nb.0]);
                    row.set(nb.1, true);
                    std::mem::swap(&mut row, &mut vis[nb.0]);
                    assert(flag_rows(vis@) =~= g.update(nb.0 as int, g[nb.0 as int].update(nb.1 as int, true)));
                    let ghost st1 = stack@;
                    stack.push(nb);
                    assert(stack@[stack@.len() - 1] == nb);
                    assert forall|v: Pos| !stack@.contains(v) implies !st1.contains(v) && v != nb by {
                        if st1.contains(v) {
                            let k = choose|k: int| 0 <= k < st1.len() && st1[k] == v;
                            assert(stack@[k] == v);
                        }
                    }
                    assert forall|c: Pos| in_board(n, c) && g[c.0 as int][c.1 as int] implies flag_rows(vis@)[c.0 as int][c.1 as int] by {
                        if c.0 == nb.0 {
                            assert(flag_rows(vis@)[c.0 as int] == g[c.0 as int].update(nb.1 as int, true));
                        }
                    }
                    assert forall|c: Pos| in_board(n, c) && flag_rows(vis@)[c.0 as int][c.1 as int] && c != nb implies g[c.0 as int][c.1 as int] by {
                        if c.0 == nb.0 {
                            assert(flag_rows(vis@)[c.0 as int] == g[c.0 as int].update(nb.1 as int, true));
                        }
                    }
                }
            }
            d = d + 1;
        }
    }
    proof {
        let vf = flag_rows(vis@);
        assert forall|c: Pos| in_board(n, c) implies (vf[c.0 as int][c.1 as int] <==> reachable(b, n, s, t, c)) by {
            if reachable(b, n, s, t, c) {
                let w = choose|w: Seq<Pos>| #[trigger] is_walk(b, n, t, w) && w[0] == s && w.last() == c;
                lemma_closed_holds_walks(b, n, s, t, vf, w, w.len() - 1);
            }
        }
    }
    vis
}


/// Whether every ore `t` of the `n` by `n` grid can be reached from `s`
/// through empty cells and ores `t`.
pub fn ores_all_reachable(cs: &Vec<Vec<char>>, n: usize, s: Pos, t: char) -> (ok: bool)
    requires
        grid_covers(rows_view(cs@), n),
        in_board(n, s),
    ensures
        ok == ores_reachable(rows_view(cs@), n, s, t),
        ok <==> forall|c: Pos| c.0 < n && c.1 < n && rows_view(cs@)[c.0 as int][c.1 as int] == t ==>
            exists|w: Seq<Pos>| #[trigger] is_grid_walk(rows_view(cs@), n, t, w) && w[0] == s && w.last() == c,
{
    let ghost b = rows_view(cs@);
    let vis = reach_from(cs, n, s, t);
    let mut i: usize = 0;
    while i < n
        invariant
            i <= n,
            b == rows_view(cs@),
            grid_covers(b, n),
            in_board(n, s),
            flag_rows(vis@).len() == n,
            forall|r: int| 0 <= r < n ==> #[trigger] flag_rows(vis@)[r].len() == n,
            forall|c: Pos| in_board(n, c) ==> (flag_rows(vis@)[c.0 as int][c.1 as int] <==> reachable(b, n, s, t, c)),
            forall|c: Pos| in_board(n, c) && c.0 < i && cell(b, c) == t ==> reachable(b, n, s, t, c),
        decreases n - i,
    {
        let mut j: usize = 0;
        assert(b[i as int] == cs@[i as int]@);
        assert(flag_rows(vis@)[i as int] == vis@[i as int]@);
        while j < n
            invariant
                j <= n,
                i < n,
                b == rows_view(cs@),
                grid_covers(b, n),
                in_board(n, s),
                b[i as int] == cs@[i as int]@,
                flag_rows(vis@)[i as int] == vis@[i as int]@,
                flag_rows(vis@).len() == n,
                forall|r: int| 0 <= r < n ==> #[trigger] flag_rows(vis@)[r].len() == n,
                forall|c: Pos| in_board(n, c) ==> (flag_rows(vis@)[c.0 as int][c.1 as int] <==> reachable(b, n, s, t, c)),
                forall|c: Pos| in_board(n, c) && c.0 < i && cell(b, c) == t ==> reachable(b, n, s, t, c),
                forall|c: Pos| in_board(n, c) && c.0 == i && c.1 < j && cell(b, c) == t ==> reachable(b, n, s, t, c),
            decreases n - j,
        {
            if cs[i][j] == t && !vis[i][j] {
                assert(in_board(n, (i, j)));
                proof {
                    lemma_ores_reachable_by_grid_walks(b, n, s, t);
                }
                return false;
            }
            j = j + 1;
        }
        i = i + 1;
    }
    proof {
        lemma_ores_reachable_by_grid_walks(b, n, s, t);
    }
    true
}


/// A walk on the `n` by `n` grid that starts at its first cell and whose
/// every later cell is on the grid, holds `'.'` or the ore `t`, and shares a
/// side with the cell before it (same row and next column, or same column
/// and next row).
pub open spec fn is_grid_walk(b: Seq<Seq<char>>, n: usize, t: char, w: Seq<Pos>) -> bool {
    &&& w.len() > 0
    &&& forall|k: int| 1 <= k < w.len() ==> {
        let c = #[trigger] w[k];
        let a = w[k - 1];
        &&& c.0 < n && c.1 < n
        &&& (b[c.0 as int][c.1 as int] == '.' || b[c.0 as int][c.1 as int] == t)
        &&& ((a.0 == c.0 && (a.1 + 1 == c.1 || c.1 + 1 == a.1)) || (a.1 == c.1 && (a.0 + 1 == c.0 || c.0 + 1 == a.0)))
    }
}

/// Between cells of the grid, one step in a direction is sharing a side.
proof fn lemma_adjacent_sides(n: usize, a: Pos, c: Pos)
    requires
        in_board(n, a),
        in_board(n, c),
    ensures
        adjacent(a, c) <==> ((a.0 == c.0 && (a.1 + 1 == c.1 || c.1 + 1 == a.1)) || (a.1 == c.1 && (a.0 + 1 == c.0 || c.0 + 1 == a.0))),
{
    if a.0 == c.0 && c.1 + 1 == a.1 {
        assert(step_pos(a, 2) == c);
    } else if a.0 == c.0 && a.1 + 1 == c.1 {
        assert(step_pos(a, 3) == c);
    } else if a.1 == c.1 && c.0 + 1 == a.0 {
        assert(step_pos(a, 0) == c);
    } else if a.1 == c.1 && a.0 + 1 == c.0 {
        assert(step_pos(a, 1) == c);
    }
}

/// A cell is reachable from `s` exactly when a walk joins them in which every
/// cell after `s` is `'.'` or the ore `t` and shares a side with the cell
/// before it: a hole of any letter, a rock or an ore of another kind never
/// lies on such a walk.
pub proof fn lemma_reachable_by_grid_walk(b: Seq<Seq<char>>, n: usize, s: Pos, t: char, c: Pos)
    requires
        in_board(n, s),
    ensures
        reachable(b, n, s, t, c) <==> exists|w: Seq<Pos>| #[trigger] is_grid_walk(b, n, t, w) && w[0] == s && w.last() == c,
{
    if reachable(b, n, s, t, c) {
        let w = choose|w: Seq<Pos>| #[trigger] is_walk(b, n, t, w) && w[0] == s && w.last() == c;
        assert forall|k: int| 1 <= k < w.len() implies {
            let c = #[trigger] w[k];
            let a = w[k - 1];
            &&& c.0 < n && c.1 < n
            &&& (b[c.0 as int][c.1 as int] == '.' || b[c.0 as int][c.1 as int] == t)
            &&& ((a.0 == c.0 && (a.1 + 1 == c.1 || c.1 + 1 == a.1)) || (a.1 == c.1 && (a.0 + 1 == c.0 || c.0 + 1 == a.0)))
        } by {
            if k - 1 >= 1 {
                assert(in_board(n, w[k - 1]));
            }
            lemma_adjacent_sides(n, w[k - 1], w[k]);
        }
        assert(is_grid_walk(b, n, t, w));
    }
    if exists|w: Seq<Pos>| #[trigger] is_grid_walk(b, n, t, w) && w[0] == s && w.last() == c {
        let w = choose|w: Seq<Pos>| #[trigger] is_grid_walk(b, n, t, w) && w[0] == s && w.last() == c;
        assert forall|k: int| 1 <= k < w.len() implies in_board(n, #[trigger] w[k]) && passable(b, t, w[k]) && adjacent(w[k - 1], w[k]) by {
            if k - 1 >= 1 {
                assert(in_board(n, w[k - 1]));
            }
            lemma_adjacent_sides(n, w[k - 1], w[k]);
        }
        assert(is_walk(b, n, t, w));
    }
}

/// The ores `t` of the grid all reach `s` exactly when each is joined to `s`
/// by a walk through cells holding `'.'` or `t`, each sharing a side with
/// the one before.
pub proof fn lemma_ores_reachable_by_grid_walks(b: Seq<Seq<char>>, n: usize, s: Pos, t: char)
    requires
        in_board(n, s),
    ensures
        ores_reachable(b, n, s, t) <==> forall|c: Pos| c.0 < n && c.1 < n && b[c.0 as int][c.1 as int] == t ==>
            exists|w: Seq<Pos>| #[trigger] is_grid_walk(b, n, t, w) && w[0] == s && w.last() == c,
{
    if ores_reachable(b, n, s, t) {
        assert forall|c: Pos| c.0 < n && c.1 < n && b[c.0 as int][c.1 as int] == t implies
            exists|w: Seq<Pos>| #[trigger] is_grid_walk(b, n, t, w) && w[0] == s && w.last() == c by {
            assert(in_board(n, c) && cell(b, c) == t);
            lemma_reachable_by_grid_walk(b, n, s, t, c);
        }
    }
    if forall|c: Pos| c.0 < n && c.1 < n && b[c.0 as int][c.1 as int] == t ==>
        exists|w: Seq<Pos>| #[trigger] is_grid_walk(b, n, t, w) && w[0] == s && w.last() == c {
        assert forall|c: Pos| in_board(n, c) && cell(b, c) == t implies reachable(b, n, s, t, c) by {
            assert(c.0 < n && c.1 < n && b[c.0 as int][c.1 as int] == t);
            lemma_reachable_by_grid_walk(b, n, s, t, c);
        }
    }
}

}
