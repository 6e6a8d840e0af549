//! Random instances: cells shuffled with `rand` and filled with holes, ores
//! and rocks, and the reachability check that instances with several ore
//! kinds must pass.
use vstd::prelude::*;
use rand::seq::SliceRandom;
use crate::board::Input;
use crate::sim::{Pos, in_board, cell, set_cell};
use crate::text::rows_view;
use crate::reach::{ores_all_reachable, ores_reachable};
use crate::board::Action;
use crate::parse::{input_result, input_text, lemma_input_text_roundtrip};
use crate::sim::{replayable, grid_covers};
use crate::text::{is_space, no_space};

verus! {

/// The random generator that instances are drawn from.
#[verifier::external_type_specification]
#[verifier::external_body]
pub struct ExChaCha20Rng(rand_chacha::ChaCha20Rng);

/// Shuffles the cells in place with `rand`'s `SliceRandom::shuffle`, which
/// swaps elements (a Fisher-Yates shuffle driven by `rng`): the result is a
/// permutation of the input. Which permutation depends on the generator's
/// state and is not stated.
#[verifier::external_body]
fn shuffle_cells(v: &mut Vec<(usize, usize)>, rng: &mut rand_chacha::ChaCha20Rng)
    ensures
        final(v)@.to_multiset() == old(v)@.to_multiset(),
{
    v.shuffle(rng);
}

/// The cells `(r, 0)`, ..., `(r, j - 1)`.
pub open spec fn row_cells(r: usize, j: nat) -> Seq<Pos>
    decreases j,
{
    if j == 0 {
        seq![]
    } else {
        row_cells(r, (j - 1) as nat).push((r, (j - 1) as usize))
    }
}

/// The cells of the first `i` rows of an `n`-wide grid, row by row.
pub open spec fn row_major(n: usize, i: nat) -> Seq<Pos>
    decreases i,
{
    if i == 0 {
        seq![]
    } else {
        row_major(n, (i - 1) as nat) + row_cells((i - 1) as usize, n as nat)
    }
}

/// `p` lists every cell of the `n` by `n` grid exactly once.
pub open spec fn is_cell_order(p: Seq<Pos>, n: usize) -> bool {
    &&& p.no_duplicates()
    &&& p.len() == n * n
    &&& forall|c: Pos| p.contains(c) <==> in_board(n, c)
}

/// Where cell `c` stands in `p`.
pub open spec fn rank(p: Seq<Pos>, c: Pos) -> int {
    choose|k: int| 0 <= k < p.len() && p[k] == c
}

/// The grid in which the cell at place `k >= from` of `p` holds `lab(k)`
/// and every other cell is empty (`'.'`).
pub open spec fn layout(p: Seq<Pos>, n: usize, lab: spec_fn(int) -> char, from: int) -> Seq<Seq<char>> {
    Seq::new(
        n as nat,
        |i: int|
            Seq::new(
                n as nat,
                |j: int|
                    {
                        let k = rank(p, (i as usize, j as usize));
                        if k >= from {
                            lab(k)
                        } else {
                            '.'
                        }
                    },
            ),
    )
}

/// The cells of the `n` by `n` grid that hold `ch`.
pub open spec fn cells_with(b: Seq<Seq<char>>, n: usize, ch: char) -> Set<Pos> {
    Set::new(|c: Pos| in_board(n, c) && cell(b, c) == ch)
}

proof fn lemma_row_cells(r: usize, j: nat)
    requires
        j <= usize::MAX + 1,
    ensures
        row_cells(r, j).len() == j,
        row_cells(r, j).no_duplicates(),
        forall|c: Pos| row_cells(r, j).contains(c) <==> (c.0 == r && c.1 < j),
    decreases j,
{
    if j > 0 {
        lemma_row_cells(r, (j - 1) as nat);
        let s = row_cells(r, (j - 1) as nat);
        let e = (r, (j - 1) as usize);
        assert(!s.contains(e));
        assert forall|x: int, y: int| 0 <= x < s.len() + 1 && 0 <= y < s.len() + 1 && x != y implies s.push(e)[x] != s.push(e)[y] by {
            if x == s.len() {
                assert(s.contains(s[y]));
            } else if y == s.len() {
                assert(s.contains(s[x]));
            }
        }
        let t = s.push(e);
        assert(row_cells(r, j) == t);
        assert forall|c: Pos| #[trigger] t.contains(c) <==> (c.0 == r && c.1 < j) by {
            if c.0 == r && c.1 < j {
                if c.1 == j - 1 {
                    assert(t[s.len() as int] == c);
                } else {
                    assert(s.contains(c));
                    let k = choose|k: int| 0 <= k < s.len() && s[k] == c;
                    assert(t[k] == c);
                }
            }
            if t.contains(c) {
                let k = choose|k: int| 0 <= k < t.len() && t[k] == c;
                if k < s.len() {
                    assert(s[k] == c);
                    assert(s.contains(c));
                }
            }
        }
    }
}

proof fn lemma_row_major(n: usize, i: nat)
    requires
        i <= n,
    ensures
        row_major(n, i).len() == i * n,
        row_major(n, i).no_duplicates(),
        forall|c: Pos| row_major(n, i).contains(c) <==> (c.0 < i && c.1 < n),
    decreases i,
{
    if i > 0 {
        lemma_row_major(n, (i - 1) as nat);
        lemma_row_cells((i - 1) as usize, n as nat);
        let a = row_major(n, (i - 1) as nat);
        let b = row_cells((i - 1) as usize, n as nat);
        assert(i * n == (i - 1) * n + n) by (nonlinear_arith);
        assert forall|c: Pos| (a + b).contains(c) <==> (c.0 < i && c.1 < n) by {
            if (a + b).contains(c) {
                let k = choose|k: int| 0 <= k < (a + b).len() && (a + b)[k] == c;
                if k < a.len() {
                    assert(a.contains(c));
                } else {
                    assert(b[k - a.len()] == c);
                    assert(b.contains(c));
                }
            }
            if c.0 < i && c.1 < n {
                if c.0 < i - 1 {
                    assert(a.contains(c));
                    let k = choose|k: int| 0 <= k < a.len() && a[k] == c;
                    assert((a + b)[k] == c);
                } else {
                    assert(b.contains(c));
                    let k = choose|k: int| 0 <= k < b.len() && b[k] == c;
                    assert((a + b)[a.len() + k] == c);
                }
            }
        }
        assert forall|x: int, y: int| 0 <= x < (a + b).len() && 0 <= y < (a + b).len() && x != y implies (a + b)[x] != (a + b)[y] by {
            if x < a.len() && y >= a.len() {
                assert(a.contains((a + b)[x]));
                assert(b[y - a.len()] == (a + b)[y]);
                assert(b.contains((a + b)[y]));
            } else if y < a.len() && x >= a.len() {
                assert(a.contains((a + b)[y]));
                assert(b[x - a.len()] == (a + b)[x]);
                assert(b.contains((a + b)[x]));
            } else if x >= a.len() {
                assert(b[x - a.len()] == (a + b)[x]);
                assert(b[y - a.len()] == (a + b)[y]);
            }
        }
    }
}

/// A permutation of a cell order is a cell order.
proof fn lemma_permuted_order(p: Seq<Pos>, q: Seq<Pos>, n: usize)
    requires
        is_cell_order(p, n),
        q.to_multiset() == p.to_multiset(),
    ensures
        is_cell_order(q, n),
{
    broadcast use vstd::seq_lib::group_to_multiset_ensures;
    p.lemma_multiset_has_no_duplicates();
    q.lemma_multiset_has_no_duplicates_conv();
    assert(q.len() == q.to_multiset().len());
    assert(p.len() == p.to_multiset().len());
    assert forall|c: Pos| q.contains(c) <==> in_board(n, c) by {
        assert(q.contains(c) <==> q.to_multiset().count(c) > 0);
        assert(p.contains(c) <==> p.to_multiset().count(c) > 0);
    }
}

/// In a cell order, each cell of the grid has exactly one place.
proof fn lemma_rank(p: Seq<Pos>, n: usize, c: Pos)
    requires
        is_cell_order(p, n),
        in_board(n, c),
    ensures
        0 <= rank(p, c) < p.len(),
        p[rank(p, c)] == c,
        forall|k: int| 0 <= k < p.len() && p[k] == c ==> k == rank(p, c),
{
    assert(p.contains(c));
}

/// Filling one more place of the order writes one cell.
proof fn lemma_layout_step(p: Seq<Pos>, n: usize, lab: spec_fn(int) -> char, from: int)
    requires
        is_cell_order(p, n),
        0 < from <= p.len(),
    ensures
        layout(p, n, lab, from - 1) == set_cell(layout(p, n, lab, from), p[from - 1], lab(from - 1)),
{
    let c = p[from - 1];
    assert(p.contains(c));
    let b0 = layout(p, n, lab, from);
    let b1 = layout(p, n, lab, from - 1);
    let b2 = set_cell(b0, c, lab(from - 1));
    lemma_rank(p, n, c);
    assert forall|i: int| 0 <= i < n implies #[trigger] b1[i] =~= b2[i] by {
        assert forall|j: int| 0 <= j < n implies b1[i][j] == b2[i][j] by {
            let d = (i as usize, j as usize);
            lemma_rank(p, n, d);
        }
    }
    assert(b1 =~= b2);
}

/// The cells of a layout that hold `ch` are the places `lo..hi` of the order,
/// when those are exactly the places labelled `ch`.
pub proof fn lemma_layout_cells(p: Seq<Pos>, n: usize, lab: spec_fn(int) -> char, ch: char, lo: int, hi: int)
    requires
        is_cell_order(p, n),
        0 <= lo <= hi <= p.len(),
        forall|k: int| 0 <= k < p.len() ==> (#[trigger] lab(k) == ch <==> lo <= k < hi),
    ensures
        cells_with(layout(p, n, lab, 0), n, ch) == p.subrange(lo, hi).to_set(),
        cells_with(layout(p, n, lab, 0), n, ch).len() == hi - lo,
{
    let b = layout(p, n, lab, 0);
    let s = p.subrange(lo, hi);
    assert forall|c: Pos| cells_with(b, n, ch).contains(c) <==> s.to_set().contains(c) by {
        if in_board(n, c) {
            lemma_rank(p, n, c);
            if lo <= rank(p, c) < hi {
                assert(s[rank(p, c) - lo] == c);
            }
        }
        if s.contains(c) {
            let k = choose|k: int| 0 <= k < s.len() && s[k] == c;
            assert(p[lo + k] == c);
            assert(p.contains(c));
            lemma_rank(p, n, c);
        }
    }
    assert(cells_with(b, n, ch) =~= s.to_set());
    assert(s.no_duplicates());
    s.unique_seq_to_set();
}


/// The `n` by `n` grid of empty cells.
pub open spec fn blank(n: usize) -> Seq<Seq<char>> {
    Seq::new(n as nat, |i: int| Seq::new(n as nat, |j: int| '.'))
}

/// Before any place is filled, a layout is blank.
proof fn lemma_layout_blank(p: Seq<Pos>, n: usize, lab: spec_fn(int) -> char)
    requires
        is_cell_order(p, n),
    ensures
        layout(p, n, lab, p.len() as int) == blank(n),
{
    let b = layout(p, n, lab, p.len() as int);
    assert forall|i: int| 0 <= i < n implies #[trigger] b[i] =~= blank(n)[i] by {
        assert forall|j: int| 0 <= j < n implies b[i][j] == '.' by {
            lemma_rank(p, n, (i as usize, j as usize));
        }
    }
    assert(b =~= blank(n));
}

/// An `n` by `n` grid of empty cells.
fn blank_grid(n: usize) -> (cs: Vec<Vec<char>>)
    ensures
        rows_view(cs@) == blank(n),
{
    let mut cs: Vec<Vec<char>> = Vec::new();
    let mut i: usize = 0;
    while i < n
        invariant
            i <= n,
            rows_view(cs@) =~= blank(n).take(i as int),
        decreases n - i,
    {
        let mut row: Vec<char> = Vec::new();
        let mut j: usize = 0;
        while j < n
            invariant
                j <= n,
                row@ =~= Seq::new(j as nat, |k: int| '.'),
            decreases n - j,
        {
            row.push('.');
            j = j + 1;
        }
        let ghost before = rows_view(cs@);
        cs.push(row);
        assert(rows_view(cs@) =~= before.push(row@));
        assert(blank(n).take(i + 1) =~= blank(n).take(i as int).push(blank(n)[i as int]));
        i = i + 1;
    }
    cs
}

/// The cells of the `n` by `n` grid, row by row.
fn all_cells(n: usize) -> (ps: Vec<Pos>)
    requires
        n * n <= usize::MAX,
    ensures
        ps@ == row_major(n, n as nat),
{
    let mut ps: Vec<Pos> = Vec::new();
    let mut i: usize = 0;
    while i < n
        invariant
            i <= n,
            ps@ == row_major(n, i as nat),
        decreases n - i,
    {
        let ghost start = ps@;
        let mut j: usize = 0;
        while j < n
            invariant
                j <= n,
                i < n,
                ps@ == start + row_cells(i, j as nat),
            decreases n - j,
        {
            ps.push((i, j));
            assert(start + row_cells(i, (j + 1) as nat) =~= (start + row_cells(i, j as nat)).push((i, j)));
            j = j + 1;
        }
        i = i + 1;
    }
    ps
}

/// A shuffled order of the cells of the `n` by `n` grid.
fn shuffled_cells(n: usize, rng: &mut rand_chacha::ChaCha20Rng) -> (ps: Vec<Pos>)
    requires
        n * n <= usize::MAX,
    ensures
        is_cell_order(ps@, n),
{
    let mut ps = all_cells(n);
    proof {
        lemma_row_major(n, n as nat);
    }
    let ghost p0 = ps@;
    shuffle_cells(&mut ps, rng);
    proof {
        lemma_permuted_order(p0, ps@, n);
    }
    ps
}

/// Takes the last cell still listed and writes `ch` there: the grid then
/// lays out one more place of the order.
fn place_next(
    n: usize,
    cs: &mut Vec<Vec<char>>,
    ps: &mut Vec<Pos>,
    ch: char,
    Ghost(p): Ghost<Seq<Pos>>,
    Ghost(lab): Ghost<spec_fn(int) -> char>,
) -> (c: Pos)
    requires
        is_cell_order(p, n),
        0 < old(ps)@.len() <= p.len(),
        old(ps)@ == p.take(old(ps)@.len() as int),
        lab(old(ps)@.len() - 1) == ch,
        rows_view(old(cs)@) == layout(p, n, lab, old(ps)@.len() as int),
    ensures
        final(ps)@ == p.take(final(ps)@.len() as int),
        final(ps)@.len() == old(ps)@.len() - 1,
        rows_view(final(cs)@) == layout(p, n, lab, final(ps)@.len() as int),
        c == p[final(ps)@.len() as int],
{
    let ghost from = ps@.len() as int;
    let c = ps.pop().unwrap();
    assert(c == p[from - 1]);
    assert(p.contains(c));
    proof {
        lemma_layout_step(p, n, lab, from);
    }
    let ghost b = rows_view(cs@);
    assert(in_board(n, c));
    assert(b.len() == n);
    assert(cs@.len() == b.len());
    assert(b[c.0 as int] == cs@[c.0 as int]@);
    assert(b[c.0 as int].len() == n);
    let mut row: Vec<char> = Vec::new();
    std::mem::swap(&mut row, &mut cs[c.0]);
    row.set(c.1, ch);
    std::mem::swap(&mut row, &mut cs[c.0]);
    assert(rows_view(cs@) =~= set_cell(b, c, ch));
    assert(ps@ =~= p.take(from - 1));
    c
}

/// Takes the last `count` cells still listed and writes `ch` in each.
fn place_many(
    n: usize,
    cs: &mut Vec<Vec<char>>,
    ps: &mut Vec<Pos>,
    ch: char,
    count: usize,
    Ghost(p): Ghost<Seq<Pos>>,
    Ghost(lab): Ghost<spec_fn(int) -> char>,
)
    requires
        is_cell_order(p, n),
        count <= old(ps)@.len() <= p.len(),
        old(ps)@ == p.take(old(ps)@.len() as int),
        forall|k: int| old(ps)@.len() - count <= k < old(ps)@.len() ==> #[trigger] lab(k) == ch,
        rows_view(old(cs)@) == layout(p, n, lab, old(ps)@.len() as int),
    ensures
        final(ps)@ == p.take(final(ps)@.len() as int),
        final(ps)@.len() == old(ps)@.len() - count,
        rows_view(final(cs)@) == layout(p, n, lab, final(ps)@.len() as int),
{
    let ghost top = ps@.len();
    let mut t: usize = 0;
    while t < count
        invariant
            t <= count <= top <= p.len(),
            is_cell_order(p, n),
            ps@.len() == top - t,
            ps@ == p.take(ps@.len() as int),
            forall|k: int| top - count <= k < top ==> #[trigger] lab(k) == ch,
            rows_view(cs@) == layout(p, n, lab, ps@.len() as int),
        decreases count - t,
    {
        assert(lab(top - t - 1) == ch);
        place_next(n, cs, ps, ch, Ghost(p), Ghost(lab));
        t = t + 1;
    }
}

/// Once every labelled place is filled, the remaining places are empty
/// anyway.
proof fn lemma_layout_rest_blank(p: Seq<Pos>, n: usize, lab: spec_fn(int) -> char, from: int)
    requires
        is_cell_order(p, n),
        forall|k: int| 0 <= k < from ==> #[trigger] lab(k) == '.',
    ensures
        layout(p, n, lab, from) == layout(p, n, lab, 0),
{
    let b = layout(p, n, lab, 0);
    let b1 = layout(p, n, lab, from);
    assert forall|i: int| 0 <= i < n implies #[trigger] b[i] =~= b1[i] by {
        assert forall|j: int| 0 <= j < n implies b[i][j] == b1[i][j] by {
            lemma_rank(p, n, (i as usize, j as usize));
        }
    }
    assert(b =~= b1);
}

/// The labels of an instance of problem A on an `n` by `n` grid, by place in
/// the shuffled order: the last cell is hole `'A'`, the `2n` before it ores
/// `'a'`, the `2n` before those rocks `'@'`, the rest empty.
pub open spec fn label_a(n: usize, k: int) -> char {
    let l = n * n;
    if k == l - 1 {
        'A'
    } else if l - 1 - 2 * n <= k < l - 1 {
        'a'
    } else if l - 1 - 4 * n <= k < l - 1 - 2 * n {
        '@'
    } else {
        '.'
    }
}

/// An instance of problem A: a 20 by 20 grid with one ore kind, one hole
/// `'A'`, 40 ores `'a'` and 40 rocks `'@'` on cells drawn at random.
pub fn gen_a(rng: &mut rand_chacha::ChaCha20Rng) -> (inp: Input)
    ensures
        inp.N == 20,
        inp.M == 1,
        exists|p: Seq<Pos>| is_cell_order(p, 20) && inp.board() == layout(p, 20, |k: int| label_a(20, k), 0),
        cells_with(inp.board(), 20, 'A').len() == 1,
        cells_with(inp.board(), 20, 'a').len() == 40,
        cells_with(inp.board(), 20, '@').len() == 40,
{
    let n: usize = 20;
    let ghost lab = |k: int| label_a(20, k);
    let mut ps = shuffled_cells(n, rng);
    let ghost p = ps@;
    let mut cs = blank_grid(n);
    proof {
        lemma_layout_blank(p, n, lab);
        assert(p.take(400) =~= p);
    }
    place_next(n, &mut cs, &mut ps, 'A', Ghost(p), Ghost(lab));
    place_many(n, &mut cs, &mut ps, 'a', 2 * n, Ghost(p), Ghost(lab));
    place_many(n, &mut cs, &mut ps, '@', 2 * n, Ghost(p), Ghost(lab));
    proof {
        lemma_layout_rest_blank(p, n, lab, 319);
        lemma_layout_cells(p, n, lab, 'A', 399, 400);
        lemma_layout_cells(p, n, lab, 'a', 359, 399);
        lemma_layout_cells(p, n, lab, '@', 319, 359);
    }
    Input { N: n, M: 1, cs }
}


/// The labels of an instance of problem B on an `n` by `n` grid, by place in
/// the shuffled order: the last three cells are holes `'A'`, `'B'`, `'C'`,
/// the `n` before them ores `'a'`, the `n` before those ores `'b'`, the `n`
/// before those ores `'c'`, the rest empty.
pub open spec fn label_b(n: usize, k: int) -> char {
    let l = n * n;
    if k == l - 1 {
        'A'
    } else if k == l - 2 {
        'B'
    } else if k == l - 3 {
        'C'
    } else if l - 3 - n <= k < l - 3 {
        'a'
    } else if l - 3 - 2 * n <= k < l - 3 - n {
        'b'
    } else if l - 3 - 3 * n <= k < l - 3 - 2 * n {
        'c'
    } else {
        '.'
    }
}

/// Every ore of each kind can be reached from the hole of its kind, through
/// empty cells and ores of that kind; the holes `'A'`, `'B'`, `'C'` are the
/// last three cells of the order `p`.
pub open spec fn ores_connected(b: Seq<Seq<char>>, n: usize, p: Seq<Pos>) -> bool {
    let l = n * n;
    &&& ores_reachable(b, n, p[l - 1], 'a')
    &&& ores_reachable(b, n, p[l - 2], 'b')
    &&& ores_reachable(b, n, p[l - 3], 'c')
}

/// One draw of an instance of problem B: a 20 by 20 grid with three ore
/// kinds, holes `'A'`, `'B'`, `'C'` and 20 ores of each kind on cells drawn at
/// random, and no rocks. It is kept (`Some`) exactly when every ore can reach
/// the hole of its kind through empty cells and ores of that kind.
pub fn gen_b_attempt(rng: &mut rand_chacha::ChaCha20Rng) -> (res: Option<Input>)
    ensures
        exists|p: Seq<Pos>| {
            &&& is_cell_order(p, 20)
            &&& (res is Some <==> ores_connected(layout(p, 20, |k: int| label_b(20, k), 0), 20, p))
            &&& res matches Some(inp) ==> inp.N == 20 && inp.M == 3 && inp.board() == layout(
                p,
                20,
                |k: int| label_b(20, k),
                0,
            )
        },
        res matches Some(inp) ==> {
            &&& cells_with(inp.board(), 20, 'A').len() == 1
            &&& cells_with(inp.board(), 20, 'B').len() == 1
            &&& cells_with(inp.board(), 20, 'C').len() == 1
            &&& cells_with(inp.board(), 20, 'a').len() == 20
            &&& cells_with(inp.board(), 20, 'b').len() == 20
            &&& cells_with(inp.board(), 20, 'c').len() == 20
        },
{
    let n: usize = 20;
    let ghost lab = |k: int| label_b(20, k);
    let mut ps = shuffled_cells(n, rng);
    let ghost p = ps@;
    let mut cs = blank_grid(n);
    proof {
        lemma_layout_blank(p, n, lab);
        assert(p.take(400) =~= p);
    }
    let ha = place_next(n, &mut cs, &mut ps, 'A', Ghost(p), Ghost(lab));
    let hb = place_next(n, &mut cs, &mut ps, 'B', Ghost(p), Ghost(lab));
    let hc = place_next(n, &mut cs, &mut ps, 'C', Ghost(p), Ghost(lab));
    place_many(n, &mut cs, &mut ps, 'a', n, Ghost(p), Ghost(lab));
    place_many(n, &mut cs, &mut ps, 'b', n, Ghost(p), Ghost(lab));
    place_many(n, &mut cs, &mut ps, 'c', n, Ghost(p), Ghost(lab));
    let ghost b = layout(p, n, lab, 0);
    proof {
        lemma_layout_rest_blank(p, n, lab, 337);
        assert(p.contains(ha) && p.contains(hb) && p.contains(hc));
        assert(rows_view(cs@).len() == n);
        assert forall|i: int| 0 <= i < n implies n <= #[trigger] rows_view(cs@)[i].len() by {}
    }
    let ok_a = ores_all_reachable(&cs, n, ha, 'a');
    let ok_b = ores_all_reachable(&cs, n, hb, 'b');
    let ok_c = ores_all_reachable(&cs, n, hc, 'c');
    if ok_a && ok_b && ok_c {
        proof {
            lemma_layout_cells(p, n, lab, 'A', 399, 400);
            lemma_layout_cells(p, n, lab, 'B', 398, 399);
            lemma_layout_cells(p, n, lab, 'C', 397, 398);
            lemma_layout_cells(p, n, lab, 'a', 377, 397);
            lemma_layout_cells(p, n, lab, 'b', 357, 377);
            lemma_layout_cells(p, n, lab, 'c', 337, 357);
        }
        Some(Input { N: n, M: 3, cs })
    } else {
        None
    }
}


/// The noise key of cell `c` of the 20 by 20 grid, from keys given row by row.
pub open spec fn cell_key(keys: Seq<u64>, c: Pos) -> u64 {
    keys[c.0 * 20 + c.1]
}

/// Cell `c1` comes before `c2` when sorting by noise: a smaller key, or the
/// same key and an earlier place in row-major order (a stable sort).
pub open spec fn noise_lt(keys: Seq<u64>, c1: Pos, c2: Pos) -> bool {
    ||| cell_key(keys, c1) < cell_key(keys, c2)
    ||| cell_key(keys, c1) == cell_key(keys, c2) && c1.0 * 20 + c1.1 < c2.0 * 20 + c2.1
}

/// `p` is sorted by noise.
pub open spec fn is_noise_sorted(p: Seq<Pos>, keys: Seq<u64>) -> bool {
    forall|a: int, b: int| 0 <= a < b < p.len() ==> noise_lt(keys, #[trigger] p[a], #[trigger] p[b])
}

/// Whether cell `c1` comes before `c2` when sorting by noise.
fn noise_less(keys: &Vec<u64>, c1: Pos, c2: Pos) -> (b: bool)
    requires
        keys@.len() == 400,
        in_board(20, c1),
        in_board(20, c2),
    ensures
        b == noise_lt(keys@, c1, c2),
{
    let k1 = keys[c1.0 * 20 + c1.1];
    let k2 = keys[c2.0 * 20 + c2.1];
    k1 < k2 || (k1 == k2 && c1.0 * 20 + c1.1 < c2.0 * 20 + c2.1)
}

/// The cells of the 20 by 20 grid sorted by noise, ties kept in row-major
/// order.
fn sort_by_noise(keys: &Vec<u64>) -> (s: Vec<Pos>)
    requires
        keys@.len() == 400,
    ensures
        is_cell_order(s@, 20),
        is_noise_sorted(s@, keys@),
{
    let rm = all_cells(20);
    proof {
        lemma_row_major(20, 20);
    }
    let ghost r = rm@;
    let mut s: Vec<Pos> = Vec::new();
    let mut k: usize = 0;
    while k < 400
        invariant
            k <= 400,
            keys@.len() == 400,
            r == rm@,
            r.len() == 400,
            r.no_duplicates(),
            forall|c: Pos| r.contains(c) <==> in_board(20, c),
            s@.len() == k,
            is_noise_sorted(s@, keys@),
            forall|c: Pos| s@.contains(c) <==> r.take(k as int).contains(c),
            forall|a: int| 0 <= a < s@.len() ==> in_board(20, #[trigger] s@[a]),
        decreases 400 - k,
    {
        let c = rm[k];
        assert(r.contains(c));
        assert(!s@.contains(c)) by {
            if s@.contains(c) {
                let r0 = r.take(k as int);
                assert(r0.contains(c));
                let j = choose|j: int| 0 <= j < r0.len() && r0[j] == c;
                assert(r[j] == r[k as int]);
            }
        }
        let mut i: usize = 0;
        while i < s.len() && !noise_less(keys, c, s[i])
            invariant
                i <= s@.len(),
                keys@.len() == 400,
                in_board(20, c),
                forall|a: int| 0 <= a < s@.len() ==> in_board(20, #[trigger] s@[a]),
                forall|a: int| 0 <= a < i ==> !noise_lt(keys@, c, #[trigger] s@[a]),
            decreases s@.len() - i,
        {
            i = i + 1;
        }
        let ghost old_s = s@;
        proof {
            assert forall|a: int| 0 <= a < i implies noise_lt(keys@, #[trigger] old_s[a], c) by {
                assert(old_s.contains(old_s[a]));
                assert(!noise_lt(keys@, c, old_s[a]));
            }
            assert forall|a: int| i <= a < old_s.len() implies noise_lt(keys@, c, #[trigger] old_s[a]) by {
                assert(noise_lt(keys@, c, old_s[i as int]));
                if a > i {
                    assert(noise_lt(keys@, old_s[i as int], old_s[a]));
                }
            }
            old_s.insert_ensures(i as int, c);
        }
        s.insert(i, c);
        proof {
            let t = s@;
            assert forall|a: int, b: int| 0 <= a < b < t.len() implies noise_lt(keys@, #[trigger] t[a], #[trigger] t[b]) by {
                if b < i {
                    assert(t[a] == old_s[a] && t[b] == old_s[b]);
                } else if b == i {
                    assert(t[a] == old_s[a]);
                } else if a < i {
                    assert(t[a] == old_s[a] && t[b] == old_s[b - 1]);
                } else if a == i {
                    assert(t[b] == old_s[b - 1]);
                } else {
                    assert(t[a] == old_s[a - 1] && t[b] == old_s[b - 1]);
                }
            }
            assert forall|a: int| 0 <= a < t.len() implies in_board(20, #[trigger] t[a]) by {
                if a < i {
                    assert(t[a] == old_s[a]);
                } else if a > i {
                    assert(t[a] == old_s[a - 1]);
                }
            }
            let r1 = r.take(k + 1);
            let r0 = r.take(k as int);
            assert(r1 =~= r0.push(c));
            assert forall|x: Pos| t.contains(x) <==> r1.contains(x) by {
                if t.contains(x) {
                    let j = choose|j: int| 0 <= j < t.len() && t[j] == x;
                    if j < i {
                        assert(old_s[j] == x);
                        assert(old_s.contains(x));
                    } else if j > i {
                        assert(old_s[j - 1] == x);
                        assert(old_s.contains(x));
                    }
                    assert(r1.contains(x)) by {
                        if x == c {
                            assert(r1[k as int] == c);
                        } else {
                            assert(r0.contains(x));
                            let m = choose|m: int| 0 <= m < r0.len() && r0[m] == x;
                            assert(r1[m] == x);
                        }
                    }
                }
                if r1.contains(x) {
                    let m = choose|m: int| 0 <= m < r1.len() && r1[m] == x;
                    if m == k {
                        assert(t[i as int] == x);
                    } else {
                        assert(r0[m] == x);
                        assert(r0.contains(x));
                        assert(old_s.contains(x));
                        let j = choose|j: int| 0 <= j < old_s.len() && old_s[j] == x;
                        if j < i {
                            assert(t[j] == x);
                        } else {
                            assert(t[j + 1] == x);
                        }
                    }
                }
            }
        }
        k = k + 1;
    }
    proof {
        assert(r.take(400) =~= r);
        assert forall|a: int, b: int| 0 <= a < s@.len() && 0 <= b < s@.len() && a != b implies s@[a] != s@[b] by {
            if a < b {
                assert(noise_lt(keys@, s@[a], s@[b]));
            } else {
                assert(noise_lt(keys@, s@[b], s@[a]));
            }
        }
    }
    s
}


/// The labels of an instance of problem C on an `n` by `n` grid, by place in
/// an order whose last `n * n / 2` places are the noisiest cells: those are
/// rocks `'@'`; of the other places, shuffled, the last is hole `'A'` and the
/// `2n` before it ores `'a'`; the rest is empty.
pub open spec fn label_c(n: usize, k: int) -> char {
    let h = n * n / 2;
    if k >= h {
        '@'
    } else if k == h - 1 {
        'A'
    } else if h - 1 - 2 * n <= k < h - 1 {
        'a'
    } else {
        '.'
    }
}

/// An instance of problem C: a 20 by 20 grid with one ore kind, whose 200
/// cells of largest noise (given row by row as `keys`, compared as a stable
/// sort does) are rocks `'@'`, and whose other cells, shuffled, give the hole
/// `'A'` and 40 ores `'a'`.
pub fn gen_c(keys: &Vec<u64>, rng: &mut rand_chacha::ChaCha20Rng) -> (inp: Input)
    requires
        keys@.len() == 400,
    ensures
        inp.N == 20,
        inp.M == 1,
        exists|s: Seq<Pos>, q: Seq<Pos>| {
            &&& is_cell_order(s, 20)
            &&& is_noise_sorted(s, keys@)
            &&& q.to_multiset() == s.take(200).to_multiset()
            &&& inp.board() == layout(q + s.skip(200), 20, |k: int| label_c(20, k), 0)
        },
        cells_with(inp.board(), 20, '@').len() == 200,
        cells_with(inp.board(), 20, 'A').len() == 1,
        cells_with(inp.board(), 20, 'a').len() == 40,
{
    let n: usize = 20;
    let ghost lab = |k: int| label_c(20, k);
    let sorted = sort_by_noise(keys);
    let ghost s = sorted@;
    let mut low: Vec<Pos> = Vec::new();
    let mut high: Vec<Pos> = Vec::new();
    let mut k: usize = 0;
    while k < 400
        invariant
            k <= 400,
            s == sorted@,
            s.len() == 400,
            k <= 200 ==> low@ == s.take(k as int) && high@.len() == 0,
            k > 200 ==> low@ == s.take(200) && high@ == s.subrange(200, k as int),
        decreases 400 - k,
    {
        if k < 200 {
            low.push(sorted[k]);
            assert(s.take(k + 1) =~= s.take(k as int).push(s[k as int]));
        } else {
            let ghost h0 = high@;
            high.push(sorted[k]);
            assert(s.subrange(200, k + 1) =~= s.subrange(200, k as int).push(s[k as int]));
            assert(k == 200 ==> h0 =~= s.subrange(200, 200));
        }
        k = k + 1;
    }
    assert(high@ =~= s.skip(200));
    let ghost low0 = low@;
    shuffle_cells(&mut low, rng);
    let ghost q = low@;
    let mut ps = low;
    ps.append(&mut high);
    let ghost p = ps@;
    proof {
        assert(p == q + s.skip(200));
        vstd::seq_lib::lemma_multiset_commutative(q, s.skip(200));
        vstd::seq_lib::lemma_multiset_commutative(s.take(200), s.skip(200));
        assert(s.take(200) + s.skip(200) =~= s);
        lemma_permuted_order(s, p, n);
        lemma_layout_blank(p, n, lab);
        assert(p.take(400) =~= p);
    }
    let mut cs = blank_grid(n);
    place_many(n, &mut cs, &mut ps, '@', 200, Ghost(p), Ghost(lab));
    place_next(n, &mut cs, &mut ps, 'A', Ghost(p), Ghost(lab));
    place_many(n, &mut cs, &mut ps, 'a', 2 * n, Ghost(p), Ghost(lab));
    proof {
        lemma_layout_rest_blank(p, n, lab, 159);
        lemma_layout_cells(p, n, lab, '@', 200, 400);
        lemma_layout_cells(p, n, lab, 'A', 199, 200);
        lemma_layout_cells(p, n, lab, 'a', 159, 199);
    }
    Input { N: n, M: 1, cs }
}


/// A generated grid, written as instance text, reads back unchanged: its
/// rows are non-empty and no label is white space.
pub proof fn lemma_layout_text_roundtrip(p: Seq<Pos>, n: usize, lab: spec_fn(int) -> char, m: usize)
    requires
        n > 0,
        forall|k: int| !is_space(#[trigger] lab(k)),
    ensures
        input_result(input_text(n, m, layout(p, n, lab, 0))) == Some((n, m, layout(p, n, lab, 0))),
{
    let b = layout(p, n, lab, 0);
    assert forall|i: int| 0 <= i < n implies (#[trigger] b[i]).len() > 0 && no_space(b[i]) by {
        assert forall|j: int| 0 <= j < b[i].len() implies !is_space(#[trigger] b[i][j]) by {
            let k = rank(p, (i as usize, j as usize));
            assert(!is_space(lab(k)));
        }
    }
    lemma_input_text_roundtrip(n, m, b);
    assert(b.take(n as int) =~= b);
}

/// Any answer whose directions are valid can be replayed on a generated
/// grid.
pub proof fn lemma_layout_replayable(p: Seq<Pos>, n: usize, lab: spec_fn(int) -> char, acts: Seq<Action>)
    requires
        0 < n <= 0xffff,
        forall|k: int| 0 <= k < acts.len() ==> #[trigger] acts[k].dir() < 4,
    ensures
        replayable(layout(p, n, lab, 0), n, acts),
{
    assert(n * n <= 0xffff * 0xffff) by (nonlinear_arith)
        requires
            n <= 0xffff,
    ;
    assert(grid_covers(layout(p, n, lab, 0), n));
}

}
