//! The judge: the worker's actions replayed on the grid, with the rules for
//! moving, carrying and rolling items, and the errors that end a replay.
use vstd::prelude::*;
use vstd::string::*;
use crate::board::{Action, Input};
use crate::text::{decimal, push_decimal, rows_view, string_push};

verus! {

/// A cell of the grid, as (row, column).
pub type Pos = (usize, usize);

/// A state of the replay: the grid, the worker's position and the number of
/// ores dropped into a hole of their own kind.
pub type SimState = (Seq<Seq<char>>, (usize, usize), nat);

/// Why a replay stopped.
#[derive(Clone, Copy, Debug, PartialEq, Eq, Structural)]
pub enum SimError {
    /// The worker (or the item it carries) left the grid.
    OutOfBoard,
    /// `Carry` on a cell that holds no item.
    NoItemToCarry,
    /// The carried item ran into a rock or an ore.
    Collision,
    /// `Roll` on a cell that holds no item.
    NoItemToRoll,
}

/// An ore: `'a'..='z'`.
pub open spec fn is_ore(c: char) -> bool {
    'a' <= c && c <= 'z'
}

/// An item that can be carried or rolled: an ore or a rock `'@'`.
pub open spec fn is_item(c: char) -> bool {
    is_ore(c) || c == '@'
}

/// A hole: `'A'..='Z'`.
pub open spec fn is_hole(c: char) -> bool {
    'A' <= c && c <= 'Z'
}

/// Item `c` is of the kind of hole `h` (the hole's lowercase letter).
pub open spec fn fits_hole(h: char, c: char) -> bool {
    h as u32 + 32 == c as u32
}

/// The cell one step from `p` in direction `d` (`U`, `D`, `L`, `R`), with
/// coordinates that wrap around as `usize::wrapping_add` does.
pub open spec fn step_pos(p: Pos, d: usize) -> Pos {
    if d == 0 {
        (if p.0 == 0 { usize::MAX } else { (p.0 - 1) as usize }, p.1)
    } else if d == 1 {
        (if p.0 == usize::MAX { 0 } else { (p.0 + 1) as usize }, p.1)
    } else if d == 2 {
        (p.0, if p.1 == 0 { usize::MAX } else { (p.1 - 1) as usize })
    } else {
        (p.0, if p.1 == usize::MAX { 0 } else { (p.1 + 1) as usize })
    }
}

/// `p` lies on the `n` by `n` grid.
pub open spec fn in_board(n: usize, p: Pos) -> bool {
    p.0 < n && p.1 < n
}

/// `p` names a character of `b`.
pub open spec fn readable(b: Seq<Seq<char>>, p: Pos) -> bool {
    p.0 < b.len() && p.1 < b[p.0 as int].len()
}

/// The character at `p`.
pub open spec fn cell(b: Seq<Seq<char>>, p: Pos) -> char {
    b[p.0 as int][p.1 as int]
}

/// `b` with the character at `p` replaced by `c`.
pub open spec fn set_cell(b: Seq<Seq<char>>, p: Pos, c: char) -> Seq<Seq<char>> {
    b.update(p.0 as int, b[p.0 as int].update(p.1 as int, c))
}

/// Every row below `n` exists and has at least `n` characters.
pub open spec fn grid_covers(b: Seq<Seq<char>>, n: usize) -> bool {
    &&& n <= b.len()
    &&& forall|i: int| 0 <= i < n ==> n <= #[trigger] b[i].len()
}

/// Two grids with the same rows lengths.
pub open spec fn same_shape(b1: Seq<Seq<char>>, b2: Seq<Seq<char>>) -> bool {
    &&& b1.len() == b2.len()
    &&& forall|i: int| 0 <= i < b1.len() ==> #[trigger] b1[i].len() == b2[i].len()
}

/// How far a rolling item can still travel from `p` in direction `d`.
pub open spec fn roll_room(n: usize, p: Pos, d: usize) -> int {
    if d == 0 {
        p.0 as int
    } else if d == 1 {
        if p.0 < n { n - p.0 } else { n + 1 }
    } else if d == 2 {
        p.1 as int
    } else {
        if p.1 < n { n - p.1 } else { n + 1 }
    }
}

/// Item `c` rolls from `crt` in direction `d`: it stops before the edge of the
/// grid or before an item, or drops into the first hole it reaches. Returns
/// the grid and whether it dropped into a hole of its kind (1) or not (0).
pub open spec fn roll(n: usize, b: Seq<Seq<char>>, crt: Pos, d: usize, c: char) -> (Seq<Seq<char>>, nat)
    decreases roll_room(n, crt, d),
{
    let nx = step_pos(crt, d);
    if !in_board(n, nx) {
        (set_cell(b, crt, c), 0)
    } else if is_item(cell(b, nx)) {
        (set_cell(b, crt, c), 0)
    } else if is_hole(cell(b, nx)) {
        (b, if fits_hole(cell(b, nx), c) { 1 } else { 0 })
    } else {
        roll(n, b, nx, d, c)
    }
}

/// One action applied to a state: the next state, and the error if the
/// action broke a rule (the state then is the one at the moment it broke).
pub open spec fn step(n: usize, s: SimState, a: Action) -> (SimState, Option<SimError>) {
    let b = s.0;
    let p = s.1;
    let del = s.2;
    match a {
        Action::Move(d) => {
            let q = step_pos(p, d);
            ((b, q, del), if in_board(n, q) { None } else { Some(SimError::OutOfBoard) })
        },
        Action::Carry(d) => {
            let c = cell(b, p);
            if !is_item(c) {
                (s, Some(SimError::NoItemToCarry))
            } else {
                let b1 = set_cell(b, p, '.');
                let q = step_pos(p, d);
                if !in_board(n, q) {
                    ((b1, q, del), Some(SimError::OutOfBoard))
                } else if is_item(cell(b1, q)) {
                    ((b1, q, del), Some(SimError::Collision))
                } else if is_hole(cell(b1, q)) {
                    ((b1, q, del + if fits_hole(cell(b1, q), c) { 1nat } else { 0nat }), None)
                } else {
                    ((set_cell(b1, q, c), q, del), None)
                }
            }
        },
        Action::Roll(d) => {
            let c = cell(b, p);
            if !is_item(c) {
                (s, Some(SimError::NoItemToRoll))
            } else {
                let r = roll(n, set_cell(b, p, '.'), p, d, c);
                ((r.0, p, del + r.1), None)
            }
        },
    }
}

/// The actions applied in turn, numbered from `t`, until one breaks a rule:
/// the last state, and the error with the number of its action.
pub open spec fn run(n: usize, s: SimState, acts: Seq<Action>, t: nat) -> (SimState, Option<(SimError, nat)>)
    decreases acts.len(),
{
    if acts.len() == 0 {
        (s, None)
    } else {
        let r = step(n, s, acts[0]);
        match r.1 {
            Some(e) => (r.0, Some((e, t))),
            None => run(n, r.0, acts.drop_first(), t + 1),
        }
    }
}

/// The last column `< j` of `row` that holds hole `'A'`.
pub open spec fn last_a_in_row(row: Seq<char>, j: int) -> Option<int>
    decreases j,
{
    if j <= 0 {
        None
    } else if row[j - 1] == 'A' {
        Some(j - 1)
    } else {
        last_a_in_row(row, j - 1)
    }
}

/// The last cell (in row-major order) of rows `< i`, columns `< n`, that
/// holds hole `'A'`.
pub open spec fn last_a(b: Seq<Seq<char>>, n: int, i: int) -> Option<(int, int)>
    decreases i,
{
    if i <= 0 {
        None
    } else {
        match last_a_in_row(b[i - 1], n) {
            Some(j) => Some((i - 1, j)),
            None => last_a(b, n, i - 1),
        }
    }
}

/// The worker's start: the last hole `'A'` of the grid, or `(0, 0)`.
pub open spec fn start_pos(b: Seq<Seq<char>>, n: usize) -> Pos {
    match last_a(b, n as int, n as int) {
        Some(ij) => (ij.0 as usize, ij.1 as usize),
        None => (0, 0),
    }
}

/// The number of ores among the first `j` characters of `row`.
pub open spec fn row_ores(row: Seq<char>, j: int) -> nat
    decreases j,
{
    if j <= 0 {
        0
    } else {
        row_ores(row, j - 1) + if is_ore(row[j - 1]) { 1nat } else { 0nat }
    }
}

/// The number of ores in rows `< i`, columns `< n`.
pub open spec fn grid_ores(b: Seq<Seq<char>>, n: int, i: int) -> nat
    decreases i,
{
    if i <= 0 {
        0
    } else {
        grid_ores(b, n, i - 1) + row_ores(b[i - 1], n)
    }
}

/// The number of ores on the `n` by `n` grid.
pub open spec fn ore_count(b: Seq<Seq<char>>, n: usize) -> nat {
    grid_ores(b, n as int, n as int)
}

/// The state before the first action.
pub open spec fn initial_state(b: Seq<Seq<char>>, n: usize) -> SimState {
    (b, start_pos(b, n), 0)
}

/// The actions that a replay limited to `turn` turns applies.
pub open spec fn first_turns(acts: Seq<Action>, turn: nat) -> Seq<Action> {
    if turn < acts.len() { acts.take(turn as int) } else { acts }
}

/// The replay of the first `turn` actions on grid `b`.
pub open spec fn replay(b: Seq<Seq<char>>, n: usize, acts: Seq<Action>, turn: nat) -> (SimState, Option<(SimError, nat)>) {
    run(n, initial_state(b, n), first_turns(acts, turn), 0)
}

/// What a replay needs so that it never fails outside the rules: the rows
/// cover the grid, the grid's size fits a `usize`, directions are valid, and
/// on an empty grid the cell `(0, 0)` exists unless the first action is a
/// `Move`.
pub open spec fn replayable(b: Seq<Seq<char>>, n: usize, acts: Seq<Action>) -> bool {
    &&& grid_covers(b, n)
    &&& n * n <= usize::MAX
    &&& forall|k: int| 0 <= k < acts.len() ==> #[trigger] acts[k].dir() < 4
    &&& (n == 0 && acts.len() > 0 && !(acts[0] is Move)) ==> readable(b, (0, 0))
}

/// The beginning of the message of an error.
pub open spec fn error_head(e: SimError) -> Seq<char> {
    match e {
        SimError::OutOfBoard => "Out of the board (turn "@,
        SimError::NoItemToCarry => "No item to carry (turn "@,
        SimError::Collision => "Collision (turn "@,
        SimError::NoItemToRoll => "No item to roll (turn "@,
    }
}

/// The message of an error at action `t`, such as `Collision (turn 3)`;
/// empty when there is none.
pub open spec fn error_text(e: Option<(SimError, nat)>) -> Seq<char> {
    match e {
        None => Seq::empty(),
        Some(et) => error_head(et.0) + decimal(et.1) + seq![')'],
    }
}


/// Replacing one character changes the ore count of a row prefix only by
/// what left and what came.
proof fn lemma_row_update(row: Seq<char>, k: int, c: char, j: int)
    requires
        0 <= k < row.len(),
        j <= row.len(),
    ensures
        row_ores(row.update(k, c), j) + (if k < j && is_ore(row[k]) { 1int } else { 0int })
            == row_ores(row, j) + (if k < j && is_ore(c) { 1int } else { 0int }),
    decreases j,
{
    if j > 0 {
        lemma_row_update(row, k, c, j - 1);
    }
}

/// Replacing one row changes the ore count of the first `i` rows only by
/// the difference of the two rows.
proof fn lemma_grid_update(b: Seq<Seq<char>>, n: int, r: int, row: Seq<char>, i: int)
    requires
        0 <= r < b.len(),
        i <= b.len(),
    ensures
        grid_ores(b.update(r, row), n, i) + (if r < i { row_ores(b[r], n) } else { 0 })
            == grid_ores(b, n, i) + (if r < i { row_ores(row, n) } else { 0 }),
    decreases i,
{
    if i > 0 {
        lemma_grid_update(b, n, r, row, i - 1);
    }
}

/// Writing `c` at `p` changes the grid's ore count by what left and what came.
pub proof fn lemma_set_cell_ores(b: Seq<Seq<char>>, n: usize, p: Pos, c: char)
    requires
        grid_covers(b, n),
        readable(b, p),
    ensures
        same_shape(set_cell(b, p, c), b),
        ore_count(set_cell(b, p, c), n) + (if in_board(n, p) && is_ore(cell(b, p)) { 1int } else { 0int })
            == ore_count(b, n) + (if in_board(n, p) && is_ore(c) { 1int } else { 0int }),
{
    let row = b[p.0 as int];
    let row2 = row.update(p.1 as int, c);
    if p.0 < n {
        lemma_row_update(row, p.1 as int, c, n as int);
    }
    lemma_grid_update(b, n as int, p.0 as int, row2, n as int);
    assert(same_shape(set_cell(b, p, c), b));
}

/// A roll keeps the grid's shape and never adds ores: the ores on the grid
/// and those dropped into their holes are at most what was there, plus the
/// rolling ore itself.
proof fn lemma_roll(n: usize, b: Seq<Seq<char>>, crt: Pos, d: usize, c: char)
    requires
        grid_covers(b, n),
        readable(b, crt),
        in_board(n, crt) || n == 0,
        !is_ore(cell(b, crt)),
        d < 4,
    ensures
        same_shape(roll(n, b, crt, d, c).0, b),
        ore_count(roll(n, b, crt, d, c).0, n) + roll(n, b, crt, d, c).1 <= ore_count(b, n) + (if in_board(n, crt) && is_ore(c) { 1int } else { 0int }),
    decreases roll_room(n, crt, d),
{
    let nx = step_pos(crt, d);
    if !in_board(n, nx) || is_item(cell(b, nx)) {
        lemma_set_cell_ores(b, n, crt, c);
    } else if is_hole(cell(b, nx)) {
    } else {
        lemma_roll(n, b, nx, d, c);
    }
}

/// An action keeps the grid's shape and never adds ores: ores on the grid
/// plus ores dropped into their holes never grow.
pub proof fn lemma_step_no_new_ores(n: usize, s: SimState, a: Action)
    requires
        grid_covers(s.0, n),
        a.dir() < 4,
        a is Move || readable(s.0, s.1),
        in_board(n, s.1) || n == 0,
    ensures
        same_shape(step(n, s, a).0.0, s.0),
        step(n, s, a).0.2 + ore_count(step(n, s, a).0.0, n) <= s.2 + ore_count(s.0, n),
        step(n, s, a).1 is None ==> (in_board(n, step(n, s, a).0.1) || (n == 0 && step(n, s, a).0.1 == s.1)),
{
    let b = s.0;
    let p = s.1;
    match a {
        Action::Move(d) => {},
        Action::Carry(d) => {
            let c = cell(b, p);
            if is_item(c) {
                let b1 = set_cell(b, p, '.');
                lemma_set_cell_ores(b, n, p, '.');
                let q = step_pos(p, d);
                if in_board(n, q) && !is_item(cell(b1, q)) && !is_hole(cell(b1, q)) {
                    assert(grid_covers(b1, n));
                    lemma_set_cell_ores(b1, n, q, c);
                }
            }
        },
        Action::Roll(d) => {
            let c = cell(b, p);
            if is_item(c) {
                let b1 = set_cell(b, p, '.');
                lemma_set_cell_ores(b, n, p, '.');
                assert(grid_covers(b1, n));
                lemma_roll(n, b1, p, d, c);
            }
        },
    }
}


/// Whether `c` is an item (an ore or a rock).
pub fn is_item_char(c: char) -> (b: bool)
    ensures
        b == is_item(c),
{
    ('a' <= c && c <= 'z') || c == '@'
}

/// Whether `c` is a hole.
pub fn is_hole_char(c: char) -> (b: bool)
    ensures
        b == is_hole(c),
{
    'A' <= c && c <= 'Z'
}

/// Whether item `c` drops into hole `h` as one of its own kind.
pub fn fits_hole_char(h: char, c: char) -> (b: bool)
    ensures
        b == fits_hole(h, c),
{
    (h as u32) + 32 == c as u32
}

/// The cell one step from `p` in direction `d`.
fn next_pos(p: Pos, d: usize) -> (q: Pos)
    ensures
        q == step_pos(p, d),
{
    if d == 0 {
        (if p.0 == 0 { usize::MAX } else { p.0 - 1 }, p.1)
    } else if d == 1 {
        (if p.0 == usize::MAX { 0 } else { p.0 + 1 }, p.1)
    } else if d == 2 {
        (p.0, if p.1 == 0 { usize::MAX } else { p.1 - 1 })
    } else {
        (p.0, if p.1 == usize::MAX { 0 } else { p.1 + 1 })
    }
}

/// Writes `c` at `p`.
fn put(cs: &mut Vec<Vec<char>>, p: Pos, c: char)
    requires
        readable(rows_view(old(cs)@), p),
    ensures
        rows_view(final(cs)@) == set_cell(rows_view(old(cs)@), p, c),
{
    let ghost before = rows_view(cs@);
    let mut row: Vec<char> = Vec::new();
    std::mem::swap(&mut row, &mut cs[p.0]);
    row.set(p.1, c);
    std::mem::swap(&mut row, &mut cs[p.0]);
    assert(rows_view(cs@) =~= set_cell(before, p, c));
}

/// Rolls item `c` from `start` in direction `d`; returns whether it dropped
/// into a hole of its kind.
fn roll_item(n: usize, cs: &mut Vec<Vec<char>>, start: Pos, d: usize, c: char) -> (gained: usize)
    requires
        grid_covers(rows_view(old(cs)@), n),
        readable(rows_view(old(cs)@), start),
        in_board(n, start) || n == 0,
    ensures
        (rows_view(final(cs)@), gained as nat) == roll(n, rows_view(old(cs)@), start, d, c),
{
    let ghost b = rows_view(cs@);
    let mut crt = start;
    loop
        invariant
            rows_view(cs@) == b,
            b == rows_view(old(cs)@),
            grid_covers(b, n),
            readable(b, crt),
            roll(n, b, crt, d, c) == roll(n, b, start, d, c),
        decreases roll_room(n, crt, d),
    {
        let nx = next_pos(crt, d);
        if !(nx.0 < n && nx.1 < n) {
            put(cs, crt, c);
            return 0;
        }
        let t = cs[nx.0][nx.1];
        if is_item_char(t) {
            put(cs, crt, c);
            return 0;
        }
        if is_hole_char(t) {
            if fits_hole_char(t, c) {
                return 1;
            } else {
                return 0;
            }
        }
        crt = nx;
    }
}

/// Applies one action to the grid, the position and the count of dropped
/// ores; returns the error if the action broke a rule.
fn apply_action(n: usize, cs: &mut Vec<Vec<char>>, pos: &mut Pos, del: &mut usize, a: Action) -> (e: Option<SimError>)
    requires
        grid_covers(rows_view(old(cs)@), n),
        a.dir() < 4,
        a is Move || readable(rows_view(old(cs)@), *old(pos)),
        in_board(n, *old(pos)) || n == 0,
        *old(del) + ore_count(rows_view(old(cs)@), n) <= usize::MAX,
    ensures
        ((rows_view(final(cs)@), *final(pos), *final(del) as nat), e)
            == step(n, (rows_view(old(cs)@), *old(pos), *old(del) as nat), a),
{
    proof {
        lemma_step_no_new_ores(n, (rows_view(cs@), *pos, *del as nat), a);
    }
    let p = *pos;
    match a {
        Action::Move(d) => {
            let q = next_pos(p, d);
            *pos = q;
            if q.0 < n && q.1 < n {
                None
            } else {
                Some(SimError::OutOfBoard)
            }
        },
        Action::Carry(d) => {
            let c = cs[p.0][p.1];
            if !is_item_char(c) {
                return Some(SimError::NoItemToCarry);
            }
            put(cs, p, '.');
            let q = next_pos(p, d);
            *pos = q;
            if !(q.0 < n && q.1 < n) {
                return Some(SimError::OutOfBoard);
            }
            let t = cs[q.0][q.1];
            if is_item_char(t) {
                return Some(SimError::Collision);
            }
            if is_hole_char(t) {
                if fits_hole_char(t, c) {
                    *del = *del + 1;
                }
                return None;
            }
            put(cs, q, c);
            None
        },
        Action::Roll(d) => {
            let c = cs[p.0][p.1];
            if !is_item_char(c) {
                return Some(SimError::NoItemToRoll);
            }
            put(cs, p, '.');
            let g = roll_item(n, cs, p, d, c);
            *del = *del + g;
            None
        },
    }
}


/// The position an optional cell stands for: the cell, or `(0, 0)`.
pub open spec fn pos_or_origin(o: Option<(int, int)>) -> Pos {
    match o {
        Some(ij) => (ij.0 as usize, ij.1 as usize),
        None => (0, 0),
    }
}

/// The last `'A'` of a row prefix lies in that prefix; without one, the
/// prefix holds no `'A'`.
proof fn lemma_last_a_in_row(row: Seq<char>, j: int)
    requires
        j <= row.len(),
    ensures
        last_a_in_row(row, j) matches Some(k) ==> 0 <= k < j && row[k] == 'A',
        last_a_in_row(row, j) is None ==> forall|k: int| 0 <= k < j ==> row[k] != 'A',
    decreases j,
{
    if j > 0 {
        lemma_last_a_in_row(row, j - 1);
    }
}

/// The last `'A'` of the first `i` rows lies in them; without one, they hold
/// no `'A'`.
proof fn lemma_last_a(b: Seq<Seq<char>>, n: int, i: int)
    requires
        i <= b.len(),
        forall|r: int| 0 <= r < i ==> n <= #[trigger] b[r].len(),
    ensures
        last_a(b, n, i) matches Some(ij) ==> 0 <= ij.0 < i && 0 <= ij.1 < n && b[ij.0][ij.1] == 'A',
        last_a(b, n, i) is None ==> forall|r: int, c: int| 0 <= r < i && 0 <= c < n ==> b[r][c] != 'A',
    decreases i,
{
    if i > 0 {
        lemma_last_a_in_row(b[i - 1], n);
        lemma_last_a(b, n, i - 1);
    }
}

/// The worker starts on the grid, or at `(0, 0)` when the grid is empty;
/// when the grid has a hole `'A'`, the worker starts on one.
pub proof fn lemma_start_pos_on_board(b: Seq<Seq<char>>, n: usize)
    requires
        grid_covers(b, n),
    ensures
        (exists|c: Pos| in_board(n, c) && #[trigger] cell(b, c) == 'A') ==> cell(b, start_pos(b, n)) == 'A',
        n > 0 ==> in_board(n, start_pos(b, n)),
        n == 0 ==> start_pos(b, n) == (0usize, 0usize),
{
    lemma_last_a(b, n as int, n as int);
}

/// Finds the worker's start and counts the ores.
fn scan_grid(cs: &Vec<Vec<char>>, n: usize) -> (res: (Pos, usize))
    requires
        grid_covers(rows_view(cs@), n),
        n * n <= usize::MAX,
    ensures
        res.0 == start_pos(rows_view(cs@), n),
        res.1 as nat == ore_count(rows_view(cs@), n),
{
    let ghost b = rows_view(cs@);
    let mut pos: Pos = (0, 0);
    let mut k: usize = 0;
    let mut i: usize = 0;
    while i < n
        invariant
            i <= n,
            b == rows_view(cs@),
            grid_covers(b, n),
            n * n <= usize::MAX,
            pos == pos_or_origin(last_a(b, n as int, i as int)),
            k as nat == grid_ores(b, n as int, i as int),
            k <= i * n,
        decreases n - i,
    {
        let mut j: usize = 0;
        while j < n
            invariant
                j <= n,
                i < n,
                b == rows_view(cs@),
                grid_covers(b, n),
                n * n <= usize::MAX,
                pos == match last_a_in_row(b[i as int], j as int) {
                    Some(jj) => (i, jj as usize),
                    None => pos_or_origin(last_a(b, n as int, i as int)),
                },
                k as nat == grid_ores(b, n as int, i as int) + row_ores(b[i as int], j as int),
                k <= i * n + j,
            decreases n - j,
        {
            let c = cs[i][j];
            assert(c == b[i as int][j as int]);
            if c == 'A' {
                pos = (i, j);
            } else if 'a' <= c && c <= 'z' {
                assert(i * n + j + 1 <= n * n) by (nonlinear_arith)
                    requires
                        i < n,
                        j < n,
                ;
                k = k + 1;
            }
            j = j + 1;
        }
        assert(i * n + n == (i + 1) * n) by (nonlinear_arith);
        i = i + 1;
    }
    (pos, k)
}

/// A copy of the grid.
fn copy_grid(cs: &Vec<Vec<char>>) -> (r: Vec<Vec<char>>)
    ensures
        rows_view(r@) == rows_view(cs@),
{
    let mut r: Vec<Vec<char>> = Vec::new();
    let mut i: usize = 0;
    while i < cs.len()
        invariant
            i <= cs@.len(),
            rows_view(r@) =~= rows_view(cs@).take(i as int),
        decreases cs@.len() - i,
    {
        let row = &cs[i];
        let mut copy: Vec<char> = Vec::new();
        let mut j: usize = 0;
        while j < row.len()
            invariant
                j <= row@.len(),
                copy@ =~= row@.take(j as int),
            decreases row@.len() - j,
        {
            copy.push(row[j]);
            j = j + 1;
        }
        assert(copy@ =~= row@);
        let ghost before = rows_view(r@);
        r.push(copy);
        assert(rows_view(r@) =~= before.push(cs@[i as int]@));
        assert(rows_view(cs@).take(i + 1) =~= rows_view(cs@).take(i as int).push(cs@[i as int]@));
        i = i + 1;
    }
    r
}

/// The message of an error at action `t`, such as `Collision (turn 3)`.
pub fn error_message(e: SimError, t: usize) -> (s: String)
    ensures
        s@ == error_text(Some((e, t as nat))),
{
    let mut s = String::new();
    match e {
        SimError::OutOfBoard => s.append("Out of the board (turn "),
        SimError::NoItemToCarry => s.append("No item to carry (turn "),
        SimError::Collision => s.append("Collision (turn "),
        SimError::NoItemToRoll => s.append("No item to roll (turn "),
    }
    push_decimal(&mut s, t as u64);
    string_push(&mut s, ')');
    s
}

/// The result of a replay: the grid and the worker's position when it ended,
/// the ores dropped into holes of their kind, the ores at the start, and the
/// error that ended it early (with its message; empty when there is none).
pub struct SimOutcome {
    pub cs: Vec<Vec<char>>,
    pub pos: (usize, usize),
    pub delivered: usize,
    pub ores: usize,
    pub error: Option<(SimError, usize)>,
    pub err: String,
}

impl SimOutcome {
    /// This outcome is replay result `r` on a grid with `ores` ores.
    pub open spec fn is_result_of(self, r: (SimState, Option<(SimError, nat)>), ores: nat) -> bool {
        &&& rows_view(self.cs@) == r.0.0
        &&& self.pos == r.0.1
        &&& self.delivered as nat == r.0.2
        &&& self.ores as nat == ores
        &&& match self.error {
            None => r.1 is None,
            Some(et) => r.1 == Some((et.0, et.1 as nat)),
        }
        &&& self.err@ == error_text(r.1)
    }
}

/// Replays the first `turn` actions (all of them if there are fewer) on the
/// instance's grid, from the worker's start on hole `'A'`, stopping at the
/// first action that breaks a rule.
pub fn simulate(input: &Input, actions: &[Action], turn: usize) -> (res: SimOutcome)
    requires
        replayable(input.board(), input.N, first_turns(actions@, turn as nat)),
    ensures
        res.is_result_of(replay(input.board(), input.N, actions@, turn as nat), ore_count(input.board(), input.N)),
        res.delivered <= res.ores,
{
    let n = input.N;
    let mut cs = copy_grid(&input.cs);
    let ghost b0 = rows_view(cs@);
    let (start, ores) = scan_grid(&cs, n);
    let mut pos = start;
    proof {
        lemma_start_pos_on_board(b0, n);
    }
    let limit: usize = if turn < actions.len() { turn } else { actions.len() };
    let ghost acts = first_turns(actions@, turn as nat);
    assert(acts.skip(0) =~= acts);
    let mut del: usize = 0;
    let mut k: usize = 0;
    while k < limit
        invariant
            k <= limit,
            limit == acts.len(),
            n == input.N,
            acts == first_turns(actions@, turn as nat),
            b0 == input.board(),
            replayable(b0, n, acts),
            same_shape(rows_view(cs@), b0),
            run(n, initial_state(b0, n), acts, 0) == run(n, (rows_view(cs@), pos, del as nat), acts.skip(k as int), k as nat),
            in_board(n, pos) || (n == 0 && pos == (0usize, 0usize) && (k == 0 ==> rows_view(cs@) == b0) && (k > 0 ==> readable(rows_view(cs@), (0, 0)))),
            del as nat + ore_count(rows_view(cs@), n) <= ores as nat,
            ores as nat == ore_count(b0, n),
        decreases limit - k,
    {
        let a = actions[k];
        let ghost view = rows_view(cs@);
        let ghost p0 = pos;
        let ghost d0 = del;
        assert(acts[k as int] == a);
        assert(grid_covers(view, n));
        let e = apply_action(n, &mut cs, &mut pos, &mut del, a);
        proof {
            lemma_step_no_new_ores(n, (view, p0, d0 as nat), a);
            assert(acts.skip(k as int)[0] == a);
            assert(acts.skip(k as int).drop_first() =~= acts.skip(k + 1));
        }
        match e {
            Some(err) => {
                assert(run(n, (view, p0, d0 as nat), acts.skip(k as int), k as nat) == ((rows_view(cs@), pos, del as nat), Some((err, k as nat))));
                let msg = error_message(err, k);
                let res = SimOutcome { cs, pos, delivered: del, ores, error: Some((err, k)), err: msg };
                return res;
            },
            None => {},
        }
        k = k + 1;
    }
    SimOutcome { cs, pos, delivered: del, ores, error: None, err: String::new() }
}


/// Replays all the actions of an answer on the instance's grid.
pub fn compute_score_details(input: &Input, out: &[Action]) -> (res: SimOutcome)
    requires
        replayable(input.board(), input.N, out@),
    ensures
        res.is_result_of(replay(input.board(), input.N, out@, out@.len()), ore_count(input.board(), input.N)),
        res.delivered <= res.ores,
{
    assert(first_turns(out@, out@.len()) == out@);
    simulate(input, out, out.len())
}

/// The number of turns a replay of the answer can show: its length.
pub fn get_max_turn(input: &Input, output: &crate::board::Output) -> (t: usize)
    ensures
        t == output.out@.len(),
{
    output.out.len()
}

/// Whether a replay of the first `turn` actions stays within what the rules
/// describe (see `replayable`).
pub fn can_replay(input: &Input, actions: &[Action], turn: usize) -> (ok: bool)
    ensures
        ok == replayable(input.board(), input.N, first_turns(actions@, turn as nat)),
{
    let n = input.N;
    let ghost b = input.board();
    let ghost acts = first_turns(actions@, turn as nat);
    if n > input.cs.len() {
        return false;
    }
    let mut i: usize = 0;
    while i < n
        invariant
            i <= n,
            n == input.N,
            n <= b.len(),
            b == input.board(),
            forall|r: int| 0 <= r < i ==> n <= #[trigger] b[r].len(),
        decreases n - i,
    {
        if input.cs[i].len() < n {
            assert(b[i as int] == input.cs@[i as int]@);
            return false;
        }
        i = i + 1;
    }
    match n.checked_mul(n) {
        None => {
            return false;
        },
        Some(_) => {},
    }
    let limit: usize = if turn < actions.len() { turn } else { actions.len() };
    let mut k: usize = 0;
    while k < limit
        invariant
            k <= limit,
            acts == first_turns(actions@, turn as nat),
            limit == acts.len(),
            forall|j: int| 0 <= j < k ==> #[trigger] acts[j].dir() < 4,
        decreases limit - k,
    {
        let d = match actions[k] {
            Action::Move(d) => d,
            Action::Carry(d) => d,
            Action::Roll(d) => d,
        };
        assert(acts[k as int] == actions@[k as int]);
        assert(acts[k as int].dir() == d);
        if d >= 4 {
            return false;
        }
        k = k + 1;
    }
    if n == 0 && limit > 0 {
        let first_is_move = match actions[0] {
            Action::Move(_) => true,
            _ => false,
        };
        assert(acts[0] == actions@[0]);
        if !first_is_move && !(input.cs.len() > 0 && input.cs[0].len() > 0) {
            return false;
        }
    }
    true
}

/// Applying one more action after a run: the run of the longer sequence is
/// the shorter run followed by one step, unless the shorter run already
/// stopped on an error.
pub proof fn lemma_run_push(n: usize, s: SimState, xs: Seq<Action>, a: Action, t: nat)
    ensures
        run(n, s, xs.push(a), t) == ({
            let r = run(n, s, xs, t);
            if r.1 is Some {
                r
            } else {
                let q = step(n, r.0, a);
                (q.0, match q.1 {
                    Some(e) => Some((e, t + xs.len())),
                    None => None,
                })
            }
        }),
    decreases xs.len(),
{
    if xs.len() == 0 {
        assert(xs.push(a).drop_first() =~= Seq::<Action>::empty());
        assert(xs.push(a)[0] == a);
        let q = step(n, s, a);
        assert(run(n, q.0, Seq::<Action>::empty(), t + 1) == (q.0, Option::<(SimError, nat)>::None));
    } else {
        let r = step(n, s, xs[0]);
        assert(xs.push(a)[0] == xs[0]);
        assert(xs.push(a).drop_first() =~= xs.drop_first().push(a));
        if r.1 is None {
            lemma_run_push(n, r.0, xs.drop_first(), a, t + 1);
        }
    }
}

/// Replays turn by turn: the replay of the first `t + 1` actions is the
/// replay of the first `t` followed by action `t`, unless an earlier action
/// already ended it with an error, which then stays the outcome.
pub proof fn lemma_replay_next_turn(b: Seq<Seq<char>>, n: usize, acts: Seq<Action>, t: nat)
    requires
        t < acts.len(),
    ensures
        replay(b, n, acts, t + 1) == ({
            let r = replay(b, n, acts, t);
            if r.1 is Some {
                r
            } else {
                let q = step(n, r.0, acts[t as int]);
                (q.0, match q.1 {
                    Some(e) => Some((e, t)),
                    None => None,
                })
            }
        }),
{
    let xs = acts.take(t as int);
    assert(first_turns(acts, t + 1) =~= xs.push(acts[t as int]));
    assert(first_turns(acts, t) =~= xs);
    lemma_run_push(n, initial_state(b, n), xs, acts[t as int], 0);
}

/// An error is final: once the replay of the first `t1` actions has stopped on
/// an error, the replay of any longer prefix ends in the same state with the
/// same error.
pub proof fn lemma_replay_error_is_final(b: Seq<Seq<char>>, n: usize, acts: Seq<Action>, t1: nat, t2: nat)
    requires
        t1 <= t2,
        replay(b, n, acts, t1).1 is Some,
    ensures
        replay(b, n, acts, t2) == replay(b, n, acts, t1),
    decreases t2 - t1,
{
    if t1 < t2 {
        lemma_replay_error_is_final(b, n, acts, t1, (t2 - 1) as nat);
        if t2 - 1 < acts.len() {
            lemma_replay_next_turn(b, n, acts, (t2 - 1) as nat);
        } else {
            assert(first_turns(acts, t2) == first_turns(acts, (t2 - 1) as nat));
        }
    }
}

/// Turns past the last action show the whole replay.
pub proof fn lemma_replay_past_end(b: Seq<Seq<char>>, n: usize, acts: Seq<Action>, turn: nat)
    requires
        turn >= acts.len(),
    ensures
        replay(b, n, acts, turn) == replay(b, n, acts, acts.len()),
{
}

/// `Move` moves the worker alone: it never changes the grid or the count of
/// dropped ores.
pub proof fn lemma_move_keeps_grid(n: usize, s: SimState, d: usize)
    ensures
        step(n, s, Action::Move(d)).0.0 == s.0,
        step(n, s, Action::Move(d)).0.2 == s.2,
        step(n, s, Action::Move(d)).0.1 == step_pos(s.1, d),
{
}

/// What a run needs at its start: the rows cover the grid, directions are
/// valid, and the worker stands on the grid, or the grid is empty and the
/// worker's cell exists unless the next action is a `Move`.
pub open spec fn run_ready(n: usize, s: SimState, acts: Seq<Action>) -> bool {
    &&& grid_covers(s.0, n)
    &&& forall|k: int| 0 <= k < acts.len() ==> #[trigger] acts[k].dir() < 4
    &&& in_board(n, s.1) || (n == 0 && (acts.len() > 0 && !(acts[0] is Move) ==> readable(s.0, s.1)))
}

/// Over a whole run, ores on the grid plus ores dropped into their holes
/// never grow.
pub proof fn lemma_run_no_new_ores(n: usize, s: SimState, acts: Seq<Action>, t: nat)
    requires
        run_ready(n, s, acts),
    ensures
        run(n, s, acts, t).0.2 + ore_count(run(n, s, acts, t).0.0, n) <= s.2 + ore_count(s.0, n),
    decreases acts.len(),
{
    if acts.len() > 0 {
        let a = acts[0];
        assert(a.dir() < 4);
        lemma_step_no_new_ores(n, s, a);
        let r = step(n, s, a);
        if r.1 is None {
            let rest = acts.drop_first();
            assert forall|k: int| 0 <= k < rest.len() implies #[trigger] rest[k].dir() < 4 by {
                assert(rest[k] == acts[k + 1]);
            }
            if !in_board(n, r.0.1) && rest.len() > 0 && !(rest[0] is Move) {
                // On an empty grid only a roll keeps the worker in place; it
                // needed the worker's cell, which keeps existing.
                assert(readable(s.0, s.1));
                assert(readable(r.0.0, r.0.1));
            }
            lemma_run_no_new_ores(n, r.0, rest, t + 1);
        }
    }
}

/// Ores dropped into holes of their kind never outnumber the ores that were
/// on the grid at the start.
pub proof fn lemma_delivered_at_most_ores(b: Seq<Seq<char>>, n: usize, acts: Seq<Action>, turn: nat)
    requires
        replayable(b, n, first_turns(acts, turn)),
    ensures
        replay(b, n, acts, turn).0.2 <= ore_count(b, n),
{
    lemma_start_pos_on_board(b, n);
    lemma_run_no_new_ores(n, initial_state(b, n), first_turns(acts, turn), 0);
}


/// The cell `k` steps from `p` in direction `d`.
pub open spec fn steps_from(p: Pos, d: usize, k: nat) -> Pos
    decreases k,
{
    if k == 0 {
        p
    } else {
        steps_from(step_pos(p, d), d, (k - 1) as nat)
    }
}

/// A roll whose path from `crt` crosses `k - 1` cells that hold neither an
/// item nor a hole and then reaches a hole leaves the grid as it is, and
/// scores exactly when the hole is the uppercase letter of the item.
proof fn lemma_roll_path_to_hole(n: usize, b: Seq<Seq<char>>, crt: Pos, d: usize, c: char, k: nat)
    requires
        k >= 1,
        forall|j: nat| 1 <= j < k ==> in_board(n, #[trigger] steps_from(crt, d, j)) && {
            let ch = cell(b, steps_from(crt, d, j));
            !(('a' <= ch && ch <= 'z') || ch == '@') && !('A' <= ch && ch <= 'Z')
        },
        in_board(n, steps_from(crt, d, k)),
        ({
            let ch = cell(b, steps_from(crt, d, k));
            ('A' <= ch && ch <= 'Z')
        }),
    ensures
        roll(n, b, crt, d, c) == (b, if cell(b, steps_from(crt, d, k)) as u32 + 32 == c as u32 { 1nat } else { 0nat }),
    decreases k,
{
    let nx = step_pos(crt, d);
    assert(steps_from(crt, d, 1) == nx) by {
        assert(steps_from(nx, d, 0) == nx);
    }
    if k > 1 {
        assert forall|j: nat| 1 <= j < (k - 1) as nat implies in_board(n, #[trigger] steps_from(nx, d, j)) && {
            let ch = cell(b, steps_from(nx, d, j));
            !(('a' <= ch && ch <= 'z') || ch == '@') && !('A' <= ch && ch <= 'Z')
        } by {
            assert(steps_from(crt, d, j + 1) == steps_from(nx, d, j));
        }
        assert(steps_from(crt, d, k) == steps_from(nx, d, (k - 1) as nat));
        lemma_roll_path_to_hole(n, b, nx, d, c, (k - 1) as nat);
    }
}

/// A roll that reaches a hole takes the item off the grid, rock or ore: the
/// grid afterwards is the grid before with only the worker's cell emptied,
/// the worker stays, and the count of dropped ores grows by one exactly when
/// the hole is the uppercase letter of the rolled ore (its code plus 32 is
/// the ore's); an item dropped into any other hole scores nothing.
pub proof fn lemma_roll_into_hole(n: usize, s: SimState, d: usize, k: nat)
    requires
        readable(s.0, s.1),
        ({
            let ch = cell(s.0, s.1);
            (('a' <= ch && ch <= 'z') || ch == '@')
        }),
        k >= 1,
        forall|j: nat| 1 <= j < k ==> in_board(n, #[trigger] steps_from(s.1, d, j)) && {
            let ch = s.0.update(s.1.0 as int, s.0[s.1.0 as int].update(s.1.1 as int, '.'))[steps_from(s.1, d, j).0 as int][steps_from(s.1, d, j).1 as int];
            !(('a' <= ch && ch <= 'z') || ch == '@') && !('A' <= ch && ch <= 'Z')
        },
        in_board(n, steps_from(s.1, d, k)),
        ({
            let ch = s.0.update(s.1.0 as int, s.0[s.1.0 as int].update(s.1.1 as int, '.'))[steps_from(s.1, d, k).0 as int][steps_from(s.1, d, k).1 as int];
            ('A' <= ch && ch <= 'Z')
        }),
    ensures
        ({
            let emptied = s.0.update(s.1.0 as int, s.0[s.1.0 as int].update(s.1.1 as int, '.'));
            let h = emptied[steps_from(s.1, d, k).0 as int][steps_from(s.1, d, k).1 as int];
            let c = s.0[s.1.0 as int][s.1.1 as int];
            step(n, s, Action::Roll(d)) == ((emptied, s.1, s.2 + if h as u32 + 32 == c as u32 { 1nat } else { 0nat }), Option::<SimError>::None)
        }),
{
    let b1 = set_cell(s.0, s.1, '.');
    lemma_roll_path_to_hole(n, b1, s.1, d, cell(s.0, s.1), k);
}

/// Carrying an item into a hole takes it off the grid: the worker's cell is
/// emptied, the worker moves onto the hole, and the count of dropped ores
/// grows by one exactly when the hole is the uppercase letter of the carried
/// ore.
pub proof fn lemma_carry_into_hole(n: usize, s: SimState, d: usize)
    requires
        readable(s.0, s.1),
        ({
            let ch = cell(s.0, s.1);
            (('a' <= ch && ch <= 'z') || ch == '@')
        }),
        in_board(n, step_pos(s.1, d)),
        ({
            let q = step_pos(s.1, d);
            let ch = s.0.update(s.1.0 as int, s.0[s.1.0 as int].update(s.1.1 as int, '.'))[q.0 as int][q.1 as int];
            ('A' <= ch && ch <= 'Z')
        }),
    ensures
        ({
            let emptied = s.0.update(s.1.0 as int, s.0[s.1.0 as int].update(s.1.1 as int, '.'));
            let q = step_pos(s.1, d);
            let h = emptied[q.0 as int][q.1 as int];
            let c = s.0[s.1.0 as int][s.1.1 as int];
            step(n, s, Action::Carry(d)) == ((emptied, q, s.2 + if h as u32 + 32 == c as u32 { 1nat } else { 0nat }), Option::<SimError>::None)
        }),
{
}

}
