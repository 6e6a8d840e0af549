//! The puzzle's instance and answer types, and the grid they describe.
use vstd::prelude::*;
use crate::text::rows_view;

verus! {

/// An instance: an `N` by `N` grid of cells and the number `M` of ore kinds.
/// A cell is `'@'` (a rock), `'a'..='z'` (an ore), `'A'..='Z'` (a hole) or
/// `'.'` (empty); the worker starts on hole `'A'`.
#[derive(Clone, Debug)]
pub struct Input {
    pub N: usize,
    pub M: usize,
    pub cs: Vec<Vec<char>>,
}

/// One move of the worker, with a direction index into `U`, `D`, `L`, `R`.
/// - `Move(d)`: the worker steps alone;
/// - `Carry(d)`: the worker carries the item under it one cell;
/// - `Roll(d)`: the item under it rolls until it hits something or drops.
#[derive(Clone, Copy, Debug, PartialEq, Eq, Structural)]
pub enum Action {
    Move(usize),
    Carry(usize),
    Roll(usize),
}

/// An answer: the sequence of actions.
pub struct Output {
    pub out: Vec<Action>,
}

impl Input {
    /// The grid as rows of characters.
    pub open spec fn board(&self) -> Seq<Seq<char>> {
        rows_view(self.cs@)
    }
}

impl Action {
    /// The direction index of an action.
    pub open spec fn dir(self) -> usize {
        match self {
            Action::Move(d) => d,
            Action::Carry(d) => d,
            Action::Roll(d) => d,
        }
    }
}

/// The direction whose letter is `c`, if any.
pub open spec fn letter_dir(c: char) -> Option<usize> {
    if c == 'U' {
        Some(0)
    } else if c == 'D' {
        Some(1)
    } else if c == 'L' {
        Some(2)
    } else if c == 'R' {
        Some(3)
    } else {
        None
    }
}

/// The direction whose letter is `c`, if any.
pub fn direction_of(c: char) -> (d: Option<usize>)
    ensures
        d == letter_dir(c),
{
    if c == 'U' {
        Some(0)
    } else if c == 'D' {
        Some(1)
    } else if c == 'L' {
        Some(2)
    } else if c == 'R' {
        Some(3)
    } else {
        None
    }
}

}
