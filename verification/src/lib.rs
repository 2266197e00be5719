//! A constraint-grid puzzle engine: candidate tracking over a rectangular
//! grid, a randomized backtracking generator, an exhaustive counting solver,
//! a uniqueness classifier, and a clue-reduction search.

use vstd::prelude::*;

pub mod bitset;
pub mod builder;
pub mod clock;
pub mod controller;
pub mod counting;
pub mod distinct;
pub mod grid;
pub mod random;
pub mod rules;
pub mod runner;
pub mod solver;
pub mod text_grid;

verus! {

/// The sentinel stored in a cell that has not been assigned a value yet.
pub const NO_VALUE: u8 = 0;

/// Default symbol alphabet for grids whose largest value is at most nine.
pub const SYMBOLS_STANDARD: &'static str = "123456789";

/// Default symbol alphabet for larger grids, up to thirty-six values.
pub const SYMBOLS_EXTENDED: &'static str = "0123456789ABCDEFGHIJKLMNOPQRSTUVWXYZ";

/// Turns a symbol alphabet into one character per value, in order.
pub fn gen_char_array(str: &str) -> (v: Vec<char>)
    ensures
        v@ == str@,
{
    let mut v: Vec<char> = Vec::new();
    for c in it: str.chars()
        invariant
            v@ == it.seq().take(it.index() as int),
    {
        v.push(c);
    }
    proof {
        assert(v@ =~= str@);
    }
    v
}

} // verus!
