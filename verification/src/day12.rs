//! Hill climbing: the fewest steps from a start to the end of a grid of
//! elevations, where a step may descend freely but climb at most one unit.

pub mod frontier;
pub mod grid;
pub mod laws;
pub mod load;
pub mod search;
pub mod terrain;

use load::{parse, puzzle_of, LoadError};
use search::{multi_origin, single_origin};
use vstd::prelude::*;
use vstd::string::StringSliceAdditionalSpecFns;

verus! {

/// Why a text has no answer.
#[derive(Clone, Copy, Debug, PartialEq, Eq)]
pub enum Error {
    /// The text does not describe a puzzle.
    Input(LoadError),
    /// The puzzle's end cannot be reached.
    NoPath,
}

/// The fewest steps to the end of the puzzle that `input` describes: from its
/// start, or, with `part2`, from any cell of lowest elevation.
pub fn compute(input: &str, part2: bool) -> (r: Result<usize, Error>)
    ensures
        match puzzle_of(input.spec_bytes()) {
            Err(e) => r == Err::<usize, Error>(Error::Input(e)),
            Ok(p) => match r {
                Ok(d) => p.terrain.distance(p.origins(part2), p.end) == Some(d as nat),
                Err(e) => e == Error::NoPath && p.terrain.distance(p.origins(part2), p.end)
                    is None,
            },
        },
{
    let puzzle = match parse(input) {
        Ok(puzzle) => puzzle,
        Err(e) => {
            return Err(Error::Input(e));
        },
    };
    let found = if part2 {
        multi_origin(&puzzle.grid, puzzle.end)
    } else {
        single_origin(&puzzle.grid, puzzle.start, puzzle.end)
    };
    match found {
        Ok(d) => Ok(d),
        Err(_) => Err(Error::NoPath),
    }
}

} // verus!
