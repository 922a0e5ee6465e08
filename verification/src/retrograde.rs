//! The analysis as a whole, over a table in memory.

use vstd::prelude::*;
use crate::coding::n_codes;
use crate::ra::Driver;
use crate::state::Status;
use crate::sound::{solved, sound};
use crate::storage::NaiveRAM;
use crate::table::{bounded_below, ceiling, is_class, stable_class, Table};
use crate::SEEDS;

verus! {

/// Fills a table in memory with the scores of all boards and returns it.
/// The board without seeds has score `0`; every score or bound fits its
/// class; every board with an even number of seeds is stable, and its
/// score is the worth of its best move; a board with an odd number of
/// seeds that is stable has a score that none of its moves beats; and a
/// board that is still unstable has a negative bound and awaits a
/// successor.
pub fn analysis() -> (res: NaiveRAM)
    ensures
        res.states().len() == n_codes(),
        res.states()[0] == Status::Stable(0),
        bounded_below(res.states(), SEEDS + 1),
        forall|m: int| is_class(m) && m % 2 == 0 ==> #[trigger] stable_class(res.states(), m),
        forall|m: int| is_class(m) && m % 2 == 1 ==> #[trigger] ceiling(res.states(), m, -1),
        forall|m: int| is_class(m) && m % 2 == 0 ==> #[trigger] solved(res.states(), m),
        forall|m: int| is_class(m) && m % 2 == 1 ==> #[trigger] sound(res.states(), m, 1,
            Seq::empty()),
{
    let mut driver = Driver { table: NaiveRAM::new() };
    driver.run();
    driver.table
}

} // verus!
