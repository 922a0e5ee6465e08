//! Where the table of the analysis is kept.

use vstd::prelude::*;
use crate::coding::n_codes;
use crate::state::{State, Status};
use crate::table::Table;
use crate::utils::nboards;

verus! {

/// A table that is held in memory as a whole.
pub struct NaiveRAM {
    data: Vec<State>,
}

impl NaiveRAM {
    /// A table with one unstable state for each code.
    pub fn new() -> (res: NaiveRAM)
        ensures
            res.states().len() == n_codes(),
            forall|c: int|
                0 <= c < n_codes() ==> #[trigger] res.states()[c] == Status::Unstable(i8::MIN, 0),
    {
        let len = nboards();
        let mut data: Vec<State> = Vec::new();
        let mut i: usize = 0;
        while i < len
            invariant
                i <= len,
                data@.len() == i,
                forall|c: int| 0 <= c < i ==> (#[trigger] data@[c])@ == Status::Unstable(i8::MIN,
                    0),
            decreases len - i,
        {
            data.push(State::default());
            i = i + 1;
        }
        NaiveRAM { data }
    }

    /// The number of states in the table.
    pub fn len(&self) -> (res: usize)
        ensures
            res == self.states().len(),
    {
        self.data.len()
    }
}

impl Table for NaiveRAM {
    closed spec fn states(&self) -> Seq<Status> {
        self.data@.map_values(|s: State| s@)
    }

    fn get(&self, i: usize) -> (res: State) {
        self.data[i]
    }

    fn insert(&mut self, i: usize, s: State) {
        self.data[i] = s;
        assert(self.states() =~= old(self).states().update(i as int, s@));
    }

    fn pre_hook(&mut self, n: usize) {
    }

    fn post_hook(&mut self, n: usize) {
    }

    fn finish_hook(&mut self) {
    }
}

} // verus!
