//! A contest as the rating computation sees it.

use vstd::prelude::*;

verus! {

/// A rated contest.
#[derive(Debug)]
pub struct Contest {
    /// The number under which the contest is known.
    pub id: usize,
    /// The number of seconds from the Unix Epoch to the end of the contest.
    pub time_seconds: u64,
    /// The list of standings, containing a name and the enclosing range of ties.
    pub standings: Vec<(String, usize, usize)>,
}

} // verus!
