//! The search for the place where a monotone function reaches a level: a hybrid of
//! binary search, to converge in the worst case, and Newton's method, for speed in the
//! typical case. The values of the function are computed elsewhere; here is decided what
//! to do with them.

use crate::double::Double;
use vstd::prelude::*;

verus! {

/// A search under way: the place lies between `lo` and `hi`, and `guess` is tried next.
#[derive(Clone, Copy)]
pub struct Search {
    pub lo: Double,
    pub hi: Double,
    pub guess: Double,
}

/// How far a search has come.
#[derive(Clone, Copy)]
pub enum Progress {
    /// The place is found.
    Found(Double),
    /// There is hardly anything left to search, and this is the best that is known.
    Stuck(Double),
    /// The next guess is to be tried.
    Open,
}

/// The larger of two numbers; what is no number does not count.
pub open spec fn larger(a: Double, b: Double) -> Double {
    if a.is_nan() || a.below(b) {
        b
    } else {
        a
    }
}

/// The smaller of two numbers; what is no number does not count.
pub open spec fn smaller(a: Double, b: Double) -> Double {
    if a.is_nan() || b.below(a) {
        b
    } else {
        a
    }
}

/// One number is at most another.
pub open spec fn at_most(a: Double, b: Double) -> bool {
    !a.is_nan() && !b.is_nan() && a.key() <= b.key()
}

/// The next guess: the one that Newton's method proposes, kept between two limits.
pub fn confine(proposal: Double, low_limit: Double, high_limit: Double) -> (next: Double)
    ensures
        next == smaller(larger(proposal, low_limit), high_limit),
        at_most(low_limit, high_limit) ==> at_most(low_limit, next) && at_most(next, high_limit),
        next == proposal || next == low_limit || next == high_limit,
        !proposal.is_nan() && !low_limit.is_nan() && !high_limit.is_nan() ==> {
            &&& !proposal.below(low_limit) && !high_limit.below(proposal) ==> next == proposal
            &&& proposal.below(low_limit) && !high_limit.below(low_limit) ==> next == low_limit
            &&& high_limit.below(proposal) ==> next == high_limit
            &&& high_limit.below(low_limit) ==> next == high_limit
        },
        proposal.is_nan() && !low_limit.is_nan() && !high_limit.below(low_limit) ==> next
            == low_limit,
{
    let raised = if proposal.nan() || proposal.less(&low_limit) {
        low_limit
    } else {
        proposal
    };
    if raised.nan() || high_limit.less(&raised) {
        high_limit
    } else {
        raised
    }
}

impl Search {
    /// The search once it is known on which side of the guess the place lies: the part
    /// on the other side is given up.
    pub open spec fn narrowed(self, place_below: bool) -> Search {
        if place_below {
            Search { hi: self.guess, ..self }
        } else {
            Search { lo: self.guess, ..self }
        }
    }

    /// Narrows the search for the place where a rising function reaches a level, by the
    /// value that it has at the guess.
    pub fn narrow_rising(&mut self, value: Double, level: Double)
        ensures
            *final(self) == old(self).narrowed(level.below(value)),
            level.below(value) ==> final(self).hi == old(self).guess && final(self).lo == old(
                self,
            ).lo,
            !level.below(value) ==> final(self).lo == old(self).guess && final(self).hi == old(
                self,
            ).hi,
            final(self).guess == old(self).guess,
    {
        if level.less(&value) {
            self.hi = self.guess;
        } else {
            self.lo = self.guess;
        }
    }

    /// Narrows the search for the place where a falling function reaches a level, by the
    /// value that it has at the guess.
    pub fn narrow_falling(&mut self, value: Double, level: Double)
        ensures
            *final(self) == old(self).narrowed(!level.below(value)),
            level.below(value) ==> final(self).lo == old(self).guess && final(self).hi == old(
                self,
            ).hi,
            !level.below(value) ==> final(self).hi == old(self).guess && final(self).lo == old(
                self,
            ).lo,
            final(self).guess == old(self).guess,
    {
        if level.less(&value) {
            self.lo = self.guess;
        } else {
            self.hi = self.guess;
        }
    }

    /// Ends the search with the next guess if the error at the last one is below the
    /// tolerance, or else if the width that is left to search is below its minimum;
    /// otherwise goes on with the next guess.
    pub fn settle(
        &mut self,
        next: Double,
        error: Double,
        tolerance: Double,
        width: Double,
        min_width: Double,
    ) -> (progress: Progress)
        ensures
            progress == (if error.below(tolerance) {
                Progress::Found(next)
            } else if width.below(min_width) {
                Progress::Stuck(next)
            } else {
                Progress::Open
            }),
            *final(self) == (if progress is Open {
                Search { guess: next, ..*old(self) }
            } else {
                *old(self)
            }),
    {
        if error.less(&tolerance) {
            return Progress::Found(next);
        }
        if width.less(&min_width) {
            return Progress::Stuck(next);
        }
        self.guess = next;
        Progress::Open
    }
}

/// Of three numbers, the proposal is kept if it lies between the limits, and otherwise the
/// limit that it lies beyond takes its place; the high limit has the last word. What is no
/// number gives way to the low limit.
pub proof fn lemma_confined(proposal: Double, low_limit: Double, high_limit: Double)
    requires
        !low_limit.is_nan(),
        !high_limit.is_nan(),
    ensures
        ({
            let next = smaller(larger(proposal, low_limit), high_limit);
            &&& !proposal.is_nan() && !proposal.below(low_limit) && !high_limit.below(proposal)
                ==> next == proposal
            &&& !high_limit.below(low_limit) && (proposal.is_nan() || proposal.below(low_limit))
                ==> next == low_limit
            &&& high_limit.below(proposal) || high_limit.below(low_limit) ==> next == high_limit
        }),
{
}

/// Of a number and what is no number, the number is both the larger and the smaller one.
pub proof fn lemma_no_number_ignored(a: Double, b: Double)
    ensures
        a.is_nan() ==> larger(a, b) == b && smaller(a, b) == b,
        !a.is_nan() && b.is_nan() ==> larger(a, b) == a && smaller(a, b) == a,
        a.below(b) ==> larger(a, b) == b && smaller(a, b) == a,
        b.below(a) ==> larger(a, b) == a && smaller(a, b) == b,
{
}

/// Of the two sides of the guess, the one on which the place does not lie is given up, and
/// the guess becomes its end; the other end, and the guess, stay.
pub proof fn lemma_side_given_up(search: Search)
    ensures
        search.narrowed(true).lo == search.lo,
        search.narrowed(true).hi == search.guess,
        search.narrowed(true).guess == search.guess,
        search.narrowed(false).lo == search.guess,
        search.narrowed(false).hi == search.hi,
        search.narrowed(false).guess == search.guess,
{
}

/// The guess lies within what is left to search.
pub open spec fn brackets(search: Search) -> bool {
    at_most(search.lo, search.guess) && at_most(search.guess, search.hi)
}

/// Narrowing a search never widens it, and leaves the guess at one of its ends.
pub proof fn lemma_narrowing(before: Search, place_below: bool)
    requires
        brackets(before),
    ensures
        brackets(before.narrowed(place_below)),
        at_most(before.lo, before.narrowed(place_below).lo),
        at_most(before.narrowed(place_below).hi, before.hi),
        place_below ==> before.narrowed(place_below).hi == before.guess,
        !place_below ==> before.narrowed(place_below).lo == before.guess,
{
}

/// Where the limits lie to both sides of the guess within the search, and the proposal
/// is on the side where the place lies, the next guess is again within what is left to
/// search.
pub proof fn lemma_next_guess(
    before: Search,
    place_below: bool,
    proposal: Double,
    low_limit: Double,
    high_limit: Double,
)
    requires
        at_most(before.lo, low_limit),
        at_most(low_limit, before.guess),
        at_most(before.guess, high_limit),
        at_most(high_limit, before.hi),
        place_below ==> at_most(proposal, before.guess),
        !place_below ==> at_most(before.guess, proposal),
    ensures
        brackets(
            Search {
                guess: smaller(larger(proposal, low_limit), high_limit),
                ..before.narrowed(place_below)
            },
        ),
{
}

} // verus!
