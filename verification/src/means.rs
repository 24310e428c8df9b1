//! The means of players' ratings.

use crate::compute_ratings::Rating;
use crate::double;
use crate::double::Double;
use crate::roster::Roster;
use vstd::prelude::*;

verus! {

/// A player with an estimate of its rating.
pub trait Rated {
    /// The estimate.
    spec fn estimate(&self) -> Rating;

    /// The mean of the estimate.
    fn mean(&self) -> (mean: Double)
        ensures
            mean == self.estimate().mu,
    ;
}

/// The means of the players' ratings, in the order of the roster.
pub open spec fn means<P: Rated>(players: Seq<(Seq<char>, P)>) -> Seq<Double> {
    players.map_values(|e: (Seq<char>, P)| e.1.estimate().mu)
}

/// There is one mean for each player, and it is that of the player's estimate.
pub proof fn lemma_means<P: Rated>(players: Seq<(Seq<char>, P)>)
    ensures
        means(players).len() == players.len(),
        forall|i: int|
            0 <= i < players.len() ==> #[trigger] means(players)[i] == players[i].1.estimate().mu,
{
}

/// Lists the means of the players' ratings, in the order of the roster.
pub fn list_means<P: Rated>(players: &Roster<P>) -> (list: Vec<Double>)
    ensures
        list@ == means(players@),
{
    let mut list: Vec<Double> = Vec::new();
    let mut i: usize = 0;
    while i < players.len()
        invariant
            i <= players@.len(),
            list@.len() == i,
            forall|j: int| 0 <= j < i ==> #[trigger] list@[j] == players@[j].1.estimate().mu,
        decreases players@.len() - i,
    {
        list.push(players.get(i).mean());
        i += 1;
    }
    proof {
        assert(list@ =~= means(players@));
    }
    list
}

/// The means of the players' ratings, in ascending order: in this order they are to be
/// added up, so that the total does not depend on the order of the roster.
pub fn sorted_means<P: Rated>(players: &Roster<P>) -> (sorted: Vec<Double>)
    requires
        double::comparable(means(players@)),
    ensures
        double::is_ascending(means(players@), sorted@),
{
    double::ascending(list_means(players))
}

} // verus!
