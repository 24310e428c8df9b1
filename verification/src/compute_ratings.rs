//! Players with their rating histories, and what a contest does to them.
//!
//! The library keeps the books: who is rated, what is remembered of each player, and in
//! which order. Numbers that come out of floating-point arithmetic are handed in.

use crate::contest_config::Contest;
use crate::double::Double;
use crate::means::Rated;
use crate::roster;
use crate::roster::Roster;
use std::collections::VecDeque;
use vstd::hash_map::StringHashMap;
use vstd::prelude::*;

verus! {

/// The bits of 1500: the rating for a new player.
pub const MU_NEWBIE_BITS: u64 = 0x4097_7000_0000_0000;

/// The bits of 350: the uncertainty for a new player.
pub const SIG_NEWBIE_BITS: u64 = 0x4075_e000_0000_0000;

/// The conservative rating of a new player: 1500 less twice what 350 is over 100.
pub const NEWBIE_RATING: i32 = 1000;

/// The maximum number of recent performances to keep.
pub const MAX_HISTORY_LEN: usize = 500;

#[derive(Clone, Copy, Debug)]
pub struct Rating {
    pub mu: Double,
    pub sig: Double,
}

impl PartialEq for Rating {
    fn eq(&self, other: &Self) -> (result: bool) {
        self.mu == other.mu && self.sig == other.sig
    }
}

impl vstd::std_specs::cmp::PartialEqSpecImpl for Rating {
    open spec fn obeys_eq_spec() -> bool {
        true
    }

    /// Both numbers are the same, as numbers.
    open spec fn eq_spec(&self, other: &Self) -> bool {
        self.mu.equals(other.mu) && self.sig.equals(other.sig)
    }
}

#[derive(Clone)]
pub struct Player {
    pub normal_factor: Rating,
    pub logistic_factors: VecDeque<Rating>,
    pub approx_posterior: Rating,
    pub num_contests: usize,
    pub max_rating: i32,
    pub last_rating: i32,
    pub last_contest: usize,
    pub last_contest_time: u64,
}

/// What a player's record holds.
pub struct PlayerModel {
    pub normal_factor: Rating,
    pub logistic_factors: Seq<Rating>,
    pub approx_posterior: Rating,
    pub num_contests: int,
    pub max_rating: int,
    pub last_rating: int,
    pub last_contest: int,
    pub last_contest_time: int,
}

impl Rated for Player {
    open spec fn estimate(&self) -> Rating {
        self.approx_posterior
    }

    fn mean(&self) -> (mean: Double) {
        self.approx_posterior.mu
    }
}

impl View for Player {
    type V = PlayerModel;

    open spec fn view(&self) -> PlayerModel {
        PlayerModel {
            normal_factor: self.normal_factor,
            logistic_factors: self.logistic_factors@,
            approx_posterior: self.approx_posterior,
            num_contests: self.num_contests as int,
            max_rating: self.max_rating as int,
            last_rating: self.last_rating as int,
            last_contest: self.last_contest as int,
            last_contest_time: self.last_contest_time as int,
        }
    }
}

impl PlayerModel {
    /// A player who has not played yet.
    pub open spec fn with_rating(mu: Double, sig: Double) -> PlayerModel {
        PlayerModel {
            normal_factor: Rating { mu, sig },
            logistic_factors: Seq::empty(),
            approx_posterior: Rating { mu, sig },
            num_contests: 0,
            max_rating: 0,
            last_rating: 0,
            last_contest: 0,
            last_contest_time: 0,
        }
    }

    /// A new player.
    pub open spec fn newcomer() -> PlayerModel {
        PlayerModel::with_rating(Double { bits: MU_NEWBIE_BITS }, Double { bits: SIG_NEWBIE_BITS })
    }

    /// The record does not hold more performances than are kept.
    pub open spec fn wf(self) -> bool {
        self.logistic_factors.len() <= MAX_HISTORY_LEN
    }

    /// The record once the player has entered a contest, with the conservative rating
    /// that the player has at that time.
    pub open spec fn entered(self, contest: Contest, rating: int) -> PlayerModel {
        PlayerModel {
            num_contests: self.num_contests + 1,
            last_contest: contest.id as int,
            last_contest_time: contest.time_seconds as int,
            last_rating: rating,
            ..self
        }
    }
}

/// The history with one more performance: where it is full, the oldest one leaves.
pub open spec fn remember(history: Seq<Rating>, rating: Rating) -> Seq<Rating> {
    if history.len() == MAX_HISTORY_LEN {
        history.drop_first().push(rating)
    } else {
        history.push(rating)
    }
}

/// The history after some performances, one after the other.
pub open spec fn remember_all(history: Seq<Rating>, ratings: Seq<Rating>) -> Seq<Rating>
    decreases ratings.len(),
{
    if ratings.len() == 0 {
        history
    } else {
        remember(remember_all(history, ratings.drop_last()), ratings.last())
    }
}

/// The last items of a sequence, as many as are kept.
pub open spec fn newest(all: Seq<Rating>) -> Seq<Rating> {
    if all.len() <= MAX_HISTORY_LEN {
        all
    } else {
        all.skip(all.len() - MAX_HISTORY_LEN)
    }
}

/// However many performances follow, the history holds the newest of all, in order, and
/// no more than are kept.
pub proof fn lemma_newest_remembered(history: Seq<Rating>, ratings: Seq<Rating>)
    requires
        history.len() <= MAX_HISTORY_LEN,
    ensures
        remember_all(history, ratings) == newest(history + ratings),
        remember_all(history, ratings).len() <= MAX_HISTORY_LEN,
    decreases ratings.len(),
{
    if ratings.len() == 0 {
        assert(history + ratings =~= history);
    } else {
        lemma_newest_remembered(history, ratings.drop_last());
        let all = history + ratings;
        assert(all =~= (history + ratings.drop_last()).push(ratings.last()));
        assert(remember_all(history, ratings) =~= newest(all));
    }
}

/// However many performances follow, at most 500 are remembered, and none is forgotten while
/// there is room. They are the newest ones: counted from the last, each is the one that
/// came as many places before the last.
pub proof fn lemma_last_five_hundred(history: Seq<Rating>, ratings: Seq<Rating>)
    requires
        history.len() <= 500,
    ensures
        ({
            let kept = remember_all(history, ratings);
            let total = history.len() + ratings.len();
            &&& total <= 500 ==> kept.len() == total
            &&& total > 500 ==> kept.len() == 500
            &&& forall|i: int|
                1 <= i <= kept.len() && i <= ratings.len() ==> #[trigger] kept[kept.len() - i]
                    == ratings[ratings.len() - i]
            &&& forall|i: int|
                1 <= i <= kept.len() && i > ratings.len() ==> #[trigger] kept[kept.len() - i]
                    == history[total - i]
        }),
{
    lemma_newest_remembered(history, ratings);
}

/// A new player: a rating of 1500 with an uncertainty of 350, and nothing else on record.
pub proof fn lemma_newcomer()
    ensures
        PlayerModel::newcomer().approx_posterior.mu.bits == 0x4097_7000_0000_0000,
        PlayerModel::newcomer().approx_posterior.sig.bits == 0x4075_e000_0000_0000,
        PlayerModel::newcomer().normal_factor.mu.bits == 0x4097_7000_0000_0000,
        PlayerModel::newcomer().normal_factor.sig.bits == 0x4075_e000_0000_0000,
        PlayerModel::newcomer().logistic_factors.len() == 0,
        PlayerModel::newcomer().num_contests == 0,
        PlayerModel::newcomer().max_rating == 0,
        PlayerModel::newcomer().last_rating == 0,
        PlayerModel::newcomer().last_contest == 0,
        PlayerModel::newcomer().last_contest_time == 0,
{
}

/// A player who starts with a rating has it both as the estimate and as what is known of the
/// time before, and has nothing else on record.
pub proof fn lemma_fresh_record(mu: Double, sig: Double)
    ensures
        PlayerModel::with_rating(mu, sig).approx_posterior.mu == mu,
        PlayerModel::with_rating(mu, sig).approx_posterior.sig == sig,
        PlayerModel::with_rating(mu, sig).normal_factor.mu == mu,
        PlayerModel::with_rating(mu, sig).normal_factor.sig == sig,
        PlayerModel::with_rating(mu, sig).logistic_factors.len() == 0,
        PlayerModel::with_rating(mu, sig).num_contests == 0,
        PlayerModel::with_rating(mu, sig).max_rating == 0,
        PlayerModel::with_rating(mu, sig).last_rating == 0,
        PlayerModel::with_rating(mu, sig).last_contest == 0,
        PlayerModel::with_rating(mu, sig).last_contest_time == 0,
{
}

/// The mean of the estimate that a player has at present is what counts as its mean.
pub proof fn lemma_estimate(player: Player)
    ensures
        player.estimate().mu == player.approx_posterior.mu,
        player.estimate().sig == player.approx_posterior.sig,
{
}

/// A record holds what the player does, field by field.
pub proof fn lemma_record(player: Player)
    ensures
        player@.normal_factor == player.normal_factor,
        player@.logistic_factors == player.logistic_factors@,
        player@.approx_posterior == player.approx_posterior,
        player@.num_contests == player.num_contests,
        player@.max_rating == player.max_rating,
        player@.last_rating == player.last_rating,
        player@.last_contest == player.last_contest,
        player@.last_contest_time == player.last_contest_time,
{
}

impl Player {
    pub fn with_rating(mu: Double, sig: Double) -> (player: Self)
        ensures
            player@ == PlayerModel::with_rating(mu, sig),
            player@.wf(),
            player.normal_factor.mu == mu,
            player.normal_factor.sig == sig,
            player.approx_posterior.mu == mu,
            player.approx_posterior.sig == sig,
            player.logistic_factors@.len() == 0,
            player.num_contests == 0,
            player.max_rating == 0,
            player.last_rating == 0,
            player.last_contest == 0,
            player.last_contest_time == 0,
    {
        let player = Player {
            normal_factor: Rating { mu, sig },
            logistic_factors: VecDeque::new(),
            approx_posterior: Rating { mu, sig },
            num_contests: 0,
            max_rating: 0,
            last_rating: 0,
            last_contest: 0,
            last_contest_time: 0,
        };
        proof {
            assert(player@.logistic_factors =~= Seq::empty());
        }
        player
    }

    /// The simplest noising method, in which the rating with uncertainty is a Markov
    /// state: the estimate, with its uncertainty enlarged to `noised_sig`, replaces all
    /// that is remembered.
    pub fn add_noise_and_collapse(&mut self, noised_sig: Double)
        ensures
            final(self)@ == (PlayerModel {
                approx_posterior: Rating { sig: noised_sig, ..old(self)@.approx_posterior },
                normal_factor: Rating { sig: noised_sig, ..old(self)@.approx_posterior },
                logistic_factors: Seq::empty(),
                ..old(self)@
            }),
            final(self)@.wf(),
            final(self).approx_posterior.mu == old(self).approx_posterior.mu,
            final(self).approx_posterior.sig == noised_sig,
            final(self).normal_factor.mu == old(self).approx_posterior.mu,
            final(self).normal_factor.sig == noised_sig,
            final(self).logistic_factors@.len() == 0,
            final(self).max_rating == old(self).max_rating,
            final(self).num_contests == old(self).num_contests,
            final(self).last_rating == old(self).last_rating,
            final(self).last_contest == old(self).last_contest,
            final(self).last_contest_time == old(self).last_contest_time,
    {
        self.approx_posterior.sig = noised_sig;
        self.normal_factor = self.approx_posterior;
        self.logistic_factors.clear();
    }

    /// Applies noise to one variable for which we have many estimates: each estimate
    /// gets a new uncertainty, and none changes its mode.
    pub fn rescale_sigmas(
        &mut self,
        normal_sig: Double,
        factor_sigs: &Vec<Double>,
        posterior_sig: Double,
    )
        requires
            factor_sigs@.len() == old(self)@.logistic_factors.len(),
        ensures
            final(self)@ == (PlayerModel {
                normal_factor: Rating { sig: normal_sig, ..old(self)@.normal_factor },
                logistic_factors: Seq::new(
                    old(self)@.logistic_factors.len(),
                    |i: int|
                        Rating { mu: old(self)@.logistic_factors[i].mu, sig: factor_sigs@[i] },
                ),
                approx_posterior: Rating { sig: posterior_sig, ..old(self)@.approx_posterior },
                ..old(self)@
            }),
            old(self)@.wf() ==> final(self)@.wf(),
            final(self).normal_factor.mu == old(self).normal_factor.mu,
            final(self).normal_factor.sig == normal_sig,
            final(self).approx_posterior.mu == old(self).approx_posterior.mu,
            final(self).approx_posterior.sig == posterior_sig,
            final(self).logistic_factors@.len() == old(self).logistic_factors@.len(),
            forall|i: int|
                0 <= i < old(self).logistic_factors@.len() ==> (
                #[trigger] final(self).logistic_factors@[i]).mu == old(
                    self,
                ).logistic_factors@[i].mu && final(self).logistic_factors@[i].sig
                    == factor_sigs@[i],
            final(self).max_rating == old(self).max_rating,
            final(self).num_contests == old(self).num_contests,
            final(self).last_rating == old(self).last_rating,
            final(self).last_contest == old(self).last_contest,
            final(self).last_contest_time == old(self).last_contest_time,
    {
        let mut factors: VecDeque<Rating> = VecDeque::new();
        let mut i: usize = 0;
        while i < self.logistic_factors.len()
            invariant
                *self == *old(self),
                factor_sigs@.len() == self.logistic_factors@.len(),
                i <= self.logistic_factors@.len(),
                factors@.len() == i,
                forall|j: int|
                    0 <= j < i ==> #[trigger] factors@[j] == (Rating {
                        mu: self.logistic_factors@[j].mu,
                        sig: factor_sigs@[j],
                    }),
            decreases self.logistic_factors@.len() - i,
        {
            factors.push_back(Rating { mu: self.logistic_factors[i].mu, sig: factor_sigs[i] });
            i += 1;
        }
        self.logistic_factors = factors;
        self.normal_factor.sig = normal_sig;
        self.approx_posterior.sig = posterior_sig;
        proof {
            assert(self@.logistic_factors =~= Seq::new(
                old(self)@.logistic_factors.len(),
                |i: int| Rating { mu: old(self)@.logistic_factors[i].mu, sig: factor_sigs@[i] },
            ));
        }
    }

    /// Takes in a new estimate, and the conservative rating that it comes to.
    pub fn recompute_posterior(&mut self, posterior: Rating, conservative_rating: i32)
        ensures
            final(self)@ == (PlayerModel {
                approx_posterior: posterior,
                max_rating: if conservative_rating > old(self)@.max_rating {
                    conservative_rating as int
                } else {
                    old(self)@.max_rating
                },
                ..old(self)@
            }),
            old(self)@.wf() ==> final(self)@.wf(),
            final(self).approx_posterior == posterior,
            final(self).max_rating >= old(self).max_rating,
            final(self).max_rating >= conservative_rating,
            final(self).max_rating == old(self).max_rating || final(self).max_rating
                == conservative_rating,
            final(self).normal_factor == old(self).normal_factor,
            final(self).logistic_factors@ == old(self).logistic_factors@,
            final(self).num_contests == old(self).num_contests,
            final(self).last_rating == old(self).last_rating,
            final(self).last_contest == old(self).last_contest,
            final(self).last_contest_time == old(self).last_contest_time,
    {
        self.approx_posterior = posterior;
        if conservative_rating > self.max_rating {
            self.max_rating = conservative_rating;
        }
    }

    /// The performance that has to make room before another one is remembered, if the
    /// history is full.
    pub fn displaced_performance(&self) -> (displaced: Option<Rating>)
        ensures
            displaced == (if self@.logistic_factors.len() == MAX_HISTORY_LEN {
                Some(self@.logistic_factors[0])
            } else {
                None
            }),
            displaced is Some <==> self.logistic_factors@.len() == 500,
            displaced is Some ==> displaced->0 == self.logistic_factors@[0],
    {
        if self.logistic_factors.len() == MAX_HISTORY_LEN {
            Some(self.logistic_factors[0])
        } else {
            None
        }
    }

    /// Remembers a performance. Where the history is full, the oldest performance leaves
    /// it: `merged` is the normal factor with that performance taken in.
    pub fn push_performance(&mut self, rating: Rating, merged: Option<Rating>)
        requires
            merged is Some <==> old(self)@.logistic_factors.len() == MAX_HISTORY_LEN,
        ensures
            final(self)@ == (PlayerModel {
                normal_factor: match merged {
                    Some(normal) => normal,
                    None => old(self)@.normal_factor,
                },
                logistic_factors: remember(old(self)@.logistic_factors, rating),
                ..old(self)@
            }),
            old(self)@.wf() ==> final(self)@.wf(),
            final(self).logistic_factors@.last() == rating,
            old(self).logistic_factors@.len() == 500 ==> {
                &&& final(self).logistic_factors@.len() == 500
                &&& forall|i: int|
                    0 <= i < 499 ==> #[trigger] final(self).logistic_factors@[i] == old(
                        self,
                    ).logistic_factors@[i + 1]
                &&& merged is Some && final(self).normal_factor == merged->0
            },
            old(self).logistic_factors@.len() != 500 ==> {
                &&& final(self).logistic_factors@.len() == old(self).logistic_factors@.len() + 1
                &&& forall|i: int|
                    0 <= i < old(self).logistic_factors@.len()
                        ==> #[trigger] final(self).logistic_factors@[i] == old(
                        self,
                    ).logistic_factors@[i]
                &&& final(self).normal_factor == old(self).normal_factor
            },
            final(self).approx_posterior == old(self).approx_posterior,
            final(self).max_rating == old(self).max_rating,
            final(self).num_contests == old(self).num_contests,
            final(self).last_rating == old(self).last_rating,
            final(self).last_contest == old(self).last_contest,
            final(self).last_contest_time == old(self).last_contest_time,
    {
        if let Some(normal) = merged {
            let _ = self.logistic_factors.pop_front();
            self.normal_factor = normal;
        }
        self.logistic_factors.push_back(rating);
        proof {
            assert(self@.logistic_factors =~= remember(old(self)@.logistic_factors, rating));
        }
    }
}

/// Enters a contest into a player's record, with the conservative rating that the
/// player has at that time.
pub fn update_player_metadata(player: &mut Player, contest: &Contest, conservative_rating: i32)
    requires
        old(player).num_contests < usize::MAX,
        old(player).last_contest_time <= contest.time_seconds,
    ensures
        final(player)@ == old(player)@.entered(*contest, conservative_rating as int),
        old(player)@.wf() ==> final(player)@.wf(),
        final(player).num_contests == old(player).num_contests + 1,
        final(player).last_contest == contest.id,
        final(player).last_contest_time == contest.time_seconds,
        final(player).last_rating == conservative_rating,
        final(player).normal_factor == old(player).normal_factor,
        final(player).logistic_factors@ == old(player).logistic_factors@,
        final(player).approx_posterior == old(player).approx_posterior,
        final(player).max_rating == old(player).max_rating,
{
    player.num_contests += 1;
    player.last_contest = contest.id;
    player.last_contest_time = contest.time_seconds;
    player.last_rating = conservative_rating;
}

/// The records of the players of a roster, under their handles.
pub open spec fn records(players: Seq<(Seq<char>, Player)>) -> Seq<(Seq<char>, PlayerModel)> {
    players.map_values(|e: (Seq<char>, Player)| (e.0, e.1@))
}

/// The handle is listed in the standings.
pub open spec fn listed(standings: Seq<(String, usize, usize)>, handle: Seq<char>) -> bool {
    exists|k: int| 0 <= k < standings.len() && (#[trigger] standings[k]).0@ == handle
}

/// No contestant is listed twice.
pub open spec fn listed_once(standings: Seq<(String, usize, usize)>) -> bool {
    forall|j: int, k: int|
        0 <= j < k < standings.len() ==> (#[trigger] standings[j]).0@ != (
        #[trigger] standings[k]).0@
}

/// The players, with the contestants who are new to the roster added behind, in the
/// order of the standings.
pub open spec fn enrolled(
    list: Seq<(Seq<char>, PlayerModel)>,
    standings: Seq<(String, usize, usize)>,
) -> Seq<(Seq<char>, PlayerModel)>
    decreases standings.len(),
{
    if standings.len() == 0 {
        list
    } else {
        let before = enrolled(list, standings.drop_last());
        let handle = standings.last().0@;
        if roster::has_handle(before, handle) {
            before
        } else {
            before.push((handle, PlayerModel::newcomer()))
        }
    }
}

/// The conservative rating of the player at a place, where `ratings` lists those of the
/// players who were there before the contest.
pub open spec fn rating_at(ratings: Seq<i32>, place: int) -> int {
    if place < ratings.len() {
        ratings[place] as int
    } else {
        NEWBIE_RATING as int
    }
}

/// The players once the contest is entered into the record of everyone who took part.
pub open spec fn entered(
    list: Seq<(Seq<char>, PlayerModel)>,
    contest: Contest,
    ratings: Seq<i32>,
) -> Seq<(Seq<char>, PlayerModel)> {
    let all = enrolled(list, contest.standings@);
    Seq::new(
        all.len(),
        |i: int|
            if listed(contest.standings@, all[i].0) {
                (all[i].0, all[i].1.entered(contest, rating_at(ratings, i)))
            } else {
                all[i]
            },
    )
}

/// The contest can be entered: no contestant is listed twice, and it is no older than
/// the last contest of anyone who took part.
pub open spec fn may_enter(players: Seq<(Seq<char>, Player)>, contest: Contest) -> bool {
    &&& listed_once(contest.standings@)
    &&& forall|i: int|
        0 <= i < players.len() && listed(contest.standings@, (#[trigger] players[i]).0) ==> {
            &&& players[i].1.num_contests < usize::MAX
            &&& players[i].1.last_contest_time <= contest.time_seconds
        }
}

/// `field` gives, for each contestant in turn, the place in the roster and the range of
/// ties.
pub open spec fn is_field(
    players: Seq<(Seq<char>, Player)>,
    standings: Seq<(String, usize, usize)>,
    field: Seq<(usize, usize, usize)>,
) -> bool {
    &&& field.len() == standings.len()
    &&& forall|k: int|
        0 <= k < field.len() ==> {
            &&& (#[trigger] field[k]).0 < players.len()
            &&& players[field[k].0 as int].0 == standings[k].0@
            &&& field[k].1 == standings[k].1
            &&& field[k].2 == standings[k].2
        }
}

/// The places in a field are places of the roster, none of them twice.
pub open spec fn field_of(size: nat, field: Seq<(usize, usize, usize)>) -> bool {
    &&& forall|k: int| 0 <= k < field.len() ==> (#[trigger] field[k]).0 < size
    &&& forall|j: int, k: int|
        0 <= j < k < field.len() ==> (#[trigger] field[j]).0 != (#[trigger] field[k]).0
}

/// A contest can be entered just if no two contestants share a handle, and nobody who takes
/// part has a later contest on record, or as many as can be counted.
pub proof fn lemma_may_enter(players: Seq<(Seq<char>, Player)>, contest: Contest)
    ensures
        may_enter(players, contest) <==> {
            &&& forall|j: int, k: int|
                0 <= j < k < contest.standings@.len() ==> (#[trigger] contest.standings@[j]).0@ != (
                #[trigger] contest.standings@[k]).0@
            &&& forall|i: int, k: int|
                #![trigger players[i], contest.standings@[k]]
                0 <= i < players.len() && 0 <= k < contest.standings@.len() && players[i].0
                    == contest.standings@[k].0@ ==> {
                    &&& players[i].1.num_contests < usize::MAX
                    &&& players[i].1.last_contest_time <= contest.time_seconds
                }
        },
{
    if may_enter(players, contest) {
        assert forall|i: int, k: int|
            #![trigger players[i], contest.standings@[k]]
            0 <= i < players.len() && 0 <= k < contest.standings@.len() && players[i].0
                == contest.standings@[k].0@ implies {
            &&& players[i].1.num_contests < usize::MAX
            &&& players[i].1.last_contest_time <= contest.time_seconds
        } by {
            assert(listed(contest.standings@, players[i].0));
        }
    }
}

/// Everyone listed, and everyone who was there before, has a record once newcomers are
/// enrolled, and nobody else has. Old records stay where they were, new ones are blank,
/// and no handle comes to occur twice.
pub proof fn lemma_enrolled(
    list: Seq<(Seq<char>, PlayerModel)>,
    standings: Seq<(String, usize, usize)>,
)
    ensures
        enrolled(list, standings).len() >= list.len(),
        forall|i: int|
            0 <= i < list.len() ==> #[trigger] enrolled(list, standings)[i] == list[i],
        forall|i: int|
            list.len() <= i < enrolled(list, standings).len() ==> (#[trigger] enrolled(
                list,
                standings,
            )[i]).1 == PlayerModel::newcomer(),
        forall|h: Seq<char>|
            #[trigger] roster::has_handle(enrolled(list, standings), h) <==> roster::has_handle(
                list,
                h,
            ) || listed(standings, h),
        roster::distinct(list) ==> roster::distinct(enrolled(list, standings)),
    decreases standings.len(),
{
    if standings.len() > 0 {
        let front = standings.drop_last();
        let before = enrolled(list, front);
        let handle = standings.last().0@;
        let after = enrolled(list, standings);
        lemma_enrolled(list, front);
        assert forall|h: Seq<char>| #[trigger] roster::has_handle(after, h) <==> roster::has_handle(
            list,
            h,
        ) || listed(standings, h) by {
            assert(listed(standings, h) <==> listed(front, h) || h == handle) by {
                if listed(front, h) {
                    let k = choose|k: int| 0 <= k < front.len() && (#[trigger] front[k]).0@ == h;
                    assert(standings[k].0@ == h);
                }
                if listed(standings, h) && h != handle {
                    let k = choose|k: int|
                        0 <= k < standings.len() && (#[trigger] standings[k]).0@ == h;
                    assert(front[k].0@ == h);
                }
                assert(standings[standings.len() - 1].0@ == handle);
            }
            if !roster::has_handle(before, handle) {
                assert(after =~= before.push((handle, PlayerModel::newcomer())));
                if roster::has_handle(before, h) {
                    let i = choose|i: int| 0 <= i < before.len() && (#[trigger] before[i]).0 == h;
                    assert(after[i].0 == h);
                }
                if h == handle {
                    assert(after[before.len() as int].0 == h);
                }
                if roster::has_handle(after, h) && h != handle {
                    let i = choose|i: int| 0 <= i < after.len() && (#[trigger] after[i]).0 == h;
                    assert(before[i].0 == h);
                }
            }
        }
        if roster::distinct(list) && !roster::has_handle(before, handle) {
            assert forall|i: int, j: int| 0 <= i < j < after.len() implies (
            #[trigger] after[i]).0 != (#[trigger] after[j]).0 by {
                assert(after[i] == before[i]);
                if j < before.len() {
                    assert(after[j] == before[j]);
                }
            }
        }
    }
}

/// Entering a contest reaches everyone listed, newcomers too, and nobody else: they have
/// it as their last contest, one more contest to their name, and the ratings that they
/// had. No history grows.
pub proof fn lemma_entered(
    list: Seq<(Seq<char>, PlayerModel)>,
    contest: Contest,
    ratings: Seq<i32>,
)
    ensures
        entered(list, contest, ratings).len() == enrolled(list, contest.standings@).len(),
        forall|h: Seq<char>|
            listed(contest.standings@, h) ==> #[trigger] roster::has_handle(
                entered(list, contest, ratings),
                h,
            ),
        forall|i: int|
            0 <= i < entered(list, contest, ratings).len() ==> {
                let before = enrolled(list, contest.standings@)[i];
                let after = #[trigger] entered(list, contest, ratings)[i];
                &&& after.0 == before.0
                &&& after.1.logistic_factors == before.1.logistic_factors
                &&& after.1.normal_factor == before.1.normal_factor
                &&& after.1.approx_posterior == before.1.approx_posterior
                &&& after.1.max_rating == before.1.max_rating
                &&& listed(contest.standings@, before.0) ==> {
                    &&& after.1.num_contests == before.1.num_contests + 1
                    &&& after.1.last_contest == contest.id
                    &&& after.1.last_contest_time == contest.time_seconds
                }
                &&& !listed(contest.standings@, before.0) ==> after == before && i < list.len()
                    && after == list[i]
            },
{
    let all = enrolled(list, contest.standings@);
    let done = entered(list, contest, ratings);
    lemma_enrolled(list, contest.standings@);
    assert forall|h: Seq<char>| listed(contest.standings@, h) implies #[trigger] roster::has_handle(
        done,
        h,
    ) by {
        assert(roster::has_handle(all, h));
        let i = choose|i: int| 0 <= i < all.len() && (#[trigger] all[i]).0 == h;
        assert(done[i].0 == h);
    }
    assert forall|i: int| list.len() <= i < all.len() implies listed(
        contest.standings@,
        (#[trigger] all[i]).0,
    ) by {
        lemma_newcomer_listed(list, contest.standings@, i);
    }
}

/// Whoever is new to the roster is listed.
proof fn lemma_newcomer_listed(
    list: Seq<(Seq<char>, PlayerModel)>,
    standings: Seq<(String, usize, usize)>,
    i: int,
)
    requires
        list.len() <= i < enrolled(list, standings).len(),
    ensures
        listed(standings, enrolled(list, standings)[i].0),
    decreases standings.len(),
{
    let front = standings.drop_last();
    if i < enrolled(list, front).len() {
        lemma_newcomer_listed(list, front, i);
        let h = enrolled(list, front)[i].0;
        let k = choose|k: int| 0 <= k < front.len() && (#[trigger] front[k]).0@ == h;
        assert(standings[k].0@ == h);
    } else {
        assert(standings[standings.len() - 1].0@ == standings.last().0@);
    }
}

/// Enrolls the contestants who are new to the roster.
fn enroll(players: &mut Roster<Player>, contest: &Contest)
    requires
        old(players).wf(),
    ensures
        final(players).wf(),
        records(final(players)@) == enrolled(records(old(players)@), contest.standings@),
        final(players)@.len() >= old(players)@.len(),
        forall|i: int|
            0 <= i < old(players)@.len() ==> #[trigger] final(players)@[i] == old(players)@[i],
        forall|i: int|
            old(players)@.len() <= i < final(players)@.len() ==> {
                let player = (#[trigger] final(players)@[i]).1;
                &&& player.approx_posterior.mu.bits == 0x4097_7000_0000_0000
                &&& player.approx_posterior.sig.bits == 0x4075_e000_0000_0000
                &&& player.normal_factor.mu.bits == 0x4097_7000_0000_0000
                &&& player.normal_factor.sig.bits == 0x4075_e000_0000_0000
                &&& player.logistic_factors@.len() == 0
                &&& player.num_contests == 0
            },
{
    let ghost list = records(players@);
    let mut k: usize = 0;
    proof {
        assert(contest.standings@.take(0) =~= Seq::empty());
    }
    while k < contest.standings.len()
        invariant
            players.wf(),
            k <= contest.standings@.len(),
            list == records(old(players)@),
            records(players@) == enrolled(list, contest.standings@.take(k as int)),
            players@.len() >= old(players)@.len(),
            forall|i: int|
                0 <= i < old(players)@.len() ==> #[trigger] players@[i] == old(players)@[i],
            forall|i: int|
                old(players)@.len() <= i < players@.len() ==> {
                    let player = (#[trigger] players@[i]).1;
                    &&& player.approx_posterior.mu.bits == 0x4097_7000_0000_0000
                    &&& player.approx_posterior.sig.bits == 0x4075_e000_0000_0000
                    &&& player.normal_factor.mu.bits == 0x4097_7000_0000_0000
                    &&& player.normal_factor.sig.bits == 0x4075_e000_0000_0000
                    &&& player.logistic_factors@.len() == 0
                    &&& player.num_contests == 0
                },
        decreases contest.standings@.len() - k,
    {
        let handle = &contest.standings[k].0;
        let ghost before = players@;
        proof {
            let taken = contest.standings@.take(k + 1);
            assert(taken.drop_last() =~= contest.standings@.take(k as int));
            assert(taken.last() == contest.standings@[k as int]);
            lemma_has_record(before, handle@);
        }
        if players.find(handle.as_str()).is_none() {
            let player = Player::with_rating(
                Double { bits: MU_NEWBIE_BITS },
                Double { bits: SIG_NEWBIE_BITS },
            );
            players.add(handle.clone(), player);
            proof {
                assert(records(players@) =~= records(before).push(
                    (handle@, PlayerModel::newcomer()),
                ));
            }
        } else {
            proof {
                assert(roster::has_handle(before, handle@));
            }
        }
        k += 1;
    }
    proof {
        assert(contest.standings@.take(k as int) =~= contest.standings@);
    }
}

/// A handle is in the roster just if it has a record.
proof fn lemma_has_record(players: Seq<(Seq<char>, Player)>, handle: Seq<char>)
    ensures
        roster::has_handle(players, handle) <==> roster::has_handle(records(players), handle),
{
    let list = records(players);
    if roster::has_handle(players, handle) {
        let i = choose|i: int| 0 <= i < players.len() && (#[trigger] players[i]).0 == handle;
        assert(list[i].0 == handle);
    }
    if roster::has_handle(list, handle) {
        let i = choose|i: int| 0 <= i < list.len() && (#[trigger] list[i]).0 == handle;
        assert(players[i].0 == handle);
    }
}

/// Tells whether a contest can be entered.
pub fn can_enter(players: &Roster<Player>, contest: &Contest) -> (result: bool)
    requires
        players.wf(),
    ensures
        result == may_enter(players@, *contest),
        result <==> {
            &&& forall|j: int, k: int|
                0 <= j < k < contest.standings@.len() ==> (#[trigger] contest.standings@[j]).0@ != (
                #[trigger] contest.standings@[k]).0@
            &&& forall|i: int, k: int|
                #![trigger players@[i], contest.standings@[k]]
                0 <= i < players@.len() && 0 <= k < contest.standings@.len() && players@[i].0
                    == contest.standings@[k].0@ ==> {
                    &&& players@[i].1.num_contests < usize::MAX
                    &&& players@[i].1.last_contest_time <= contest.time_seconds
                }
        },
{
    let mut seen: StringHashMap<bool> = StringHashMap::new();
    let mut k: usize = 0;
    proof {
        players.lemma_distinct();
    }
    while k < contest.standings.len()
        invariant
            players.wf(),
            roster::distinct(players@),
            k <= contest.standings@.len(),
            listed_once(contest.standings@.take(k as int)),
            forall|h: Seq<char>|
                #[trigger] seen@.contains_key(h) <==> listed(contest.standings@.take(k as int), h),
            forall|i: int|
                0 <= i < players@.len() && listed(
                    contest.standings@.take(k as int),
                    (#[trigger] players@[i]).0,
                ) ==> {
                    &&& players@[i].1.num_contests < usize::MAX
                    &&& players@[i].1.last_contest_time <= contest.time_seconds
                },
        decreases contest.standings@.len() - k,
    {
        let handle = &contest.standings[k].0;
        let ghost before = contest.standings@.take(k as int);
        let ghost after = contest.standings@.take(k + 1);
        proof {
            assert(after =~= before.push(contest.standings@[k as int]));
            lemma_listed_push(before, contest.standings@[k as int]);
        }
        if seen.contains_key(handle.as_str()) {
            proof {
                let j = choose|j: int| 0 <= j < before.len() && (#[trigger] before[j]).0@ == handle@;
                assert(contest.standings@[j].0@ == contest.standings@[k as int].0@);
            }
            return false;
        }
        if let Some(i) = players.find(handle.as_str()) {
            let player = players.get(i);
            if player.num_contests == usize::MAX || player.last_contest_time
                > contest.time_seconds {
                proof {
                    assert(contest.standings@[k as int].0@ == players@[i as int].0);
                    assert(listed(contest.standings@, players@[i as int].0));
                }
                return false;
            }
        }
        proof {
            assert forall|i: int|
                0 <= i < players@.len() && listed(after, (#[trigger] players@[i]).0) implies {
                &&& players@[i].1.num_contests < usize::MAX
                &&& players@[i].1.last_contest_time <= contest.time_seconds
            } by {
                if players@[i].0 == handle@ {
                    assert(roster::has_handle(players@, handle@));
                }
            }
            assert forall|a: int, b: int| 0 <= a < b < after.len() implies (
            #[trigger] after[a]).0@ != (#[trigger] after[b]).0@ by {
                assert(after[a] == before[a]);
                if b < before.len() {
                    assert(after[b] == before[b]);
                } else {
                    assert(!listed(before, handle@));
                }
            }
        }
        seen.insert(handle.clone(), true);
        k += 1;
    }
    proof {
        assert(contest.standings@.take(k as int) =~= contest.standings@);
    }
    true
}

proof fn lemma_listed_push(standings: Seq<(String, usize, usize)>, entry: (String, usize, usize))
    ensures
        forall|h: Seq<char>|
            #[trigger] listed(standings.push(entry), h) <==> listed(standings, h) || h == entry.0@,
{
    let after = standings.push(entry);
    assert forall|h: Seq<char>| #[trigger] listed(after, h) <==> listed(standings, h) || h
        == entry.0@ by {
        if listed(standings, h) {
            let k = choose|k: int| 0 <= k < standings.len() && (#[trigger] standings[k]).0@ == h;
            assert(after[k].0@ == h);
        }
        assert(after[standings.len() as int].0@ == entry.0@);
        if listed(after, h) && h != entry.0@ {
            let k = choose|k: int| 0 <= k < after.len() && (#[trigger] after[k]).0@ == h;
            assert(standings[k].0@ == h);
        }
    }
}

/// Enters a contest into the records of all who took part, those who compete for the
/// first time getting a default rating, and returns the field that is to be rated.
/// `ratings` lists the conservative ratings of the players of the roster.
pub fn enter_contest(
    players: &mut Roster<Player>,
    contest: &Contest,
    ratings: &Vec<i32>,
) -> (field: Vec<(usize, usize, usize)>)
    requires
        old(players).wf(),
        ratings@.len() == old(players)@.len(),
        may_enter(old(players)@, *contest),
    ensures
        final(players).wf(),
        records(final(players)@) == entered(records(old(players)@), *contest, ratings@),
        is_field(final(players)@, contest.standings@, field@),
        field_of(final(players)@.len(), field@),
        field@.len() == contest.standings@.len(),
        forall|k: int|
            0 <= k < field@.len() ==> {
                let place = (#[trigger] field@[k]).0 as int;
                let player = final(players)@[place].1;
                &&& place < final(players)@.len()
                &&& final(players)@[place].0 == contest.standings@[k].0@
                &&& field@[k].1 == contest.standings@[k].1
                &&& field@[k].2 == contest.standings@[k].2
                &&& player.last_contest == contest.id
                &&& player.last_contest_time == contest.time_seconds
                &&& place < old(players)@.len() ==> {
                    let before = old(players)@[place].1;
                    &&& player.num_contests == before.num_contests + 1
                    &&& player.last_rating == ratings@[place]
                    &&& player.approx_posterior == before.approx_posterior
                    &&& player.normal_factor == before.normal_factor
                    &&& player.logistic_factors@ == before.logistic_factors@
                    &&& player.max_rating == before.max_rating
                }
                &&& place >= old(players)@.len() ==> {
                    &&& player.num_contests == 1
                    &&& player.last_rating == 1000
                    &&& player.approx_posterior.mu.bits == 0x4097_7000_0000_0000
                    &&& player.approx_posterior.sig.bits == 0x4075_e000_0000_0000
                    &&& player.normal_factor.mu.bits == 0x4097_7000_0000_0000
                    &&& player.normal_factor.sig.bits == 0x4075_e000_0000_0000
                    &&& player.logistic_factors@.len() == 0
                    &&& player.max_rating == 0
                }
            },
        forall|i: int|
            0 <= i < old(players)@.len() && (forall|k: int|
                0 <= k < contest.standings@.len() ==> (#[trigger] contest.standings@[k]).0@ != old(
                    players,
                )@[i].0) ==> #[trigger] final(players)@[i] == old(players)@[i],
{
    let ghost list = records(players@);
    enroll(players, contest);
    let ghost all = players@;
    proof {
        lemma_enrolled(list, contest.standings@);
        players.lemma_distinct();
        assert(records(all).len() == all.len());
    }
    let mut field: Vec<(usize, usize, usize)> = Vec::new();
    let mut k: usize = 0;
    while k < contest.standings.len()
        invariant
            players.wf(),
            k <= contest.standings@.len(),
            ratings@.len() == old(players)@.len(),
            may_enter(old(players)@, *contest),
            list == records(old(players)@),
            records(all) == enrolled(list, contest.standings@),
            roster::distinct(all),
            all.len() >= old(players)@.len(),
            forall|i: int| 0 <= i < old(players)@.len() ==> #[trigger] all[i] == old(players)@[i],
            players@.len() == all.len(),
            forall|i: int| 0 <= i < all.len() ==> (#[trigger] players@[i]).0 == all[i].0,
            forall|i: int|
                0 <= i < all.len() && listed(
                    contest.standings@.take(k as int),
                    (#[trigger] players@[i]).0,
                ) ==> players@[i].1@ == all[i].1@.entered(*contest, rating_at(ratings@, i)),
            forall|i: int|
                0 <= i < all.len() && !listed(
                    contest.standings@.take(k as int),
                    (#[trigger] players@[i]).0,
                ) ==> players@[i] == all[i],
            field@.len() == k,
            forall|j: int|
                0 <= j < k ==> {
                    &&& (#[trigger] field@[j]).0 < all.len()
                    &&& all[field@[j].0 as int].0 == contest.standings@[j].0@
                    &&& field@[j].1 == contest.standings@[j].1
                    &&& field@[j].2 == contest.standings@[j].2
                },
        decreases contest.standings@.len() - k,
    {
        let entry = &contest.standings[k];
        let ghost before = players@;
        let ghost done = contest.standings@.take(k as int);
        proof {
            assert(contest.standings@[k as int].0@ == entry.0@);
            assert(listed(contest.standings@, entry.0@));
            lemma_enrolled(list, contest.standings@);
            lemma_has_record(all, entry.0@);
            assert(roster::has_handle(all, entry.0@));
            let w = choose|i: int| 0 <= i < all.len() && (#[trigger] all[i]).0 == entry.0@;
            assert(before[w].0 == entry.0@);
            assert(contest.standings@.take(k + 1) =~= done.push(contest.standings@[k as int]));
            lemma_listed_push(done, contest.standings@[k as int]);
            if listed(done, entry.0@) {
                let j = choose|j: int| 0 <= j < done.len() && (#[trigger] done[j]).0@ == entry.0@;
                assert(contest.standings@[j].0@ == contest.standings@[k as int].0@);
            }
        }
        if let Some(place) = players.find(entry.0.as_str()) {
            let rating: i32 = if place < ratings.len() {
                ratings[place]
            } else {
                NEWBIE_RATING
            };
            proof {
                assert(before[place as int] == all[place as int]);
                if place >= old(players)@.len() {
                    assert(records(all)[place as int].1 == all[place as int].1@);
                    assert(enrolled(list, contest.standings@)[place as int].1
                        == PlayerModel::newcomer());
                } else {
                    assert(all[place as int] == old(players)@[place as int]);
                }
            }
            update_player_metadata(players.get_mut(place), contest, rating);
            field.push((place, entry.1, entry.2));
            proof {
                assert forall|i: int| 0 <= i < all.len() && i != place implies (
                #[trigger] players@[i]).0 != entry.0@ by {
                    if i < place {
                        assert(all[i].0 != all[place as int].0);
                    } else {
                        assert(all[place as int].0 != all[i].0);
                    }
                }
            }
        } else {
            proof {
                assert(false);
            }
        }
        k += 1;
    }
    proof {
        assert(contest.standings@.take(k as int) =~= contest.standings@);
        let goal = entered(list, *contest, ratings@);
        assert forall|i: int| 0 <= i < all.len() implies #[trigger] records(players@)[i]
            == goal[i] by {
            assert(players@[i].0 == all[i].0);
            assert(records(all)[i] == (all[i].0, all[i].1@));
        }
        assert(records(players@) =~= goal);
        assert forall|a: int, b: int| 0 <= a < b < field@.len() implies (#[trigger] field@[a]).0
            != (#[trigger] field@[b]).0 by {
            assert(contest.standings@[a].0@ != contest.standings@[b].0@);
        }
        assert forall|k: int| 0 <= k < field@.len() implies {
            let place = (#[trigger] field@[k]).0 as int;
            let player = players@[place].1;
            &&& player@ == all[place].1@.entered(*contest, rating_at(ratings@, place))
            &&& place < old(players)@.len() ==> all[place] == old(players)@[place]
            &&& place >= old(players)@.len() ==> all[place].1@ == PlayerModel::newcomer()
        } by {
            let place = field@[k].0 as int;
            assert(contest.standings@[k].0@ == players@[place].0);
            assert(listed(contest.standings@, players@[place].0));
            if place >= old(players)@.len() {
                lemma_enrolled(list, contest.standings@);
                assert(records(all)[place].1 == all[place].1@);
                assert(enrolled(list, contest.standings@)[place].1 == PlayerModel::newcomer());
            }
        }
        assert(is_field(players@, contest.standings@, field@)) by {
            assert forall|j: int| 0 <= j < field@.len() implies {
                &&& (#[trigger] field@[j]).0 < players@.len()
                &&& players@[field@[j].0 as int].0 == contest.standings@[j].0@
                &&& field@[j].1 == contest.standings@[j].1
                &&& field@[j].2 == contest.standings@[j].2
            } by {
                assert(players@[field@[j].0 as int].0 == all[field@[j].0 as int].0);
            }
        }
    }
    field
}

/// What entering a contest does to the record of whoever takes part: one contest more, the
/// contest and its time as the last ones, and the rating at that time, which for a newcomer
/// is 1000. Everything else stays, and newcomers start with a rating of 1500 and an
/// uncertainty of 350.
pub proof fn lemma_contestant_entered(
    list: Seq<(Seq<char>, PlayerModel)>,
    contest: Contest,
    ratings: Seq<i32>,
    k: int,
) -> (place: int)
    requires
        ratings.len() == list.len(),
        0 <= k < contest.standings@.len(),
    ensures
        0 <= place < entered(list, contest, ratings).len(),
        entered(list, contest, ratings).len() >= list.len(),
        entered(list, contest, ratings)[place].0 == contest.standings@[k].0@,
        ({
            let record = entered(list, contest, ratings)[place].1;
            &&& record.last_contest == contest.id
            &&& record.last_contest_time == contest.time_seconds
            &&& place < list.len() ==> {
                &&& list[place].0 == contest.standings@[k].0@
                &&& record.num_contests == list[place].1.num_contests + 1
                &&& record.last_rating == ratings[place]
                &&& record.approx_posterior == list[place].1.approx_posterior
                &&& record.normal_factor == list[place].1.normal_factor
                &&& record.logistic_factors == list[place].1.logistic_factors
                &&& record.max_rating == list[place].1.max_rating
            }
            &&& place >= list.len() ==> {
                &&& !roster::has_handle(list, contest.standings@[k].0@)
                &&& record.num_contests == 1
                &&& record.last_rating == 1000
                &&& record.approx_posterior.mu.bits == 0x4097_7000_0000_0000
                &&& record.approx_posterior.sig.bits == 0x4075_e000_0000_0000
                &&& record.normal_factor.mu.bits == 0x4097_7000_0000_0000
                &&& record.normal_factor.sig.bits == 0x4075_e000_0000_0000
                &&& record.logistic_factors.len() == 0
                &&& record.max_rating == 0
            }
        }),
{
    let all = enrolled(list, contest.standings@);
    let handle = contest.standings@[k].0@;
    lemma_enrolled(list, contest.standings@);
    assert(listed(contest.standings@, handle));
    assert(roster::has_handle(all, handle));
    if roster::has_handle(list, handle) {
        let place = choose|i: int| 0 <= i < list.len() && (#[trigger] list[i]).0 == handle;
        assert(all[place] == list[place]);
        place
    } else {
        let place = choose|i: int| 0 <= i < all.len() && (#[trigger] all[i]).0 == handle;
        if place < list.len() {
            assert(all[place] == list[place]);
        }
        place
    }
}

/// Only the records of the players in the field may differ.
pub open spec fn changes_field_only(
    before: Seq<(Seq<char>, Player)>,
    field: Seq<(usize, usize, usize)>,
    after: Seq<(Seq<char>, Player)>,
) -> bool {
    &&& after.len() == before.len()
    &&& forall|i: int| 0 <= i < before.len() ==> (#[trigger] after[i]).0 == before[i].0
    &&& forall|i: int|
        0 <= i < before.len() && (forall|k: int|
            0 <= k < field.len() ==> (#[trigger] field[k]).0 != i) ==> #[trigger] after[i]
            == before[i]
}

/// A rating system: it updates the players of a field, each of whom is given by the
/// place in the roster and the range of ties, from the outcome of a contest.
pub trait RatingSystem {
    /// Whether the system can rate the field. A system that does not say can rate any.
    open spec fn accepts(
        &self,
        before: Seq<(Seq<char>, Player)>,
        field: Seq<(usize, usize, usize)>,
    ) -> bool {
        true
    }

    /// Whether the system may turn the players `before` into those `after`. A system that
    /// does not say may do so.
    open spec fn allows(
        &self,
        before: Seq<(Seq<char>, Player)>,
        field: Seq<(usize, usize, usize)>,
        after: Seq<(Seq<char>, Player)>,
    ) -> bool {
        true
    }

    fn round_update(&self, players: &mut Roster<Player>, field: &Vec<(usize, usize, usize)>)
        requires
            old(players).wf(),
            field_of(old(players)@.len(), field@),
            self.accepts(old(players)@, field@),
        ensures
            final(players).wf(),
            changes_field_only(old(players)@, field@, final(players)@),
            self.allows(old(players)@, field@, final(players)@),
    ;
}

/// Enters a contest into the records of all who took part, and has a rating system
/// update their ratings.
pub fn simulate_contest<S: RatingSystem>(
    players: &mut Roster<Player>,
    contest: &Contest,
    ratings: &Vec<i32>,
    system: &S,
)
    requires
        old(players).wf(),
        ratings@.len() == old(players)@.len(),
        may_enter(old(players)@, *contest),
        forall|before: Seq<(Seq<char>, Player)>, field: Seq<(usize, usize, usize)>|
            records(before) == entered(records(old(players)@), *contest, ratings@)
                && #[trigger] is_field(before, contest.standings@, field) ==> system.accepts(
                before,
                field,
            ),
    ensures
        final(players).wf(),
        exists|before: Seq<(Seq<char>, Player)>, field: Seq<(usize, usize, usize)>|
            {
                &&& records(before) == entered(records(old(players)@), *contest, ratings@)
                &&& is_field(before, contest.standings@, field)
                &&& #[trigger] changes_field_only(before, field, final(players)@)
                &&& system.allows(before, field, final(players)@)
            },
        final(players)@.len() >= old(players)@.len(),
        forall|i: int|
            0 <= i < old(players)@.len() ==> (#[trigger] final(players)@[i]).0 == old(
                players,
            )@[i].0,
        forall|i: int|
            0 <= i < old(players)@.len() && (forall|k: int|
                0 <= k < contest.standings@.len() ==> (#[trigger] contest.standings@[k]).0@ != old(
                    players,
                )@[i].0) ==> #[trigger] final(players)@[i] == old(players)@[i],
        forall|k: int|
            0 <= k < contest.standings@.len() ==> exists|i: int|
                0 <= i < final(players)@.len() && (#[trigger] final(players)@[i]).0 == (
                #[trigger] contest.standings@[k]).0@,
{
    let field = enter_contest(players, contest, ratings);
    let ghost before = players@;
    system.round_update(players, &field);
    proof {
        assert(changes_field_only(before, field@, players@));
        lemma_bystanders(old(players)@, *contest, ratings@, before, field@, players@);
        assert forall|i: int|
            0 <= i < old(players)@.len() && (forall|k: int|
                0 <= k < contest.standings@.len() ==> (#[trigger] contest.standings@[k]).0@ != old(
                    players,
                )@[i].0) implies #[trigger] players@[i] == old(players)@[i] by {
            assert(players@[i].0 == old(players)@[i].0);
            assert(before[i] == old(players)@[i]);
            assert forall|k: int| 0 <= k < field@.len() implies (#[trigger] field@[k]).0 != i by {
                assert(contest.standings@[k].0@ != old(players)@[i].0);
            }
        }
        assert forall|k: int| 0 <= k < contest.standings@.len() implies exists|i: int|
            0 <= i < players@.len() && (#[trigger] players@[i]).0 == (
            #[trigger] contest.standings@[k]).0@ by {
            assert(players@[field@[k].0 as int].0 == before[field@[k].0 as int].0);
        }
    }
}

/// A contest leaves alone whoever did not take part: all players keep their places and
/// handles, everyone listed is in the roster afterwards, and the records of the others are
/// what they were.
pub proof fn lemma_bystanders(
    players: Seq<(Seq<char>, Player)>,
    contest: Contest,
    ratings: Seq<i32>,
    before: Seq<(Seq<char>, Player)>,
    field: Seq<(usize, usize, usize)>,
    after: Seq<(Seq<char>, Player)>,
)
    requires
        records(before) == entered(records(players), contest, ratings),
        is_field(before, contest.standings@, field),
        changes_field_only(before, field, after),
    ensures
        after.len() >= players.len(),
        forall|i: int| 0 <= i < players.len() ==> (#[trigger] after[i]).0 == players[i].0,
        forall|i: int|
            0 <= i < players.len() && !listed(contest.standings@, players[i].0) ==> (
            #[trigger] after[i]).1@ == players[i].1@,
        forall|h: Seq<char>|
            listed(contest.standings@, h) ==> #[trigger] roster::has_handle(after, h),
{
    let list = records(players);
    let done = entered(list, contest, ratings);
    lemma_enrolled(list, contest.standings@);
    lemma_entered(list, contest, ratings);
    assert(list.len() == players.len() && records(before).len() == before.len());
    assert forall|i: int| 0 <= i < before.len() implies {
        &&& (#[trigger] done[i]).0 == before[i].0
        &&& done[i].1 == before[i].1@
    } by {
        assert(records(before)[i] == done[i]);
    }
    assert forall|i: int| 0 <= i < players.len() implies (#[trigger] after[i]).0 == players[i].0 by {
        assert(list[i] == (players[i].0, players[i].1@));
        assert(done[i].0 == before[i].0);
    }
    assert forall|i: int|
        0 <= i < players.len() && !listed(contest.standings@, players[i].0) implies (
    #[trigger] after[i]).1@ == players[i].1@ by {
        assert(list[i] == (players[i].0, players[i].1@));
        assert(done[i].0 == before[i].0);
        assert forall|k: int| 0 <= k < field.len() implies (#[trigger] field[k]).0 != i by {
            if field[k].0 == i {
                assert(contest.standings@[k].0@ == players[i].0);
            }
        }
        assert(after[i] == before[i]);
    }
    assert forall|h: Seq<char>| listed(contest.standings@, h) implies #[trigger] roster::has_handle(
        after,
        h,
    ) by {
        assert(roster::has_handle(done, h));
        let i = choose|i: int| 0 <= i < done.len() && (#[trigger] done[i]).0 == h;
        assert(after[i].0 == before[i].0);
    }
}

/// TrueSkillStPB takes any field, and leaves all players as they are.
pub proof fn lemma_takes_any_field(
    system: TrueSkillStPB,
    before: Seq<(Seq<char>, Player)>,
    field: Seq<(usize, usize, usize)>,
    after: Seq<(Seq<char>, Player)>,
)
    ensures
        system.accepts(before, field),
        system.allows(before, field, after) <==> before == after,
{
}

/// Under TrueSkillStPB a contest rates nobody anew: whoever took part has the contest on
/// record, and the estimate from before; newcomers have a rating of 1500 with an uncertainty
/// of 350, and a conservative rating of 1000 on record.
pub proof fn lemma_unrated(
    system: TrueSkillStPB,
    players: Seq<(Seq<char>, Player)>,
    contest: Contest,
    ratings: Seq<i32>,
    before: Seq<(Seq<char>, Player)>,
    field: Seq<(usize, usize, usize)>,
    after: Seq<(Seq<char>, Player)>,
    k: int,
) -> (place: int)
    requires
        ratings.len() == players.len(),
        records(before) == entered(records(players), contest, ratings),
        is_field(before, contest.standings@, field),
        system.allows(before, field, after),
        0 <= k < contest.standings@.len(),
    ensures
        0 <= place < after.len(),
        after[place].0 == contest.standings@[k].0@,
        after[place].1.last_contest == contest.id,
        after[place].1.last_contest_time == contest.time_seconds,
        place < players.len() ==> {
            &&& players[place].0 == contest.standings@[k].0@
            &&& after[place].1.approx_posterior == players[place].1.approx_posterior
            &&& after[place].1.normal_factor == players[place].1.normal_factor
            &&& after[place].1.num_contests == players[place].1.num_contests + 1
            &&& after[place].1.last_rating == ratings[place]
        },
        place >= players.len() ==> {
            &&& after[place].1.approx_posterior.mu.bits == 0x4097_7000_0000_0000
            &&& after[place].1.approx_posterior.sig.bits == 0x4075_e000_0000_0000
            &&& after[place].1.normal_factor.mu.bits == 0x4097_7000_0000_0000
            &&& after[place].1.normal_factor.sig.bits == 0x4075_e000_0000_0000
            &&& after[place].1.num_contests == 1
            &&& after[place].1.last_rating == 1000
        },
{
    let list = records(players);
    assert(list.len() == players.len() && records(before).len() == before.len());
    let place = lemma_contestant_entered(list, contest, ratings, k);
    assert(records(before)[place] == (before[place].0, before[place].1@));
    if place < players.len() {
        assert(list[place] == (players[place].0, players[place].1@));
    }
    place
}

/// TrueSkillStPB version
pub struct TrueSkillStPB {
    /// epsilon used for ties
    pub eps: Double,
    /// default player rating
    pub mu: Double,
    /// default player sigma
    pub sigma: Double,
    /// performance sigma
    pub beta: Double,
    /// epsilon used for convergence loop
    pub convergence_eps: Double,
    /// defines sigma growth per second
    pub sigma_growth: Double,
}

impl Default for TrueSkillStPB {
    /// The numbers are 0.7, 1500, a third and a sixth of that, 0.0002 and 0.01.
    fn default() -> (system: Self)
        ensures
            system.eps.bits == 0x3fe6_6666_6666_6666,
            system.mu.bits == 0x4097_7000_0000_0000,
            system.sigma.bits == 0x407f_4000_0000_0000,
            system.beta.bits == 0x406f_4000_0000_0000,
            system.convergence_eps.bits == 0x3f2a_36e2_eb1c_432d,
            system.sigma_growth.bits == 0x3f84_7ae1_47ae_147b,
    {
        TrueSkillStPB {
            eps: Double { bits: 0x3fe6_6666_6666_6666 },
            mu: Double { bits: 0x4097_7000_0000_0000 },
            sigma: Double { bits: 0x407f_4000_0000_0000 },
            beta: Double { bits: 0x406f_4000_0000_0000 },
            convergence_eps: Double { bits: 0x3f2a_36e2_eb1c_432d },
            sigma_growth: Double { bits: 0x3f84_7ae1_47ae_147b },
        }
    }
}

impl RatingSystem for TrueSkillStPB {
    /// All ratings stay as they are.
    open spec fn allows(
        &self,
        before: Seq<(Seq<char>, Player)>,
        field: Seq<(usize, usize, usize)>,
        after: Seq<(Seq<char>, Player)>,
    ) -> bool {
        after == before
    }

    fn round_update(&self, players: &mut Roster<Player>, field: &Vec<(usize, usize, usize)>) {
    }
}

} // verus!
