//! The Codeforces rating system.

use crate::compute_ratings;
use crate::compute_ratings::{Player, PlayerModel, Rating, RatingSystem};
use crate::contest_config::Contest;
use crate::double::Double;
use crate::roster::Roster;
use rayon::iter::{IndexedParallelIterator, IntoParallelRefIterator, ParallelIterator};
use vstd::prelude::*;

verus! {

/// Codeforces system details: https://codeforces.com/blog/entry/20762
pub struct CodeforcesSystem {
    pub sig_perf: Double,
    pub weight: Double,
}

impl Default for CodeforcesSystem {
    /// The numbers are 800 over the natural logarithm of ten, and one.
    fn default() -> (system: Self)
        ensures
            system.sig_perf.bits == 0x4075_b6f8_2886_62f3,
            system.weight.bits == 0x3ff0_0000_0000_0000,
    {
        CodeforcesSystem {
            sig_perf: Double { bits: 0x4075_b6f8_2886_62f3 },
            weight: Double { bits: 0x3ff0_0000_0000_0000 },
        }
    }
}

/// What a player of the field is taken to perform like.
pub open spec fn performance_rating(system: CodeforcesSystem, player: Player) -> Rating {
    Rating { mu: player.approx_posterior.mu, sig: system.sig_perf }
}

/// The record of a player who is given a new mean.
pub open spec fn with_mean(record: PlayerModel, mu: Double) -> PlayerModel {
    PlayerModel { approx_posterior: Rating { mu, ..record.approx_posterior }, ..record }
}

/// `after` gives each player of the field the mean listed for it, and leaves everyone
/// else, and everything else, unchanged.
pub open spec fn is_update(
    before: Seq<(Seq<char>, Player)>,
    field: Seq<(usize, usize, usize)>,
    means: Seq<Double>,
    after: Seq<(Seq<char>, Player)>,
) -> bool {
    &&& compute_ratings::changes_field_only(before, field, after)
    &&& forall|k: int|
        0 <= k < field.len() ==> after[(#[trigger] field[k]).0 as int].1@ == with_mean(
            before[field[k].0 as int].1@,
            means[k],
        )
}

/// What all players of a field are taken to perform like, from first to last place.
pub open spec fn field_ratings(
    system: CodeforcesSystem,
    players: Seq<(Seq<char>, Player)>,
    field: Seq<(usize, usize, usize)>,
) -> Seq<Rating> {
    Seq::new(
        field.len(),
        |k: int| performance_rating(system, players[field[k].0 as int].1),
    )
}

/// The ranges of ties lie within the field.
pub open spec fn ranges_fit(field: Seq<(usize, usize, usize)>) -> bool {
    forall|k: int|
        0 <= k < field.len() ==> (#[trigger] field[k]).1 <= field.len() && field[k].2 < field.len()
}

/// The slices are those from which the mean of a player who tied for the places from `lo`
/// to `hi` is worked out: all who did better, all who did worse, and all.
pub open spec fn is_split_around(
    all: Seq<Rating>,
    lo: int,
    hi: int,
    better: &[Rating],
    worse: &[Rating],
    everyone: &[Rating],
) -> bool {
    &&& better@ == all.take(lo)
    &&& worse@ == all.skip(hi + 1)
    &&& everyone@ == all
}

/// `mean_of` can be asked for the mean of a player with the rating `mine` who tied for the
/// places from `lo` to `hi`.
pub open spec fn answers<F: Fn(&[Rating], &[Rating], &[Rating], Rating, Double) -> Double>(
    mean_of: &F,
    weight: Double,
    all: Seq<Rating>,
    lo: int,
    hi: int,
    mine: Rating,
) -> bool {
    forall|better: &[Rating], worse: &[Rating], everyone: &[Rating]|
        #[trigger] is_split_around(all, lo, hi, better, worse, everyone) ==> call_requires(
            *mean_of,
            (better, worse, everyone, mine, weight),
        )
}

/// `mean` is what `mean_of` answers when asked so.
pub open spec fn is_answer<F: Fn(&[Rating], &[Rating], &[Rating], Rating, Double) -> Double>(
    mean_of: &F,
    weight: Double,
    all: Seq<Rating>,
    lo: int,
    hi: int,
    mine: Rating,
    mean: Double,
) -> bool {
    exists|better: &[Rating], worse: &[Rating], everyone: &[Rating]|
        {
            &&& #[trigger] is_split_around(all, lo, hi, better, worse, everyone)
            &&& call_ensures(*mean_of, (better, worse, everyone, mine, weight), mean)
        }
}

/// `means` are the answers of `mean_of` for the players of a field, one after another, all
/// worked out from the ratings that the players have before the round.
pub open spec fn are_means<F: Fn(&[Rating], &[Rating], &[Rating], Rating, Double) -> Double>(
    system: CodeforcesSystem,
    mean_of: &F,
    players: Seq<(Seq<char>, Player)>,
    field: Seq<(usize, usize, usize)>,
    means: Seq<Double>,
) -> bool {
    let all = field_ratings(system, players, field);
    &&& means.len() == field.len()
    &&& forall|k: int|
        0 <= k < field.len() ==> is_answer(
            mean_of,
            system.weight,
            all,
            (#[trigger] field[k]).1 as int,
            field[k].2 as int,
            all[k],
            means[k],
        )
}

/// Works out one number for each player of a field, in parallel, with
/// `IndexedParallelIterator::zip` and `ParallelIterator::map` and `collect` of the crate
/// `rayon`. What is claimed of it: there is one number for each entry of the field, they
/// stand in the order of the field, and each is what `f` gives for the entry and the rating
/// at that place. On which threads `f` runs, and in which order, is left unsaid.
#[verifier::external_body]
fn par_map<F: Fn((usize, usize, usize), Rating) -> Double + Sync + Send>(
    field: &Vec<(usize, usize, usize)>,
    all: &Vec<Rating>,
    f: F,
) -> (results: Vec<Double>)
    requires
        field@.len() == all@.len(),
        forall|k: int|
            0 <= k < field@.len() ==> call_requires(f, (#[trigger] field@[k], all@[k])),
    ensures
        results@.len() == field@.len(),
        forall|k: int|
            0 <= k < field@.len() ==> call_ensures(
                f,
                (field@[k], all@[k]),
                #[trigger] results@[k],
            ),
{
    field.par_iter().zip(all.par_iter()).map(|(entry, rating)| f(*entry, *rating)).collect()
}

impl CodeforcesSystem {
    /// The ratings of all players of a field, from first to last place.
    pub fn all_ratings(
        &self,
        players: &Roster<Player>,
        field: &Vec<(usize, usize, usize)>,
    ) -> (all: Vec<Rating>)
        requires
            forall|k: int| 0 <= k < field@.len() ==> (#[trigger] field@[k]).0 < players@.len(),
        ensures
            all@ == field_ratings(*self, players@, field@),
            all@.len() == field@.len(),
            forall|k: int|
                0 <= k < field@.len() ==> {
                    &&& (#[trigger] all@[k]).mu
                        == players@[field@[k].0 as int].1.approx_posterior.mu
                    &&& all@[k].sig == self.sig_perf
                },
    {
        let mut all: Vec<Rating> = Vec::new();
        let mut k: usize = 0;
        while k < field.len()
            invariant
                k <= field@.len(),
                forall|j: int| 0 <= j < field@.len() ==> (#[trigger] field@[j]).0 < players@.len(),
                all@.len() == k,
                forall|j: int|
                    0 <= j < k ==> #[trigger] all@[j] == performance_rating(
                        *self,
                        players@[field@[j].0 as int].1,
                    ),
            decreases field@.len() - k,
        {
            let player = players.get(field[k].0);
            all.push(Rating { mu: player.approx_posterior.mu, sig: self.sig_perf });
            k += 1;
        }
        proof {
            assert(all@ =~= field_ratings(*self, players@, field@));
        }
        all
    }

    /// Those who did better and those who did worse than a player who tied for the places
    /// from `lo` to `hi`.
    pub fn better_and_worse<'a>(
        all: &'a Vec<Rating>,
        lo: usize,
        hi: usize,
    ) -> (split: (&'a [Rating], &'a [Rating]))
        requires
            lo <= all@.len(),
            hi < all@.len(),
        ensures
            split.0@ == all@.take(lo as int),
            split.1@ == all@.skip(hi + 1),
    {
        let len: usize = all.len();
        let better = vstd::slice::slice_subrange(all.as_slice(), 0, lo);
        let worse = vstd::slice::slice_subrange(all.as_slice(), hi + 1, len);
        proof {
            assert(better@ =~= all@.take(lo as int));
            assert(worse@ =~= all@.skip(hi + 1));
        }
        (better, worse)
    }

    /// Gives each player of the field the mean that was worked out from its performance.
    pub fn update_means(
        players: &mut Roster<Player>,
        field: &Vec<(usize, usize, usize)>,
        means: &Vec<Double>,
    )
        requires
            old(players).wf(),
            compute_ratings::field_of(old(players)@.len(), field@),
            means@.len() == field@.len(),
        ensures
            final(players).wf(),
            is_update(old(players)@, field@, means@, final(players)@),
            forall|k: int|
                0 <= k < field@.len() ==> {
                    let before = old(players)@[(#[trigger] field@[k]).0 as int].1;
                    let after = final(players)@[field@[k].0 as int].1;
                    &&& after.approx_posterior.mu == means@[k]
                    &&& after.approx_posterior.sig == before.approx_posterior.sig
                    &&& after.normal_factor == before.normal_factor
                    &&& after.logistic_factors@ == before.logistic_factors@
                    &&& after.num_contests == before.num_contests
                    &&& after.max_rating == before.max_rating
                    &&& after.last_rating == before.last_rating
                    &&& after.last_contest == before.last_contest
                    &&& after.last_contest_time == before.last_contest_time
                },
    {
        let ghost before = players@;
        let mut k: usize = 0;
        while k < field.len()
            invariant
                players.wf(),
                k <= field@.len(),
                before == old(players)@,
                compute_ratings::field_of(before.len(), field@),
                means@.len() == field@.len(),
                players@.len() == before.len(),
                forall|i: int| 0 <= i < before.len() ==> (#[trigger] players@[i]).0 == before[i].0,
                forall|i: int|
                    0 <= i < before.len() && (forall|j: int|
                        0 <= j < k ==> (#[trigger] field@[j]).0 != i) ==> #[trigger] players@[i]
                        == before[i],
                forall|j: int|
                    0 <= j < k ==> players@[(#[trigger] field@[j]).0 as int].1@ == with_mean(
                        before[field@[j].0 as int].1@,
                        means@[j],
                    ),
            decreases field@.len() - k,
        {
            let place: usize = field[k].0;
            let ghost current = players@;
            proof {
                assert(current[place as int] == before[place as int]) by {
                    assert forall|j: int| 0 <= j < k implies (#[trigger] field@[j]).0 != place by {
                        assert(field@[j].0 != field@[k as int].0);
                    }
                }
            }
            let player = players.get_mut(place);
            player.approx_posterior.mu = means[k];
            proof {
                assert forall|j: int| 0 <= j < k implies players@[(
                #[trigger] field@[j]).0 as int].1@ == with_mean(
                    before[field@[j].0 as int].1@,
                    means@[j],
                ) by {
                    assert(field@[j].0 != field@[k as int].0);
                    assert(players@[field@[j].0 as int] == current[field@[j].0 as int]);
                }
                assert forall|i: int|
                    0 <= i < before.len() && (forall|j: int|
                        0 <= j < k + 1 ==> (#[trigger] field@[j]).0
                            != i) implies #[trigger] players@[i] == before[i] by {
                    assert(field@[k as int].0 != i);
                    assert(current[i] == before[i]);
                }
            }
            k += 1;
        }
    }

    /// Rates a round: each player of the field gets the mean that `mean_of` works out from
    /// the ratings of those who did better, of those who did worse and of all, the
    /// player's own rating, and the weight of a round.
    pub fn round_update<F: Fn(&[Rating], &[Rating], &[Rating], Rating, Double) -> Double + Sync>(
        &self,
        players: &mut Roster<Player>,
        field: &Vec<(usize, usize, usize)>,
        mean_of: &F,
    )
        requires
            old(players).wf(),
            compute_ratings::field_of(old(players)@.len(), field@),
            ranges_fit(field@),
            forall|k: int|
                0 <= k < field@.len() ==> answers(
                    mean_of,
                    self.weight,
                    field_ratings(*self, old(players)@, field@),
                    (#[trigger] field@[k]).1 as int,
                    field@[k].2 as int,
                    field_ratings(*self, old(players)@, field@)[k],
                ),
        ensures
            final(players).wf(),
            exists|means: Seq<Double>|
                {
                    &&& are_means(*self, mean_of, old(players)@, field@, means)
                    &&& #[trigger] is_update(old(players)@, field@, means, final(players)@)
                },
            forall|k: int|
                0 <= k < field@.len() ==> {
                    let before = old(players)@[(#[trigger] field@[k]).0 as int].1;
                    let after = final(players)@[field@[k].0 as int].1;
                    &&& after.approx_posterior.sig == before.approx_posterior.sig
                    &&& after.normal_factor == before.normal_factor
                    &&& after.logistic_factors@ == before.logistic_factors@
                    &&& after.num_contests == before.num_contests
                    &&& after.max_rating == before.max_rating
                    &&& after.last_rating == before.last_rating
                },
            forall|i: int|
                0 <= i < old(players)@.len() && (forall|k: int|
                    0 <= k < field@.len() ==> (#[trigger] field@[k]).0 != i)
                    ==> #[trigger] final(players)@[i] == old(players)@[i],
    {
        let all: Vec<Rating> = self.all_ratings(players, field);
        let weight: Double = self.weight;
        let mean_at = |entry: (usize, usize, usize), mine: Rating| -> (mean: Double)
            requires
                entry.1 <= all@.len(),
                entry.2 < all@.len(),
                answers(mean_of, weight, all@, entry.1 as int, entry.2 as int, mine),
            ensures
                is_answer(mean_of, weight, all@, entry.1 as int, entry.2 as int, mine, mean),
            {
                let (better, worse) = Self::better_and_worse(&all, entry.1, entry.2);
                let everyone = all.as_slice();
                proof {
                    assert(is_split_around(
                        all@,
                        entry.1 as int,
                        entry.2 as int,
                        better,
                        worse,
                        everyone,
                    ));
                }
                mean_of(better, worse, everyone, mine, weight)
            };
        let means: Vec<Double> = par_map(field, &all, mean_at);
        proof {
            assert forall|k: int| 0 <= k < field@.len() implies is_answer(
                mean_of,
                self.weight,
                all@,
                (#[trigger] field@[k]).1 as int,
                field@[k].2 as int,
                all@[k],
                means@[k],
            ) by {
                assert(call_ensures(mean_at, (field@[k], all@[k]), means@[k]));
            }
            assert(are_means(*self, mean_of, old(players)@, field@, means@));
        }
        Self::update_means(players, field, &means);
    }
}

/// A field, and so a contest, can be rated just if nobody's range of ties starts behind the
/// last place or reaches beyond it.
pub proof fn lemma_ratable(
    before: Seq<(Seq<char>, Player)>,
    standings: Seq<(String, usize, usize)>,
    field: Seq<(usize, usize, usize)>,
)
    requires
        compute_ratings::is_field(before, standings, field),
    ensures
        ratable(standings) <==> !exists|k: int|
            0 <= k < standings.len() && ((#[trigger] standings[k]).1 > standings.len()
                || standings[k].2 >= standings.len()),
        ratable(standings) <==> ranges_fit(field),
{
    if ranges_fit(field) {
        assert forall|k: int| 0 <= k < standings.len() implies (#[trigger] standings[k]).1
            <= standings.len() && standings[k].2 < standings.len() by {
            assert(field[k].1 <= field.len());
        }
    }
    if ratable(standings) {
        assert forall|k: int| 0 <= k < field.len() implies (#[trigger] field[k]).1 <= field.len()
            && field[k].2 < field.len() by {
            assert(standings[k].1 <= standings.len());
        }
    }
}

/// What a round does to a contestant: the function is asked with the estimates that all
/// contestants have at present, each with the uncertainty of a performance, in the order of
/// the standings; with those of them before the contestant's range of ties, and those behind
/// it; and with the contestant's own. What it answers is the contestant's new mean, and
/// nothing else changes.
pub proof fn lemma_round<F: Fn(&[Rating], &[Rating], &[Rating], Rating, Double) -> Double>(
    system: CodeforcesSystem,
    mean_of: &F,
    before: Seq<(Seq<char>, Player)>,
    field: Seq<(usize, usize, usize)>,
    means: Seq<Double>,
    after: Seq<(Seq<char>, Player)>,
    k: int,
)
    requires
        are_means(system, mean_of, before, field, means),
        is_update(before, field, means, after),
        0 <= k < field.len(),
    ensures
        ({
            let old_player = before[field[k].0 as int].1;
            let new_player = after[field[k].0 as int].1;
            &&& exists|better: &[Rating], worse: &[Rating], everyone: &[Rating]|
                {
                    &&& #[trigger] call_ensures(
                        *mean_of,
                        (
                            better,
                            worse,
                            everyone,
                            Rating { mu: old_player.approx_posterior.mu, sig: system.sig_perf },
                            system.weight,
                        ),
                        new_player.approx_posterior.mu,
                    )
                    &&& everyone@.len() == field.len()
                    &&& better@ == everyone@.take(field[k].1 as int)
                    &&& worse@ == everyone@.skip(field[k].2 + 1)
                    &&& forall|i: int|
                        0 <= i < field.len() ==> (#[trigger] everyone@[i]).mu
                            == before[field[i].0 as int].1.approx_posterior.mu && everyone@[i].sig
                            == system.sig_perf
                }
            &&& new_player.approx_posterior.sig == old_player.approx_posterior.sig
            &&& new_player.normal_factor == old_player.normal_factor
            &&& new_player.logistic_factors@ == old_player.logistic_factors@
            &&& new_player.num_contests == old_player.num_contests
            &&& new_player.max_rating == old_player.max_rating
            &&& new_player.last_rating == old_player.last_rating
        }),
{
    let all = field_ratings(system, before, field);
    let lo = field[k].1 as int;
    let hi = field[k].2 as int;
    let old_player = before[field[k].0 as int].1;
    let new_player = after[field[k].0 as int].1;
    assert(new_player@ == with_mean(old_player@, means[k]));
    assert(all[k] == performance_rating(system, old_player));
    assert(is_answer(mean_of, system.weight, all, lo, hi, all[k], means[k]));
    let (better, worse, everyone) = choose|better: &[Rating], worse: &[Rating], everyone: &[Rating]|
        {
            &&& #[trigger] is_split_around(all, lo, hi, better, worse, everyone)
            &&& call_ensures(*mean_of, (better, worse, everyone, all[k], system.weight), means[k])
        };
    assert(is_split_around(all, lo, hi, better, worse, everyone));
    assert(call_ensures(
        *mean_of,
        (
            better,
            worse,
            everyone,
            Rating { mu: old_player.approx_posterior.mu, sig: system.sig_perf },
            system.weight,
        ),
        new_player.approx_posterior.mu,
    ));
    assert forall|i: int| 0 <= i < field.len() implies (#[trigger] everyone@[i]).mu
        == before[field[i].0 as int].1.approx_posterior.mu && everyone@[i].sig
        == system.sig_perf by {
        assert(all[i] == performance_rating(system, before[field[i].0 as int].1));
    }
}

/// A round builds on the one before it: whoever takes part in both goes into the second with
/// the mean that the first gave. Whoever did not take part in the first goes into the second
/// with the mean from before both.
pub proof fn lemma_rounds_build_up(
    system: CodeforcesSystem,
    before: Seq<(Seq<char>, Player)>,
    field: Seq<(usize, usize, usize)>,
    means: Seq<Double>,
    between: Seq<(Seq<char>, Player)>,
    next_field: Seq<(usize, usize, usize)>,
    j: int,
)
    requires
        is_update(before, field, means, between),
        0 <= j < next_field.len(),
        next_field[j].0 < before.len(),
    ensures
        forall|k: int|
            0 <= k < field.len() && (#[trigger] field[k]).0 == next_field[j].0 ==> field_ratings(
                system,
                between,
                next_field,
            )[j].mu == means[k],
        (forall|k: int| 0 <= k < field.len() ==> (#[trigger] field[k]).0 != next_field[j].0)
            ==> field_ratings(system, between, next_field)[j].mu
            == before[next_field[j].0 as int].1.approx_posterior.mu,
        field_ratings(system, between, next_field)[j].sig == system.sig_perf,
{
    let place = next_field[j].0 as int;
    assert forall|k: int|
        0 <= k < field.len() && (#[trigger] field[k]).0 == next_field[j].0 implies field_ratings(
        system,
        between,
        next_field,
    )[j].mu == means[k] by {
        assert(between[place].1@ == with_mean(before[place].1@, means[k]));
    }
    if forall|k: int| 0 <= k < field.len() ==> (#[trigger] field[k]).0 != next_field[j].0 {
        assert(between[place] == before[place]);
    }
}

/// The Codeforces system, with a function that works out the mean of a player after a
/// round.
pub struct Codeforces<F> {
    pub system: CodeforcesSystem,
    pub mean_of: F,
}

impl<
    F: Fn(&[Rating], &[Rating], &[Rating], Rating, Double) -> Double + Sync,
> RatingSystem for Codeforces<F> {
    /// The ranges of ties lie within the field, and the function can be asked for the mean
    /// of everyone in it.
    open spec fn accepts(
        &self,
        before: Seq<(Seq<char>, Player)>,
        field: Seq<(usize, usize, usize)>,
    ) -> bool {
        let all = field_ratings(self.system, before, field);
        &&& ranges_fit(field)
        &&& forall|k: int|
            0 <= k < field.len() ==> answers(
                &self.mean_of,
                self.system.weight,
                all,
                (#[trigger] field[k]).1 as int,
                field[k].2 as int,
                all[k],
            )
    }

    /// Everyone in the field gets the mean that the function works out from the ratings
    /// before the round.
    open spec fn allows(
        &self,
        before: Seq<(Seq<char>, Player)>,
        field: Seq<(usize, usize, usize)>,
        after: Seq<(Seq<char>, Player)>,
    ) -> bool {
        exists|means: Seq<Double>|
            {
                &&& are_means(self.system, &self.mean_of, before, field, means)
                &&& #[trigger] is_update(before, field, means, after)
            }
    }

    fn round_update(&self, players: &mut Roster<Player>, field: &Vec<(usize, usize, usize)>) {
        self.system.round_update(players, field, &self.mean_of);
    }
}

/// The ranges of ties lie within the standings.
pub open spec fn ratable(standings: Seq<(String, usize, usize)>) -> bool {
    forall|k: int|
        0 <= k < standings.len() ==> (#[trigger] standings[k]).1 <= standings.len()
            && standings[k].2 < standings.len()
}

/// Tells whether the Codeforces system can rate a contest.
pub fn can_rate(contest: &Contest) -> (result: bool)
    ensures
        result == ratable(contest.standings@),
{
    let len: usize = contest.standings.len();
    let mut k: usize = 0;
    while k < len
        invariant
            k <= len == contest.standings@.len(),
            forall|j: int|
                0 <= j < k ==> (#[trigger] contest.standings@[j]).1 <= len
                    && contest.standings@[j].2 < len,
        decreases len - k,
    {
        if contest.standings[k].1 > len || contest.standings[k].2 >= len {
            assert(contest.standings@[k as int].1 > len || contest.standings@[k as int].2 >= len);
            return false;
        }
        k += 1;
    }
    true
}

/// Where the ranges of ties lie within the standings, the Codeforces system accepts the
/// field, whoever is in it, if its function can be asked for any mean.
pub proof fn lemma_ratable_accepted<
    F: Fn(&[Rating], &[Rating], &[Rating], Rating, Double) -> Double + Sync,
>(
    codeforces: Codeforces<F>,
    standings: Seq<(String, usize, usize)>,
    before: Seq<(Seq<char>, Player)>,
    field: Seq<(usize, usize, usize)>,
)
    requires
        ratable(standings),
        compute_ratings::is_field(before, standings, field),
        forall|better: &[Rating], worse: &[Rating], everyone: &[Rating], mine: Rating|
            call_requires(
                codeforces.mean_of,
                (better, worse, everyone, mine, codeforces.system.weight),
            ),
    ensures
        codeforces.accepts(before, field),
{
    assert forall|k: int| 0 <= k < field.len() implies (#[trigger] field[k]).1 <= field.len()
        && field[k].2 < field.len() by {
        assert(standings[k].1 <= standings.len());
    }
}

/// `after` is the record of a player with the rating `mine` who tied for the places from
/// `lo` to `hi`, with the mean that the Codeforces system gives it.
pub open spec fn is_rated<
    F: Fn(&[Rating], &[Rating], &[Rating], Rating, Double) -> Double + Sync,
>(
    codeforces: Codeforces<F>,
    all: Seq<Rating>,
    lo: int,
    hi: int,
    mine: Rating,
    before: PlayerModel,
    after: PlayerModel,
) -> bool {
    exists|mean: Double|
        {
            &&& #[trigger] is_answer(
                &codeforces.mean_of,
                codeforces.system.weight,
                all,
                lo,
                hi,
                mine,
                mean,
            )
            &&& after == with_mean(before, mean)
        }
}

/// What a contest does under the Codeforces system: everyone listed, at the place in the
/// roster that `field` gives, has the contest entered into the record, and gets the mean
/// that follows from the range of ties in the standings and from the ratings that the
/// players have before the round.
pub proof fn lemma_contest_rated<
    F: Fn(&[Rating], &[Rating], &[Rating], Rating, Double) -> Double + Sync,
>(
    codeforces: Codeforces<F>,
    players: Seq<(Seq<char>, Player)>,
    contest: Contest,
    ratings: Seq<i32>,
    before: Seq<(Seq<char>, Player)>,
    field: Seq<(usize, usize, usize)>,
    after: Seq<(Seq<char>, Player)>,
)
    requires
        compute_ratings::records(before) == compute_ratings::entered(
            compute_ratings::records(players),
            contest,
            ratings,
        ),
        compute_ratings::is_field(before, contest.standings@, field),
        codeforces.allows(before, field, after),
    ensures
        after.len() == before.len(),
        forall|k: int|
            0 <= k < contest.standings@.len() ==> {
                let place = field[k].0 as int;
                let all = field_ratings(codeforces.system, before, field);
                let entered = compute_ratings::entered(
                    compute_ratings::records(players),
                    contest,
                    ratings,
                );
                &&& after[place].0 == (#[trigger] contest.standings@[k]).0@
                &&& is_rated(
                    codeforces,
                    all,
                    contest.standings@[k].1 as int,
                    contest.standings@[k].2 as int,
                    all[k],
                    entered[place].1,
                    after[place].1@,
                )
            },
{
    let means = choose|means: Seq<Double>|
        {
            &&& are_means(codeforces.system, &codeforces.mean_of, before, field, means)
            &&& #[trigger] is_update(before, field, means, after)
        };
    let all = field_ratings(codeforces.system, before, field);
    assert forall|k: int| 0 <= k < contest.standings@.len() implies {
        let place = field[k].0 as int;
        let entered = compute_ratings::entered(
            compute_ratings::records(players),
            contest,
            ratings,
        );
        &&& after[place].0 == (#[trigger] contest.standings@[k]).0@
        &&& is_rated(
            codeforces,
            all,
            contest.standings@[k].1 as int,
            contest.standings@[k].2 as int,
            all[k],
            entered[place].1,
            after[place].1@,
        )
    } by {
        let place = field[k].0 as int;
        assert(after[place].0 == before[place].0);
        assert(compute_ratings::records(before)[place] == (before[place].0, before[place].1@));
        assert(is_answer(
            &codeforces.mean_of,
            codeforces.system.weight,
            all,
            field[k].1 as int,
            field[k].2 as int,
            all[k],
            means[k],
        ));
    }
}

/// Those who did better, those tied and those who did worse are together all players of
/// the field, in order. So twice the number of the better and the number of those tied
/// come to the number of the better, less that of the worse, and that of all.
pub proof fn lemma_field_split(all: Seq<Rating>, lo: int, hi: int)
    requires
        0 <= lo <= hi < all.len(),
    ensures
        all == all.take(lo) + all.subrange(lo, hi + 1) + all.skip(hi + 1),
        2 * all.take(lo).len() + all.subrange(lo, hi + 1).len() == all.take(lo).len() - all.skip(
            hi + 1,
        ).len() + all.len(),
{
    assert(all =~= all.take(lo) + all.subrange(lo, hi + 1) + all.skip(hi + 1));
}

} // verus!
