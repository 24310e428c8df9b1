//! The leaderboard: one line of figures per player, ranked, and the titles held.

use crate::compute_ratings::Rating;
use crate::counting;
use crate::double::Double;
use crate::means::Rated;
use crate::order;
use crate::order::Sortable;
use crate::roster;
use crate::roster::Roster;
use crate::titles;
use core::cmp::Ordering;
use vstd::prelude::*;

verus! {

/// The file, in the output directory, that the leaderboard goes to.
pub const ALL_PLAYERS_FILE: &'static str = "all_players.csv";

/// What one contest did to a player's rating.
#[derive(Clone, Copy, Debug, PartialEq, Eq, Structural)]
pub struct PlayerEvent {
    pub contest_index: usize,
    pub rating_mu: i32,
    pub rating_sig: i32,
    pub perf_score: i32,
}

/// What the leaderboard reads of a player.
pub struct Player {
    /// The contests that the player took part in, in order.
    pub event_history: Vec<PlayerEvent>,
    /// The estimate of the player's rating.
    pub approx_posterior: Rating,
    /// The time of the last contest.
    pub update_time: u64,
}

impl Rated for Player {
    open spec fn estimate(&self) -> Rating {
        self.approx_posterior
    }

    fn mean(&self) -> (mean: Double) {
        self.approx_posterior.mu
    }
}

pub struct GlobalSummary {
    pub mean_rating: Double,
    pub title_count: Vec<usize>,
}

pub struct PlayerSummary {
    pub rank: Option<usize>,
    pub display_rating: i32,
    pub max_rating: i32,
    pub cur_sigma: i32,
    pub num_contests: usize,
    pub last_contest_index: usize,
    pub last_contest_time: u64,
    pub last_perf: i32,
    pub last_change: i32,
    pub handle: String,
}

/// A rating as it is shown: a conservative estimate, two standard deviations over the
/// usual uncertainty of 80 below the mean.
pub open spec fn display(mu: int, sig: int) -> int {
    mu - 2 * (sig - 80)
}

/// The shown rating, and what it is computed from, fit in a machine word.
pub open spec fn displayable(mu: i32, sig: i32) -> bool {
    &&& i32::MIN <= sig - 80
    &&& i32::MIN <= 2 * (sig - 80) <= i32::MAX
    &&& i32::MIN <= display(mu as int, sig as int) <= i32::MAX
}

/// The rating shown after a contest.
pub open spec fn display_of(event: PlayerEvent) -> int {
    display(event.rating_mu as int, event.rating_sig as int)
}

pub fn get_display_rating_from_ints(mu: i32, sig: i32) -> (rating: i32)
    requires
        displayable(mu, sig),
    ensures
        rating == display(mu as int, sig as int),
        rating + 2 * sig == mu + 160,
{
    mu - 2 * (sig - 80)
}

pub fn get_display_rating(event: &PlayerEvent) -> (rating: i32)
    requires
        displayable(event.rating_mu, event.rating_sig),
    ensures
        rating == display_of(*event),
        rating + 2 * event.rating_sig == event.rating_mu + 160,
{
    get_display_rating_from_ints(event.rating_mu, event.rating_sig)
}

/// At an uncertainty of 80 the mean itself is shown. Each unit of uncertainty more lowers
/// the shown rating by two, and each unit of the mean raises it by one.
pub proof fn lemma_shown_rating(mu: int, sig: int, step: int)
    ensures
        display(mu, sig) + 2 * sig == mu + 160,
        display(mu, 80) == mu,
        display(mu, sig + step) + 2 * step == display(mu, sig),
        display(mu + step, sig) == display(mu, sig) + step,
{
}

/// What is shown after a contest is worked out from the mean and the uncertainty after it,
/// and from nothing else.
pub proof fn lemma_shown_after(event: PlayerEvent)
    ensures
        display_of(event) + 2 * event.rating_sig == event.rating_mu + 160,
        display_of(event) <= event.rating_mu <==> event.rating_sig >= 80,
{
}

/// The ratings shown after each contest of a history.
pub open spec fn displays(history: Seq<PlayerEvent>) -> Seq<int> {
    history.map_values(|e: PlayerEvent| display_of(e))
}

/// The rating shown before the last contest of a history: that of a newcomer, if there
/// was no other.
pub open spec fn previous_display(history: Seq<PlayerEvent>) -> int {
    if history.len() == 1 {
        display(1500, 350)
    } else {
        display_of(history[history.len() - 2])
    }
}

/// The player took part in a contest, and the figures of the leaderboard fit in machine
/// words.
pub open spec fn summarizable(player: Player) -> bool {
    let history = player.event_history@;
    &&& history.len() > 0
    &&& forall|i: int|
        0 <= i < history.len() ==> displayable(
            (#[trigger] history[i]).rating_mu,
            history[i].rating_sig,
        )
    &&& i32::MIN <= display_of(history.last()) - previous_display(history) <= i32::MAX
}

/// All players can be told of on a leaderboard; where there are ratings to compare, they
/// can be negated.
pub open spec fn all_summarizable(players: Seq<(Seq<char>, Player)>) -> bool {
    &&& forall|i: int| 0 <= i < players.len() ==> summarizable((#[trigger] players[i]).1)
    &&& players.len() > 1 ==> forall|i: int|
        0 <= i < players.len() ==> display_of((#[trigger] players[i]).1.event_history@.last())
            > i32::MIN
}

/// Just those ratings can be shown of which no step of the calculation leaves the range of a
/// machine word.
pub proof fn lemma_displayable(mu: i32, sig: i32)
    ensures
        displayable(mu, sig) <==> {
            &&& i32::MIN <= sig - 80
            &&& i32::MIN <= 2 * sig - 160 <= i32::MAX
            &&& i32::MIN <= mu - (2 * sig - 160) <= i32::MAX
        },
{
}

/// Just those players can be put on a leaderboard who took part in a contest, all of whose
/// ratings can be shown, and whose last change fits in a machine word; and where there are
/// several, none of them may show the lowest number that there is.
pub proof fn lemma_summarizable(players: Seq<(Seq<char>, Player)>)
    ensures
        all_summarizable(players) <==> {
            &&& forall|p: int|
                0 <= p < players.len() ==> (#[trigger] players[p]).1.event_history@.len() > 0
            &&& forall|p: int, e: int|
                #![trigger players[p].1.event_history@[e]]
                0 <= p < players.len() && 0 <= e < players[p].1.event_history@.len()
                    ==> displayable(
                    players[p].1.event_history@[e].rating_mu,
                    players[p].1.event_history@[e].rating_sig,
                )
            &&& forall|p: int|
                0 <= p < players.len() ==> {
                    let history = (#[trigger] players[p]).1.event_history@;
                    let last = history[history.len() - 1];
                    let shown = last.rating_mu + 160 - 2 * last.rating_sig;
                    let previous = if history.len() == 1 {
                        960
                    } else {
                        history[history.len() - 2].rating_mu + 160 - 2 * history[history.len()
                            - 2].rating_sig
                    };
                    &&& i32::MIN <= shown - previous <= i32::MAX
                    &&& players.len() > 1 ==> shown > i32::MIN
                }
        },
{
    if all_summarizable(players) {
        assert forall|p: int, e: int|
            #![trigger players[p].1.event_history@[e]]
            0 <= p < players.len() && 0 <= e
                < players[p].1.event_history@.len() implies displayable(
            players[p].1.event_history@[e].rating_mu,
            players[p].1.event_history@[e].rating_sig,
        ) by {
            assert(summarizable(players[p].1));
        }
        assert forall|p: int| 0 <= p < players.len() implies {
            let history = (#[trigger] players[p]).1.event_history@;
            let last = history[history.len() - 1];
            let shown = last.rating_mu + 160 - 2 * last.rating_sig;
            let previous = if history.len() == 1 {
                960
            } else {
                history[history.len() - 2].rating_mu + 160 - 2 * history[history.len()
                    - 2].rating_sig
            };
            &&& i32::MIN <= shown - previous <= i32::MAX
            &&& players.len() > 1 ==> shown > i32::MIN
        } by {
            assert(summarizable(players[p].1));
        }
    }
    if {
        &&& forall|p: int|
            0 <= p < players.len() ==> (#[trigger] players[p]).1.event_history@.len() > 0
        &&& forall|p: int, e: int|
            #![trigger players[p].1.event_history@[e]]
            0 <= p < players.len() && 0 <= e < players[p].1.event_history@.len() ==> displayable(
                players[p].1.event_history@[e].rating_mu,
                players[p].1.event_history@[e].rating_sig,
            )
        &&& forall|p: int|
            0 <= p < players.len() ==> {
                let history = (#[trigger] players[p]).1.event_history@;
                let last = history[history.len() - 1];
                let shown = last.rating_mu + 160 - 2 * last.rating_sig;
                let previous = if history.len() == 1 {
                    960
                } else {
                    history[history.len() - 2].rating_mu + 160 - 2 * history[history.len()
                        - 2].rating_sig
                };
                &&& i32::MIN <= shown - previous <= i32::MAX
                &&& players.len() > 1 ==> shown > i32::MIN
            }
    } {
        assert forall|p: int| 0 <= p < players.len() implies summarizable(
            (#[trigger] players[p]).1,
        ) by {
            let history = players[p].1.event_history@;
            assert(history.len() > 0);
        }
    }
}

/// What the leaderboard tells of a player, but for the rank.
pub struct Figures {
    pub display_rating: int,
    pub max_rating: int,
    pub cur_sigma: int,
    pub num_contests: int,
    pub last_contest_index: int,
    pub last_contest_time: int,
    pub last_perf: int,
    pub last_change: int,
    pub handle: Seq<char>,
}

/// The figures of a player.
pub open spec fn figures_of(handle: Seq<char>, player: Player) -> Figures {
    let history = player.event_history@;
    Figures {
        display_rating: display_of(history.last()),
        max_rating: displays(history).max(),
        cur_sigma: player.approx_posterior.sig.rounded(),
        num_contests: history.len() as int,
        last_contest_index: history.last().contest_index as int,
        last_contest_time: player.update_time as int,
        last_perf: history.last().perf_score as int,
        last_change: display_of(history.last()) - previous_display(history),
        handle,
    }
}

/// The figures in a line of the leaderboard.
pub open spec fn figures_in(line: PlayerSummary) -> Figures {
    Figures {
        display_rating: line.display_rating as int,
        max_rating: line.max_rating as int,
        cur_sigma: line.cur_sigma as int,
        num_contests: line.num_contests as int,
        last_contest_index: line.last_contest_index as int,
        last_contest_time: line.last_contest_time as int,
        last_perf: line.last_perf as int,
        last_change: line.last_change as int,
        handle: line.handle@,
    }
}

/// The order of the leaderboard.
pub open spec fn stands_before(a: Figures, b: Figures) -> bool {
    order::ranks_before((a.display_rating, a.handle), (b.display_rating, b.handle))
}

/// The figures of all players of a roster.
pub open spec fn all_figures(players: Seq<(Seq<char>, Player)>) -> Seq<Figures> {
    players.map_values(|e: (Seq<char>, Player)| figures_of(e.0, e.1))
}

/// The figures in all lines of a leaderboard.
pub open spec fn board_figures(board: Seq<PlayerSummary>) -> Seq<Figures> {
    board.map_values(|line: PlayerSummary| figures_in(line))
}

/// How many of the players were rated after a time.
pub open spec fn active(figures: Seq<Figures>, rated_since: int) -> nat {
    counting::count(figures, |f: Figures| f.last_contest_time > rated_since)
}

/// `board` is the leaderboard of the players: it tells of each of them, in order, and
/// numbers those who were rated after `rated_since`, from 1 up.
pub open spec fn is_leaderboard(
    players: Seq<(Seq<char>, Player)>,
    rated_since: u64,
    board: Seq<PlayerSummary>,
) -> bool {
    let figures = board_figures(board);
    &&& figures.to_multiset() == all_figures(players).to_multiset()
    &&& forall|i: int, j: int|
        0 <= i < j < figures.len() ==> stands_before(#[trigger] figures[i], #[trigger] figures[j])
    &&& forall|i: int|
        0 <= i < board.len() ==> match (#[trigger] board[i]).rank {
            Some(rank) => {
                &&& board[i].last_contest_time > rated_since
                &&& rank == active(figures.take(i), rated_since as int) + 1
            },
            None => board[i].last_contest_time <= rated_since,
        }
}

/// How many players who were rated after a time hold a title.
pub open spec fn title_holders(
    players: Seq<(Seq<char>, Player)>,
    rated_since: u64,
    k: int,
) -> nat {
    counting::count(
        players,
        |e: (Seq<char>, Player)|
            e.1.update_time > rated_since && titles::earns(display_of(e.1.event_history@.last()), k),
    )
}

impl Sortable for PlayerSummary {
    open spec fn precedes(self, other: Self) -> bool {
        stands_before(figures_in(self), figures_in(other))
    }

    proof fn lemma_weak_order(a: Self, b: Self, c: Self) {
        order::lemma_ranks_before(
            (a.display_rating as int, a.handle@),
            (b.display_rating as int, b.handle@),
            (c.display_rating as int, c.handle@),
        );
    }

    fn compare(&self, other: &Self) -> (result: Ordering) {
        order::compare_ranks(
            self.display_rating,
            self.handle.as_str(),
            other.display_rating,
            other.handle.as_str(),
        )
    }
}

/// The highest rating shown in a history.
fn max_display(history: &Vec<PlayerEvent>) -> (max: i32)
    requires
        history@.len() > 0,
        forall|i: int|
            0 <= i < history@.len() ==> displayable(
                (#[trigger] history@[i]).rating_mu,
                history@[i].rating_sig,
            ),
    ensures
        max == displays(history@).max(),
        forall|i: int|
            0 <= i < history@.len() ==> max + 2 * (#[trigger] history@[i]).rating_sig
                >= history@[i].rating_mu + 160,
        exists|i: int|
            0 <= i < history@.len() && max + 2 * (#[trigger] history@[i]).rating_sig
                == history@[i].rating_mu + 160,
{
    let mut max: i32 = get_display_rating(&history[0]);
    assert(display_of(history@[0]) == max);
    let mut i: usize = 1;
    while i < history.len()
        invariant
            1 <= i <= history@.len(),
            forall|j: int|
                0 <= j < history@.len() ==> displayable(
                    (#[trigger] history@[j]).rating_mu,
                    history@[j].rating_sig,
                ),
            forall|j: int| 0 <= j < i ==> display_of(#[trigger] history@[j]) <= max,
            exists|j: int| 0 <= j < i && display_of(#[trigger] history@[j]) == max,
        decreases history@.len() - i,
    {
        let rating: i32 = get_display_rating(&history[i]);
        if rating > max {
            max = rating;
        }
        i += 1;
    }
    proof {
        let ratings = displays(history@);
        ratings.max_ensures();
        let j = choose|j: int| 0 <= j < history@.len() && display_of(#[trigger] history@[j]) == max;
        assert(ratings[j] == max);
        assert(ratings.contains(ratings[j]));
        let m = choose|m: int| 0 <= m < ratings.len() && ratings[m] == ratings.max();
        assert(display_of(history@[m]) == ratings[m]);
    }
    max
}

/// The line of the leaderboard that tells of a player, not yet ranked.
pub fn summarize(handle: &String, player: &Player) -> (line: PlayerSummary)
    requires
        summarizable(*player),
    ensures
        line.rank is None,
        figures_in(line) == figures_of(handle@, *player),
        line.handle@ == handle@,
        line.display_rating + 2 * player.event_history@.last().rating_sig
            == player.event_history@.last().rating_mu + 160,
        forall|i: int|
            0 <= i < player.event_history@.len() ==> line.max_rating + 2 * (
            #[trigger] player.event_history@[i]).rating_sig >= player.event_history@[i].rating_mu
                + 160,
        exists|i: int|
            0 <= i < player.event_history@.len() && line.max_rating + 2 * (
            #[trigger] player.event_history@[i]).rating_sig == player.event_history@[i].rating_mu
                + 160,
        line.cur_sigma == player.approx_posterior.sig.rounded(),
        line.num_contests == player.event_history@.len(),
        line.last_contest_index == player.event_history@.last().contest_index,
        line.last_contest_time == player.update_time,
        line.last_perf == player.event_history@.last().perf_score,
        player.event_history@.len() == 1 ==> line.last_change == line.display_rating - 960,
        player.event_history@.len() >= 2 ==> {
            let previous = player.event_history@[player.event_history@.len() - 2];
            line.last_change == line.display_rating - (previous.rating_mu + 160 - 2
                * previous.rating_sig)
        },
{
    let num_contests: usize = player.event_history.len();
    let last_event: PlayerEvent = player.event_history[num_contests - 1];
    let max_rating: i32 = max_display(&player.event_history);
    let display_rating: i32 = get_display_rating(&last_event);
    let prev_rating: i32 = if num_contests == 1 {
        get_display_rating_from_ints(1500, 350)
    } else {
        get_display_rating(&player.event_history[num_contests - 2])
    };
    PlayerSummary {
        rank: None,
        display_rating,
        max_rating,
        cur_sigma: player.approx_posterior.sig.round_to_i32(),
        num_contests,
        last_contest_index: last_event.contest_index,
        last_contest_time: player.update_time,
        last_perf: last_event.perf_score,
        last_change: display_rating - prev_rating,
        handle: handle.clone(),
    }
}

/// The rating to show, if it and what it is computed from fit in a machine word.
fn shown_rating(event: &PlayerEvent) -> (rating: Option<i32>)
    ensures
        rating == (if displayable(event.rating_mu, event.rating_sig) {
            Some(display_of(*event) as i32)
        } else {
            None
        }),
{
    match event.rating_sig.checked_sub(80) {
        Some(over) => match over.checked_mul(2) {
            Some(twice) => event.rating_mu.checked_sub(twice),
            None => None,
        },
        None => None,
    }
}

/// Tells whether a player can be summarized, by the rating that is then shown.
fn summarized_rating(player: &Player) -> (rating: Option<i32>)
    ensures
        rating == (if summarizable(*player) {
            Some(display_of(player.event_history@.last()) as i32)
        } else {
            None
        }),
{
    let num_contests: usize = player.event_history.len();
    let mut last: i32 = 0;
    let mut previous: i32 = get_display_rating_from_ints(1500, 350);
    let mut i: usize = 0;
    while i < num_contests
        invariant
            i <= num_contests == player.event_history@.len(),
            forall|j: int|
                0 <= j < i ==> displayable(
                    (#[trigger] player.event_history@[j]).rating_mu,
                    player.event_history@[j].rating_sig,
                ),
            i >= 1 ==> last == display_of(player.event_history@[i - 1]),
            i <= 1 ==> previous == display(1500, 350),
            i >= 2 ==> previous == display_of(player.event_history@[i - 2]),
        decreases num_contests - i,
    {
        match shown_rating(&player.event_history[i]) {
            Some(rating) => {
                if i > 0 {
                    previous = last;
                }
                last = rating;
            },
            None => {
                proof {
                    assert(!displayable(
                        player.event_history@[i as int].rating_mu,
                        player.event_history@[i as int].rating_sig,
                    ));
                }
                return None;
            },
        }
        i += 1;
    }
    if num_contests > 0 && last.checked_sub(previous).is_some() {
        Some(last)
    } else {
        None
    }
}

/// Tells whether all players can be summarized.
pub fn can_summarize_all(players: &Roster<Player>) -> (result: bool)
    ensures
        result == all_summarizable(players@),
{
    let mut i: usize = 0;
    while i < players.len()
        invariant
            i <= players@.len(),
            forall|j: int| 0 <= j < i ==> summarizable((#[trigger] players@[j]).1),
            players@.len() > 1 ==> forall|j: int|
                0 <= j < i ==> display_of((#[trigger] players@[j]).1.event_history@.last())
                    > i32::MIN,
        decreases players@.len() - i,
    {
        match summarized_rating(players.get(i)) {
            Some(rating) => {
                if rating == i32::MIN && players.len() > 1 {
                    assert(display_of(players@[i as int].1.event_history@.last()) == i32::MIN);
                    return false;
                }
            },
            None => {
                assert(!summarizable(players@[i as int].1));
                return false;
            },
        }
        i += 1;
    }
    true
}

/// Sorts the lines of the leaderboard.
fn sort_lines(board: &mut Vec<PlayerSummary>, Ghost(players): Ghost<Seq<(Seq<char>, Player)>>)
    requires
        roster::distinct(players),
        board_figures(old(board)@) == all_figures(players),
        forall|i: int| 0 <= i < old(board)@.len() ==> (#[trigger] old(board)@[i]).rank is None,
    ensures
        board_figures(final(board)@).to_multiset() == all_figures(players).to_multiset(),
        forall|i: int| 0 <= i < final(board)@.len() ==> (#[trigger] final(board)@[i]).rank is None,
        forall|i: int, j: int|
            0 <= i < j < final(board)@.len() ==> stands_before(
                figures_in(#[trigger] final(board)@[i]),
                figures_in(#[trigger] final(board)@[j]),
            ),
{
    let ghost before = board@;
    order::sort_unstable(board);
    proof {
        let f = |line: PlayerSummary| figures_in(line);
        counting::lemma_map_permutation(board@, before, f);
        counting::lemma_permutation_contains(board@, before);
        assert forall|i: int| 0 <= i < board@.len() implies (#[trigger] board@[i]).rank is None by {
            assert(board@.contains(board@[i]));
            assert(before.contains(board@[i]));
        }
        let h = |line: PlayerSummary| line.handle@;
        assert(before.len() == players.len()) by {
            assert(board_figures(before).len() == before.len());
            assert(all_figures(players).len() == players.len());
        }
        assert forall|i: int| 0 <= i < before.len() implies h(#[trigger] before[i])
            == players[i].0 by {
            assert(board_figures(before)[i] == figures_in(before[i]));
            assert(all_figures(players)[i] == figures_of(players[i].0, players[i].1));
        }
        assert forall|i: int, j: int| 0 <= i < j < before.len() implies h(#[trigger] before[i])
            != h(#[trigger] before[j]) by {
            assert(players[i].0 != players[j].0);
        }
        counting::lemma_images_distinct(board@, before, h);
        assert forall|i: int, j: int| 0 <= i < j < board@.len() implies stands_before(
            figures_in(#[trigger] board@[i]),
            figures_in(#[trigger] board@[j]),
        ) by {
            assert(h(board@[i]) != h(board@[j]));
            assert(!board@[j].precedes(board@[i]));
            let a = (board@[i].display_rating as int, board@[i].handle@);
            let b = (board@[j].display_rating as int, board@[j].handle@);
            order::lemma_ranks_before(a, b, a);
        }
    }
}

/// Numbers the lines of the players who were rated after a time.
fn rank_lines(board: &mut Vec<PlayerSummary>, rated_since: u64)
    requires
        forall|i: int| 0 <= i < old(board)@.len() ==> (#[trigger] old(board)@[i]).rank is None,
    ensures
        board_figures(final(board)@) == board_figures(old(board)@),
        forall|i: int|
            0 <= i < final(board)@.len() ==> match (#[trigger] final(board)@[i]).rank {
                Some(rank) => {
                    &&& final(board)@[i].last_contest_time > rated_since
                    &&& rank == active(
                        board_figures(old(board)@).take(i),
                        rated_since as int,
                    ) + 1
                },
                None => final(board)@[i].last_contest_time <= rated_since,
            },
{
    let ghost before = board@;
    let ghost figures = board_figures(board@);
    let ghost p = |f: Figures| f.last_contest_time > rated_since as int;
    let mut rank: usize = 0;
    let mut i: usize = 0;
    proof {
        counting::lemma_count_bound(figures.take(0), p);
    }
    while i < board.len()
        invariant
            i <= board@.len(),
            board@.len() == before.len(),
            rank <= i,
            figures == board_figures(before),
            p == (|f: Figures| f.last_contest_time > rated_since as int),
            rank == active(figures.take(i as int), rated_since as int),
            forall|j: int|
                0 <= j < before.len() ==> figures_in(#[trigger] board@[j]) == figures_in(before[j]),
            forall|j: int| i <= j < board@.len() ==> (#[trigger] board@[j]).rank is None,
            forall|j: int|
                0 <= j < i ==> match (#[trigger] board@[j]).rank {
                    Some(r) => {
                        &&& board@[j].last_contest_time > rated_since
                        &&& r == active(figures.take(j), rated_since as int) + 1
                    },
                    None => board@[j].last_contest_time <= rated_since,
                },
        decreases board@.len() - i,
    {
        proof {
            counting::lemma_count_take(figures, i as int, p);
            assert(figures[i as int] == figures_in(before[i as int]));
            assert(figures_in(board@[i as int]) == figures_in(before[i as int]));
        }
        if board[i].last_contest_time > rated_since {
            rank += 1;
            board[i].rank = Some(rank);
        }
        i += 1;
    }
    proof {
        assert(board_figures(board@) =~= figures);
    }
}

/// Counts, and adds to the leaderboard, one player after another; then sorts and ranks
/// the lines. The mean of the ratings is handed in.
pub fn make_leaderboard(players: &Roster<Player>, rated_since: u64, mean_rating: Double) -> (result:
    (GlobalSummary, Vec<PlayerSummary>))
    requires
        players.wf(),
        all_summarizable(players@),
    ensures
        result.0.mean_rating == mean_rating,
        result.0.title_count@.len() == titles::NUM_TITLES,
        forall|k: int|
            0 <= k < titles::NUM_TITLES ==> #[trigger] result.0.title_count@[k] == title_holders(
                players@,
                rated_since,
                k,
            ),
        is_leaderboard(players@, rated_since, result.1@),
{
    let mut rating_data: Vec<PlayerSummary> = Vec::new();
    let mut title_count: Vec<usize> = vec![0;titles::NUM_TITLES];
    let mut i: usize = 0;
    proof {
        players.lemma_distinct();
        assert forall|k: int| 0 <= k < titles::NUM_TITLES implies #[trigger] title_count@[k]
            == title_holders(players@.take(0), rated_since, k) by {
            reveal(Seq::filter);
        }
    }
    while i < players.len()
        invariant
            i <= players@.len() <= usize::MAX,
            forall|j: int| 0 <= j < players@.len() ==> summarizable((#[trigger] players@[j]).1),
            rating_data@.len() == i,
            forall|j: int|
                0 <= j < i ==> {
                    &&& (#[trigger] rating_data@[j]).rank is None
                    &&& figures_in(rating_data@[j]) == figures_of(players@[j].0, players@[j].1)
                },
            title_count@.len() == titles::NUM_TITLES,
            forall|k: int|
                0 <= k < titles::NUM_TITLES ==> #[trigger] title_count@[k] == title_holders(
                    players@.take(i as int),
                    rated_since,
                    k,
                ),
        decreases players@.len() - i,
    {
        let player = players.get(i);
        let line = summarize(players.handle(i), player);
        let display_rating: i32 = line.display_rating;
        rating_data.push(line);
        let ghost counts = title_count@;
        let ghost shown = display_of(player.event_history@.last());
        proof {
            assert forall|k: int| 0 <= k < titles::NUM_TITLES implies #[trigger] counts[k] <= i
                && title_holders(players@.take(i + 1), rated_since, k) == counts[k] + (if
            player.update_time > rated_since && titles::earns(shown, k) {
                1int
            } else {
                0int
            }) by {
                let p = |e: (Seq<char>, Player)|
                    e.1.update_time > rated_since && titles::earns(
                        display_of(e.1.event_history@.last()),
                        k,
                    );
                counting::lemma_count_take(players@, i as int, p);
            }
        }
        if player.update_time > rated_since {
            titles::count_title(&mut title_count, display_rating);
        }
        proof {
            assert forall|k: int| 0 <= k < titles::NUM_TITLES implies #[trigger] title_count@[k]
                == title_holders(players@.take(i + 1), rated_since, k) by {
                assert(counts[k] <= i);
            }
        }
        i += 1;
    }
    proof {
        assert(board_figures(rating_data@) =~= all_figures(players@));
        assert(players@.take(players@.len() as int) =~= players@);
    }
    sort_lines(&mut rating_data, Ghost(players@));
    let ghost sorted = rating_data@;
    rank_lines(&mut rating_data, rated_since);
    proof {
        let figures = board_figures(rating_data@);
        assert forall|i: int, j: int| 0 <= i < j < figures.len() implies stands_before(
            #[trigger] figures[i],
            #[trigger] figures[j],
        ) by {
            assert(board_figures(sorted)[i] == figures_in(sorted[i]));
            assert(board_figures(sorted)[j] == figures_in(sorted[j]));
        }
    }
    (GlobalSummary { mean_rating, title_count }, rating_data)
}

/// The lines that report the mean rating, already in words, and how many players hold
/// each title, the highest first; and the leaderboard that goes to
/// `ALL_PLAYERS_FILE`.
pub fn print_ratings(
    players: &Roster<Player>,
    rated_since: u64,
    mean_rating: Double,
    mean_text: &str,
) -> (result: (Vec<String>, Vec<PlayerSummary>))
    requires
        players.wf(),
        all_summarizable(players@),
    ensures
        result.0@.len() == titles::NUM_TITLES + 1,
        result.0@[0]@ == "Mean rating.mu = "@ + mean_text@,
        forall|j: int|
            1 <= j <= titles::NUM_TITLES ==> (#[trigger] result.0@[j])@ == titles::title_line(
                titles::NUM_TITLES - j,
                title_holders(players@, rated_since, titles::NUM_TITLES - j) as int,
            ),
        is_leaderboard(players@, rated_since, result.1@),
{
    let (summary, rating_data) = make_leaderboard(players, rated_since, mean_rating);
    let mut lines: Vec<String> = Vec::new();
    lines.push("Mean rating.mu = ".to_owned().concat(mean_text));
    let mut i: usize = titles::NUM_TITLES;
    while i > 0
        invariant
            i <= titles::NUM_TITLES,
            summary.title_count@.len() == titles::NUM_TITLES,
            forall|k: int|
                0 <= k < titles::NUM_TITLES ==> #[trigger] summary.title_count@[k] == title_holders(
                    players@,
                    rated_since,
                    k,
                ),
            lines@.len() == titles::NUM_TITLES - i + 1,
            lines@[0]@ == "Mean rating.mu = "@ + mean_text@,
            forall|j: int|
                1 <= j < lines@.len() ==> (#[trigger] lines@[j])@ == titles::title_line(
                    titles::NUM_TITLES - j,
                    title_holders(players@, rated_since, titles::NUM_TITLES - j) as int,
                ),
        decreases i,
    {
        i -= 1;
        let line = titles::title_count_line(i, summary.title_count[i]);
        lines.push(line);
    }
    (lines, rating_data)
}

/// The leaderboard does not depend on the order in which the players are walked: from
/// the same players it is the same, line by line, rank by rank.
pub proof fn lemma_leaderboard_unique(
    players: Seq<(Seq<char>, Player)>,
    others: Seq<(Seq<char>, Player)>,
    rated_since: u64,
    board: Seq<PlayerSummary>,
    other_board: Seq<PlayerSummary>,
)
    requires
        players.to_multiset() == others.to_multiset(),
        is_leaderboard(players, rated_since, board),
        is_leaderboard(others, rated_since, other_board),
    ensures
        board_figures(board) == board_figures(other_board),
        board.len() == other_board.len(),
        forall|i: int| 0 <= i < board.len() ==> (#[trigger] board[i]).rank == other_board[i].rank,
        forall|k: int|
            #[trigger] title_holders(players, rated_since, k) == title_holders(
                others,
                rated_since,
                k,
            ),
{
    let a = board_figures(board);
    let b = board_figures(other_board);
    counting::lemma_map_permutation(
        players,
        others,
        |e: (Seq<char>, Player)| figures_of(e.0, e.1),
    );
    let lt = |x: Figures, y: Figures| stands_before(x, y);
    assert forall|x: Figures| !#[trigger] lt(x, x) by {
        let a = (x.display_rating, x.handle);
        order::lemma_ranks_before(a, a, a);
    }
    assert forall|x: Figures, y: Figures, z: Figures| #[trigger]
        lt(x, y) && #[trigger] lt(y, z) implies lt(x, z) by {
        order::lemma_ranks_before(
            (x.display_rating, x.handle),
            (y.display_rating, y.handle),
            (z.display_rating, z.handle),
        );
    }
    counting::lemma_strict_order_unique(a, b, lt);
    assert(a.len() == board.len() && b.len() == other_board.len());
    assert forall|i: int| 0 <= i < board.len() implies (#[trigger] board[i]).rank
        == other_board[i].rank by {
        assert(a[i] == figures_in(board[i]));
        assert(b[i] == figures_in(other_board[i]));
    }
    assert forall|k: int|
        #[trigger] title_holders(players, rated_since, k) == title_holders(
            others,
            rated_since,
            k,
        ) by {
        counting::lemma_count_permutation(
            players,
            others,
            |e: (Seq<char>, Player)|
                e.1.update_time > rated_since && titles::earns(
                    display_of(e.1.event_history@.last()),
                    k,
                ),
        );
    }
}

/// Down the board, shown ratings do not rise, and equal ones stand in the dictionary order
/// of their handles.
pub proof fn lemma_board_descends(
    players: Seq<(Seq<char>, Player)>,
    rated_since: u64,
    board: Seq<PlayerSummary>,
    i: int,
    j: int,
)
    requires
        is_leaderboard(players, rated_since, board),
        0 <= i < j < board.len(),
    ensures
        board[i].display_rating >= board[j].display_rating,
        board[i].display_rating == board[j].display_rating ==> order::text_precedes(
            board[i].handle@,
            board[j].handle@,
        ),
{
    let figures = board_figures(board);
    assert(figures[i] == figures_in(board[i]));
    assert(figures[j] == figures_in(board[j]));
    assert(stands_before(figures[i], figures[j]));
}

/// Each line tells of a player: its figures are those of the player's history, under the
/// player's handle.
pub proof fn lemma_line_figures(
    players: Seq<(Seq<char>, Player)>,
    rated_since: u64,
    board: Seq<PlayerSummary>,
    i: int,
) -> (place: int)
    requires
        is_leaderboard(players, rated_since, board),
        forall|p: int| 0 <= p < players.len() ==> (#[trigger] players[p]).1.event_history@.len() > 0,
        0 <= i < board.len(),
    ensures
        0 <= place < players.len(),
        board[i].handle@ == players[place].0,
        board[i].last_contest_time == players[place].1.update_time,
        board[i].num_contests == players[place].1.event_history@.len(),
        board[i].cur_sigma == players[place].1.approx_posterior.sig.rounded(),
        ({
            let history = players[place].1.event_history@;
            let last = history[history.len() - 1];
            &&& board[i].display_rating + 2 * last.rating_sig == last.rating_mu + 160
            &&& board[i].last_contest_index == last.contest_index
            &&& board[i].last_perf == last.perf_score
            &&& history.len() == 1 ==> board[i].last_change == board[i].display_rating - 960
            &&& history.len() >= 2 ==> {
                let previous = history[history.len() - 2];
                board[i].last_change == board[i].display_rating - (previous.rating_mu + 160 - 2
                    * previous.rating_sig)
            }
            &&& forall|e: int|
                0 <= e < history.len() ==> board[i].max_rating + 2 * (
                #[trigger] history[e]).rating_sig >= history[e].rating_mu + 160
            &&& exists|e: int|
                0 <= e < history.len() && board[i].max_rating + 2 * (
                #[trigger] history[e]).rating_sig == history[e].rating_mu + 160
        }),
{
    let figures = board_figures(board);
    let all = all_figures(players);
    counting::lemma_permutation_contains(figures, all);
    assert(figures[i] == figures_in(board[i]));
    assert(figures.contains(figures[i]));
    assert(all.contains(figures[i]));
    let place = choose|p: int| 0 <= p < all.len() && all[p] == figures[i];
    assert(all[place] == figures_of(players[place].0, players[place].1));
    let history = players[place].1.event_history@;
    let ratings = displays(history);
    assert(history.len() > 0);
    assert(ratings[0] == display_of(history[0]));
    ratings.max_ensures();
    assert forall|e: int| 0 <= e < history.len() implies board[i].max_rating + 2 * (
    #[trigger] history[e]).rating_sig >= history[e].rating_mu + 160 by {
        assert(ratings[e] == display_of(history[e]));
    }
    let e = choose|e: int| 0 <= e < ratings.len() && ratings[e] == ratings.max();
    assert(ratings[e] == display_of(history[e]));
    assert(board[i].max_rating + 2 * history[e].rating_sig == history[e].rating_mu + 160);
    place
}

/// Everyone is on the board: some line has the player's handle.
pub proof fn lemma_everyone_listed(
    players: Seq<(Seq<char>, Player)>,
    rated_since: u64,
    board: Seq<PlayerSummary>,
    place: int,
) -> (i: int)
    requires
        is_leaderboard(players, rated_since, board),
        0 <= place < players.len(),
    ensures
        board.len() == players.len(),
        0 <= i < board.len(),
        board[i].handle@ == players[place].0,
        board[i].last_contest_time == players[place].1.update_time,
        board[i].num_contests == players[place].1.event_history@.len(),
{
    let figures = board_figures(board);
    let all = all_figures(players);
    counting::lemma_permutation_contains(figures, all);
    assert(all.len() == players.len() && figures.len() == board.len());
    assert(all[place] == figures_of(players[place].0, players[place].1));
    assert(all.contains(all[place]));
    assert(figures.contains(all[place]));
    let i = choose|i: int| 0 <= i < figures.len() && figures[i] == all[place];
    assert(figures[i] == figures_in(board[i]));
    i
}

/// Just those who were rated after the time have a rank. The first of them has rank 1, and
/// each other one the next rank after the one before it.
pub proof fn lemma_ranks_count_up(
    players: Seq<(Seq<char>, Player)>,
    rated_since: u64,
    board: Seq<PlayerSummary>,
)
    requires
        is_leaderboard(players, rated_since, board),
    ensures
        forall|i: int|
            0 <= i < board.len() ==> ((#[trigger] board[i]).rank is Some
                <==> board[i].last_contest_time > rated_since),
        forall|i: int|
            0 <= i < board.len() && (#[trigger] board[i]).rank is Some && (forall|m: int|
                0 <= m < i ==> (#[trigger] board[m]).last_contest_time <= rated_since)
                ==> board[i].rank->0 == 1,
        forall|i: int, j: int|
            0 <= i < j < board.len() && (#[trigger] board[i]).rank is Some && (
            #[trigger] board[j]).rank is Some && (forall|m: int|
                i < m < j ==> (#[trigger] board[m]).last_contest_time <= rated_since)
                ==> board[j].rank->0 == board[i].rank->0 + 1,
{
    let figures = board_figures(board);
    let p = |f: Figures| f.last_contest_time > rated_since as int;
    assert(figures.len() == board.len());
    assert forall|i: int|
        0 <= i < board.len() && (#[trigger] board[i]).rank is Some && (forall|m: int|
            0 <= m < i ==> (#[trigger] board[m]).last_contest_time
                <= rated_since) implies board[i].rank->0 == 1 by {
        assert forall|m: int| 0 <= m < i implies !p(#[trigger] figures.take(i)[m]) by {
            assert(figures[m] == figures_in(board[m]));
        }
        counting::lemma_count_prefix(figures.take(i), 0, p);
    }
    assert forall|i: int, j: int|
        0 <= i < j < board.len() && (#[trigger] board[i]).rank is Some && (
        #[trigger] board[j]).rank is Some && (forall|m: int|
            i < m < j ==> (#[trigger] board[m]).last_contest_time
                <= rated_since) implies board[j].rank->0 == board[i].rank->0 + 1 by {
        assert(figures[i] == figures_in(board[i]));
        counting::lemma_count_take(figures, i, p);
        let between = figures.subrange(i + 1, j);
        assert(figures.take(j) =~= figures.take(i + 1) + between);
        counting::lemma_count_add(figures.take(i + 1), between, p);
        assert forall|m: int| 0 <= m < between.len() implies !p(#[trigger] between[m]) by {
            assert(figures[i + 1 + m] == figures_in(board[i + 1 + m]));
        }
        counting::lemma_count_prefix(between, 0, p);
    }
}

/// One more player adds a holder to just the title whose bounds the shown rating lies
/// between, and only if it was rated after the time. Nobody holds a title among no players.
pub proof fn lemma_title_holders(
    players: Seq<(Seq<char>, Player)>,
    one: (Seq<char>, Player),
    rated_since: u64,
    k: int,
)
    requires
        one.1.event_history@.len() > 0,
    ensures
        title_holders(Seq::empty(), rated_since, k) == 0,
        ({
            let last = one.1.event_history@.last();
            let shown = last.rating_mu + 160 - 2 * last.rating_sig;
            title_holders(players.push(one), rated_since, k) == title_holders(
                players,
                rated_since,
                k,
            ) + (if one.1.update_time > rated_since && titles::earns(shown, k) {
                1nat
            } else {
                0nat
            })
        }),
{
    reveal(Seq::filter);
    counting::lemma_count_push(
        players,
        one,
        |e: (Seq<char>, Player)|
            e.1.update_time > rated_since && titles::earns(display_of(e.1.event_history@.last()), k),
    );
}

/// The mean of the estimate that a player has at present is what counts as its mean.
pub proof fn lemma_estimate(player: Player)
    ensures
        player.estimate().mu == player.approx_posterior.mu,
        player.estimate().sig == player.approx_posterior.sig,
{
}

/// Some line of the board has the rank.
pub open spec fn rank_given(board: Seq<PlayerSummary>, r: int) -> bool {
    exists|i: int| 0 <= i < board.len() && (#[trigger] board[i]).rank == Some(r as usize)
}

/// The leaderboard has one line for each player, and ranks go down the board from 1 to
/// the number of players rated after the time, none left out and none given twice.
pub proof fn lemma_ranks(
    players: Seq<(Seq<char>, Player)>,
    rated_since: u64,
    board: Seq<PlayerSummary>,
)
    requires
        is_leaderboard(players, rated_since, board),
        board.len() <= usize::MAX,
    ensures
        board.len() == players.len(),
        forall|i: int, j: int|
            0 <= i < j < board.len() && (#[trigger] board[i]).rank is Some && (
            #[trigger] board[j]).rank is Some ==> board[i].rank->0 < board[j].rank->0,
        forall|r: int|
            1 <= r <= active(board_figures(board), rated_since as int) ==> #[trigger] rank_given(
                board,
                r,
            ),
{
    let figures = board_figures(board);
    let p = |f: Figures| f.last_contest_time > rated_since as int;
    counting::lemma_permutation_contains(figures, all_figures(players));
    assert(figures.len() == board.len());
    assert(all_figures(players).len() == players.len());
    assert forall|i: int, j: int|
        0 <= i < j < board.len() && (#[trigger] board[i]).rank is Some && (
        #[trigger] board[j]).rank is Some implies board[i].rank->0 < board[j].rank->0 by {
        assert(figures[i] == figures_in(board[i]));
        counting::lemma_count_take(figures, i, p);
        assert(figures.take(j) =~= figures.take(i + 1) + figures.subrange(i + 1, j));
        counting::lemma_count_add(figures.take(i + 1), figures.subrange(i + 1, j), p);
    }
    assert(figures.take(figures.len() as int) =~= figures);
    assert forall|r: int| 1 <= r <= active(figures, rated_since as int) implies #[trigger] rank_given(
        board,
        r,
    ) by {
        lemma_rank_given(players, rated_since, board, board.len() as int, r);
    }
}

/// Some line among the first `m` has a rank up to the number of those rated there.
proof fn lemma_rank_given(
    players: Seq<(Seq<char>, Player)>,
    rated_since: u64,
    board: Seq<PlayerSummary>,
    m: int,
    r: int,
)
    requires
        is_leaderboard(players, rated_since, board),
        board.len() <= usize::MAX,
        0 <= m <= board.len(),
        1 <= r <= active(board_figures(board).take(m), rated_since as int),
    ensures
        rank_given(board, r),
    decreases m,
{
    let figures = board_figures(board);
    let p = |f: Figures| f.last_contest_time > rated_since as int;
    counting::lemma_count_bound(figures.take(m), p);
    if m > 0 {
        counting::lemma_count_take(figures, m - 1, p);
        assert(figures[m - 1] == figures_in(board[m - 1]));
        if r <= active(figures.take(m - 1), rated_since as int) {
            lemma_rank_given(players, rated_since, board, m - 1, r);
        } else {
            assert(board[m - 1].rank == Some(r as usize));
        }
    }
}

/// No line shows a rating above the player's highest.
pub proof fn lemma_max_rating(handle: Seq<char>, player: Player)
    requires
        player.event_history@.len() > 0,
    ensures
        figures_of(handle, player).display_rating <= figures_of(handle, player).max_rating,
        forall|i: int|
            0 <= i < player.event_history@.len() ==> display_of(
                #[trigger] player.event_history@[i],
            ) <= figures_of(handle, player).max_rating,
{
    let history = player.event_history@;
    let ratings = displays(history);
    ratings.max_ensures();
    assert forall|i: int| 0 <= i < history.len() implies display_of(#[trigger] history[i])
        <= ratings.max() by {
        assert(ratings[i] == display_of(history[i]));
    }
    assert(display_of(history[history.len() - 1]) <= ratings.max());
}

/// The holders of the first `m` titles together.
pub open spec fn titled(players: Seq<(Seq<char>, Player)>, rated_since: u64, m: int) -> int
    decreases m,
{
    if m <= 0 {
        0
    } else {
        titled(players, rated_since, m - 1) + title_holders(players, rated_since, m - 1)
    }
}

/// Each player who was rated after the time, at or above the lowest bound, is counted
/// under exactly one title, and nobody else is.
pub proof fn lemma_titles_counted_once(players: Seq<(Seq<char>, Player)>, rated_since: u64)
    ensures
        titled(players, rated_since, titles::NUM_TITLES as int) == counting::count(
            players,
            |e: (Seq<char>, Player)|
                e.1.update_time > rated_since && display_of(e.1.event_history@.last()) >= -999,
        ),
    decreases players.len(),
{
    let q = |e: (Seq<char>, Player)|
        e.1.update_time > rated_since && display_of(e.1.event_history@.last()) >= -999;
    let n = titles::NUM_TITLES as int;
    if players.len() == 0 {
        reveal(Seq::filter);
        lemma_titled_empty(players, rated_since, n);
    } else {
        let rest = players.drop_last();
        let last = players.last();
        assert(players =~= rest.push(last));
        lemma_titles_counted_once(rest, rated_since);
        counting::lemma_count_push(rest, last, q);
        lemma_titled_push(rest, last, rated_since, n);
        let shown = display_of(last.1.event_history@.last());
        if shown >= -999 {
            titles::lemma_title_earned(shown);
        } else {
            assert forall|k: int| !titles::earns(shown, k) by {
                if titles::earns(shown, k) {
                    titles::lemma_earned_bound(shown, k);
                }
            }
        }
    }
}

proof fn lemma_titled_empty(players: Seq<(Seq<char>, Player)>, rated_since: u64, m: int)
    requires
        players.len() == 0,
    ensures
        titled(players, rated_since, m) == 0,
    decreases m,
{
    reveal(Seq::filter);
    if m > 0 {
        lemma_titled_empty(players, rated_since, m - 1);
    }
}

/// One more player adds one to the total of the first `m` titles just if it holds one of
/// them.
proof fn lemma_titled_push(
    rest: Seq<(Seq<char>, Player)>,
    last: (Seq<char>, Player),
    rated_since: u64,
    m: int,
)
    requires
        m <= titles::NUM_TITLES,
    ensures
        titled(rest.push(last), rated_since, m) == titled(rest, rated_since, m) + (if
        last.1.update_time > rated_since && exists|k: int|
            k < m && titles::earns(display_of(last.1.event_history@.last()), k) {
            1int
        } else {
            0int
        }),
    decreases m,
{
    let shown = display_of(last.1.event_history@.last());
    if m > 0 {
        lemma_titled_push(rest, last, rated_since, m - 1);
        counting::lemma_count_push(
            rest,
            last,
            |e: (Seq<char>, Player)|
                e.1.update_time > rated_since && titles::earns(
                    display_of(e.1.event_history@.last()),
                    m - 1,
                ),
        );
        if titles::earns(shown, m - 1) {
            assert forall|k: int| k < m - 1 implies !titles::earns(shown, k) by {
                if titles::earns(shown, k) {
                    titles::lemma_one_title(shown, k, m - 1);
                }
            }
        }
    }
}

} // verus!
