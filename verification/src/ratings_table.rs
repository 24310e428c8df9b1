//! The ratings table: everyone's rating, ranked, and the titles held.

use crate::compute_ratings::{Player, PlayerModel};
use crate::counting;
use crate::order;
use crate::order::Sortable;
use crate::roster::Roster;
use crate::text;
use crate::titles;
use core::cmp::Ordering;
use vstd::prelude::*;

verus! {

/// What the ratings table tells of a player.
#[derive(Debug)]
pub struct RatingData {
    pub cur_rating: i32,
    pub max_rating: i32,
    pub handle: String,
    pub last_contest: usize,
    pub last_contest_time: u64,
    pub last_perf: i32,
    pub last_delta: i32,
}

/// A row of the ratings table.
pub struct Row {
    pub cur_rating: int,
    pub max_rating: int,
    pub handle: Seq<char>,
    pub last_contest: int,
    pub last_contest_time: int,
    pub last_perf: int,
    pub last_delta: int,
}

/// The row that tells of a player whose conservative rating is given.
pub open spec fn row_of(handle: Seq<char>, player: PlayerModel, rating: i32) -> Row {
    Row {
        cur_rating: rating as int,
        max_rating: player.max_rating,
        handle,
        last_contest: player.last_contest,
        last_contest_time: player.last_contest_time,
        last_perf: if player.logistic_factors.len() > 0 {
            player.logistic_factors.last().mu.rounded()
        } else {
            0
        },
        last_delta: rating - player.last_rating,
    }
}

/// The row that data stand for.
pub open spec fn row_in(data: RatingData) -> Row {
    Row {
        cur_rating: data.cur_rating as int,
        max_rating: data.max_rating as int,
        handle: data.handle@,
        last_contest: data.last_contest as int,
        last_contest_time: data.last_contest_time as int,
        last_perf: data.last_perf as int,
        last_delta: data.last_delta as int,
    }
}

/// The rows that tell of the players of a roster, in its order.
pub open spec fn rows_of(
    players: Seq<(Seq<char>, Player)>,
    ratings: Seq<i32>,
) -> Seq<Row> {
    Seq::new(players.len(), |i: int| row_of(players[i].0, players[i].1@, ratings[i]))
}

/// The rows that data stand for.
pub open spec fn rows_in(data: Seq<RatingData>) -> Seq<Row> {
    data.map_values(|d: RatingData| row_in(d))
}

/// The order of the table: by rating, and equal ratings by handle.
pub open spec fn row_before(a: Row, b: Row) -> bool {
    order::ranks_before((a.cur_rating, a.handle), (b.cur_rating, b.handle))
}

/// `table` has the given rows, in order.
pub open spec fn is_table(rows: Seq<Row>, table: Seq<Row>) -> bool {
    &&& table.to_multiset() == rows.to_multiset()
    &&& forall|i: int, j: int|
        0 <= i < j < table.len() ==> row_before(#[trigger] table[i], #[trigger] table[j])
}

/// How many of the rows tell of players who were rated after a time.
pub open spec fn active_rows(rows: Seq<Row>, rated_since: int) -> nat {
    counting::count(rows, |r: Row| r.last_contest_time > rated_since)
}

/// How many of the rows tell of players who were rated after a time and hold a title.
pub open spec fn title_rows(rows: Seq<Row>, rated_since: int, k: int) -> nat {
    counting::count(
        rows,
        |r: Row| r.last_contest_time > rated_since && titles::earns(r.cur_rating, k),
    )
}

/// The lines that tell how many hold each title, from the highest down to `k`.
pub open spec fn title_lines(rows: Seq<Row>, rated_since: int, k: int) -> Seq<char>
    decreases titles::NUM_TITLES - k,
{
    if k >= titles::NUM_TITLES {
        Seq::empty()
    } else {
        title_lines(rows, rated_since, k + 1) + titles::title_line(
            k,
            title_rows(rows, rated_since, k) as int,
        ) + "\n"@
    }
}

/// The first field of a row: the rank of a player who was rated after the time.
pub open spec fn rank_field(row: Row, rated_since: int, rank: int) -> Seq<char> {
    if row.last_contest_time > rated_since {
        text::right_aligned(text::decimal(rank), 6)
    } else {
        text::right_aligned("-"@, 6)
    }
}

/// A row of the table as it is written.
pub open spec fn row_line(row: Row, rated_since: int, rank: int) -> Seq<char> {
    rank_field(row, rated_since, rank) + " "@ + text::right_aligned(
        text::decimal(row.cur_rating),
        4,
    ) + "("@ + text::right_aligned(text::decimal(row.max_rating), 4) + ") "@ + text::left_aligned(
        row.handle,
        26,
    ) + "contest/"@ + text::right_aligned(text::decimal(row.last_contest), 4) + ": perf ="@
        + text::right_aligned(text::decimal(row.last_perf), 5) + ", delta ="@ + text::right_aligned(
        text::decimal(row.last_delta),
        4,
    ) + "\n"@
}

/// The first `n` rows of the table as they are written: those who were rated after the
/// time are numbered from 1 up.
pub open spec fn row_lines(table: Seq<Row>, rated_since: int, n: int) -> Seq<char>
    decreases n,
{
    if n <= 0 {
        Seq::empty()
    } else {
        row_lines(table, rated_since, n - 1) + row_line(
            table[n - 1],
            rated_since,
            active_rows(table.take(n - 1), rated_since) as int + 1,
        )
    }
}

/// The whole report: the mean rating, the titles, and the table.
pub open spec fn report(table: Seq<Row>, rated_since: int, mean_text: Seq<char>) -> Seq<char> {
    "Mean rating.mu = "@ + mean_text + "\n"@ + title_lines(table, rated_since, 0) + row_lines(
        table,
        rated_since,
        table.len() as int,
    )
}

/// The change of a player's rating fits in a machine word.
pub open spec fn tabulable(player: Player, rating: i32) -> bool {
    i32::MIN <= rating - player.last_rating <= i32::MAX
}

/// All players can be told of in a table; where there are ratings to compare, they can be
/// negated.
pub open spec fn all_tabulable(players: Seq<(Seq<char>, Player)>, ratings: Seq<i32>) -> bool {
    &&& forall|i: int| 0 <= i < players.len() ==> tabulable((#[trigger] players[i]).1, ratings[i])
    &&& players.len() > 1 ==> forall|i: int|
        0 <= i < players.len() ==> #[trigger] ratings[i] > i32::MIN
}

impl Sortable for RatingData {
    open spec fn precedes(self, other: Self) -> bool {
        row_before(row_in(self), row_in(other))
    }

    proof fn lemma_weak_order(a: Self, b: Self, c: Self) {
        order::lemma_ranks_before(
            (a.cur_rating as int, a.handle@),
            (b.cur_rating as int, b.handle@),
            (c.cur_rating as int, c.handle@),
        );
    }

    fn compare(&self, other: &Self) -> (result: Ordering) {
        order::compare_ranks(
            self.cur_rating,
            self.handle.as_str(),
            other.cur_rating,
            other.handle.as_str(),
        )
    }
}

/// Collects what the table tells of a player whose conservative rating is given.
pub fn rating_data(handle: &String, player: &Player, rating: i32) -> (data: RatingData)
    requires
        tabulable(*player, rating),
    ensures
        row_in(data) == row_of(handle@, player@, rating),
        data.handle@ == handle@,
        data.cur_rating == rating,
        data.max_rating == player.max_rating,
        data.last_contest == player.last_contest,
        data.last_contest_time == player.last_contest_time,
        data.last_delta == rating - player.last_rating,
        player.logistic_factors@.len() == 0 ==> data.last_perf == 0,
        player.logistic_factors@.len() > 0 ==> data.last_perf
            == player.logistic_factors@.last().mu.rounded(),
{
    let remembered: usize = player.logistic_factors.len();
    RatingData {
        cur_rating: rating,
        max_rating: player.max_rating,
        handle: handle.clone(),
        last_contest: player.last_contest,
        last_contest_time: player.last_contest_time,
        last_perf: if remembered > 0 {
            player.logistic_factors[remembered - 1].mu.round_to_i32()
        } else {
            0
        },
        last_delta: rating - player.last_rating,
    }
}

/// Tells whether the numbers of all players fit in the table.
pub fn can_tabulate(players: &Roster<Player>, ratings: &Vec<i32>) -> (result: bool)
    requires
        ratings@.len() == players@.len(),
    ensures
        result == all_tabulable(players@, ratings@),
{
    let mut i: usize = 0;
    while i < players.len()
        invariant
            i <= players@.len(),
            ratings@.len() == players@.len(),
            forall|j: int| 0 <= j < i ==> tabulable((#[trigger] players@[j]).1, ratings@[j]),
            players@.len() > 1 ==> forall|j: int|
                0 <= j < i ==> #[trigger] ratings@[j] > i32::MIN,
        decreases players@.len() - i,
    {
        let rating: i32 = ratings[i];
        if rating.checked_sub(players.get(i).last_rating).is_none() {
            assert(!tabulable(players@[i as int].1, ratings@[i as int]));
            return false;
        }
        if rating == i32::MIN && players.len() > 1 {
            return false;
        }
        i += 1;
    }
    true
}

/// Appends a row of the table.
fn append_row(out: &mut String, data: &RatingData, rated_since: u64, rank: usize)
    ensures
        final(out)@ == old(out)@ + row_line(row_in(*data), rated_since as int, rank as int),
{
    if data.last_contest_time > rated_since {
        text::append_right(out, text::unsigned_text(rank as u64).as_str(), 6);
    } else {
        text::append_right(out, "-", 6);
    }
    out.append(" ");
    text::append_right(out, text::signed_text(data.cur_rating).as_str(), 4);
    out.append("(");
    text::append_right(out, text::signed_text(data.max_rating).as_str(), 4);
    out.append(") ");
    text::append_left(out, data.handle.as_str(), 26);
    out.append("contest/");
    text::append_right(out, text::unsigned_text(data.last_contest as u64).as_str(), 4);
    out.append(": perf =");
    text::append_right(out, text::signed_text(data.last_perf).as_str(), 5);
    out.append(", delta =");
    text::append_right(out, text::signed_text(data.last_delta).as_str(), 4);
    out.append("\n");
    proof {
        assert(out@ =~= old(out)@ + row_line(row_in(*data), rated_since as int, rank as int));
    }
}

/// Sorts the data of the table.
fn sort_data(data: &mut Vec<RatingData>, Ghost(rows): Ghost<Seq<Row>>)
    requires
        rows_in(old(data)@) == rows,
        forall|i: int, j: int|
            0 <= i < j < rows.len() ==> (#[trigger] rows[i]).handle != (#[trigger] rows[j]).handle,
    ensures
        is_table(rows, rows_in(final(data)@)),
{
    let ghost before = data@;
    order::sort_unstable(data);
    proof {
        let table = rows_in(data@);
        let h = |r: Row| r.handle;
        counting::lemma_map_permutation(data@, before, |d: RatingData| row_in(d));
        counting::lemma_images_distinct(table, rows, h);
        assert forall|i: int, j: int| 0 <= i < j < table.len() implies row_before(
            #[trigger] table[i],
            #[trigger] table[j],
        ) by {
            assert(h(table[i]) != h(table[j]));
            assert(!data@[j].precedes(data@[i]));
            let a = (table[i].cur_rating, table[i].handle);
            let b = (table[j].cur_rating, table[j].handle);
            order::lemma_ranks_before(a, b, a);
        }
    }
}

/// Counts how many players who were rated after a time hold each title.
fn count_titles(data: &Vec<RatingData>, rated_since: u64) -> (title_count: Vec<usize>)
    ensures
        title_count@.len() == titles::NUM_TITLES,
        forall|k: int|
            0 <= k < titles::NUM_TITLES ==> #[trigger] title_count@[k] == title_rows(
                rows_in(data@),
                rated_since as int,
                k,
            ),
{
    let ghost rows = rows_in(data@);
    let mut title_count: Vec<usize> = vec![0;titles::NUM_TITLES];
    let mut i: usize = 0;
    proof {
        assert forall|k: int| 0 <= k < titles::NUM_TITLES implies #[trigger] title_count@[k]
            == title_rows(rows.take(0), rated_since as int, k) by {
            reveal(Seq::filter);
        }
    }
    while i < data.len()
        invariant
            i <= data@.len(),
            rows == rows_in(data@),
            rows.len() == data@.len(),
            title_count@.len() == titles::NUM_TITLES,
            forall|k: int|
                0 <= k < titles::NUM_TITLES ==> #[trigger] title_count@[k] == title_rows(
                    rows.take(i as int),
                    rated_since as int,
                    k,
                ),
        decreases data@.len() - i,
    {
        let ghost counts = title_count@;
        let ghost row = rows[i as int];
        proof {
            assert(row == row_in(data@[i as int]));
            assert forall|k: int| 0 <= k < titles::NUM_TITLES implies #[trigger] counts[k] <= i
                && title_rows(rows.take(i + 1), rated_since as int, k) == counts[k] + (if
            row.last_contest_time > rated_since && titles::earns(row.cur_rating, k) {
                1int
            } else {
                0int
            }) by {
                let p = |r: Row|
                    r.last_contest_time > rated_since as int && titles::earns(r.cur_rating, k);
                counting::lemma_count_take(rows, i as int, p);
            }
        }
        if data[i].last_contest_time > rated_since {
            titles::count_title(&mut title_count, data[i].cur_rating);
        }
        proof {
            assert forall|k: int| 0 <= k < titles::NUM_TITLES implies #[trigger] title_count@[k]
                == title_rows(rows.take(i + 1), rated_since as int, k) by {
                assert(counts[k] <= i);
            }
        }
        i += 1;
    }
    proof {
        assert(rows.take(i as int) =~= rows);
    }
    title_count
}

/// Writes the report on the ratings of all players, whose mean has already been put in
/// words. `ratings` lists the players' conservative ratings, in the order of the
/// roster.
pub fn print_ratings(
    players: &Roster<Player>,
    ratings: &Vec<i32>,
    rated_since: u64,
    mean_text: &str,
) -> (out: String)
    requires
        players.wf(),
        ratings@.len() == players@.len(),
        all_tabulable(players@, ratings@),
    ensures
        exists|table: Seq<Row>|
            {
                &&& is_table(rows_of(players@, ratings@), table)
                &&& out@ == #[trigger] report(table, rated_since as int, mean_text@)
            },
{
    let ghost rows = rows_of(players@, ratings@);
    let mut data: Vec<RatingData> = Vec::new();
    let mut i: usize = 0;
    while i < players.len()
        invariant
            i <= players@.len(),
            ratings@.len() == players@.len(),
            rows == rows_of(players@, ratings@),
            forall|j: int|
                0 <= j < players@.len() ==> tabulable((#[trigger] players@[j]).1, ratings@[j]),
            data@.len() == i,
            forall|j: int| 0 <= j < i ==> row_in(#[trigger] data@[j]) == rows[j],
        decreases players@.len() - i,
    {
        assert(tabulable(players@[i as int].1, ratings@[i as int]));
        data.push(rating_data(players.handle(i), players.get(i), ratings[i]));
        i += 1;
    }
    proof {
        players.lemma_distinct();
        assert(rows_in(data@) =~= rows);
        assert forall|i: int, j: int| 0 <= i < j < rows.len() implies (#[trigger] rows[i]).handle
            != (#[trigger] rows[j]).handle by {
            assert(players@[i].0 != players@[j].0);
        }
    }
    sort_data(&mut data, Ghost(rows));
    let ghost table = rows_in(data@);
    let title_count: Vec<usize> = count_titles(&data, rated_since);

    let mut out = "Mean rating.mu = ".to_owned();
    out.append(mean_text);
    out.append("\n");
    let ghost head = out@;
    let mut k: usize = titles::NUM_TITLES;
    proof {
        assert(out@ =~= head + title_lines(table, rated_since as int, k as int));
    }
    while k > 0
        invariant
            k <= titles::NUM_TITLES,
            title_count@.len() == titles::NUM_TITLES,
            forall|j: int|
                0 <= j < titles::NUM_TITLES ==> #[trigger] title_count@[j] == title_rows(
                    table,
                    rated_since as int,
                    j,
                ),
            out@ == head + title_lines(table, rated_since as int, k as int),
        decreases k,
    {
        k -= 1;
        out.append(titles::title_count_line(k, title_count[k]).as_str());
        out.append("\n");
        proof {
            assert(out@ =~= head + title_lines(table, rated_since as int, k as int));
        }
    }

    let ghost top = out@;
    let ghost p = |r: Row| r.last_contest_time > rated_since as int;
    let mut rank: usize = 0;
    let mut n: usize = 0;
    proof {
        counting::lemma_count_bound(table.take(0), p);
        assert(out@ =~= top + row_lines(table, rated_since as int, 0));
    }
    while n < data.len()
        invariant
            n <= data@.len(),
            table == rows_in(data@),
            table.len() == data@.len(),
            p == (|r: Row| r.last_contest_time > rated_since as int),
            rank <= n,
            rank == active_rows(table.take(n as int), rated_since as int),
            out@ == top + row_lines(table, rated_since as int, n as int),
        decreases data@.len() - n,
    {
        append_row(&mut out, &data[n], rated_since, rank + 1);
        proof {
            assert(table[n as int] == row_in(data@[n as int]));
            counting::lemma_count_take(table, n as int, p);
            assert(out@ =~= top + row_lines(table, rated_since as int, n + 1));
        }
        if data[n].last_contest_time > rated_since {
            rank += 1;
        }
        n += 1;
    }
    proof {
        assert(out@ =~= report(table, rated_since as int, mean_text@));
    }
    out
}

/// Just those players can be put in a table whose last change fits in a machine word; and
/// where there are several, none of them may have the lowest rating that there is.
pub proof fn lemma_tabulable(players: Seq<(Seq<char>, Player)>, ratings: Seq<i32>)
    requires
        ratings.len() == players.len(),
    ensures
        all_tabulable(players, ratings) <==> forall|i: int|
            0 <= i < players.len() ==> {
                &&& i32::MIN <= ratings[i] - (#[trigger] players[i]).1.last_rating <= i32::MAX
                &&& players.len() > 1 ==> ratings[i] > i32::MIN
            },
{
    if all_tabulable(players, ratings) {
        assert forall|i: int| 0 <= i < players.len() implies {
            &&& i32::MIN <= ratings[i] - (#[trigger] players[i]).1.last_rating <= i32::MAX
            &&& players.len() > 1 ==> ratings[i] > i32::MIN
        } by {
            assert(tabulable(players[i].1, ratings[i]));
        }
    }
    if forall|i: int|
        0 <= i < players.len() ==> {
            &&& i32::MIN <= ratings[i] - (#[trigger] players[i]).1.last_rating <= i32::MAX
            &&& players.len() > 1 ==> ratings[i] > i32::MIN
        } {
        assert forall|i: int| 0 <= i < players.len() && players.len() > 1 implies #[trigger] ratings[i]
            > i32::MIN by {
            assert(i32::MIN <= ratings[i] - players[i].1.last_rating);
        }
    }
}

/// Each row of the table tells of a player of the roster, whatever its history: the change
/// is what the rating is over the one before the last contest, and the other numbers are
/// those of the record.
pub proof fn lemma_row_figures(
    players: Seq<(Seq<char>, Player)>,
    ratings: Seq<i32>,
    table: Seq<Row>,
    i: int,
) -> (place: int)
    requires
        is_table(rows_of(players, ratings), table),
        ratings.len() == players.len(),
        0 <= i < table.len(),
    ensures
        table.len() == players.len(),
        0 <= place < players.len(),
        table[i].handle == players[place].0,
        table[i].cur_rating == ratings[place],
        table[i].last_delta + players[place].1.last_rating == table[i].cur_rating,
        table[i].max_rating == players[place].1.max_rating,
        table[i].last_contest == players[place].1.last_contest,
        table[i].last_contest_time == players[place].1.last_contest_time,
        ({
            let history = players[place].1.logistic_factors@;
            &&& history.len() == 0 ==> table[i].last_perf == 0
            &&& history.len() > 0 ==> table[i].last_perf == history[history.len()
                - 1].mu.rounded()
        }),
{
    let rows = rows_of(players, ratings);
    counting::lemma_permutation_contains(table, rows);
    assert(table.contains(table[i]));
    assert(rows.contains(table[i]));
    let place = choose|p: int| 0 <= p < rows.len() && rows[p] == table[i];
    assert(rows[place] == row_of(players[place].0, players[place].1@, ratings[place]));
    place
}

/// Everyone is in the table: some row has the player's handle.
pub proof fn lemma_everyone_tabled(
    players: Seq<(Seq<char>, Player)>,
    ratings: Seq<i32>,
    table: Seq<Row>,
    place: int,
) -> (i: int)
    requires
        is_table(rows_of(players, ratings), table),
        ratings.len() == players.len(),
        0 <= place < players.len(),
    ensures
        0 <= i < table.len(),
        table[i].handle == players[place].0,
        table[i].cur_rating == ratings[place],
{
    let rows = rows_of(players, ratings);
    counting::lemma_permutation_contains(table, rows);
    assert(rows[place] == row_of(players[place].0, players[place].1@, ratings[place]));
    assert(rows.contains(rows[place]));
    assert(table.contains(rows[place]));
    choose|i: int| 0 <= i < table.len() && table[i] == rows[place]
}

/// Down the table, ratings do not rise, and equal ones stand in the dictionary order of
/// their handles.
pub proof fn lemma_table_descends(rows: Seq<Row>, table: Seq<Row>, i: int, j: int)
    requires
        is_table(rows, table),
        0 <= i < j < table.len(),
    ensures
        table[i].cur_rating >= table[j].cur_rating,
        table[i].cur_rating == table[j].cur_rating ==> order::text_precedes(
            table[i].handle,
            table[j].handle,
        ),
{
    assert(row_before(table[i], table[j]));
}

/// One more row adds one to the ranked ones just if its player was rated after the time, and
/// one to the holders of the title that its rating earns.
pub proof fn lemma_rows_counted(rows: Seq<Row>, row: Row, rated_since: int, k: int)
    ensures
        active_rows(Seq::empty(), rated_since) == 0,
        active_rows(rows.push(row), rated_since) == active_rows(rows, rated_since) + (if
        row.last_contest_time > rated_since {
            1nat
        } else {
            0nat
        }),
        title_rows(Seq::empty(), rated_since, k) == 0,
        title_rows(rows.push(row), rated_since, k) == title_rows(rows, rated_since, k) + (if
        row.last_contest_time > rated_since && titles::earns(row.cur_rating, k) {
            1nat
        } else {
            0nat
        }),
{
    reveal(Seq::filter);
    counting::lemma_count_push(rows, row, |r: Row| r.last_contest_time > rated_since);
    counting::lemma_count_push(
        rows,
        row,
        |r: Row| r.last_contest_time > rated_since && titles::earns(r.cur_rating, k),
    );
}

/// Some lines, each with an end of line.
pub open spec fn joined(lines: Seq<Seq<char>>) -> Seq<char>
    decreases lines.len(),
{
    if lines.len() == 0 {
        Seq::empty()
    } else {
        joined(lines.drop_last()) + lines.last() + seq!['\n']
    }
}

/// The report consists of lines: the mean, then the titles from the highest down, each with
/// the number of its holders, then the rows, in the order of the table.
pub proof fn lemma_report_lines(table: Seq<Row>, rated_since: int, mean_text: Seq<char>) -> (lines:
    Seq<Seq<char>>)
    ensures
        report(table, rated_since, mean_text) == joined(lines),
        lines.len() == 12 + table.len(),
        lines[0] == "Mean rating.mu = "@ + mean_text,
        forall|k: int|
            0 <= k <= 10 ==> #[trigger] lines[11 - k] == titles::title_line(
                k,
                title_rows(table, rated_since, k) as int,
            ),
        forall|i: int|
            0 <= i < table.len() ==> #[trigger] lines[12 + i].push('\n') == row_line(
                table[i],
                rated_since,
                active_rows(table.take(i), rated_since) as int + 1,
            ),
{
    reveal_strlit("\n");
    let first = seq!["Mean rating.mu = "@ + mean_text];
    let head = Seq::new(
        11,
        |j: int| titles::title_line(10 - j, title_rows(table, rated_since, 10 - j) as int),
    );
    let body = Seq::new(
        table.len(),
        |i: int|
            row_line(
                table[i],
                rated_since,
                active_rows(table.take(i), rated_since) as int + 1,
            ).drop_last(),
    );
    assert forall|i: int| 0 <= i < table.len() implies #[trigger] body[i].push('\n') == row_line(
        table[i],
        rated_since,
        active_rows(table.take(i), rated_since) as int + 1,
    ) by {
        let line = row_line(
            table[i],
            rated_since,
            active_rows(table.take(i), rated_since) as int + 1,
        );
        assert(line.len() >= 1 && line.last() == '\n');
        assert(line.drop_last().push('\n') =~= line);
    }
    let lines = first + head + body;
    lemma_joined_add(first + head, body);
    lemma_joined_add(first, head);
    assert(first.drop_last() =~= Seq::<Seq<char>>::empty());
    assert(joined(first.drop_last()) =~= Seq::<char>::empty());
    assert(joined(first) =~= "Mean rating.mu = "@ + mean_text + "\n"@);
    lemma_title_lines(table, rated_since, 0, head);
    assert(head.take(11) =~= head);
    lemma_row_lines(table, rated_since, table.len() as int, body);
    assert(body.take(table.len() as int) =~= body);
    assert(report(table, rated_since, mean_text) =~= joined(lines));
    assert forall|i: int| 0 <= i < table.len() implies #[trigger] lines[12 + i].push('\n')
        == row_line(table[i], rated_since, active_rows(table.take(i), rated_since) as int + 1) by {
        assert(lines[12 + i] == body[i]);
        assert(body[i].push('\n') == row_line(
            table[i],
            rated_since,
            active_rows(table.take(i), rated_since) as int + 1,
        ));
    }
    lines
}

proof fn lemma_joined_add(a: Seq<Seq<char>>, b: Seq<Seq<char>>)
    ensures
        joined(a + b) == joined(a) + joined(b),
    decreases b.len(),
{
    if b.len() == 0 {
        assert(a + b =~= a);
        assert(joined(a) + joined(b) =~= joined(a));
    } else {
        lemma_joined_add(a, b.drop_last());
        assert((a + b).drop_last() =~= a + b.drop_last());
        assert(joined(a + b) =~= joined(a) + joined(b));
    }
}

proof fn lemma_title_lines(table: Seq<Row>, rated_since: int, k: int, head: Seq<Seq<char>>)
    requires
        0 <= k <= 11,
        head.len() == 11,
        forall|j: int|
            0 <= j < 11 ==> #[trigger] head[j] == titles::title_line(
                10 - j,
                title_rows(table, rated_since, 10 - j) as int,
            ),
    ensures
        title_lines(table, rated_since, k) == joined(head.take(11 - k)),
    decreases 11 - k,
{
    reveal_strlit("\n");
    if k == 11 {
        assert(head.take(0) =~= Seq::<Seq<char>>::empty());
    } else {
        lemma_title_lines(table, rated_since, k + 1, head);
        let taken = head.take(11 - k);
        assert(taken.drop_last() =~= head.take(11 - (k + 1)));
        assert(taken.last() == head[10 - k]);
        assert(title_lines(table, rated_since, k) =~= joined(taken));
    }
}

proof fn lemma_row_lines(table: Seq<Row>, rated_since: int, n: int, body: Seq<Seq<char>>)
    requires
        0 <= n <= table.len(),
        body.len() == table.len(),
        forall|i: int|
            0 <= i < table.len() ==> #[trigger] body[i].push('\n') == row_line(
                table[i],
                rated_since,
                active_rows(table.take(i), rated_since) as int + 1,
            ),
    ensures
        row_lines(table, rated_since, n) == joined(body.take(n)),
    decreases n,
{
    if n == 0 {
        assert(body.take(0) =~= Seq::<Seq<char>>::empty());
    } else {
        lemma_row_lines(table, rated_since, n - 1, body);
        let taken = body.take(n);
        assert(taken.drop_last() =~= body.take(n - 1));
        assert(taken.last() == body[n - 1]);
        assert(body[n - 1].push('\n') =~= taken.last() + seq!['\n']);
        assert(row_lines(table, rated_since, n) =~= joined(taken));
    }
}

/// The larger of two widths.
pub open spec fn wider(a: int, b: int) -> int {
    if a >= b {
        a
    } else {
        b
    }
}

/// Where the fields of a row stand. The rank, or a dash for whoever was not rated after the
/// time, takes six columns; behind a blank follows the rating in four, then in brackets the
/// highest rating in four, behind a blank the handle in twenty-six, the number of the contest
/// in four, the performance in five and the change in four. What needs more columns takes
/// them, and nothing is cut off.
#[verifier::spinoff_prover]
#[verifier::rlimit(40)]
pub proof fn lemma_row_columns(row: Row, rated_since: int, rank: int)
    ensures
        ({
            let line = row_line(row, rated_since, rank);
            let first = if row.last_contest_time > rated_since {
                text::decimal(rank)
            } else {
                seq!['-']
            };
            let a = wider(6, first.len() as int);
            let b = a + 1 + wider(4, text::decimal(row.cur_rating).len() as int);
            let c = b + 1 + wider(4, text::decimal(row.max_rating).len() as int);
            let d = c + 2 + wider(26, row.handle.len() as int);
            let e = d + 8 + wider(4, text::decimal(row.last_contest).len() as int);
            let f = e + 8 + wider(5, text::decimal(row.last_perf).len() as int);
            let g = f + 9 + wider(4, text::decimal(row.last_delta).len() as int);
            &&& line.len() == g + 1
            &&& line.subrange(0, a) == text::right_aligned(first, 6)
            &&& line.subrange(a, a + 1) == seq![' ']
            &&& line.subrange(a + 1, b) == text::right_aligned(text::decimal(row.cur_rating), 4)
            &&& line.subrange(b, b + 1) == seq!['(']
            &&& line.subrange(b + 1, c) == text::right_aligned(text::decimal(row.max_rating), 4)
            &&& line.subrange(c, c + 2) == seq![')', ' ']
            &&& line.subrange(c + 2, d) == text::left_aligned(row.handle, 26)
            &&& line.subrange(d, d + 8) == seq!['c', 'o', 'n', 't', 'e', 's', 't', '/']
            &&& line.subrange(d + 8, e) == text::right_aligned(text::decimal(row.last_contest), 4)
            &&& line.subrange(e, e + 8) == seq![':', ' ', 'p', 'e', 'r', 'f', ' ', '=']
            &&& line.subrange(e + 8, f) == text::right_aligned(text::decimal(row.last_perf), 5)
            &&& line.subrange(f, f + 9) == seq![',', ' ', 'd', 'e', 'l', 't', 'a', ' ', '=']
            &&& line.subrange(f + 9, g) == text::right_aligned(text::decimal(row.last_delta), 4)
            &&& line.subrange(g, g + 1) == seq!['\n']
        }),
{
    lemma_row_literals();
    let line = row_line(row, rated_since, rank);
    let first = if row.last_contest_time > rated_since {
        text::decimal(rank)
    } else {
        seq!['-']
    };
    let f1 = text::right_aligned(first, 6);
    let f2 = text::right_aligned(text::decimal(row.cur_rating), 4);
    let f3 = text::right_aligned(text::decimal(row.max_rating), 4);
    let f4 = text::left_aligned(row.handle, 26);
    let f5 = text::right_aligned(text::decimal(row.last_contest), 4);
    let f6 = text::right_aligned(text::decimal(row.last_perf), 5);
    let f7 = text::right_aligned(text::decimal(row.last_delta), 4);
    let l1 = seq![' '];
    let l2 = seq!['('];
    let l3 = seq![')', ' '];
    let l4 = seq!['c', 'o', 'n', 't', 'e', 's', 't', '/'];
    let l5 = seq![':', ' ', 'p', 'e', 'r', 'f', ' ', '='];
    let l6 = seq![',', ' ', 'd', 'e', 'l', 't', 'a', ' ', '='];
    let l7 = seq!['\n'];
    assert(rank_field(row, rated_since, rank) == f1);
    lemma_field_widths(first, 6);
    lemma_field_widths(text::decimal(row.cur_rating), 4);
    lemma_field_widths(text::decimal(row.max_rating), 4);
    lemma_field_widths(row.handle, 26);
    lemma_field_widths(text::decimal(row.last_contest), 4);
    lemma_field_widths(text::decimal(row.last_perf), 5);
    lemma_field_widths(text::decimal(row.last_delta), 4);
    lemma_row_parts(f1, l1, f2, l2, f3, l3, f4, l4, f5, l5, f6, l6, f7, l7, line);
}

/// The texts between the fields of a row, character by character.
proof fn lemma_row_literals()
    ensures
        "-"@ == seq!['-'],
        " "@ == seq![' '],
        "("@ == seq!['('],
        ") "@ == seq![')', ' '],
        "contest/"@ == seq!['c', 'o', 'n', 't', 'e', 's', 't', '/'],
        ": perf ="@ == seq![':', ' ', 'p', 'e', 'r', 'f', ' ', '='],
        ", delta ="@ == seq![',', ' ', 'd', 'e', 'l', 't', 'a', ' ', '='],
        "\n"@ == seq!['\n'],
{
    reveal_strlit("-");
    reveal_strlit(" ");
    reveal_strlit("(");
    reveal_strlit(") ");
    reveal_strlit("contest/");
    reveal_strlit(": perf =");
    reveal_strlit(", delta =");
    reveal_strlit("\n");
}

proof fn lemma_field_widths(word: Seq<char>, width: int)
    requires
        width >= 0,
    ensures
        text::right_aligned(word, width).len() == wider(width, word.len() as int),
        text::left_aligned(word, width).len() == wider(width, word.len() as int),
{
}

/// Where the parts of a row lie.
proof fn lemma_row_parts(
    f1: Seq<char>,
    l1: Seq<char>,
    f2: Seq<char>,
    l2: Seq<char>,
    f3: Seq<char>,
    l3: Seq<char>,
    f4: Seq<char>,
    l4: Seq<char>,
    f5: Seq<char>,
    l5: Seq<char>,
    f6: Seq<char>,
    l6: Seq<char>,
    f7: Seq<char>,
    l7: Seq<char>,
    line: Seq<char>,
)
    requires
        line == f1 + l1 + f2 + l2 + f3 + l3 + f4 + l4 + f5 + l5 + f6 + l6 + f7 + l7,
    ensures
        ({
            let a = f1.len() as int;
            let b = a + l1.len() + f2.len();
            let c = b + l2.len() + f3.len();
            let d = c + l3.len() + f4.len();
            let e = d + l4.len() + f5.len();
            let f = e + l5.len() + f6.len();
            let g = f + l6.len() + f7.len();
            &&& line.len() == g + l7.len()
            &&& line.subrange(0, a) == f1
            &&& line.subrange(a, a + l1.len()) == l1
            &&& line.subrange(a + l1.len(), b) == f2
            &&& line.subrange(b, b + l2.len()) == l2
            &&& line.subrange(b + l2.len(), c) == f3
            &&& line.subrange(c, c + l3.len()) == l3
            &&& line.subrange(c + l3.len(), d) == f4
            &&& line.subrange(d, d + l4.len()) == l4
            &&& line.subrange(d + l4.len(), e) == f5
            &&& line.subrange(e, e + l5.len()) == l5
            &&& line.subrange(e + l5.len(), f) == f6
            &&& line.subrange(f, f + l6.len()) == l6
            &&& line.subrange(f + l6.len(), g) == f7
            &&& line.subrange(g, g + l7.len()) == l7
        }),
{
    let s1 = f1 + l1;
    let s2 = s1 + f2 + l2;
    let s3 = s2 + f3 + l3;
    let s4 = s3 + f4 + l4;
    let s5 = s4 + f5 + l5;
    let s6 = s5 + f6 + l6;
    lemma_behind(s6, f7, l7);
    lemma_behind(s5, f6, l6);
    lemma_behind(s4, f5, l5);
    lemma_behind(s3, f4, l4);
    lemma_behind(s2, f3, l3);
    lemma_behind(s1, f2, l2);
    assert(s1.subrange(0, f1.len() as int) =~= f1);
    assert(s1.subrange(f1.len() as int, s1.len() as int) =~= l1);
}

/// Text that is added behind leaves what is before it in its place.
proof fn lemma_behind(s: Seq<char>, field: Seq<char>, l: Seq<char>)
    ensures
        (s + field + l).len() == s.len() + field.len() + l.len(),
        (s + field + l).subrange(s.len() as int, (s.len() + field.len()) as int) == field,
        (s + field + l).subrange(
            (s.len() + field.len()) as int,
            (s.len() + field.len() + l.len()) as int,
        ) == l,
        forall|i: int, j: int|
            0 <= i <= j <= s.len() ==> #[trigger] (s + field + l).subrange(i, j) == s.subrange(i, j),
{
    let all = s + field + l;
    assert(all.subrange(s.len() as int, (s.len() + field.len()) as int) =~= field);
    assert(all.subrange(
        (s.len() + field.len()) as int,
        (s.len() + field.len() + l.len()) as int,
    ) =~= l);
    assert forall|i: int, j: int| 0 <= i <= j <= s.len() implies #[trigger] all.subrange(i, j)
        == s.subrange(i, j) by {
        assert(all.subrange(i, j) =~= s.subrange(i, j));
    }
}

/// The report does not depend on the order in which the players are walked: the rows
/// have one order only, so rows that are rearranged give the same table.
pub proof fn lemma_table_unique(rows: Seq<Row>, others: Seq<Row>, a: Seq<Row>, b: Seq<Row>)
    requires
        rows.to_multiset() == others.to_multiset(),
        is_table(rows, a),
        is_table(others, b),
    ensures
        a == b,
{
    let lt = |x: Row, y: Row| row_before(x, y);
    assert forall|x: Row| !#[trigger] lt(x, x) by {
        let k = (x.cur_rating, x.handle);
        order::lemma_ranks_before(k, k, k);
    }
    assert forall|x: Row, y: Row, z: Row| #[trigger] lt(x, y) && #[trigger] lt(y, z) implies lt(
        x,
        z,
    ) by {
        order::lemma_ranks_before(
            (x.cur_rating, x.handle),
            (y.cur_rating, y.handle),
            (z.cur_rating, z.handle),
        );
    }
    counting::lemma_strict_order_unique(a, b, lt);
}

} // verus!
