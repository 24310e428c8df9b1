use multi_skill::compute_ratings::Rating;
use multi_skill::double::Double;
use multi_skill::means::{list_means, sorted_means};
use multi_skill::order::text_less;
use multi_skill::roster::Roster;
use multi_skill::summary::{
    can_summarize_all, get_display_rating, get_display_rating_from_ints, make_leaderboard,
    print_ratings, summarize, Player, PlayerEvent, PlayerSummary, ALL_PLAYERS_FILE,
};

fn double(x: f64) -> Double {
    Double { bits: x.to_bits() }
}

fn event(contest_index: usize, rating_mu: i32, rating_sig: i32, perf_score: i32) -> PlayerEvent {
    PlayerEvent { contest_index, rating_mu, rating_sig, perf_score }
}

fn player(mu: f64, sig: f64, update_time: u64, event_history: Vec<PlayerEvent>) -> Player {
    Player {
        event_history,
        approx_posterior: Rating { mu: double(mu), sig: double(sig) },
        update_time,
    }
}

fn sample(reversed: bool) -> Roster<Player> {
    let mut list = vec![
        ("bob", player(1700., 99.5, 20, vec![event(0, 1500, 300, 1600), event(3, 1700, 100, 1900)])),
        ("amy", player(1700., 100.25, 30, vec![event(1, 1700, 100, 2000)])),
        ("old", player(2500., 80., 5, vec![event(2, 3100, 80, 3000), event(2, 2500, 80, 1500)])),
        ("low", player(-2000., 80., 40, vec![event(4, -1000, 80, -1200)])),
        ("Zoe", player(900., 80., 21, vec![event(5, 1100, 80, 1), event(6, 900, 80, 2), event(7, 950, 85, 3)])),
    ];
    if reversed {
        list.reverse();
    }
    let mut roster = Roster::new();
    for (handle, p) in list {
        roster.add(handle.to_string(), p);
    }
    roster
}

fn figures(s: &PlayerSummary) -> (Option<usize>, i32, i32, i32, usize, usize, u64, i32, i32, String) {
    (
        s.rank, s.display_rating, s.max_rating, s.cur_sigma, s.num_contests, s.last_contest_index,
        s.last_contest_time, s.last_perf, s.last_change, s.handle.clone(),
    )
}

#[test]
fn ratings_are_shown_conservatively() {
    assert_eq!(get_display_rating_from_ints(1500, 350), 960);
    assert_eq!(get_display_rating_from_ints(1500, 80), 1500);
    assert_eq!(get_display_rating_from_ints(-10, 0), 150);
    assert_eq!(get_display_rating(&event(0, 2000, 100, 0)), 1960);
}

#[test]
fn the_leaderboard_is_sorted_and_ranked() {
    let (global, board) = make_leaderboard(&sample(false), 10, double(1234.5));
    let lines: Vec<_> = board.iter().map(figures).collect();
    assert_eq!(
        lines,
        vec![
            (None, 2500, 3100, 80, 2, 2, 5, 1500, -600, "old".to_string()),
            (Some(1), 1660, 1660, 100, 1, 1, 30, 2000, 700, "amy".to_string()),
            (Some(2), 1660, 1660, 100, 2, 3, 20, 1900, 600, "bob".to_string()),
            (Some(3), 940, 1100, 80, 3, 7, 21, 3, 40, "Zoe".to_string()),
            (Some(4), -1000, -1000, 80, 1, 4, 40, -1200, -1960, "low".to_string()),
        ]
    );
    assert!(global.mean_rating == double(1234.5));
    assert_eq!(global.title_count, vec![1, 0, 0, 0, 2, 0, 0, 0, 0, 0, 0]);
}

#[test]
fn the_leaderboard_does_not_depend_on_the_order_of_players() {
    let (a, x) = make_leaderboard(&sample(false), 20, double(0.));
    let (b, y) = make_leaderboard(&sample(true), 20, double(0.));
    assert_eq!(x.iter().map(figures).collect::<Vec<_>>(), y.iter().map(figures).collect::<Vec<_>>());
    assert_eq!(a.title_count, b.title_count);
    assert_eq!(x.iter().filter(|s| s.rank.is_some()).count(), 3);
}

#[test]
fn nobody_rated_recently_has_no_rank() {
    let (global, board) = make_leaderboard(&sample(false), 40, double(0.));
    assert!(board.iter().all(|s| s.rank.is_none()));
    assert!(global.title_count.iter().all(|&n| n == 0));
    let (_, empty) = make_leaderboard(&Roster::new(), 0, double(0.));
    assert!(empty.is_empty());
}

#[test]
fn titles_are_reported_from_the_top() {
    let (lines, board) = print_ratings(&sample(false), 10, double(1.5), "1.5");
    assert_eq!(board.len(), 5);
    assert_eq!(lines.len(), 12);
    assert_eq!(lines[0], "Mean rating.mu = 1.5");
    assert_eq!(lines[1], "3000 LG x     0");
    assert_eq!(lines[7], "1600 Ex x     2");
    assert_eq!(lines[11], "-999 Ne x     1");
    assert_eq!(ALL_PLAYERS_FILE, "all_players.csv");
}

#[test]
fn means_are_sorted_before_they_are_added() {
    let sorted: Vec<f64> = sorted_means(&sample(false)).iter().map(|d| f64::from_bits(d.bits)).collect();
    assert_eq!(sorted, vec![-2000., 900., 1700., 1700., 2500.]);
    let again: Vec<f64> = sorted_means(&sample(true)).iter().map(|d| f64::from_bits(d.bits)).collect();
    assert_eq!(again, sorted);
}

#[test]
fn handles_are_in_dictionary_order() {
    let handles = ["", "a", "ab", "abc", "b", "B", "é", "z", "Z", "日本", "𝄞", "\u{ffff}"];
    for a in handles {
        for b in handles {
            assert_eq!(text_less(a, b), a < b, "{} {}", a, b);
        }
    }
}

#[test]
fn a_roster_finds_players_by_handle() {
    let mut roster: Roster<u32> = Roster::new();
    assert_eq!(roster.len(), 0);
    roster.add("x".to_string(), 5);
    roster.add("y".to_string(), 6);
    assert_eq!(roster.find("y"), Some(1));
    assert_eq!(roster.find("z"), None);
    *roster.get_mut(0) = 9;
    assert_eq!((*roster.get(0), *roster.get(1)), (9, 6));
    assert_eq!(roster.handle(1), "y");
    assert_eq!(roster.len(), 2);
}

#[test]
fn a_line_sums_up_one_player() {
    let p = player(1700., 99.5, 20, vec![event(0, 1500, 300, 1600), event(3, 1700, 100, 1900)]);
    let line = summarize(&"bob".to_string(), &p);
    assert_eq!(figures(&line), (None, 1660, 1660, 100, 2, 3, 20, 1900, 600, "bob".to_string()));
}

#[test]
fn only_some_players_can_be_summarized() {
    assert!(can_summarize_all(&Roster::new()));
    assert!(can_summarize_all(&sample(false)));
    let cases = vec![
        (vec![], false),
        (vec![event(0, 0, 80, 0)], true),
        (vec![event(0, i32::MIN, 80, 0)], false),
        (vec![event(0, i32::MIN + 1, 80, 0)], false),
        (vec![event(0, i32::MIN + 960, 80, 0)], true),
        (vec![event(0, i32::MAX, 79, 0), event(1, 0, 80, 0)], false),
        (vec![event(0, 0, i32::MIN, 0), event(1, 0, 80, 0)], false),
        (vec![event(0, 0, i32::MAX, 0), event(1, 0, 80, 0)], false),
        (vec![event(0, i32::MIN, 80, 0), event(1, -1, 80, 0)], true),
        (vec![event(0, i32::MIN, 80, 0), event(1, 0, 80, 0)], false),
        (vec![event(0, 5, 80, 0), event(1, i32::MIN, 80, 0), event(2, -7, 80, 0)], true),
    ];
    for (k, (history, expected)) in cases.into_iter().enumerate() {
        let mut roster = sample(false);
        roster.add("extra".to_string(), player(0., 0., 0, history));
        assert_eq!(can_summarize_all(&roster), expected, "history {}", k);
    }
}

#[test]
fn means_are_listed_in_the_order_of_the_roster() {
    let list: Vec<f64> = list_means(&sample(false)).iter().map(|d| f64::from_bits(d.bits)).collect();
    assert_eq!(list, vec![1700., 1700., 2500., -2000., 900.]);
}

#[test]
fn the_lowest_rating_is_shown_where_nothing_is_compared() {
    let history = || vec![event(0, -1, 80, 0), event(1, i32::MIN, 80, 0)];
    let mut roster = Roster::new();
    roster.add("low".to_string(), player(0., 80., 9, history()));
    assert!(can_summarize_all(&roster));
    let (global, board) = make_leaderboard(&roster, 0, double(0.));
    assert_eq!(
        figures(&board[0]),
        (Some(1), i32::MIN, -1, 80, 2, 1, 9, 0, -2147483647, "low".to_string())
    );
    assert!(global.title_count.iter().all(|&n| n == 0));
    roster.add("other".to_string(), player(0., 80., 9, vec![event(0, 0, 80, 0)]));
    assert!(!can_summarize_all(&roster));
}
