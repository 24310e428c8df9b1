use multi_skill::cf_system::{can_rate, Codeforces, CodeforcesSystem};
use multi_skill::compute_ratings::{
    can_enter, enter_contest, simulate_contest, update_player_metadata, Player, Rating, RatingSystem,
    TrueSkillStPB, MAX_HISTORY_LEN, MU_NEWBIE_BITS, NEWBIE_RATING, SIG_NEWBIE_BITS,
};
use multi_skill::contest_config::Contest;
use multi_skill::double::Double;
use multi_skill::means::{list_means, sorted_means};
use multi_skill::ratings_table::{can_tabulate, print_ratings, rating_data};
use multi_skill::roster::Roster;

fn double(x: f64) -> Double {
    Double { bits: x.to_bits() }
}

fn rating(mu: f64, sig: f64) -> Rating {
    Rating { mu: double(mu), sig: double(sig) }
}

fn newcomer() -> Player {
    Player::with_rating(double(1500.), double(350.))
}

fn contest(id: usize, time_seconds: u64, standings: &[(&str, usize, usize)]) -> Contest {
    Contest {
        id,
        time_seconds,
        standings: standings.iter().map(|s| (s.0.to_string(), s.1, s.2)).collect(),
    }
}

#[test]
fn newcomers_have_the_default_rating() {
    assert_eq!(f64::from_bits(MU_NEWBIE_BITS), 1500.);
    assert_eq!(f64::from_bits(SIG_NEWBIE_BITS), 350.);
    assert_eq!(NEWBIE_RATING, (1500f64 - 2. * (350. - 100.)).round() as i32);
    let p = newcomer();
    assert!(p.normal_factor == rating(1500., 350.));
    assert!(p.approx_posterior == rating(1500., 350.));
    assert!(p.logistic_factors.is_empty());
    assert_eq!((p.num_contests, p.max_rating, p.last_rating), (0, 0, 0));
    assert_eq!((p.last_contest, p.last_contest_time), (0, 0));
}

#[test]
fn collapsing_forgets_the_history() {
    let mut p = newcomer();
    p.push_performance(rating(1700., 200.), None);
    p.approx_posterior = rating(1600., 120.);
    p.add_noise_and_collapse(double(130.));
    assert!(p.approx_posterior == rating(1600., 130.));
    assert!(p.normal_factor == rating(1600., 130.));
    assert!(p.logistic_factors.is_empty());
}

#[test]
fn noise_changes_no_mode() {
    let mut p = newcomer();
    p.push_performance(rating(1700., 200.), None);
    p.push_performance(rating(1300., 210.), None);
    p.rescale_sigmas(double(351.), &vec![double(201.), double(211.)], double(121.));
    assert!(p.normal_factor == rating(1500., 351.));
    assert!(p.approx_posterior == rating(1500., 121.));
    assert!(p.logistic_factors == vec![rating(1700., 201.), rating(1300., 211.)]);
}

#[test]
fn the_highest_rating_is_kept() {
    let mut p = newcomer();
    p.recompute_posterior(rating(1600., 100.), 1580);
    assert!((p.approx_posterior, p.max_rating) == (rating(1600., 100.), 1580));
    p.recompute_posterior(rating(1500., 100.), 1480);
    assert!((p.approx_posterior, p.max_rating) == (rating(1500., 100.), 1580));
    p.recompute_posterior(rating(1700., 100.), 1680);
    assert_eq!(p.max_rating, 1680);
}

#[test]
fn a_full_history_lets_the_oldest_go() {
    let mut p = newcomer();
    for i in 0..MAX_HISTORY_LEN {
        assert!(p.displaced_performance() == None);
        p.push_performance(rating(i as f64, 1.), None);
    }
    assert_eq!(p.logistic_factors.len(), 500);
    assert!(p.displaced_performance() == Some(rating(0., 1.)));
    p.push_performance(rating(500., 1.), Some(rating(1510., 340.)));
    assert_eq!(p.logistic_factors.len(), 500);
    assert!(p.logistic_factors[0] == rating(1., 1.));
    assert!(p.logistic_factors[499] == rating(500., 1.));
    assert!(p.normal_factor == rating(1510., 340.));
    assert!(p.displaced_performance() == Some(rating(1., 1.)));
}

#[test]
fn a_contest_is_entered_into_the_record() {
    let mut p = newcomer();
    update_player_metadata(&mut p, &contest(17, 400, &[]), 1234);
    assert_eq!((p.num_contests, p.last_contest, p.last_contest_time, p.last_rating), (1, 17, 400, 1234));
    assert!(p.approx_posterior == rating(1500., 350.));
}

#[test]
fn contestants_are_enrolled_and_updated() {
    let mut players = Roster::new();
    players.add("a".to_string(), newcomer());
    players.add("b".to_string(), newcomer());
    let c = contest(9, 50, &[("x", 0, 0), ("b", 1, 2), ("y", 1, 2)]);
    assert!(can_enter(&players, &c));
    let field = enter_contest(&mut players, &c, &vec![1111, 2222]);
    assert_eq!(field, vec![(2, 0, 0), (1, 1, 2), (3, 1, 2)]);
    assert_eq!(players.len(), 4);
    let record = |i: usize| {
        let p = players.get(i);
        (players.handle(i).as_str(), p.num_contests, p.last_contest, p.last_contest_time, p.last_rating)
    };
    assert_eq!(record(0), ("a", 0, 0, 0, 0));
    assert_eq!(record(1), ("b", 1, 9, 50, 2222));
    assert_eq!(record(2), ("x", 1, 9, 50, 1000));
    assert_eq!(record(3), ("y", 1, 9, 50, 1000));
}

#[test]
fn duplicates_and_older_contests_cannot_be_entered() {
    let mut players = Roster::new();
    let mut late = newcomer();
    late.last_contest_time = 100;
    players.add("late".to_string(), late);
    assert!(!can_enter(&players, &contest(1, 99, &[("late", 0, 0)])));
    assert!(can_enter(&players, &contest(1, 100, &[("late", 0, 0)])));
    assert!(can_enter(&players, &contest(1, 99, &[("other", 0, 0)])));
    assert!(!can_enter(&players, &contest(1, 200, &[("u", 0, 1), ("v", 0, 1), ("u", 2, 2)])));
    assert!(can_enter(&players, &contest(1, 0, &[])));
    players.get_mut(0).num_contests = usize::MAX;
    assert!(!can_enter(&players, &contest(1, 200, &[("late", 0, 0)])));
}

struct Halve;

impl RatingSystem for Halve {
    fn round_update(&self, players: &mut Roster<Player>, field: &Vec<(usize, usize, usize)>) {
        for &(place, _, _) in field {
            let mu = &mut players.get_mut(place).approx_posterior.mu;
            *mu = double(f64::from_bits(mu.bits) / 2.);
        }
    }
}

#[test]
fn a_simulated_contest_rates_those_who_took_part() {
    let mut players = Roster::new();
    players.add("a".to_string(), newcomer());
    players.add("b".to_string(), newcomer());
    let c = contest(3, 10, &[("b", 0, 0), ("n", 1, 1)]);
    simulate_contest(&mut players, &c, &vec![1000, 1000], &Halve);
    let mus: Vec<f64> = (0..3).map(|i| f64::from_bits(players.get(i).approx_posterior.mu.bits)).collect();
    assert_eq!(mus, vec![1500., 750., 750.]);
    assert_eq!(players.get(1).num_contests, 1);

    let d = contest(4, 11, &[("a", 0, 0)]);
    simulate_contest(&mut players, &d, &vec![1000, 900, 800], &TrueSkillStPB::default());
    assert!(players.get(0).approx_posterior == rating(1500., 350.));
    assert_eq!(players.get(0).last_contest, 4);
    assert_eq!(players.get(1).last_contest, 3);
}

#[test]
fn default_systems_have_their_constants() {
    let t = TrueSkillStPB::default();
    assert_eq!(f64::from_bits(t.eps.bits), 0.70);
    assert_eq!(f64::from_bits(t.mu.bits), 1500.);
    assert_eq!(f64::from_bits(t.sigma.bits), 1500. / 3.);
    assert_eq!(f64::from_bits(t.beta.bits), 1500. / 6.);
    assert_eq!(f64::from_bits(t.convergence_eps.bits), 2e-4);
    assert_eq!(f64::from_bits(t.sigma_growth.bits), 0.01);
    let c = CodeforcesSystem::default();
    assert_eq!(f64::from_bits(c.sig_perf.bits), 800. / std::f64::consts::LN_10);
    assert_eq!(f64::from_bits(c.weight.bits), 1.);
}

#[test]
fn the_field_is_split_around_a_tie() {
    let mut players = Roster::new();
    for (i, handle) in ["a", "b", "c", "d", "e"].iter().enumerate() {
        players.add(handle.to_string(), Player::with_rating(double(1000. + i as f64), double(90.)));
    }
    let field = vec![(4, 0, 0), (3, 1, 2), (2, 1, 2), (0, 3, 3)];
    let system = CodeforcesSystem::default();
    let all = system.all_ratings(&players, &field);
    let sig = 800. / std::f64::consts::LN_10;
    assert!(all == vec![rating(1004., sig), rating(1003., sig), rating(1002., sig), rating(1000., sig)]);
    let (better, worse) = CodeforcesSystem::better_and_worse(&all, 1, 2);
    assert!(better == &all[..1]);
    assert!(worse == &all[3..]);
    let (better, worse) = CodeforcesSystem::better_and_worse(&all, 0, 3);
    assert!(better.is_empty() && worse.is_empty());

    CodeforcesSystem::update_means(&mut players, &field, &vec![double(1.), double(2.), double(3.), double(4.)]);
    let mus: Vec<f64> = (0..5).map(|i| f64::from_bits(players.get(i).approx_posterior.mu.bits)).collect();
    assert_eq!(mus, vec![4., 1001., 3., 2., 1.]);
    assert!((0..5).all(|i| players.get(i).approx_posterior.sig == double(90.)));
}

fn table(reversed: bool) -> (Roster<Player>, Vec<i32>) {
    let mut list: Vec<(&str, Player, i32)> = Vec::new();
    let mut p = newcomer();
    p.push_performance(rating(1800.4, 100.), None);
    p.push_performance(rating(-3.5, 100.), None);
    (p.max_rating, p.last_rating, p.last_contest, p.last_contest_time) = (1650, 1700, 1301, 70);
    list.push(("tourist", p, 1650));
    let mut q = newcomer();
    (q.max_rating, q.last_rating, q.last_contest, q.last_contest_time) = (0, 0, 2, 10);
    list.push(("a_very_long_handle_that_overflows", q, 3100));
    let mut r = newcomer();
    (r.max_rating, r.last_rating, r.last_contest, r.last_contest_time) = (-5, -1100, 7, 80);
    list.push(("nü", r, -1200));
    if reversed {
        list.reverse();
    }
    let mut roster = Roster::new();
    let mut ratings = Vec::new();
    for (handle, player, rating) in list {
        roster.add(handle.to_string(), player);
        ratings.push(rating);
    }
    (roster, ratings)
}

#[test]
fn the_table_is_written_line_by_line() {
    let (roster, ratings) = table(false);
    let text = print_ratings(&roster, &ratings, 50, "12.25");
    let lines: Vec<&str> = text.split('\n').collect();
    assert_eq!(lines[0], "Mean rating.mu = 12.25");
    assert_eq!(lines[1], "3000 LG x     0");
    assert_eq!(lines[7], "1600 Ex x     1");
    assert_eq!(lines[11], "-999 Ne x     0");
    assert_eq!(
        lines[12],
        "     - 3100(   0) a_very_long_handle_that_overflowscontest/   2: perf =    0, delta =3100"
    );
    assert_eq!(
        lines[13],
        "     1 1650(1650) tourist                   contest/1301: perf =   -4, delta = -50"
    );
    assert_eq!(
        lines[14],
        "     2 -1200(  -5) nü                        contest/   7: perf =    0, delta =-100"
    );
    assert_eq!(lines[15], "");
    assert_eq!(lines.len(), 16);
}

#[test]
fn the_table_does_not_depend_on_the_order_of_players() {
    let (a, x) = table(false);
    let (b, y) = table(true);
    assert_eq!(print_ratings(&a, &x, 0, "m"), print_ratings(&b, &y, 0, "m"));
    let mus: Vec<f64> = sorted_means(&a).iter().map(|d| f64::from_bits(d.bits)).collect();
    assert_eq!(mus, vec![1500., 1500., 1500.]);
}

#[test]
fn the_table_holds_what_fits() {
    let (roster, mut ratings) = table(false);
    assert!(can_tabulate(&roster, &ratings));
    ratings[1] = i32::MIN;
    assert!(!can_tabulate(&roster, &ratings));
    ratings[1] = i32::MIN + 1;
    assert!(can_tabulate(&roster, &ratings));
    ratings[2] = i32::MAX;
    assert!(!can_tabulate(&roster, &ratings));
    assert!(can_tabulate(&Roster::new(), &vec![]));
    assert!(list_means(&roster) == vec![double(1500.); 3]);
}

#[test]
fn a_row_tells_of_one_player() {
    let (roster, _) = table(false);
    let row = rating_data(roster.handle(0), roster.get(0), 1650);
    assert_eq!((row.cur_rating, row.max_rating, row.last_contest), (1650, 1650, 1301));
    assert_eq!((row.last_contest_time, row.last_perf, row.last_delta), (70, -4, -50));
    assert_eq!(row.handle, "tourist");
}

#[test]
fn the_lowest_rating_is_fine_where_nothing_is_compared() {
    let mut roster = Roster::new();
    let mut p = newcomer();
    p.last_rating = -1;
    roster.add("low".to_string(), p);
    assert!(can_tabulate(&roster, &vec![i32::MIN]));
    let text = print_ratings(&roster, &vec![i32::MIN], 0, "m");
    assert!(text.contains("     - -2147483648(   0) low "));
    assert!(text.ends_with("delta =-2147483647\n"));
    roster.add("other".to_string(), newcomer());
    assert!(!can_tabulate(&roster, &vec![i32::MIN, 0]));
}

#[test]
fn ratings_are_equal_as_numbers_are() {
    assert!(rating(0., 1.) == rating(-0., 1.));
    assert!(rating(2., 0.) == rating(2., -0.));
    assert!(rating(0., 1.) != rating(0., 2.));
    assert!(rating(3., 1.) != rating(0., 1.));
    let nan = rating(f64::NAN, 1.);
    assert!(nan != nan);
    let nan = rating(1., f64::NAN);
    assert!(nan != nan);
}

#[test]
fn a_round_is_rated_from_the_ratings_before_it() {
    let mut players = Roster::new();
    for (i, handle) in ["a", "b", "c", "d", "e"].iter().enumerate() {
        players.add(handle.to_string(), Player::with_rating(double(10f64.powi(i as i32)), double(90.)));
    }
    let field = vec![(4, 0, 0), (3, 1, 2), (2, 1, 2), (0, 3, 3)];
    let system = CodeforcesSystem { sig_perf: double(7.), weight: double(0.5) };
    let mu = |r: &Rating| f64::from_bits(r.mu.bits);
    let sum = |ratings: &[Rating]| ratings.iter().map(mu).sum::<f64>();
    system.round_update(&mut players, &field, &|better: &[Rating], worse: &[Rating], all: &[Rating], mine: Rating, weight: Double| {
        assert!(all.iter().all(|r| r.sig == double(7.)) && mine.sig == double(7.));
        assert_eq!(all.len(), 4);
        assert_eq!(sum(all), 11101.);
        assert!(weight == double(0.5));
        double(1e6 * sum(better) + sum(worse) + mu(&mine) / 1024.)
    });
    let mus: Vec<f64> = (0..5).map(|i| f64::from_bits(players.get(i).approx_posterior.mu.bits)).collect();
    assert_eq!(
        mus,
        vec![
            1e6 * 11100. + 1. / 1024.,
            10.,
            1e6 * 10000. + 1. + 100. / 1024.,
            1e6 * 10000. + 1. + 1000. / 1024.,
            1101. + 10000. / 1024.,
        ]
    );
    assert!((0..5).all(|i| players.get(i).approx_posterior.sig == double(90.)));
}

#[test]
fn a_large_round_keeps_the_order_of_the_field() {
    let n = 2000;
    let mut players = Roster::new();
    for i in 0..n {
        players.add(format!("p{}", i), Player::with_rating(double(i as f64), double(90.)));
    }
    let field: Vec<(usize, usize, usize)> = (0..n).map(|k| (n - 1 - k, k, k)).collect();
    let system = CodeforcesSystem::default();
    system.round_update(&mut players, &field, &|better: &[Rating], worse: &[Rating], _: &[Rating], mine: Rating, _: Double| {
        double(f64::from_bits(mine.mu.bits) * 1e4 + better.len() as f64 - worse.len() as f64)
    });
    for i in 0..n {
        let (better, worse) = ((n - 1 - i) as f64, i as f64);
        assert_eq!(f64::from_bits(players.get(i).approx_posterior.mu.bits), i as f64 * 1e4 + better - worse);
    }
    system.round_update(&mut players, &vec![], &|_: &[Rating], _: &[Rating], _: &[Rating], mine: Rating, _: Double| mine.mu);
}

#[test]
fn a_contest_is_rated_by_the_codeforces_system() {
    let mut players = Roster::new();
    players.add("a".to_string(), Player::with_rating(double(1000.), double(90.)));
    players.add("b".to_string(), Player::with_rating(double(2000.), double(80.)));
    let system = Codeforces {
        system: CodeforcesSystem { sig_perf: double(7.), weight: double(0.25) },
        mean_of: |better: &[Rating], worse: &[Rating], all: &[Rating], mine: Rating, weight: Double| {
            let spread = better.len() as f64 - worse.len() as f64 + all.len() as f64 / 16.;
            double(f64::from_bits(mine.mu.bits) + spread + f64::from_bits(weight.bits))
        },
    };
    let c = contest(3, 10, &[("b", 0, 0), ("n", 1, 1)]);
    assert!(can_rate(&c));
    simulate_contest(&mut players, &c, &vec![1020, 2040], &system);
    let record = |i: usize| {
        let p = players.get(i);
        (f64::from_bits(p.approx_posterior.mu.bits), p.num_contests, p.last_contest, p.last_rating)
    };
    assert_eq!(record(0), (1000., 0, 0, 0));
    assert_eq!(record(1), (2000. - 1. + 0.125 + 0.25, 1, 3, 2040));
    assert_eq!(record(2), (1500. + 1. + 0.125 + 0.25, 1, 3, 1000));
    assert!(players.get(1).approx_posterior.sig == double(80.));
}

#[test]
fn ranges_of_ties_lie_within_the_standings() {
    assert!(can_rate(&contest(0, 0, &[])));
    assert!(can_rate(&contest(0, 0, &[("a", 0, 1), ("b", 0, 1)])));
    assert!(can_rate(&contest(0, 0, &[("a", 2, 1), ("b", 0, 0)])));
    assert!(!can_rate(&contest(0, 0, &[("a", 3, 1), ("b", 0, 0)])));
    assert!(!can_rate(&contest(0, 0, &[("a", 0, 0), ("b", 1, 2)])));
}
