use multi_skill::data_processing::{is_one, one, Contest, ContestSummary};
use multi_skill::double::Double;
use rand::rngs::StdRng;
use rand::SeedableRng;

fn standing(handle: &str, lo: usize, hi: usize) -> (String, usize, usize) {
    (handle.to_string(), lo, hi)
}

fn contest(standings: Vec<(String, usize, usize)>) -> Contest {
    let mut contest = Contest::new(7);
    contest.standings = standings;
    contest
}

fn is_valid(standings: &[(String, usize, usize)]) -> bool {
    (0..standings.len()).all(|i| {
        let (_, lo, hi) = standings[i];
        lo <= i
            && i <= hi
            && hi < standings.len()
            && standings[lo..=hi].iter().all(|s| s.1 == lo && s.2 == hi)
    })
}

#[test]
fn new_contest_has_header_and_no_contestants() {
    let c = Contest::new(3);
    assert_eq!(c.name, "Round #3");
    assert_eq!(c.url, None);
    assert_eq!(f64::from_bits(c.weight.bits), 1.);
    assert_eq!(c.time_seconds, 259_200);
    assert!(c.standings.is_empty());
    assert_eq!(Contest::new(0).name, "Round #0");
    assert_eq!(Contest::new(1205).name, "Round #1205");
}

#[test]
fn only_one_is_the_default_weight() {
    assert_eq!(f64::from_bits(one().bits), 1.);
    assert!(is_one(&one()));
    for x in [0.5f64, -1., 2., 1.0000000000000002, f64::NAN, 0.] {
        assert!(!is_one(&Double { bits: x.to_bits() }));
    }
}

#[test]
fn contestants_are_found_by_handle() {
    let mut c = contest(vec![standing("a", 0, 0), standing("b", 1, 2), standing("c", 1, 2)]);
    assert_eq!(c.find_contestant("a"), Some(0));
    assert_eq!(c.find_contestant("c"), Some(2));
    assert_eq!(c.find_contestant("d"), None);
    c.standings.push(standing("a", 3, 3));
    assert_eq!(c.find_contestant("a"), Some(0));
}

#[test]
fn removal_moves_the_others_up() {
    let mut c = contest(vec![
        standing("a", 0, 0),
        standing("b", 1, 3),
        standing("c", 1, 3),
        standing("d", 1, 3),
        standing("e", 4, 4),
    ]);
    assert_eq!(c.remove_contestant("c"), Some(standing("c", 1, 3)));
    assert_eq!(
        c.standings,
        vec![
            standing("a", 0, 0),
            standing("b", 1, 2),
            standing("d", 1, 2),
            standing("e", 3, 3),
        ]
    );
    assert_eq!(c.remove_contestant("a"), Some(standing("a", 0, 0)));
    assert_eq!(
        c.standings,
        vec![standing("b", 0, 1), standing("d", 0, 1), standing("e", 2, 2)]
    );
    assert_eq!(c.remove_contestant("x"), None);
    assert_eq!(c.standings.len(), 3);
    assert_eq!(c.remove_contestant("e"), Some(standing("e", 2, 2)));
    assert_eq!(c.standings, vec![standing("b", 0, 1), standing("d", 0, 1)]);
}

#[test]
fn removal_undoes_a_push() {
    let before = vec![standing("a", 0, 1), standing("b", 0, 1), standing("c", 2, 2)];
    let mut c = contest(before.clone());
    c.push_contestant("new");
    assert_eq!(c.standings[3], standing("new", 3, 3));
    assert_eq!(c.remove_contestant("new"), Some(standing("new", 3, 3)));
    assert_eq!(c.standings, before);
}

#[test]
fn removal_agrees_with_ranking_those_who_stay() {
    let full = vec![
        standing("a", 0, 1),
        standing("b", 0, 1),
        standing("c", 2, 2),
        standing("d", 3, 5),
        standing("e", 3, 5),
        standing("f", 3, 5),
    ];
    for gone in ["a", "b", "c", "d", "e", "f"] {
        let mut removed = contest(full.clone());
        removed.remove_contestant(gone);
        let rest = full.iter().filter(|s| s.0 != gone).cloned().collect();
        let mut ranked = contest(rest);
        ranked.fix_lo_hi();
        ranked.standings.sort();
        let mut sorted = removed.standings.clone();
        sorted.sort();
        assert_eq!(sorted, ranked.standings);
        assert!(is_valid(&removed.standings));
    }
}

#[test]
fn a_subset_of_standings_is_ranked_anew() {
    let mut c = contest(vec![
        standing("z", 9, 12),
        standing("m", 4, 5),
        standing("y", 9, 12),
        standing("a", 0, 0),
    ]);
    c.fix_lo_hi();
    assert_eq!(c.standings[0], standing("a", 0, 0));
    assert_eq!(c.standings[1], standing("m", 1, 1));
    let mut tied = c.standings[2..].to_vec();
    tied.sort();
    assert_eq!(tied, vec![standing("y", 2, 3), standing("z", 2, 3)]);
    assert_eq!(c.name, "Round #7");
}

#[test]
fn ranking_valid_standings_keeps_every_range() {
    let before = vec![standing("q", 0, 2), standing("p", 0, 2), standing("r", 0, 2), standing("s", 3, 3)];
    let mut c = contest(before.clone());
    c.fix_lo_hi();
    let mut a = before;
    let mut b = c.standings;
    a.sort();
    b.sort();
    assert_eq!(a, b);
}

#[test]
fn empty_standings_stay_empty() {
    let mut c = contest(vec![]);
    c.fix_lo_hi();
    assert!(c.standings.is_empty());
    assert!(c.split_in_order(3).is_empty());
}

#[test]
fn a_split_takes_contestants_in_order() {
    let mut c = contest(vec![
        standing("a", 2, 3),
        standing("b", 0, 1),
        standing("c", 4, 4),
        standing("d", 0, 1),
        standing("e", 2, 3),
    ]);
    c.url = Some("u".to_string());
    let parts = c.split_in_order(2);
    assert_eq!(parts.len(), 3);
    assert_eq!(parts[0].standings, vec![standing("b", 0, 0), standing("a", 1, 1)]);
    assert_eq!(parts[1].standings, vec![standing("d", 0, 0), standing("c", 1, 1)]);
    assert_eq!(parts[2].standings, vec![standing("e", 0, 0)]);
    for part in &parts {
        assert_eq!(part.name, "Round #7");
        assert_eq!(part.url, Some("u".to_string()));
        assert_eq!(part.time_seconds, 7 * 86_400);
        assert!(part.weight == one());
    }
}

#[test]
fn a_random_split_loses_nobody() {
    let all: Vec<_> = (0..100).map(|i| standing(&format!("h{:03}", i), i / 4 * 4, i / 4 * 4 + 3)).collect();
    let mut rng = StdRng::seed_from_u64(5);
    let parts = contest(all.clone()).random_split(13, &mut rng);
    assert_eq!(parts.len(), 8);
    let mut seen: Vec<String> = Vec::new();
    for part in &parts {
        assert!(!part.standings.is_empty() && part.standings.len() <= 13);
        assert!(is_valid(&part.standings));
        for a in &part.standings {
            for b in &part.standings {
                let old = |h: &str| all.iter().find(|s| s.0 == h).unwrap().1;
                assert_eq!(old(&a.0) < old(&b.0), a.1 < b.1);
                assert_eq!(old(&a.0) == old(&b.0), a.1 == b.1);
            }
            seen.push(a.0.clone());
        }
    }
    // The order is no longer that of the standings.
    let first: Vec<String> = all[..13].iter().map(|s| s.0.clone()).collect();
    let mut drawn: Vec<String> = parts[0].standings.iter().map(|s| s.0.clone()).collect();
    drawn.sort();
    assert_ne!(drawn, first);
    seen.sort();
    assert_eq!(seen, all.iter().map(|s| s.0.clone()).collect::<Vec<_>>());
}

#[test]
fn a_summary_counts_the_contestants() {
    let mut c = contest(vec![standing("a", 0, 0), standing("b", 1, 1)]);
    c.url = Some("somewhere".to_string());
    let s = ContestSummary::new(&c);
    assert_eq!(s.name, c.name);
    assert_eq!(s.url, c.url);
    assert!(s.weight == c.weight);
    assert_eq!(s.time_seconds, c.time_seconds);
    assert_eq!(s.num_contestants, 2);
}
