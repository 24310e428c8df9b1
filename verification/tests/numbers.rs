use multi_skill::double::{ascending, can_order, Double};
use multi_skill::root_search::{confine, Progress, Search};
use multi_skill::text::{append_left, append_right, signed_text, unsigned_text};
use multi_skill::titles::{count_title, title_count_line, title_of, title_text};

fn double(x: f64) -> Double {
    Double { bits: x.to_bits() }
}

const SAMPLES: [f64; 22] = [
    0., -0., 1., -1., 0.5, -0.5, 1.5, 2.5, -2.5, 0.49999999999999994, 1499.5, 1e-310, -1e-310,
    2147483646.5, 2147483647.4, 2147483648., -2147483648.4, -2147483649., 1e300, f64::INFINITY,
    f64::NEG_INFINITY, f64::NAN,
];

#[test]
fn numbers_compare_as_the_machine_compares_them() {
    for a in SAMPLES {
        for b in SAMPLES {
            assert_eq!(double(a).less(&double(b)), a < b, "{} {}", a, b);
            assert_eq!(double(a) == double(b), a == b, "{} {}", a, b);
        }
        assert_eq!(double(a).nan(), a.is_nan());
    }
}

#[test]
fn numbers_round_as_the_machine_rounds_them() {
    for a in SAMPLES {
        assert_eq!(double(a).round_to_i32(), a.round() as i32, "{}", a);
    }
    for i in -4000..4000 {
        let x = f64::from(i) * 0.37;
        assert_eq!(double(x).round_to_i32(), x.round() as i32, "{}", x);
        let y = f64::from(i) / 2.;
        assert_eq!(double(y).round_to_i32(), y.round() as i32, "{}", y);
    }
    assert_eq!(double(2.5).round_to_i32(), 3);
    assert_eq!(double(-2.5).round_to_i32(), -3);
    assert_eq!(double(f64::MAX).round_to_i32(), i32::MAX);
    assert_eq!(double(f64::NAN).round_to_i32(), 0);
}

#[test]
fn numbers_are_put_in_ascending_order() {
    let values = vec![double(3.), double(-2.), double(1e9), double(-1e9), double(0.25)];
    let sorted: Vec<f64> = ascending(values).iter().map(|d| f64::from_bits(d.bits)).collect();
    assert_eq!(sorted, vec![-1e9, -2., 0.25, 3., 1e9]);
    assert!(can_order(&vec![]) && can_order(&vec![double(f64::NAN)]));
    assert!(can_order(&vec![double(1.), double(f64::INFINITY)]));
    assert!(!can_order(&vec![double(1.), double(f64::NAN)]));
    let lone = ascending(vec![double(f64::NAN)]);
    assert!(lone[0].nan());
}

#[test]
fn a_proposal_is_kept_between_its_limits() {
    for (p, lo, hi) in [(5., 1., 3.), (0., 1., 3.), (2., 1., 3.), (f64::NAN, 1., 3.)] {
        let next = confine(double(p), double(lo), double(hi));
        assert_eq!(f64::from_bits(next.bits), p.max(lo).min(hi));
    }
}

fn ends(s: &Search) -> (f64, f64, f64) {
    (f64::from_bits(s.lo.bits), f64::from_bits(s.hi.bits), f64::from_bits(s.guess.bits))
}

#[test]
fn a_search_narrows_and_settles() {
    let start = Search { lo: double(0.), hi: double(8.), guess: double(4.) };
    let mut s = start;
    s.narrow_rising(double(0.1), double(0.));
    assert_eq!(ends(&s), (0., 4., 4.));
    let mut s = start;
    s.narrow_rising(double(0.), double(0.));
    assert_eq!(ends(&s), (4., 8., 4.));
    let mut s = start;
    s.narrow_falling(double(7.), double(6.));
    assert_eq!(ends(&s), (4., 8., 4.));
    let mut s = start;
    s.narrow_falling(double(f64::NAN), double(6.));
    assert_eq!(ends(&s), (0., 4., 4.));

    let mut s = start;
    let found = s.settle(double(3.), double(1e-12), double(1e-11), double(0.), double(1.));
    assert!(matches!(found, Progress::Found(x) if x == double(3.)));
    assert_eq!(ends(&s), (0., 8., 4.));
    let stuck = s.settle(double(3.), double(1.), double(1e-11), double(0.), double(1.));
    assert!(matches!(stuck, Progress::Stuck(x) if x == double(3.)));
    assert_eq!(ends(&s), (0., 8., 4.));
    let open = s.settle(double(3.), double(1.), double(1e-11), double(1.), double(1.));
    assert!(matches!(open, Progress::Open));
    assert_eq!(ends(&s), (0., 8., 3.));
}

#[test]
fn a_search_finds_a_square_root() {
    let mut s = Search { lo: double(0.), hi: double(8.), guess: double(4.) };
    let root = loop {
        let x = f64::from_bits(s.guess.bits);
        let (lo, hi) = (f64::from_bits(s.lo.bits), f64::from_bits(s.hi.bits));
        let value = x * x - 2.;
        let next = confine(
            double(x - value / (2. * x)),
            double(0.75 * lo + 0.25 * x),
            double(0.25 * x + 0.75 * hi),
        );
        s.narrow_rising(double(value), double(0.));
        let width = f64::from_bits(s.hi.bits) - f64::from_bits(s.lo.bits);
        match s.settle(next, double(value.abs()), double(1e-11), double(width), double(1e-15)) {
            Progress::Found(x) => break f64::from_bits(x.bits),
            Progress::Stuck(_) => panic!("stuck"),
            Progress::Open => {}
        }
    };
    assert!((root - 2f64.sqrt()).abs() < 1e-9);
}

#[test]
fn numbers_are_written_in_decimal() {
    for n in [0u64, 7, 10, 99, 100, 86_400, u64::MAX] {
        assert_eq!(unsigned_text(n), n.to_string());
    }
    for n in [0i32, -1, 42, -999, i32::MIN, i32::MAX] {
        assert_eq!(signed_text(n), n.to_string());
    }
}

#[test]
fn fields_have_a_width() {
    for s in ["", "ab", "abcd", "abcdef", "αβ"] {
        let mut out = "|".to_string();
        append_right(&mut out, s, 4);
        append_left(&mut out, s, 4);
        out.push('|');
        assert_eq!(out, format!("|{:>4}{:<4}|", s, s));
    }
}

#[test]
fn ratings_earn_titles() {
    for (rating, title) in [
        (-999, "Ne"), (999, "Ne"), (1000, "Pu"), (1199, "Pu"), (1200, "Ap"), (1400, "Sp"),
        (1600, "Ex"), (1800, "CM"), (2000, "Ma"), (2200, "IM"), (2400, "GM"), (2699, "GM"),
        (2700, "IG"), (3000, "LG"), (i32::MAX, "LG"),
    ] {
        assert_eq!(title_text(title_of(rating).unwrap()), title);
    }
    assert_eq!(title_of(-1000), None);
    assert_eq!(title_of(i32::MIN), None);
    assert_eq!(title_count_line(0, 12), "-999 Ne x    12");
    assert_eq!(title_count_line(10, 1234567), "3000 LG x1234567");
}

#[test]
fn titles_are_counted() {
    let mut counts = vec![0; 11];
    for rating in [-1000, -999, 0, 1199, 1200, 3500, 3000] {
        count_title(&mut counts, rating);
    }
    assert_eq!(counts, vec![2, 1, 1, 0, 0, 0, 0, 0, 0, 0, 2]);
}
