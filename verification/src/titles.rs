//! The titles that ratings earn.

use crate::text;
use vstd::prelude::*;

verus! {

pub const NUM_TITLES: usize = 11;

pub const TITLE_BOUND: [i32; 11] = [
    -999,
    1000,
    1200,
    1400,
    1600,
    1800,
    2000,
    2200,
    2400,
    2700,
    3000,
];

/// The abbreviation of a title.
pub open spec fn title(k: int) -> Seq<char> {
    if k == 0 {
        "Ne"@
    } else if k == 1 {
        "Pu"@
    } else if k == 2 {
        "Ap"@
    } else if k == 3 {
        "Sp"@
    } else if k == 4 {
        "Ex"@
    } else if k == 5 {
        "CM"@
    } else if k == 6 {
        "Ma"@
    } else if k == 7 {
        "IM"@
    } else if k == 8 {
        "GM"@
    } else if k == 9 {
        "IG"@
    } else {
        "LG"@
    }
}

/// A rating earns the highest title whose bound it reaches.
pub open spec fn earns(rating: int, k: int) -> bool {
    &&& 0 <= k < NUM_TITLES
    &&& rating >= TITLE_BOUND@[k]
    &&& forall|j: int| k < j < NUM_TITLES ==> rating < #[trigger] TITLE_BOUND@[j]
}

/// The title that a rating earns, if it earns one.
pub fn title_of(rating: i32) -> (k: Option<usize>)
    ensures
        match k {
            Some(t) => earns(rating as int, t as int),
            None => forall|t: int| !earns(rating as int, t),
        },
{
    let mut i: usize = NUM_TITLES;
    while i > 0
        invariant
            i <= NUM_TITLES,
            forall|j: int| i <= j < NUM_TITLES ==> rating < #[trigger] TITLE_BOUND@[j],
        decreases i,
    {
        i -= 1;
        if rating >= TITLE_BOUND[i] {
            return Some(i);
        }
    }
    None
}

/// Counts one more holder of the title that a rating earns, if it earns one.
pub fn count_title(title_count: &mut Vec<usize>, rating: i32)
    requires
        old(title_count)@.len() == NUM_TITLES,
        forall|k: int| 0 <= k < NUM_TITLES ==> #[trigger] old(title_count)@[k] < usize::MAX,
    ensures
        final(title_count)@.len() == NUM_TITLES,
        forall|k: int|
            0 <= k < NUM_TITLES ==> #[trigger] final(title_count)@[k] == old(title_count)@[k] + (
            if earns(rating as int, k) {
                1int
            } else {
                0int
            }),
{
    if let Some(title_id) = title_of(rating) {
        assert(title_count@[title_id as int] < usize::MAX);
        title_count[title_id] += 1;
    }
}

/// The abbreviation of a title.
pub fn title_text(k: usize) -> (name: &'static str)
    requires
        k < NUM_TITLES,
    ensures
        name@ == title(k as int),
{
    match k {
        0 => "Ne",
        1 => "Pu",
        2 => "Ap",
        3 => "Sp",
        4 => "Ex",
        5 => "CM",
        6 => "Ma",
        7 => "IM",
        8 => "GM",
        9 => "IG",
        _ => "LG",
    }
}

/// Which ratings earn which title.
pub proof fn lemma_title_bounds(rating: int)
    ensures
        earns(rating, 0) <==> -999 <= rating < 1000,
        earns(rating, 1) <==> 1000 <= rating < 1200,
        earns(rating, 2) <==> 1200 <= rating < 1400,
        earns(rating, 3) <==> 1400 <= rating < 1600,
        earns(rating, 4) <==> 1600 <= rating < 1800,
        earns(rating, 5) <==> 1800 <= rating < 2000,
        earns(rating, 6) <==> 2000 <= rating < 2200,
        earns(rating, 7) <==> 2200 <= rating < 2400,
        earns(rating, 8) <==> 2400 <= rating < 2700,
        earns(rating, 9) <==> 2700 <= rating < 3000,
        earns(rating, 10) <==> 3000 <= rating,
        forall|k: int| k < 0 || k > 10 ==> !earns(rating, k),
{
    assert(TITLE_BOUND@[0] == -999);
    assert(TITLE_BOUND@[1] == 1000);
    assert(TITLE_BOUND@[2] == 1200);
    assert(TITLE_BOUND@[3] == 1400);
    assert(TITLE_BOUND@[4] == 1600);
    assert(TITLE_BOUND@[5] == 1800);
    assert(TITLE_BOUND@[6] == 2000);
    assert(TITLE_BOUND@[7] == 2200);
    assert(TITLE_BOUND@[8] == 2400);
    assert(TITLE_BOUND@[9] == 2700);
    assert(TITLE_BOUND@[10] == 3000);
}

/// A higher rating never earns a lower title.
pub proof fn lemma_titles_ascend(low: int, high: int, j: int, k: int)
    requires
        low <= high,
        earns(low, j),
        earns(high, k),
    ensures
        j <= k,
{
    if k < j {
        assert(high < TITLE_BOUND@[j]);
    }
}

/// No rating earns two titles.
pub proof fn lemma_one_title(rating: int, j: int, k: int)
    requires
        earns(rating, j),
        earns(rating, k),
    ensures
        j == k,
{
}

/// Only ratings from the lowest bound on earn a title.
pub proof fn lemma_earned_bound(rating: int, k: int)
    requires
        earns(rating, k),
    ensures
        rating >= -999,
{
    assert(TITLE_BOUND@[0] == -999);
    assert(TITLE_BOUND@[1] == 1000);
    assert(TITLE_BOUND@[2] == 1200);
    assert(TITLE_BOUND@[3] == 1400);
    assert(TITLE_BOUND@[4] == 1600);
    assert(TITLE_BOUND@[5] == 1800);
    assert(TITLE_BOUND@[6] == 2000);
    assert(TITLE_BOUND@[7] == 2200);
    assert(TITLE_BOUND@[8] == 2400);
    assert(TITLE_BOUND@[9] == 2700);
    assert(TITLE_BOUND@[10] == 3000);
}

/// From the lowest bound on, every rating earns a title.
pub proof fn lemma_title_earned(rating: int)
    requires
        rating >= -999,
    ensures
        exists|k: int| earns(rating, k),
{
    assert(TITLE_BOUND@[0] == -999);
    lemma_title_from(rating, 0);
}

proof fn lemma_title_from(rating: int, i: int)
    requires
        0 <= i < NUM_TITLES,
        rating >= TITLE_BOUND@[i],
    ensures
        exists|k: int| earns(rating, k),
    decreases NUM_TITLES - i,
{
    if exists|j: int| i < j < NUM_TITLES && rating >= #[trigger] TITLE_BOUND@[j] {
        let j = choose|j: int| i < j < NUM_TITLES && rating >= #[trigger] TITLE_BOUND@[j];
        lemma_title_from(rating, j);
    } else {
        assert(earns(rating, i));
    }
}

/// The line that tells how many players hold a title.
pub open spec fn title_line(k: int, holders: int) -> Seq<char> {
    text::decimal(TITLE_BOUND@[k] as int) + " "@ + title(k) + " x"@ + text::right_aligned(
        text::decimal(holders),
        6,
    )
}

/// The line of each title starts with the title's bound and abbreviation, and ends with the
/// number of holders, at the right end of six columns if it fits there.
pub proof fn lemma_title_line(holders: nat)
    ensures
        title_line(0, holders as int).take(9) == seq!['-', '9', '9', '9', ' ', 'N', 'e', ' ', 'x'],
        title_line(1, holders as int).take(9) == seq!['1', '0', '0', '0', ' ', 'P', 'u', ' ', 'x'],
        title_line(2, holders as int).take(9) == seq!['1', '2', '0', '0', ' ', 'A', 'p', ' ', 'x'],
        title_line(3, holders as int).take(9) == seq!['1', '4', '0', '0', ' ', 'S', 'p', ' ', 'x'],
        title_line(4, holders as int).take(9) == seq!['1', '6', '0', '0', ' ', 'E', 'x', ' ', 'x'],
        title_line(5, holders as int).take(9) == seq!['1', '8', '0', '0', ' ', 'C', 'M', ' ', 'x'],
        title_line(6, holders as int).take(9) == seq!['2', '0', '0', '0', ' ', 'M', 'a', ' ', 'x'],
        title_line(7, holders as int).take(9) == seq!['2', '2', '0', '0', ' ', 'I', 'M', ' ', 'x'],
        title_line(8, holders as int).take(9) == seq!['2', '4', '0', '0', ' ', 'G', 'M', ' ', 'x'],
        title_line(9, holders as int).take(9) == seq!['2', '7', '0', '0', ' ', 'I', 'G', ' ', 'x'],
        title_line(10, holders as int).take(9) == seq!['3', '0', '0', '0', ' ', 'L', 'G', ' ', 'x'],
        forall|k: int|
            0 <= k <= 10 ==> {
                let rest = (#[trigger] title_line(k, holders as int)).skip(9);
                let number = text::digits(holders);
                &&& rest.len() >= 6
                &&& rest.len() == 6 || rest.len() == number.len()
                &&& rest.len() >= number.len()
                &&& rest.skip(rest.len() - number.len()) == number
                &&& forall|i: int|
                    0 <= i < rest.len() - number.len() ==> #[trigger] rest[i] == ' '
            },
{
    let n = holders as int;
    assert(TITLE_BOUND@[0] == -999);
    assert(TITLE_BOUND@[1] == 1000);
    assert(TITLE_BOUND@[2] == 1200);
    assert(TITLE_BOUND@[3] == 1400);
    assert(TITLE_BOUND@[4] == 1600);
    assert(TITLE_BOUND@[5] == 1800);
    assert(TITLE_BOUND@[6] == 2000);
    assert(TITLE_BOUND@[7] == 2200);
    assert(TITLE_BOUND@[8] == 2400);
    assert(TITLE_BOUND@[9] == 2700);
    assert(TITLE_BOUND@[10] == 3000);
    reveal_strlit("Ne");
    reveal_strlit("Pu");
    reveal_strlit("Ap");
    reveal_strlit("Sp");
    reveal_strlit("Ex");
    reveal_strlit("CM");
    reveal_strlit("Ma");
    reveal_strlit("IM");
    reveal_strlit("GM");
    reveal_strlit("IG");
    reveal_strlit("LG");
    reveal_strlit(" ");
    reveal_strlit(" x");
    lemma_four_digits(999);
    lemma_four_digits(1000);
    lemma_four_digits(1200);
    lemma_four_digits(1400);
    lemma_four_digits(1600);
    lemma_four_digits(1800);
    lemma_four_digits(2000);
    lemma_four_digits(2200);
    lemma_four_digits(2400);
    lemma_four_digits(2700);
    lemma_four_digits(3000);
    assert(text::decimal(-999) =~= seq!['-', '9', '9', '9']);
    assert forall|k: int| 0 <= k <= 10 implies {
        let rest = (#[trigger] title_line(k, n)).skip(9);
        let number = text::digits(holders);
        &&& rest.len() >= 6
        &&& rest.len() == 6 || rest.len() == number.len()
        &&& rest.len() >= number.len()
        &&& rest.skip(rest.len() - number.len()) == number
        &&& forall|i: int| 0 <= i < rest.len() - number.len() ==> #[trigger] rest[i] == ' '
    } by {
        let rest = title_line(k, n).skip(9);
        let number = text::digits(holders);
        assert(text::decimal(TITLE_BOUND@[k] as int).len() == 4);
        assert(title(k).len() == 2);
        assert(rest =~= text::right_aligned(number, 6));
        text::lemma_right_aligned(number, 6);
        assert(rest.skip(rest.len() - number.len()) =~= number);
    }
    assert(title_line(0, n).take(9) =~= seq!['-', '9', '9', '9', ' ', 'N', 'e', ' ', 'x']);
    assert(title_line(1, n).take(9) =~= seq!['1', '0', '0', '0', ' ', 'P', 'u', ' ', 'x']);
    assert(title_line(2, n).take(9) =~= seq!['1', '2', '0', '0', ' ', 'A', 'p', ' ', 'x']);
    assert(title_line(3, n).take(9) =~= seq!['1', '4', '0', '0', ' ', 'S', 'p', ' ', 'x']);
    assert(title_line(4, n).take(9) =~= seq!['1', '6', '0', '0', ' ', 'E', 'x', ' ', 'x']);
    assert(title_line(5, n).take(9) =~= seq!['1', '8', '0', '0', ' ', 'C', 'M', ' ', 'x']);
    assert(title_line(6, n).take(9) =~= seq!['2', '0', '0', '0', ' ', 'M', 'a', ' ', 'x']);
    assert(title_line(7, n).take(9) =~= seq!['2', '2', '0', '0', ' ', 'I', 'M', ' ', 'x']);
    assert(title_line(8, n).take(9) =~= seq!['2', '4', '0', '0', ' ', 'G', 'M', ' ', 'x']);
    assert(title_line(9, n).take(9) =~= seq!['2', '7', '0', '0', ' ', 'I', 'G', ' ', 'x']);
    assert(title_line(10, n).take(9) =~= seq!['3', '0', '0', '0', ' ', 'L', 'G', ' ', 'x']);
}

/// A number of up to four digits, digit by digit.
proof fn lemma_four_digits(n: nat)
    requires
        100 <= n < 10000,
    ensures
        n < 1000 ==> text::digits(n) == seq![
            text::digit(n / 100),
            text::digit(n / 10 % 10),
            text::digit(n % 10),
        ],
        n >= 1000 ==> text::digits(n) == seq![
            text::digit(n / 1000),
            text::digit(n / 100 % 10),
            text::digit(n / 10 % 10),
            text::digit(n % 10),
        ],
{
    reveal_with_fuel(text::digits, 4);
    assert(n / 10 / 10 == n / 100);
    assert(n / 10 / 10 / 10 == n / 1000);
    if n < 1000 {
        assert(text::digits(n) =~= seq![
            text::digit(n / 100),
            text::digit(n / 10 % 10),
            text::digit(n % 10),
        ]);
    } else {
        assert(text::digits(n) =~= seq![
            text::digit(n / 1000),
            text::digit(n / 100 % 10),
            text::digit(n / 10 % 10),
            text::digit(n % 10),
        ]);
    }
}

/// Writes the line that tells how many players hold a title.
pub fn title_count_line(k: usize, holders: usize) -> (line: String)
    requires
        k < NUM_TITLES,
    ensures
        line@ == title_line(k as int, holders as int),
{
    let mut line = text::signed_text(TITLE_BOUND[k]);
    line.append(" ");
    line.append(title_text(k));
    line.append(" x");
    text::append_right(&mut line, text::unsigned_text(holders as u64).as_str(), 6);
    line
}

} // verus!
