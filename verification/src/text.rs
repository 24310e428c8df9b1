//! Text layout: whole numbers in decimal, and fields of a fixed width.

use vstd::prelude::*;

verus! {

/// The character of a decimal digit.
pub open spec fn digit(d: nat) -> char {
    (('0' as u32) + d) as char
}

/// A natural number in decimal, without leading zeros.
pub open spec fn digits(n: nat) -> Seq<char>
    decreases n,
{
    if n < 10 {
        seq![digit(n)]
    } else {
        digits(n / 10).push(digit(n % 10))
    }
}

/// A whole number in decimal, a minus sign before a negative one.
pub open spec fn decimal(i: int) -> Seq<char> {
    if i < 0 {
        seq!['-'] + digits((-i) as nat)
    } else {
        digits(i as nat)
    }
}

fn digit_text(d: u64) -> (text: &'static str)
    requires
        d < 10,
    ensures
        text@ == seq![digit(d as nat)],
{
    proof {
        reveal_strlit("0");
        reveal_strlit("1");
        reveal_strlit("2");
        reveal_strlit("3");
        reveal_strlit("4");
        reveal_strlit("5");
        reveal_strlit("6");
        reveal_strlit("7");
        reveal_strlit("8");
        reveal_strlit("9");
    }
    match d {
        0 => "0",
        1 => "1",
        2 => "2",
        3 => "3",
        4 => "4",
        5 => "5",
        6 => "6",
        7 => "7",
        8 => "8",
        _ => "9",
    }
}

/// Appends a natural number in decimal.
fn append_digits(out: &mut String, n: u64)
    ensures
        final(out)@ == old(out)@ + digits(n as nat),
    decreases n,
{
    if n >= 10 {
        append_digits(out, n / 10);
    }
    out.append(digit_text(n % 10));
    proof {
        if n < 10 {
            assert(n % 10 == n);
        } else {
            assert(digits(n as nat) =~= digits((n / 10) as nat) + seq![digit((n % 10) as nat)]);
        }
    }
}

/// An unsigned number in decimal.
pub fn unsigned_text(n: u64) -> (text: String)
    ensures
        text@ == decimal(n as int),
{
    let mut out = String::new();
    append_digits(&mut out, n);
    proof {
        assert(out@ =~= digits(n as nat));
    }
    out
}

/// A signed number in decimal.
pub fn signed_text(n: i32) -> (text: String)
    ensures
        text@ == decimal(n as int),
{
    if n < 0 {
        proof {
            reveal_strlit("-");
        }
        let mut out = String::new();
        out.append("-");
        append_digits(&mut out, (-(n as i64)) as u64);
        proof {
            assert(out@ =~= seq!['-'] + digits((-n) as nat));
        }
        out
    } else {
        unsigned_text(n as u64)
    }
}

/// So many blanks.
pub open spec fn blanks(n: int) -> Seq<char> {
    Seq::new(
        if n < 0 {
            0
        } else {
            n as nat
        },
        |i: int| ' ',
    )
}

/// A field of at least `width` characters with the text at its right end.
pub open spec fn right_aligned(text: Seq<char>, width: int) -> Seq<char> {
    blanks(width - text.len()) + text
}

/// A field of at least `width` characters with the text at its left end.
pub open spec fn left_aligned(text: Seq<char>, width: int) -> Seq<char> {
    text + blanks(width - text.len())
}

/// Appends so many blanks.
fn append_blanks(out: &mut String, n: usize)
    ensures
        final(out)@ == old(out)@ + blanks(n as int),
{
    proof {
        reveal_strlit(" ");
    }
    let ghost before = out@;
    let mut i: usize = 0;
    while i < n
        invariant
            i <= n,
            out@ == before + blanks(i as int),
            " "@ == seq![' '],
        decreases n - i,
    {
        out.append(" ");
        i += 1;
        proof {
            assert(out@ =~= before + blanks(i as int));
        }
    }
}

/// Appends a text at the right end of a field of at least `width` characters.
pub fn append_right(out: &mut String, text: &str, width: usize)
    ensures
        final(out)@ == old(out)@ + right_aligned(text@, width as int),
{
    let used: usize = text.unicode_len();
    if used < width {
        append_blanks(out, width - used);
    }
    out.append(text);
    proof {
        assert(out@ =~= old(out)@ + right_aligned(text@, width as int));
    }
}

/// Appends a text at the left end of a field of at least `width` characters.
pub fn append_left(out: &mut String, text: &str, width: usize)
    ensures
        final(out)@ == old(out)@ + left_aligned(text@, width as int),
{
    let used: usize = text.unicode_len();
    out.append(text);
    if used < width {
        append_blanks(out, width - used);
    }
    proof {
        assert(out@ =~= old(out)@ + left_aligned(text@, width as int));
    }
}

/// The number that a row of decimal digits stands for.
pub open spec fn value(row: Seq<char>) -> int
    decreases row.len(),
{
    if row.len() == 0 {
        0
    } else {
        10 * value(row.drop_last()) + (row.last() as int - '0' as int)
    }
}

/// A natural number is written with decimal digits alone, at least one and none too many,
/// and reading them gives the number back.
pub proof fn lemma_digits(n: nat)
    ensures
        digits(n).len() >= 1,
        value(digits(n)) == n,
        forall|i: int| 0 <= i < digits(n).len() ==> '0' <= #[trigger] digits(n)[i] <= '9',
        digits(n).len() > 1 ==> digits(n)[0] != '0',
    decreases n,
{
    if n < 10 {
        assert(digits(n).drop_last() =~= Seq::empty());
        assert(value(digits(n).drop_last()) == 0);
    } else {
        lemma_digits(n / 10);
        assert(digits(n).drop_last() =~= digits(n / 10));
        if n / 10 < 10 {
            assert(digits(n)[0] == digit(n / 10));
        } else {
            assert(digits(n)[0] == digits(n / 10)[0]);
            assert(digits(n / 10).len() > 1) by {
                lemma_digits(n / 10 / 10);
            }
        }
    }
}

/// A whole number is written with a minus sign just if it is negative, and reading the
/// digits gives its distance from zero back.
pub proof fn lemma_decimal(i: int)
    ensures
        decimal(i).len() >= 1,
        decimal(i)[0] == '-' <==> i < 0,
        i >= 0 ==> value(decimal(i)) == i,
        i < 0 ==> value(decimal(i).skip(1)) == -i,
        forall|k: int|
            1 <= k < decimal(i).len() ==> '0' <= #[trigger] decimal(i)[k] <= '9',
{
    if i < 0 {
        lemma_digits((-i) as nat);
        assert(decimal(i).skip(1) =~= digits((-i) as nat));
    } else {
        lemma_digits(i as nat);
        assert('0' <= digits(i as nat)[0]);
    }
}

/// Different numbers are written differently.
pub proof fn lemma_decimal_injective(i: int, j: int)
    requires
        decimal(i) == decimal(j),
    ensures
        i == j,
{
    lemma_decimal(i);
    lemma_decimal(j);
}

/// A field is as wide as asked for, or as the text if that is longer; the text stands at its
/// right end, and all else is blank.
pub proof fn lemma_right_aligned(text: Seq<char>, width: int)
    ensures
        right_aligned(text, width).len() >= width,
        right_aligned(text, width).len() >= text.len(),
        right_aligned(text, width).len() == width || right_aligned(text, width).len() == text.len(),
        right_aligned(text, width).skip(right_aligned(text, width).len() - text.len()) == text,
        forall|i: int|
            0 <= i < right_aligned(text, width).len() - text.len() ==> #[trigger] right_aligned(
                text,
                width,
            )[i] == ' ',
{
    let field = right_aligned(text, width);
    assert(field.skip(field.len() - text.len()) =~= text);
}

/// A field is as wide as asked for, or as the text if that is longer; the text stands at its
/// left end, and all else is blank.
pub proof fn lemma_left_aligned(text: Seq<char>, width: int)
    ensures
        left_aligned(text, width).len() >= width,
        left_aligned(text, width).len() >= text.len(),
        left_aligned(text, width).len() == width || left_aligned(text, width).len() == text.len(),
        left_aligned(text, width).take(text.len() as int) == text,
        forall|i: int|
            text.len() <= i < left_aligned(text, width).len() ==> #[trigger] left_aligned(
                text,
                width,
            )[i] == ' ',
{
    let field = left_aligned(text, width);
    assert(field.take(text.len() as int) =~= text);
}

} // verus!
