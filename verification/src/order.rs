//! Orders and sorting: the dictionary order on handles, and a sort for any type
//! that brings its own weak order.

use core::cmp::Ordering;
use vstd::prelude::*;

verus! {

/// The dictionary order on strings: the first character that differs decides, by
/// code point, and a proper prefix comes before the longer string.
pub open spec fn text_precedes(a: Seq<char>, b: Seq<char>) -> bool
    decreases a.len(),
{
    if b.len() == 0 {
        false
    } else if a.len() == 0 {
        true
    } else if a[0] != b[0] {
        a[0] < b[0]
    } else {
        text_precedes(a.drop_first(), b.drop_first())
    }
}

/// No string comes before itself.
pub proof fn lemma_text_irreflexive(a: Seq<char>)
    ensures
        !text_precedes(a, a),
    decreases a.len(),
{
    if a.len() > 0 {
        lemma_text_irreflexive(a.drop_first());
    }
}

/// The dictionary order is transitive.
pub proof fn lemma_text_transitive(a: Seq<char>, b: Seq<char>, c: Seq<char>)
    requires
        text_precedes(a, b),
        text_precedes(b, c),
    ensures
        text_precedes(a, c),
    decreases a.len(),
{
    if a.len() > 0 && a[0] == b[0] && b[0] == c[0] {
        lemma_text_transitive(a.drop_first(), b.drop_first(), c.drop_first());
    }
}

/// Of two different strings, one comes before the other.
pub proof fn lemma_text_total(a: Seq<char>, b: Seq<char>)
    ensures
        a == b || text_precedes(a, b) || text_precedes(b, a),
    decreases a.len(),
{
    if a.len() == 0 && b.len() == 0 {
        assert(a =~= b);
    } else if a.len() > 0 && b.len() > 0 && a[0] == b[0] {
        lemma_text_total(a.drop_first(), b.drop_first());
        if a.drop_first() == b.drop_first() {
            assert(a =~= seq![a[0]] + a.drop_first());
            assert(b =~= seq![b[0]] + b.drop_first());
        }
    }
}

/// The dictionary order compares two strings where they part: behind what they start with
/// in common, the one that ends there, or has the lower character there, comes first.
pub proof fn lemma_text_parting(a: Seq<char>, b: Seq<char>, n: int)
    requires
        0 <= n <= a.len(),
        n <= b.len(),
        forall|i: int| 0 <= i < n ==> #[trigger] a[i] == b[i],
    ensures
        n == a.len() && n < b.len() ==> text_precedes(a, b) && !text_precedes(b, a),
        n == a.len() && n == b.len() ==> !text_precedes(a, b) && !text_precedes(b, a),
        n < a.len() && n < b.len() && a[n] < b[n] ==> text_precedes(a, b) && !text_precedes(b, a),
    decreases n,
{
    if n > 0 {
        assert(a[0] == b[0]);
        let c = a.drop_first();
        let d = b.drop_first();
        assert forall|i: int| 0 <= i < n - 1 implies #[trigger] c[i] == d[i] by {
            assert(a[i + 1] == b[i + 1]);
        }
        lemma_text_parting(c, d, n - 1);
    }
}

/// Tells whether `a` comes before `b` in the dictionary order.
pub fn text_less(a: &str, b: &str) -> (less: bool)
    ensures
        less == text_precedes(a@, b@),
{
    let mut left = a.chars();
    let mut right = b.chars();
    loop
        invariant
            vstd::std_specs::iter::IteratorSpec::obeys_prophetic_iter_laws(&left),
            vstd::std_specs::iter::IteratorSpec::obeys_prophetic_iter_laws(&right),
            vstd::std_specs::iter::IteratorSpec::decrease(&left) is Some,
            text_precedes(a@, b@) == text_precedes(
                vstd::std_specs::iter::IteratorSpec::remaining(&left),
                vstd::std_specs::iter::IteratorSpec::remaining(&right),
            ),
        decreases vstd::std_specs::iter::IteratorSpec::decrease(&left)->0,
    {
        let x = left.next();
        let y = right.next();
        match (x, y) {
            (_, None) => {
                return false;
            },
            (None, Some(_)) => {
                return true;
            },
            (Some(c), Some(d)) => {
                if c != d {
                    return c < d;
                }
            },
        }
    }
}

/// The answer of a three-way comparison, from which of the two sides comes first.
pub open spec fn ordering(less: bool, greater: bool) -> Ordering {
    if less {
        Ordering::Less
    } else if greater {
        Ordering::Greater
    } else {
        Ordering::Equal
    }
}

/// What comes first is less than the other, and what comes neither first nor second is
/// equal to it.
pub proof fn lemma_ordering(less: bool, greater: bool)
    ensures
        less ==> ordering(less, greater) == Ordering::Less,
        !less && greater ==> ordering(less, greater) == Ordering::Greater,
        !less && !greater ==> ordering(less, greater) == Ordering::Equal,
{
}

/// The order of rating tables: the higher rating first, and equal ratings by handle.
pub open spec fn ranks_before(a: (int, Seq<char>), b: (int, Seq<char>)) -> bool {
    ||| a.0 > b.0
    ||| a.0 == b.0 && text_precedes(a.1, b.1)
}

/// What an entry of a rating table is ordered by.
pub open spec fn rank_key(rating: i32, handle: Seq<char>) -> (int, Seq<char>) {
    (rating as int, handle)
}

/// The order of rating tables is a strict weak order, and it tells any two entries with
/// different handles apart.
pub proof fn lemma_ranks_before(a: (int, Seq<char>), b: (int, Seq<char>), c: (int, Seq<char>))
    ensures
        !ranks_before(a, a),
        ranks_before(a, b) && ranks_before(b, c) ==> ranks_before(a, c),
        !ranks_before(a, b) && !ranks_before(b, c) ==> !ranks_before(a, c),
        a.1 != b.1 ==> ranks_before(a, b) || ranks_before(b, a),
{
    lemma_text_irreflexive(a.1);
    lemma_text_total(a.1, b.1);
    lemma_text_total(b.1, c.1);
    if text_precedes(a.1, b.1) && text_precedes(b.1, c.1) {
        lemma_text_transitive(a.1, b.1, c.1);
    }
    if text_precedes(b.1, a.1) && text_precedes(a.1, c.1) {
        lemma_text_transitive(b.1, a.1, c.1);
    }
    if text_precedes(a.1, c.1) && text_precedes(c.1, b.1) {
        lemma_text_transitive(a.1, c.1, b.1);
    }
}

/// In a rating table the higher rating comes first, whatever the handles; among equal
/// ratings the handles decide.
pub proof fn lemma_rating_decides(a: (int, Seq<char>), b: (int, Seq<char>))
    ensures
        a.0 > b.0 ==> ranks_before(a, b) && !ranks_before(b, a),
        a.0 == b.0 ==> (ranks_before(a, b) <==> text_precedes(a.1, b.1)),
{
}

/// Compares two entries of a rating table.
pub fn compare_ranks(
    rating_a: i32,
    handle_a: &str,
    rating_b: i32,
    handle_b: &str,
) -> (result: Ordering)
    ensures
        result == ordering(
            ranks_before(rank_key(rating_a, handle_a@), rank_key(rating_b, handle_b@)),
            ranks_before(rank_key(rating_b, handle_b@), rank_key(rating_a, handle_a@)),
        ),
{
    if rating_a > rating_b {
        Ordering::Less
    } else if rating_a < rating_b {
        Ordering::Greater
    } else if text_less(handle_a, handle_b) {
        Ordering::Less
    } else if text_less(handle_b, handle_a) {
        Ordering::Greater
    } else {
        Ordering::Equal
    }
}

/// A type whose values can be sorted: it brings a strict weak order, with its laws,
/// and a comparison that decides it.
pub trait Sortable: Sized {
    /// Whether `self` has to stand before `other`.
    spec fn precedes(self, other: Self) -> bool;

    /// The order is irreflexive and transitive, and so is its complement transitive.
    proof fn lemma_weak_order(a: Self, b: Self, c: Self)
        ensures
            !a.precedes(a),
            a.precedes(b) && b.precedes(c) ==> a.precedes(c),
            !a.precedes(b) && !b.precedes(c) ==> !a.precedes(c),
    ;

    /// Compares two values by `precedes`.
    fn compare(&self, other: &Self) -> (result: Ordering)
        ensures
            result == ordering(self.precedes(*other), other.precedes(*self)),
    ;
}

/// No item stands behind one that it has to precede.
pub open spec fn in_order<T: Sortable>(items: Seq<T>) -> bool {
    forall|i: int, j: int|
        0 <= i < j < items.len() ==> !(#[trigger] items[j]).precedes(#[trigger] items[i])
}

/// Sorts with `slice::sort_unstable_by` of the standard library. What is claimed of it:
/// the items are the same, each as often as before, and they stand in order. Among
/// items of which neither precedes the other it may leave any arrangement, and nothing
/// is said of that.
#[verifier::external_body]
pub(crate) fn sort_unstable<T: Sortable>(items: &mut Vec<T>)
    ensures
        final(items)@.to_multiset() == old(items)@.to_multiset(),
        in_order(final(items)@),
{
    items.sort_unstable_by(|a, b| a.compare(b));
}

} // verus!
