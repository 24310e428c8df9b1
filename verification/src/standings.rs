//! The model of contest standings: a list of contestants, each with the range of
//! places, first and last, that it shares with those it is tied with.

use crate::counting;
use vstd::prelude::*;

verus! {

/// Standings are valid when each contestant's own place lies in its range of ties, and
/// all contestants in that range have the same range.
pub open spec fn valid<H>(s: Seq<(H, usize, usize)>) -> bool {
    &&& forall|i: int| 0 <= i < s.len() ==> (#[trigger] s[i]).1 <= i <= s[i].2 < s.len()
    &&& forall|i: int, j: int|
        0 <= i < s.len() && (#[trigger] s[i]).1 <= j <= s[i].2 ==> (#[trigger] s[j]).1 == s[i].1
            && s[j].2 == s[i].2
}

/// Contestants stand in the order of their first places.
pub open spec fn by_lo<H>(s: Seq<(H, usize, usize)>) -> bool {
    forall|i: int, j: int| 0 <= i < j < s.len() ==> (#[trigger] s[i]).1 <= (#[trigger] s[j]).1
}

/// How many contestants have a first place before `lo`.
pub open spec fn count_before<H>(s: Seq<(H, usize, usize)>, lo: int) -> nat {
    counting::count(s, |e: (H, usize, usize)| e.1 < lo)
}

/// How many contestants have a first place at or before `lo`.
pub open spec fn count_through<H>(s: Seq<(H, usize, usize)>, lo: int) -> nat {
    counting::count(s, |e: (H, usize, usize)| e.1 <= lo)
}

/// The contestant's range of ties among those listed in `s`, as the order of first
/// places has it.
pub open spec fn ranked<H>(s: Seq<(H, usize, usize)>, e: (H, usize, usize)) -> (
    H,
    usize,
    usize,
) {
    (e.0, count_before(s, e.1 as int) as usize, (count_through(s, e.1 as int) - 1) as usize)
}

/// `new` lists the contestants of `old`, by place, with their ranges of ties in this
/// list.
pub open spec fn is_reranking<H>(old: Seq<(H, usize, usize)>, new: Seq<(H, usize, usize)>) -> bool {
    &&& new.to_multiset() == old.map_values(|e: (H, usize, usize)| ranked(old, e)).to_multiset()
    &&& by_lo(new)
}

/// What becomes of a contestant's range when the one at `pos` leaves.
pub open spec fn shifted<H>(e: (H, usize, usize), pos: int) -> (H, usize, usize) {
    if e.2 < pos {
        e
    } else if e.1 > pos {
        (e.0, (e.1 - 1) as usize, (e.2 - 1) as usize)
    } else {
        (e.0, e.1, (e.2 - 1) as usize)
    }
}

/// The standings once the contestant at `pos` has left.
pub open spec fn without<H>(s: Seq<(H, usize, usize)>, pos: int) -> Seq<(H, usize, usize)> {
    s.remove(pos).map_values(|e: (H, usize, usize)| shifted(e, pos))
}

/// In valid standings, first places ascend.
pub proof fn lemma_valid_by_lo<H>(s: Seq<(H, usize, usize)>)
    requires
        valid(s),
    ensures
        by_lo(s),
{
    assert forall|i: int, j: int| 0 <= i < j < s.len() implies (#[trigger] s[i]).1 <= (
    #[trigger] s[j]).1 by {
        if s[j].1 < s[i].1 {
            assert(s[j].1 <= i <= s[j].2);
        }
    }
}

/// Who stands earlier in the original order gets the earlier range, and those tied get
/// the same one.
pub proof fn lemma_ranked_monotone<H>(s: Seq<(H, usize, usize)>, i: int, j: int)
    requires
        0 <= i < s.len(),
        0 <= j < s.len(),
        s.len() <= usize::MAX,
    ensures
        s[i].1 < s[j].1 <==> ranked(s, s[i]).1 < ranked(s, s[j]).1,
        s[i].1 == s[j].1 <==> ranked(s, s[i]).1 == ranked(s, s[j]).1,
        s[i].1 < s[j].1 ==> ranked(s, s[i]).2 < ranked(s, s[j]).1,
        s[i].1 == s[j].1 ==> ranked(s, s[i]).2 == ranked(s, s[j]).2,
{
    lemma_ranked_counts(s, i);
    lemma_ranked_counts(s, j);
    if s[i].1 < s[j].1 {
        lemma_ranked_less(s, i, j);
    }
    if s[j].1 < s[i].1 {
        lemma_ranked_less(s, j, i);
    }
}

/// The range of a listed contestant, as numbers.
proof fn lemma_ranked_counts<H>(s: Seq<(H, usize, usize)>, i: int)
    requires
        0 <= i < s.len(),
        s.len() <= usize::MAX,
    ensures
        ranked(s, s[i]).1 == count_before(s, s[i].1 as int),
        ranked(s, s[i]).2 == count_through(s, s[i].1 as int) - 1,
        ranked(s, s[i]).1 <= ranked(s, s[i]).2 < s.len(),
{
    let lo = s[i].1 as int;
    let p = |e: (H, usize, usize)| e.1 < lo;
    let q = |e: (H, usize, usize)| e.1 <= lo;
    counting::lemma_count_weaker(s, p, q);
    assert(q(s[i]) && !p(s[i]));
    counting::lemma_count_bound(s, q);
}

proof fn lemma_ranked_less<H>(s: Seq<(H, usize, usize)>, i: int, j: int)
    requires
        0 <= i < s.len(),
        0 <= j < s.len(),
        s.len() <= usize::MAX,
        s[i].1 < s[j].1,
    ensures
        count_before(s, s[i].1 as int) < count_through(s, s[i].1 as int),
        count_through(s, s[i].1 as int) <= count_before(s, s[j].1 as int),
{
    let a = s[i].1 as int;
    let b = s[j].1 as int;
    lemma_ranked_counts(s, i);
    counting::lemma_count_weaker(
        s,
        |e: (H, usize, usize)| e.1 <= a,
        |e: (H, usize, usize)| e.1 < b,
    );
}

/// Sorting a list by first place and giving each contestant its range in the sorted
/// list ranks the list anew.
pub proof fn lemma_rank_sorted<H>(
    old: Seq<(H, usize, usize)>,
    sorted: Seq<(H, usize, usize)>,
    new: Seq<(H, usize, usize)>,
)
    requires
        sorted.to_multiset() == old.to_multiset(),
        sorted.len() <= usize::MAX,
        by_lo(sorted),
        new.len() == sorted.len(),
        forall|i: int| 0 <= i < new.len() ==> #[trigger] new[i] == ranked(sorted, sorted[i]),
    ensures
        is_reranking(old, new),
{
    let f = |e: (H, usize, usize)| ranked(old, e);
    assert forall|i: int| 0 <= i < new.len() implies #[trigger] new[i] == f(sorted[i]) by {
        let lo = sorted[i].1 as int;
        counting::lemma_count_permutation(sorted, old, |e: (H, usize, usize)| e.1 < lo);
        counting::lemma_count_permutation(sorted, old, |e: (H, usize, usize)| e.1 <= lo);
    }
    assert(new =~= sorted.map_values(f));
    counting::lemma_map_permutation(sorted, old, f);
    assert forall|i: int, j: int| 0 <= i < j < new.len() implies (#[trigger] new[i]).1 <= (
    #[trigger] new[j]).1 by {
        assert(sorted[i].1 <= sorted[j].1);
        lemma_ranked_monotone(sorted, i, j);
    }
}

/// Whatever the list, ranking it anew gives valid standings.
pub proof fn lemma_reranking_valid<H>(old: Seq<(H, usize, usize)>, new: Seq<(H, usize, usize)>)
    requires
        is_reranking(old, new),
        old.len() <= usize::MAX,
    ensures
        valid(new),
        new.len() == old.len(),
{
    let f = |e: (H, usize, usize)| ranked(old, e);
    let m = old.map_values(f);
    counting::lemma_permutation_contains(new, m);
    assert forall|i: int| 0 <= i < new.len() implies ({
        let lo = (#[trigger] new[i]).1;
        let hi = new[i].2;
        &&& lo <= i <= hi < new.len()
        &&& forall|j: int|
            0 <= j < new.len() ==> (lo <= j <= hi ==> (#[trigger] new[j]).1 == lo && new[j].2 == hi)
    }) by {
        let lo = new[i].1;
        let hi = new[i].2;
        assert(new.contains(new[i]));
        assert(m.contains(new[i]));
        let k = choose|k: int| 0 <= k < m.len() && m[k] == new[i];
        lemma_ranked_counts(old, k);
        let p = |e: (H, usize, usize)| e.1 < lo;
        let q = |e: (H, usize, usize)| e.1 <= lo;
        let x = old[k].1 as int;
        // How many of the new list lie before, and how many up to, this first place.
        counting::lemma_count_permutation(new, m, p);
        counting::lemma_count_permutation(new, m, q);
        counting::lemma_count_map(old, f, p);
        counting::lemma_count_map(old, f, q);
        assert forall|l: int| 0 <= l < old.len() implies ((|e: (H, usize, usize)| p(f(e)))(
            #[trigger] old[l],
        ) == (|e: (H, usize, usize)| e.1 < x)(old[l])) by {
            lemma_ranked_monotone(old, l, k);
        }
        counting::lemma_count_same(
            old,
            |e: (H, usize, usize)| p(f(e)),
            |e: (H, usize, usize)| e.1 < x,
        );
        assert forall|l: int| 0 <= l < old.len() implies ((|e: (H, usize, usize)| q(f(e)))(
            #[trigger] old[l],
        ) == (|e: (H, usize, usize)| e.1 <= x)(old[l])) by {
            lemma_ranked_monotone(old, l, k);
        }
        counting::lemma_count_same(
            old,
            |e: (H, usize, usize)| q(f(e)),
            |e: (H, usize, usize)| e.1 <= x,
        );
        assert(counting::count(new, p) == lo);
        assert(counting::count(new, q) == hi + 1);
        counting::lemma_count_split(new, p);
        counting::lemma_count_split(new, q);
        assert(!p(new[i]) && q(new[i]));
        assert forall|j: int| 0 <= j < new.len() && lo <= j <= hi implies (#[trigger] new[j]).1
            == lo && new[j].2 == hi by {
            assert(!p(new[j]) && q(new[j]));
            assert(new.contains(new[j]));
            assert(m.contains(new[j]));
            let l = choose|l: int| 0 <= l < m.len() && m[l] == new[j];
            lemma_ranked_monotone(old, l, k);
        }
    }
    assert forall|i: int, j: int|
        0 <= i < new.len() && (#[trigger] new[i]).1 <= j <= new[i].2 implies (#[trigger] new[j]).1
        == new[i].1 && new[j].2 == new[i].2 by {
        assert(0 <= j < new.len());
    }
}

/// In valid standings every contestant already has the range that the order of first
/// places gives it.
pub proof fn lemma_valid_ranked<H>(s: Seq<(H, usize, usize)>, i: int)
    requires
        valid(s),
        0 <= i < s.len(),
    ensures
        count_before(s, s[i].1 as int) == s[i].1,
        count_through(s, s[i].1 as int) == s[i].2 + 1,
        ranked(s, s[i]) == s[i],
{
    lemma_valid_by_lo(s);
    let lo = s[i].1 as int;
    let hi = s[i].2 as int;
    let p = |e: (H, usize, usize)| e.1 < lo;
    let q = |e: (H, usize, usize)| e.1 <= lo;
    assert forall|m: int| lo <= m < s.len() implies !p(#[trigger] s[m]) by {
        assert(s[lo].1 == lo);
    }
    assert forall|m: int| hi < m < s.len() implies !q(#[trigger] s[m]) by {
        assert(s[hi].1 == lo && s[hi].2 == hi);
        if s[m].1 <= lo {
            assert(s[m].1 <= hi <= s[m].2);
        }
    }
    assert forall|m: int| 0 <= m < hi + 1 implies q(#[trigger] s[m]) by {
        if m >= lo {
            assert(s[m].1 == lo);
        }
    }
    counting::lemma_count_prefix(s, lo, p);
    counting::lemma_count_prefix(s, hi + 1, q);
}

/// Ranking valid standings anew changes nothing but, at most, the order within a tie:
/// each place keeps its range, and each contestant keeps its own.
pub proof fn lemma_reranking_of_valid<H>(
    old: Seq<(H, usize, usize)>,
    new: Seq<(H, usize, usize)>,
)
    requires
        is_reranking(old, new),
        valid(old),
        old.len() <= usize::MAX,
    ensures
        new.to_multiset() == old.to_multiset(),
        new.len() == old.len(),
        forall|i: int|
            0 <= i < old.len() ==> (#[trigger] new[i]).1 == old[i].1 && new[i].2 == old[i].2,
{
    let f = |e: (H, usize, usize)| ranked(old, e);
    assert forall|i: int| 0 <= i < old.len() implies #[trigger] old.map_values(f)[i] == old[i] by {
        lemma_valid_ranked(old, i);
    }
    assert(old.map_values(f) =~= old);
    counting::lemma_permutation_contains(new, old);
    lemma_reranking_valid(old, new);
    assert forall|i: int| 0 <= i < old.len() implies (#[trigger] new[i]).1 == old[i].1 && new[i].2
        == old[i].2 by {
        // The contestant now at this place had a range that holds the place.
        assert(new.contains(new[i]));
        assert(old.contains(new[i]));
        let k = choose|k: int| 0 <= k < old.len() && old[k] == new[i];
        assert(old[k].1 <= i <= old[k].2);
    }
}

/// What ranking a list anew makes of two of its contestants: each keeps its handle, the one
/// with the earlier first place still has the earlier one, and those tied are tied. The new
/// first place is the number of those listed who were before, and the new last place is the
/// number of those who were not behind, less one.
pub proof fn lemma_reranked_pair<H>(
    old: Seq<(H, usize, usize)>,
    new: Seq<(H, usize, usize)>,
    i: int,
    j: int,
) -> (places: (int, int))
    requires
        is_reranking(old, new),
        old.len() <= usize::MAX,
        0 <= i < old.len(),
        0 <= j < old.len(),
    ensures
        0 <= places.0 < new.len(),
        0 <= places.1 < new.len(),
        new[places.0].0 == old[i].0,
        new[places.1].0 == old[j].0,
        old[i].1 < old[j].1 <==> new[places.0].1 < new[places.1].1,
        old[i].1 < old[j].1 ==> new[places.0].2 < new[places.1].1,
        old[i].1 == old[j].1 <==> new[places.0].1 == new[places.1].1,
        old[i].1 == old[j].1 ==> new[places.0].2 == new[places.1].2,
        new[places.0].1 == counting::count(old, |e: (H, usize, usize)| e.1 < old[i].1 as int),
        new[places.0].2 + 1 == counting::count(old, |e: (H, usize, usize)| e.1 <= old[i].1 as int),
{
    let f = |e: (H, usize, usize)| ranked(old, e);
    let m = old.map_values(f);
    counting::lemma_permutation_contains(new, m);
    assert(m[i] == ranked(old, old[i]) && m[j] == ranked(old, old[j]));
    assert(m.contains(m[i]) && m.contains(m[j]));
    assert(new.contains(m[i]) && new.contains(m[j]));
    let x = choose|x: int| 0 <= x < new.len() && new[x] == m[i];
    let y = choose|y: int| 0 <= y < new.len() && new[y] == m[j];
    lemma_ranked_monotone(old, i, j);
    lemma_ranked_counts(old, i);
    (x, y)
}

/// In a list that was ranked anew everyone stands within its own range of ties, everyone
/// within a range has the same range, and first places ascend.
pub proof fn lemma_reranked_ranges<H>(
    old: Seq<(H, usize, usize)>,
    new: Seq<(H, usize, usize)>,
    i: int,
    j: int,
)
    requires
        is_reranking(old, new),
        old.len() <= usize::MAX,
        0 <= i < new.len(),
        0 <= j < new.len(),
    ensures
        new.len() == old.len(),
        new[i].1 <= i <= new[i].2 < new.len(),
        new[i].1 <= j <= new[i].2 <==> new[j].1 == new[i].1 && new[j].2 == new[i].2,
        i <= j ==> new[i].1 <= new[j].1,
{
    lemma_reranking_valid(old, new);
    if i < j {
        assert(new[i].1 <= new[j].1);
    }
    assert(new[j].1 <= j <= new[j].2);
}

/// When the one at `pos` leaves, everyone whose range of ties reaches it or lies behind it
/// has a last place one lower, everyone whose range lies behind it also has a first place
/// one lower, and the rest keep their ranges. All keep their handles and their order.
pub proof fn lemma_left<H>(s: Seq<(H, usize, usize)>, pos: int, i: int)
    requires
        0 <= pos < s.len(),
        0 <= i < s.len(),
        i != pos,
        s[i].2 >= pos ==> s[i].2 > 0,
    ensures
        without(s, pos).len() + 1 == s.len(),
        ({
            let stays = without(s, pos)[if i < pos {
                i
            } else {
                i - 1
            }];
            &&& stays.0 == s[i].0
            &&& s[i].2 >= pos ==> stays.2 == s[i].2 - 1
            &&& s[i].2 >= pos && s[i].1 > pos ==> stays.1 == s[i].1 - 1
            &&& s[i].2 >= pos && s[i].1 <= pos ==> stays.1 == s[i].1
            &&& s[i].2 < pos ==> stays.1 == s[i].1 && stays.2 == s[i].2
        }),
{
}

/// The contestants who stay when one leaves valid standings get just the ranges that
/// ranking them anew would give them, and the standings stay valid.
pub proof fn lemma_without_valid<H>(s: Seq<(H, usize, usize)>, pos: int)
    requires
        valid(s),
        0 <= pos < s.len(),
    ensures
        is_reranking(s.remove(pos), without(s, pos)),
        valid(without(s, pos)),
{
    lemma_valid_by_lo(s);
    let r = s.remove(pos);
    let w = without(s, pos);
    assert(r.len() <= usize::MAX) by {
        assert(s[pos].2 < s.len());
        assert(s[s.len() - 1].2 < s.len());
    }
    assert forall|i: int| 0 <= i < r.len() implies #[trigger] w[i] == ranked(r, r[i]) by {
        let k = if i < pos {
            i
        } else {
            i + 1
        };
        assert(r[i] == s[k]);
        let lo = s[k].1 as int;
        lemma_valid_ranked(s, k);
        counting::lemma_count_remove(s, pos, |e: (H, usize, usize)| e.1 < lo);
        counting::lemma_count_remove(s, pos, |e: (H, usize, usize)| e.1 <= lo);
        let a = s[pos];
        let b = s[k];
        assert(a.1 <= pos <= a.2 && b.1 <= k <= b.2);
        if a.1 < b.1 {
            // Different ties do not overlap.
            if b.1 <= a.2 {
                assert(a.1 <= b.1 <= a.2);
                assert(s[b.1 as int].1 == a.1);
                assert(s[b.1 as int].1 == b.1);
            }
        }
        if b.1 < a.1 {
            if a.1 <= b.2 {
                assert(s[a.1 as int].1 == b.1);
                assert(s[a.1 as int].1 == a.1);
            }
        }
        if a.1 == b.1 {
            assert(s[a.1 as int].2 == a.2);
            assert(s[b.1 as int].2 == b.2);
        }
    }
    let f = |e: (H, usize, usize)| ranked(r, e);
    assert(w =~= r.map_values(f));
    assert forall|i: int, j: int| 0 <= i < j < w.len() implies (#[trigger] w[i]).1 <= (
    #[trigger] w[j]).1 by {
        assert(r[i].1 <= r[j].1);
        lemma_ranked_monotone(r, i, j);
    }
    lemma_reranking_valid(r, w);
}

/// Adding a contestant in last place keeps standings valid.
pub proof fn lemma_push_valid<H>(s: Seq<(H, usize, usize)>, handle: H)
    requires
        valid(s),
        s.len() <= usize::MAX,
    ensures
        valid(s.push((handle, s.len() as usize, s.len() as usize))),
{
    let t = s.push((handle, s.len() as usize, s.len() as usize));
    assert forall|i: int, j: int|
        0 <= i < t.len() && (#[trigger] t[i]).1 <= j <= t[i].2 implies (#[trigger] t[j]).1 == t[i].1
        && t[j].2 == t[i].2 by {
        if i < s.len() {
            assert(t[i] == s[i]);
            assert(s[i].1 <= i <= s[i].2 < s.len());
            assert(t[j] == s[j]);
        }
    }
}

/// Taking the last-placed newcomer out again restores valid standings.
pub proof fn lemma_push_without<H>(s: Seq<(H, usize, usize)>, handle: H)
    requires
        valid(s),
        s.len() <= usize::MAX,
    ensures
        without(s.push((handle, s.len() as usize, s.len() as usize)), s.len() as int) == s,
{
    let t = s.push((handle, s.len() as usize, s.len() as usize));
    assert(t.remove(s.len() as int) =~= s);
    assert(without(t, s.len() as int) =~= s);
}

} // verus!
