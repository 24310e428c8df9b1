//! Counting the items of a sequence that meet a condition, and what a rearrangement
//! of the sequence leaves unchanged.

use vstd::prelude::*;

verus! {

/// How many items of `s` meet `p`.
pub open spec fn count<A>(s: Seq<A>, p: spec_fn(A) -> bool) -> nat {
    s.filter(p).len()
}

pub proof fn lemma_count_push<A>(s: Seq<A>, x: A, p: spec_fn(A) -> bool)
    ensures
        count(s.push(x), p) == count(s, p) + (if p(x) {
            1nat
        } else {
            0nat
        }),
{
    reveal(Seq::filter);
    assert(s.push(x).drop_last() =~= s);
}

/// One more item adds one to the count just if it meets the condition.
pub proof fn lemma_count_take<A>(s: Seq<A>, i: int, p: spec_fn(A) -> bool)
    requires
        0 <= i < s.len(),
    ensures
        count(s.take(i + 1), p) == count(s.take(i), p) + (if p(s[i]) {
            1nat
        } else {
            0nat
        }),
        count(s.take(i), p) <= i,
{
    assert(s.take(i + 1) =~= s.take(i).push(s[i]));
    lemma_count_push(s.take(i), s[i], p);
    lemma_count_bound(s.take(i), p);
}

pub proof fn lemma_count_bound<A>(s: Seq<A>, p: spec_fn(A) -> bool)
    ensures
        count(s, p) <= s.len(),
    decreases s.len(),
{
    if s.len() > 0 {
        lemma_count_bound(s.drop_last(), p);
        assert(s =~= s.drop_last().push(s.last()));
        lemma_count_push(s.drop_last(), s.last(), p);
    } else {
        reveal(Seq::filter);
    }
}

pub proof fn lemma_count_add<A>(a: Seq<A>, b: Seq<A>, p: spec_fn(A) -> bool)
    ensures
        count(a + b, p) == count(a, p) + count(b, p),
{
    Seq::filter_distributes_over_add(a, b, p);
}

/// Where exactly the first `k` items meet the condition, the count is `k`.
pub proof fn lemma_count_prefix<A>(s: Seq<A>, k: int, p: spec_fn(A) -> bool)
    requires
        0 <= k <= s.len(),
        forall|i: int| 0 <= i < k ==> p(#[trigger] s[i]),
        forall|i: int| k <= i < s.len() ==> !p(#[trigger] s[i]),
    ensures
        count(s, p) == k,
    decreases s.len(),
{
    if s.len() > 0 {
        let t = s.drop_last();
        assert(s =~= t.push(s.last()));
        assert forall|i: int| 0 <= i < t.len() implies t[i] == s[i] by {}
        if k == s.len() {
            lemma_count_prefix(t, k - 1, p);
        } else {
            lemma_count_prefix(t, k, p);
        }
        lemma_count_push(t, s.last(), p);
    } else {
        reveal(Seq::filter);
    }
}

pub proof fn lemma_count_same<A>(s: Seq<A>, p: spec_fn(A) -> bool, q: spec_fn(A) -> bool)
    requires
        forall|i: int| 0 <= i < s.len() ==> p(#[trigger] s[i]) == q(s[i]),
    ensures
        count(s, p) == count(s, q),
    decreases s.len(),
{
    if s.len() > 0 {
        let t = s.drop_last();
        assert(s =~= t.push(s.last()));
        assert forall|i: int| 0 <= i < t.len() implies p(#[trigger] t[i]) == q(t[i]) by {
            assert(t[i] == s[i]);
        }
        lemma_count_same(t, p, q);
        lemma_count_push(t, s.last(), p);
        lemma_count_push(t, s.last(), q);
        assert(p(s[s.len() - 1]) == q(s[s.len() - 1]));
    } else {
        reveal(Seq::filter);
    }
}

pub proof fn lemma_count_map<A, B>(s: Seq<A>, f: spec_fn(A) -> B, p: spec_fn(B) -> bool)
    ensures
        count(s.map_values(f), p) == count(s, |a: A| p(f(a))),
    decreases s.len(),
{
    let q = |a: A| p(f(a));
    if s.len() > 0 {
        let t = s.drop_last();
        lemma_count_map(t, f, p);
        assert(s =~= t.push(s.last()));
        assert(s.map_values(f) =~= t.map_values(f).push(f(s.last())));
        lemma_count_push(t, s.last(), q);
        lemma_count_push(t.map_values(f), f(s.last()), p);
    } else {
        reveal(Seq::filter);
    }
}

pub proof fn lemma_count_remove<A>(s: Seq<A>, i: int, p: spec_fn(A) -> bool)
    requires
        0 <= i < s.len(),
    ensures
        count(s, p) == count(s.remove(i), p) + (if p(s[i]) {
            1nat
        } else {
            0nat
        }),
{
    let a = s.take(i);
    let b = s.skip(i + 1);
    assert(s =~= a.push(s[i]) + b);
    assert(s.remove(i) =~= a + b);
    lemma_count_add(a.push(s[i]), b, p);
    lemma_count_add(a, b, p);
    lemma_count_push(a, s[i], p);
}

/// A weaker condition is met at least as often, and more often where some item tells
/// the two apart.
pub proof fn lemma_count_weaker<A>(s: Seq<A>, p: spec_fn(A) -> bool, q: spec_fn(A) -> bool)
    requires
        forall|i: int| 0 <= i < s.len() && p(#[trigger] s[i]) ==> q(s[i]),
    ensures
        count(s, p) <= count(s, q),
        (exists|i: int| 0 <= i < s.len() && q(#[trigger] s[i]) && !p(s[i])) ==> count(s, p)
            < count(s, q),
    decreases s.len(),
{
    if s.len() > 0 {
        let t = s.drop_last();
        assert(s =~= t.push(s.last()));
        assert forall|i: int| 0 <= i < t.len() && p(#[trigger] t[i]) implies q(t[i]) by {
            assert(t[i] == s[i]);
        }
        lemma_count_weaker(t, p, q);
        lemma_count_push(t, s.last(), p);
        lemma_count_push(t, s.last(), q);
        assert(p(s[s.len() - 1]) ==> q(s[s.len() - 1]));
        if exists|i: int| 0 <= i < s.len() && q(#[trigger] s[i]) && !p(s[i]) {
            let i = choose|i: int| 0 <= i < s.len() && q(#[trigger] s[i]) && !p(s[i]);
            if i < t.len() {
                assert(q(t[i]) && !p(t[i]));
            }
        }
    } else {
        reveal(Seq::filter);
    }
}

/// Where the items that meet a condition come first, the count is where they end.
pub proof fn lemma_count_split<A>(s: Seq<A>, p: spec_fn(A) -> bool)
    requires
        forall|i: int, j: int| 0 <= i < j < s.len() && p(#[trigger] s[j]) ==> p(#[trigger] s[i]),
    ensures
        forall|i: int| 0 <= i < s.len() ==> (p(#[trigger] s[i]) <==> i < count(s, p)),
    decreases s.len(),
{
    if s.len() > 0 {
        let t = s.drop_last();
        assert(s =~= t.push(s.last()));
        assert forall|i: int, j: int| 0 <= i < j < t.len() && p(#[trigger] t[j]) implies p(
            #[trigger] t[i],
        ) by {
            assert(t[i] == s[i] && t[j] == s[j]);
        }
        lemma_count_split(t, p);
        lemma_count_push(t, s.last(), p);
        lemma_count_bound(t, p);
        if p(s.last()) {
            assert forall|i: int| 0 <= i < s.len() implies p(#[trigger] s[i]) by {
                if i < s.len() - 1 {
                    assert(p(s[s.len() - 1]));
                }
            }
            lemma_count_prefix(s, s.len() as int, p);
        } else {
            assert forall|i: int| 0 <= i < s.len() implies (p(#[trigger] s[i]) <==> i < count(
                s,
                p,
            )) by {
                if i < t.len() {
                    assert(t[i] == s[i]);
                }
            }
        }
    }
}

/// A permutation of a non-empty sequence holds the last item of the other somewhere,
/// and the rests are permutations of one another.
proof fn lemma_permutation_step<A>(s: Seq<A>, t: Seq<A>) -> (i: int)
    requires
        s.to_multiset() == t.to_multiset(),
        s.len() > 0,
    ensures
        0 <= i < t.len(),
        t[i] == s.last(),
        s.len() == t.len(),
        s.drop_last().to_multiset() == t.remove(i).to_multiset(),
{
    s.to_multiset_ensures();
    t.to_multiset_ensures();
    assert(s.contains(s.last())) by {
        assert(s[s.len() - 1] == s.last());
    }
    assert(s.to_multiset().count(s.last()) > 0);
    assert(t.contains(s.last()));
    let i = choose|i: int| 0 <= i < t.len() && t[i] == s.last();
    assert(s.drop_last() =~= s.remove(s.len() - 1));
    i
}

/// A rearrangement of a sequence keeps every count.
pub proof fn lemma_count_permutation<A>(s: Seq<A>, t: Seq<A>, p: spec_fn(A) -> bool)
    requires
        s.to_multiset() == t.to_multiset(),
    ensures
        count(s, p) == count(t, p),
    decreases s.len(),
{
    s.to_multiset_ensures();
    t.to_multiset_ensures();
    if s.len() > 0 {
        let i = lemma_permutation_step(s, t);
        lemma_count_permutation(s.drop_last(), t.remove(i), p);
        lemma_count_remove(t, i, p);
        assert(s =~= s.drop_last().push(s.last()));
        lemma_count_push(s.drop_last(), s.last(), p);
    } else {
        assert(s =~= t);
    }
}

/// A rearrangement of a sequence is carried over to the images of its items.
pub proof fn lemma_map_permutation<A, B>(s: Seq<A>, t: Seq<A>, f: spec_fn(A) -> B)
    requires
        s.to_multiset() == t.to_multiset(),
    ensures
        s.map_values(f).to_multiset() == t.map_values(f).to_multiset(),
    decreases s.len(),
{
    s.to_multiset_ensures();
    t.to_multiset_ensures();
    if s.len() > 0 {
        let i = lemma_permutation_step(s, t);
        let s1 = s.drop_last();
        let t1 = t.remove(i);
        lemma_map_permutation(s1, t1, f);
        let fs = s.map_values(f);
        let ft = t.map_values(f);
        fs.to_multiset_ensures();
        ft.to_multiset_ensures();
        s1.map_values(f).to_multiset_ensures();
        assert(fs =~= s1.map_values(f).push(f(s.last())));
        assert(ft.remove(i) =~= t1.map_values(f));
        assert(ft[i] == f(s.last()));
        assert(ft.contains(ft[i]));
        assert(ft.to_multiset() =~= ft.remove(i).to_multiset().insert(ft[i]));
    } else {
        assert(s =~= t);
    }
}

/// Items whose images differ from each other still do so once they are rearranged.
pub proof fn lemma_images_distinct<A, B>(s: Seq<A>, t: Seq<A>, f: spec_fn(A) -> B)
    requires
        s.to_multiset() == t.to_multiset(),
        forall|i: int, j: int|
            0 <= i < j < t.len() ==> f(#[trigger] t[i]) != f(#[trigger] t[j]),
    ensures
        forall|i: int, j: int|
            0 <= i < j < s.len() ==> f(#[trigger] s[i]) != f(#[trigger] s[j]),
{
    let x = t.map_values(f);
    let y = s.map_values(f);
    lemma_map_permutation(s, t, f);
    assert(x.no_duplicates()) by {
        assert forall|i: int, j: int|
            0 <= i < x.len() && 0 <= j < x.len() && i != j implies x[i] != x[j] by {
            if i < j {
                assert(f(t[i]) != f(t[j]));
            } else {
                assert(f(t[j]) != f(t[i]));
            }
        }
    }
    x.lemma_multiset_has_no_duplicates();
    y.lemma_multiset_has_no_duplicates_conv();
    assert forall|i: int, j: int| 0 <= i < j < s.len() implies f(#[trigger] s[i]) != f(
        #[trigger] s[j],
    ) by {
        assert(y[i] != y[j]);
    }
}

/// A rearrangement has the same items.
pub proof fn lemma_permutation_contains<A>(s: Seq<A>, t: Seq<A>)
    requires
        s.to_multiset() == t.to_multiset(),
    ensures
        s.len() == t.len(),
        forall|x: A| #[trigger] s.contains(x) <==> t.contains(x),
{
    s.to_multiset_ensures();
    t.to_multiset_ensures();
    assert forall|x: A| #[trigger] s.contains(x) <==> t.contains(x) by {
        assert(s.contains(x) <==> s.to_multiset().count(x) > 0);
        assert(t.contains(x) <==> t.to_multiset().count(x) > 0);
    }
}

/// A sequence without repetitions is in one strict order only: two rearrangements of
/// one another that both ascend strictly are equal.
pub proof fn lemma_strict_order_unique<A>(s: Seq<A>, t: Seq<A>, lt: spec_fn(A, A) -> bool)
    requires
        s.to_multiset() == t.to_multiset(),
        forall|x: A| !#[trigger] lt(x, x),
        forall|x: A, y: A, z: A| #[trigger] lt(x, y) && #[trigger] lt(y, z) ==> lt(x, z),
        forall|i: int, j: int| 0 <= i < j < s.len() ==> lt(#[trigger] s[i], #[trigger] s[j]),
        forall|i: int, j: int| 0 <= i < j < t.len() ==> lt(#[trigger] t[i], #[trigger] t[j]),
    ensures
        s == t,
    decreases s.len(),
{
    s.to_multiset_ensures();
    t.to_multiset_ensures();
    if s.len() == 0 {
        assert(s =~= t);
    } else {
        let i = lemma_permutation_step(s, t);
        let j = lemma_permutation_step(t, s);
        let x = s.last();
        let y = t.last();
        assert(i == t.len() - 1) by {
            if i < t.len() - 1 {
                assert(lt(t[i], t[t.len() - 1]));
                if j < s.len() - 1 {
                    assert(lt(s[j], s[s.len() - 1]));
                    assert(lt(x, y) && lt(y, x));
                }
            }
        }
        let s1 = s.drop_last();
        let t1 = t.drop_last();
        assert(t1 =~= t.remove(i));
        lemma_strict_order_unique(s1, t1, lt);
        assert(s =~= s1.push(x));
        assert(t =~= t1.push(y));
    }
}

} // verus!
