//! Keeping the best few of a stream of ranked items.
use std::cmp::Ordering;
use vstd::prelude::*;

use crate::order;

verus! {

/// Items that are ranked by an integer sequence, the best first.
pub trait Ranked: Sized {
    /// The key by which items are ordered, lexicographically.
    spec fn rank_key(&self) -> Seq<int>;

    /// Compares two items by their keys.
    fn compare_rank(&self, other: &Self) -> (r: Ordering)
        ensures
            r == Ordering::Less <==> order::lex_less(self.rank_key(), other.rank_key()),
            r == Ordering::Greater <==> order::lex_less(other.rank_key(), self.rank_key()),
    ;
}

/// The items stand in ascending order of their keys.
pub open spec fn is_ranked<V>(s: Seq<V>, key: spec_fn(V) -> Seq<int>) -> bool {
    forall|i: int, j: int| 0 <= i < j < s.len() ==> !order::lex_less(key(s[j]), key(s[i]))
}

/// The number of leading items of `s` whose keys come before `k`.
pub open spec fn rank_position<V>(s: Seq<V>, k: Seq<int>, key: spec_fn(V) -> Seq<int>) -> int
    decreases s.len(),
{
    if s.len() == 0 {
        0
    } else if order::lex_less(key(s[0]), k) {
        1 + rank_position(s.drop_first(), k, key)
    } else {
        0
    }
}

/// `s` with `x` put at its place, cut to `limit` items again. An `x` that belongs
/// behind the first `limit` items is dropped.
pub open spec fn push_top<V>(
    s: Seq<V>,
    x: V,
    limit: nat,
    key: spec_fn(V) -> Seq<int>,
) -> Seq<V> {
    let p = rank_position(s, key(x), key);
    if p >= limit {
        s
    } else if s.len() + 1 > limit {
        s.insert(p, x).drop_last()
    } else {
        s.insert(p, x)
    }
}

/// `r` holds the `limit` best of `items` in order: it is ranked, it has as many
/// items as there are up to `limit`, all of them taken from `items`, and whatever
/// was left out is not before anything that was kept.
pub open spec fn is_top<V>(
    r: Seq<V>,
    items: Seq<V>,
    limit: nat,
    key: spec_fn(V) -> Seq<int>,
) -> bool {
    &&& is_ranked(r, key)
    &&& r.len() == if items.len() < limit {
        items.len()
    } else {
        limit
    }
    &&& r.to_multiset().subset_of(items.to_multiset())
    &&& forall|x: V, i: int|
        #![trigger items.to_multiset().count(x), r[i]]
        items.to_multiset().count(x) > r.to_multiset().count(x) && 0 <= i < r.len()
            ==> !order::lex_less(key(x), key(r[i]))
}

/// A place that separates the keys before `k` from the others is the place of `k`.
pub proof fn lemma_position_is<V>(s: Seq<V>, k: Seq<int>, key: spec_fn(V) -> Seq<int>, p: int)
    requires
        0 <= p <= s.len(),
        forall|i: int| 0 <= i < p ==> order::lex_less(key(#[trigger] s[i]), k),
        p < s.len() ==> !order::lex_less(key(s[p]), k),
    ensures
        rank_position(s, k, key) == p,
    decreases s.len(),
{
    if s.len() > 0 && p > 0 {
        assert(order::lex_less(key(s[0]), k));
        let t = s.drop_first();
        assert forall|i: int| 0 <= i < p - 1 implies order::lex_less(key(#[trigger] t[i]), k) by {
            assert(t[i] == s[i + 1]);
        }
        lemma_position_is(t, k, key, p - 1);
    }
}

/// In a ranked sequence the place of `k` separates the keys before it from the
/// others.
pub proof fn lemma_position_separates<V>(
    s: Seq<V>,
    k: Seq<int>,
    key: spec_fn(V) -> Seq<int>,
) -> (p: int)
    requires
        is_ranked(s, key),
    ensures
        p == rank_position(s, k, key),
        0 <= p <= s.len(),
        forall|i: int| 0 <= i < p ==> order::lex_less(key(#[trigger] s[i]), k),
        forall|i: int| p <= i < s.len() ==> !order::lex_less(key(#[trigger] s[i]), k),
    decreases s.len(),
{
    let p = rank_position(s, k, key);
    if s.len() > 0 {
        if order::lex_less(key(s[0]), k) {
            let t = s.drop_first();
            assert(is_ranked(t, key));
            let q = lemma_position_separates(t, k, key);
            assert forall|i: int| 0 <= i < p implies order::lex_less(key(#[trigger] s[i]), k) by {
                if i > 0 {
                    assert(s[i] == t[i - 1]);
                }
            }
            assert forall|i: int| p <= i < s.len() implies !order::lex_less(
                key(#[trigger] s[i]),
                k,
            ) by {
                assert(s[i] == t[i - 1]);
            }
        } else {
            assert forall|i: int| p <= i < s.len() implies !order::lex_less(
                key(#[trigger] s[i]),
                k,
            ) by {
                if i > 0 {
                    order::lex_not_less_transitive(k, key(s[0]), key(s[i]));
                }
            }
        }
    }
    p
}

/// Putting an item at its place keeps a sequence ranked.
proof fn lemma_insert_ranked<V>(s: Seq<V>, x: V, key: spec_fn(V) -> Seq<int>)
    requires
        is_ranked(s, key),
    ensures
        is_ranked(s.insert(rank_position(s, key(x), key), x), key),
{
    let p = lemma_position_separates(s, key(x), key);
    let t = s.insert(p, x);
    assert forall|i: int, j: int| 0 <= i < j < t.len() implies !order::lex_less(
        key(t[j]),
        key(t[i]),
    ) by {
        if j < p {
            assert(t[i] == s[i] && t[j] == s[j]);
        } else if j == p {
            assert(t[i] == s[i]);
            order::lex_asymmetric(key(s[i]), key(x));
        } else if i < p {
            assert(t[i] == s[i] && t[j] == s[j - 1]);
        } else if i == p {
            assert(t[j] == s[j - 1]);
        } else {
            assert(t[i] == s[i - 1] && t[j] == s[j - 1]);
        }
    }
}

/// Pushing keeps what is_top says: the best of `items` become the best of `items`
/// and `x`.
pub proof fn lemma_push_keeps_top<V>(
    r: Seq<V>,
    items: Seq<V>,
    x: V,
    limit: nat,
    key: spec_fn(V) -> Seq<int>,
)
    requires
        is_top(r, items, limit, key),
    ensures
        is_top(push_top(r, x, limit, key), items.push(x), limit, key),
{
    broadcast use vstd::multiset::group_multiset_axioms;
    broadcast use vstd::seq_lib::group_to_multiset_ensures;

    let p = lemma_position_separates(r, key(x), key);
    let all = items.push(x);
    let out = push_top(r, x, limit, key);
    assert(all.to_multiset() =~= items.to_multiset().insert(x));
    if p >= limit {
        assert(r.len() == limit);
        assert(out.to_multiset().subset_of(all.to_multiset()));
        assert forall|y: V, i: int|
            #![trigger all.to_multiset().count(y), out[i]]
            all.to_multiset().count(y) > out.to_multiset().count(y) && 0 <= i
                < out.len() implies !order::lex_less(key(y), key(out[i])) by {
            if y == x {
                order::lex_asymmetric(key(r[i]), key(x));
            } else {
                assert(items.to_multiset().count(y) > r.to_multiset().count(y));
            }
        }
    } else {
        let t = r.insert(p, x);
        lemma_insert_ranked(r, x, key);
        assert(t.to_multiset() =~= r.to_multiset().insert(x));
        if r.len() + 1 > limit {
            let last = t.last();
            assert(t =~= out.push(last));
            assert(t.to_multiset() =~= out.to_multiset().insert(last));
            assert(out.to_multiset().subset_of(all.to_multiset())) by {
                assert forall|y: V| out.to_multiset().count(y) <= all.to_multiset().count(y) by {
                    assert(out.to_multiset().count(y) <= t.to_multiset().count(y));
                    assert(r.to_multiset().count(y) <= items.to_multiset().count(y));
                }
            }
            assert(is_ranked(out, key)) by {
                assert forall|i: int, j: int| 0 <= i < j < out.len() implies !order::lex_less(
                    key(out[j]),
                    key(out[i]),
                ) by {
                    assert(out[i] == t[i] && out[j] == t[j]);
                }
            }
            assert forall|y: V, i: int|
                #![trigger all.to_multiset().count(y), out[i]]
                all.to_multiset().count(y) > out.to_multiset().count(y) && 0 <= i
                    < out.len() implies !order::lex_less(key(y), key(out[i])) by {
                assert(out[i] == t[i]);
                assert(!order::lex_less(key(t[t.len() - 1]), key(t[i])));
                if y != last || items.to_multiset().count(y) > r.to_multiset().count(y) {
                    // left out before: not before any of `r`, hence not before `x` either
                    if items.to_multiset().count(y) > r.to_multiset().count(y) {
                        if i < p {
                            assert(t[i] == r[i]);
                        } else if i == p {
                            assert(!order::lex_less(key(r[p]), key(x)));
                            assert(!order::lex_less(key(y), key(r[p])));
                            order::lex_not_less_transitive(key(x), key(r[p]), key(y));
                        } else {
                            assert(t[i] == r[i - 1]);
                        }
                    } else {
                        assert(all.to_multiset().count(y) == items.to_multiset().count(y)
                            + if y == x { 1nat } else { 0nat });
                        assert(t.to_multiset().count(y) == r.to_multiset().count(y)
                            + if y == x { 1nat } else { 0nat });
                        assert(false);
                    }
                }
            }
        } else {
            assert(out == t);
            assert(items.len() < limit);
            assert(out.to_multiset().subset_of(all.to_multiset())) by {
                assert forall|y: V| out.to_multiset().count(y) <= all.to_multiset().count(y) by {
                    assert(r.to_multiset().count(y) <= items.to_multiset().count(y));
                }
            }
            lemma_all_kept(r, items);
        }
    }
}

/// Nothing is the best of nothing, and the best none of anything.
pub proof fn lemma_top_of_nothing<V>(items: Seq<V>, limit: nat, key: spec_fn(V) -> Seq<int>)
    requires
        items.len() == 0 || limit == 0,
    ensures
        is_top(Seq::<V>::empty(), items, limit, key),
{
    broadcast use vstd::multiset::group_multiset_axioms;
    broadcast use vstd::seq_lib::group_to_multiset_ensures;

    assert(Seq::<V>::empty().to_multiset().subset_of(items.to_multiset()));
}

/// Items in order, and no more than may be kept, are their own best.
pub proof fn lemma_top_of_itself<V>(r: Seq<V>, limit: nat, key: spec_fn(V) -> Seq<int>)
    requires
        is_ranked(r, key),
        r.len() <= limit,
    ensures
        is_top(r, r, limit, key),
{
}

/// What was kept is one of the items.
pub proof fn lemma_top_member<V>(
    r: Seq<V>,
    items: Seq<V>,
    limit: nat,
    key: spec_fn(V) -> Seq<int>,
    i: int,
)
    requires
        is_top(r, items, limit, key),
        0 <= i < r.len(),
    ensures
        items.contains(r[i]),
{
    broadcast use vstd::multiset::group_multiset_axioms;
    broadcast use vstd::seq_lib::group_to_multiset_ensures;

    assert(r.contains(r[i]));
    assert(r.to_multiset().count(r[i]) <= items.to_multiset().count(r[i]));
}

/// Of items that are all different, none is kept twice.
pub proof fn lemma_top_distinct<V>(
    r: Seq<V>,
    items: Seq<V>,
    limit: nat,
    key: spec_fn(V) -> Seq<int>,
)
    requires
        is_top(r, items, limit, key),
        items.no_duplicates(),
    ensures
        r.no_duplicates(),
{
    broadcast use vstd::multiset::group_multiset_axioms;
    broadcast use vstd::seq_lib::group_to_multiset_ensures;

    items.lemma_multiset_has_no_duplicates();
    assert forall|x: V| r.to_multiset().contains(x) implies r.to_multiset().count(x) == 1 by {
        assert(r.to_multiset().count(x) <= items.to_multiset().count(x));
    }
    r.lemma_multiset_has_no_duplicates_conv();
}

/// Where there was room for more, nothing was left out.
pub proof fn lemma_nothing_left_out<V>(
    r: Seq<V>,
    items: Seq<V>,
    limit: nat,
    key: spec_fn(V) -> Seq<int>,
)
    requires
        is_top(r, items, limit, key),
        r.len() < limit,
    ensures
        r.to_multiset() == items.to_multiset(),
{
    lemma_all_kept(r, items);
}

/// A part of a sequence that is as long as the whole leaves nothing out.
proof fn lemma_all_kept<V>(r: Seq<V>, items: Seq<V>)
    requires
        r.len() == items.len(),
        r.to_multiset().subset_of(items.to_multiset()),
    ensures
        r.to_multiset() == items.to_multiset(),
{
    broadcast use vstd::multiset::group_multiset_axioms;
    broadcast use vstd::seq_lib::group_to_multiset_ensures;

    let d = items.to_multiset().sub(r.to_multiset());
    assert(d.len() == 0);
    assert forall|y: V| r.to_multiset().count(y) == items.to_multiset().count(y) by {
        assert(d.count(y) <= d.len());
    }
    assert(r.to_multiset() =~= items.to_multiset());
}

/// Only which items there are matters to their best, not the order in which they
/// came: two ways to come by the same items have the same best, where items with
/// equal keys are equal.
pub proof fn law_top_is_unique<V>(
    r1: Seq<V>,
    items1: Seq<V>,
    r2: Seq<V>,
    items2: Seq<V>,
    limit: nat,
    key: spec_fn(V) -> Seq<int>,
)
    requires
        is_top(r1, items1, limit, key),
        is_top(r2, items2, limit, key),
        items1.to_multiset() == items2.to_multiset(),
        forall|a: V, b: V|
            items1.contains(a) && items1.contains(b) && key(a) == key(b) ==> a == b,
    ensures
        r1 == r2,
{
    broadcast use vstd::multiset::group_multiset_axioms;
    broadcast use vstd::seq_lib::group_to_multiset_ensures;

    assert(items1.len() == items1.to_multiset().len());
    assert(items2.len() == items2.to_multiset().len());
    assert(r1.len() == r2.len());
    // If the two hold the same items, their order is forced; if not, each leaves out
    // something that the other keeps, and these two must have equal keys.
    assert forall|y: V| r1.to_multiset().count(y) <= r2.to_multiset().count(y) by {
        if r1.to_multiset().count(y) > r2.to_multiset().count(y) {
            let z = lemma_other_has_more(r2, r1, y);
            lemma_kept_and_left_out(r1, items1, r2, items2, limit, key, y, z);
        }
    }
    assert forall|y: V| r2.to_multiset().count(y) <= r1.to_multiset().count(y) by {
        if r2.to_multiset().count(y) > r1.to_multiset().count(y) {
            let z = lemma_other_has_more(r1, r2, y);
            lemma_kept_and_left_out(r1, items1, r2, items2, limit, key, z, y);
        }
    }
    assert(r1.to_multiset() =~= r2.to_multiset());
    lemma_ranked_unique(r1, r2, items1, key);
}

/// Of two equally long sequences, if `b` has more of `y` then `a` has more of
/// something else.
proof fn lemma_other_has_more<V>(a: Seq<V>, b: Seq<V>, y: V) -> (z: V)
    requires
        a.len() == b.len(),
        b.to_multiset().count(y) > a.to_multiset().count(y),
    ensures
        a.to_multiset().count(z) > b.to_multiset().count(z),
{
    broadcast use vstd::multiset::group_multiset_axioms;
    broadcast use vstd::seq_lib::group_to_multiset_ensures;

    if forall|z: V| a.to_multiset().count(z) <= b.to_multiset().count(z) {
        lemma_all_kept(a, b);
        assert(false);
    }
    choose|z: V| a.to_multiset().count(z) > b.to_multiset().count(z)
}

/// Where one selection has more of `y` than another, the other has no more of
/// anything: both left out and kept, the two would have equal keys.
proof fn lemma_kept_and_left_out<V>(
    r1: Seq<V>,
    items1: Seq<V>,
    r2: Seq<V>,
    items2: Seq<V>,
    limit: nat,
    key: spec_fn(V) -> Seq<int>,
    y: V,
    z: V,
)
    requires
        is_top(r1, items1, limit, key),
        is_top(r2, items2, limit, key),
        items1.to_multiset() == items2.to_multiset(),
        forall|a: V, b: V|
            items1.contains(a) && items1.contains(b) && key(a) == key(b) ==> a == b,
        r1.to_multiset().count(y) > r2.to_multiset().count(y),
    ensures
        r2.to_multiset().count(z) <= r1.to_multiset().count(z),
{
    broadcast use vstd::multiset::group_multiset_axioms;
    broadcast use vstd::seq_lib::group_to_multiset_ensures;

    if r2.to_multiset().count(z) > r1.to_multiset().count(z) {
        assert(r1.contains(y));
        assert(r2.contains(z));
        let i = choose|i: int| 0 <= i < r1.len() && r1[i] == y;
        let j = choose|j: int| 0 <= j < r2.len() && r2[j] == z;
        assert(r1.to_multiset().count(y) <= items1.to_multiset().count(y));
        assert(r2.to_multiset().count(z) <= items2.to_multiset().count(z));
        assert(!order::lex_less(key(z), key(r1[i])));
        assert(!order::lex_less(key(y), key(r2[j])));
        order::lex_total(key(y), key(z));
        assert(items1.contains(y));
        assert(items1.contains(z));
        assert(y == z);
    }
}

/// Two ranked arrangements of the same items are equal, where items with equal keys
/// are equal.
proof fn lemma_ranked_unique<V>(
    a: Seq<V>,
    b: Seq<V>,
    items: Seq<V>,
    key: spec_fn(V) -> Seq<int>,
)
    requires
        is_ranked(a, key),
        is_ranked(b, key),
        a.to_multiset() == b.to_multiset(),
        a.to_multiset().subset_of(items.to_multiset()),
        forall|x: V, y: V|
            items.contains(x) && items.contains(y) && key(x) == key(y) ==> x == y,
    ensures
        a == b,
    decreases a.len(),
{
    broadcast use vstd::multiset::group_multiset_axioms;
    broadcast use vstd::seq_lib::group_to_multiset_ensures;

    assert(a.len() == a.to_multiset().len());
    assert(b.len() == b.to_multiset().len());
    if a.len() == 0 {
        assert(a =~= b);
    } else {
        let x = a.last();
        let y = b.last();
        assert(a.contains(x));
        assert(b.contains(y));
        assert(a.to_multiset().count(x) > 0);
        assert(b.to_multiset().count(y) > 0);
        assert(b.contains(x));
        assert(a.contains(y));
        assert(a.to_multiset().count(x) <= items.to_multiset().count(x));
        assert(a.to_multiset().count(y) <= items.to_multiset().count(y));
        assert(items.contains(x));
        assert(items.contains(y));
        let i = choose|i: int| 0 <= i < b.len() && b[i] == x;
        let j = choose|j: int| 0 <= j < a.len() && a[j] == y;
        order::lex_irreflexive(key(x));
        assert(!order::lex_less(key(y), key(x))) by {
            assert(i < b.len() - 1 ==> !order::lex_less(key(b[b.len() - 1]), key(b[i])));
        }
        assert(!order::lex_less(key(x), key(y))) by {
            assert(j < a.len() - 1 ==> !order::lex_less(key(a[a.len() - 1]), key(a[j])));
        }
        order::lex_total(key(x), key(y));
        assert(x == y);
        let a1 = a.drop_last();
        let b1 = b.drop_last();
        assert(a =~= a1.push(x));
        assert(b =~= b1.push(y));
        assert(a.to_multiset() =~= a1.to_multiset().insert(x));
        assert(b.to_multiset() =~= b1.to_multiset().insert(x));
        assert forall|v: V| a1.to_multiset().count(v) == b1.to_multiset().count(v) by {
            assert(a1.to_multiset().insert(x).count(v) == b1.to_multiset().insert(x).count(v));
            if v == x {
                assert(a1.to_multiset().insert(x).count(x) == a1.to_multiset().count(x) + 1);
                assert(b1.to_multiset().insert(x).count(x) == b1.to_multiset().count(x) + 1);
            } else {
                assert(a1.to_multiset().insert(x).count(v) == a1.to_multiset().count(v));
                assert(b1.to_multiset().insert(x).count(v) == b1.to_multiset().count(v));
            }
        }
        assert(a1.to_multiset() =~= b1.to_multiset());
        assert forall|v: V| a1.to_multiset().count(v) <= items.to_multiset().count(v) by {
            assert(a.to_multiset().count(v) <= items.to_multiset().count(v));
        }
        lemma_ranked_unique(a1, b1, items, key);
    }
}

/// The best of `a` together with the best of `b` are the best of `a` and `b`.
pub proof fn lemma_top_of_top<V>(
    r: Seq<V>,
    a: Seq<V>,
    t: Seq<V>,
    b: Seq<V>,
    limit: nat,
    key: spec_fn(V) -> Seq<int>,
)
    requires
        is_top(t, b, limit, key),
        is_top(r, a + t, limit, key),
    ensures
        is_top(r, a + b, limit, key),
{
    broadcast use vstd::multiset::group_multiset_axioms;
    broadcast use vstd::seq_lib::group_to_multiset_ensures;

    vstd::seq_lib::lemma_multiset_commutative(a, t);
    vstd::seq_lib::lemma_multiset_commutative(a, b);
    let at = (a + t).to_multiset();
    let ab = (a + b).to_multiset();
    assert(at =~= a.to_multiset().add(t.to_multiset()));
    assert(ab =~= a.to_multiset().add(b.to_multiset()));
    assert forall|y: V| r.to_multiset().count(y) <= ab.count(y) by {
        assert(r.to_multiset().count(y) <= at.count(y));
        assert(t.to_multiset().count(y) <= b.to_multiset().count(y));
    }
    if b.len() < limit {
        lemma_all_kept(t, b);
    }
    assert forall|y: V, i: int|
        #![trigger ab.count(y), r[i]]
        ab.count(y) > r.to_multiset().count(y) && 0 <= i
            < r.len() implies !order::lex_less(key(y), key(r[i])) by {
        if at.count(y) > r.to_multiset().count(y) {
        } else {
            assert(b.to_multiset().count(y) > t.to_multiset().count(y));
            assert(t.len() == limit);
            // `y` was left out of `t`, so all of `t` are not after it
            if exists|k: int| 0 <= k < t.len() && at.count(#[trigger] t[k])
                > r.to_multiset().count(t[k]) {
                let k = choose|k: int|
                    0 <= k < t.len() && at.count(#[trigger] t[k]) > r.to_multiset().count(t[k]);
                assert(!order::lex_less(key(t[k]), key(r[i])));
                assert(!order::lex_less(key(y), key(t[k])));
                order::lex_not_less_transitive(key(r[i]), key(t[k]), key(y));
            } else {
                assert forall|v: V| t.to_multiset().count(v) <= r.to_multiset().count(v) by {
                    if t.to_multiset().count(v) > 0 {
                        assert(t.contains(v));
                        let k = choose|k: int| 0 <= k < t.len() && t[k] == v;
                        assert(at.count(t[k]) <= r.to_multiset().count(t[k]));
                    }
                }
                lemma_all_kept(t, r);
                assert(r.contains(r[i]));
                assert(r.to_multiset().count(r[i]) > 0);
                assert(t.contains(r[i]));
                let k = choose|k: int| 0 <= k < t.len() && t[k] == r[i];
                assert(!order::lex_less(key(y), key(t[k])));
            }
        }
    }
}

/// Where every item of `a` comes before every item of `b`, the best of `a` followed
/// by the best of `b`, as far as there is room, are the best of both.
pub proof fn lemma_top_of_layers<V>(
    ra: Seq<V>,
    a: Seq<V>,
    rb: Seq<V>,
    b: Seq<V>,
    limit: nat,
    key: spec_fn(V) -> Seq<int>,
)
    requires
        is_top(ra, a, limit, key),
        is_top(rb, b, (limit - ra.len()) as nat, key),
        forall|x: V, y: V| a.contains(x) && b.contains(y) ==> order::lex_less(key(x), key(y)),
    ensures
        is_top(ra + rb, a + b, limit, key),
{
    broadcast use vstd::multiset::group_multiset_axioms;
    broadcast use vstd::seq_lib::group_to_multiset_ensures;

    vstd::seq_lib::lemma_multiset_commutative(ra, rb);
    vstd::seq_lib::lemma_multiset_commutative(a, b);
    let r = ra + rb;
    let ms = r.to_multiset();
    let ab = (a + b).to_multiset();
    assert(ms =~= ra.to_multiset().add(rb.to_multiset()));
    assert(ab =~= a.to_multiset().add(b.to_multiset()));
    assert forall|y: V| ms.count(y) <= ab.count(y) by {
        assert(ra.to_multiset().count(y) <= a.to_multiset().count(y));
        assert(rb.to_multiset().count(y) <= b.to_multiset().count(y));
    }
    assert forall|i: int| 0 <= i < ra.len() implies a.contains(#[trigger] ra[i]) by {
        assert(ra.contains(ra[i]));
        assert(ra.to_multiset().count(ra[i]) <= a.to_multiset().count(ra[i]));
    }
    assert forall|i: int| 0 <= i < rb.len() implies b.contains(#[trigger] rb[i]) by {
        assert(rb.contains(rb[i]));
        assert(rb.to_multiset().count(rb[i]) <= b.to_multiset().count(rb[i]));
    }
    assert(is_ranked(r, key)) by {
        assert forall|i: int, j: int| 0 <= i < j < r.len() implies !order::lex_less(
            key(r[j]),
            key(r[i]),
        ) by {
            if j < ra.len() {
                assert(r[i] == ra[i] && r[j] == ra[j]);
            } else if i < ra.len() {
                assert(r[i] == ra[i] && r[j] == rb[j - ra.len()]);
                order::lex_asymmetric(key(r[i]), key(r[j]));
            } else {
                assert(r[i] == rb[i - ra.len()] && r[j] == rb[j - ra.len()]);
            }
        }
    }
    if a.len() < limit {
        lemma_all_kept(ra, a);
    }
    assert forall|y: V, i: int|
        #![trigger ab.count(y), r[i]]
        ab.count(y) > ms.count(y) && 0 <= i < r.len() implies !order::lex_less(
        key(y),
        key(r[i]),
    ) by {
        if a.to_multiset().count(y) > ra.to_multiset().count(y) {
            assert(ra.len() == limit);
            assert(r[i] == ra[i]);
        } else {
            assert(b.to_multiset().count(y) > rb.to_multiset().count(y));
            assert(b.contains(y));
            if i < ra.len() {
                assert(r[i] == ra[i]);
                order::lex_asymmetric(key(ra[i]), key(y));
            } else {
                assert(r[i] == rb[i - ra.len()]);
            }
        }
    }
}

/// The key function of a ranked type.
pub open spec fn rank_of<T: Ranked>() -> spec_fn(T) -> Seq<int> {
    |t: T| t.rank_key()
}

/// The place of `ranked` in `matches`, found by bisection.
fn find_rank_position<T: Ranked>(matches: &Vec<T>, ranked: &T) -> (p: usize)
    requires
        is_ranked(matches@, rank_of::<T>()),
    ensures
        p == rank_position(matches@, ranked.rank_key(), rank_of::<T>()),
        p <= matches@.len(),
{
    let mut lo: usize = 0;
    let mut hi: usize = matches.len();
    while lo < hi
        invariant
            lo <= hi <= matches@.len(),
            is_ranked(matches@, rank_of::<T>()),
            forall|i: int|
                0 <= i < lo ==> order::lex_less(
                    (#[trigger] matches@[i]).rank_key(),
                    ranked.rank_key(),
                ),
            forall|i: int|
                hi <= i < matches@.len() ==> !order::lex_less(
                    (#[trigger] matches@[i]).rank_key(),
                    ranked.rank_key(),
                ),
        decreases hi - lo,
    {
        let mid: usize = lo + (hi - lo) / 2;
        let before = match matches[mid].compare_rank(ranked) {
            Ordering::Less => true,
            _ => false,
        };
        proof {
            let key = rank_of::<T>();
            let m = matches@[mid + 0];
            if before {
                assert forall|i: int| 0 <= i < mid + 1 implies order::lex_less(
                    (#[trigger] matches@[i]).rank_key(),
                    ranked.rank_key(),
                ) by {
                    if i < mid {
                        assert(!order::lex_less(key(matches@[mid + 0]), key(matches@[i])));
                        order::lex_total(key(m), key(matches@[i]));
                        if order::lex_less(key(matches@[i]), key(m)) {
                            order::lex_transitive(key(matches@[i]), key(m), ranked.rank_key());
                        }
                    }
                }
            } else {
                assert forall|i: int| mid <= i < matches@.len() implies !order::lex_less(
                    (#[trigger] matches@[i]).rank_key(),
                    ranked.rank_key(),
                ) by {
                    if i > mid {
                        assert(!order::lex_less(key(matches@[i]), key(matches@[mid + 0])));
                        order::lex_not_less_transitive(ranked.rank_key(), key(m), key(matches@[i]));
                    }
                }
            }
        }
        if before {
            lo = mid + 1;
        } else {
            hi = mid;
        }
    }
    proof {
        let key = rank_of::<T>();
        assert forall|i: int| 0 <= i < lo implies order::lex_less(
            key(#[trigger] matches@[i]),
            ranked.rank_key(),
        ) by {}
        lemma_position_is(matches@, ranked.rank_key(), key, lo + 0);
    }
    lo
}

/// Puts `ranked` at its place among `matches`, which keep at most `limit` items: the
/// worst falls out when there is one too many.
pub fn push_top_match<T: Ranked>(matches: &mut Vec<T>, ranked: T, limit: usize)
    requires
        is_ranked(old(matches)@, rank_of::<T>()),
    ensures
        final(matches)@ == push_top(old(matches)@, ranked, limit as nat, rank_of::<T>()),
        is_ranked(final(matches)@, rank_of::<T>()),
{
    proof {
        lemma_insert_ranked(matches@, ranked, rank_of::<T>());
        lemma_position_separates(matches@, ranked.rank_key(), rank_of::<T>());
    }
    if limit == 0 {
        return;
    }
    let insert_at = find_rank_position(matches, &ranked);
    if insert_at >= limit {
        return;
    }
    let ghost before = matches@;
    matches.insert(insert_at, ranked);
    if matches.len() > limit {
        let ghost whole = matches@;
        matches.pop();
        assert(matches@ =~= whole.drop_last());
        assert(is_ranked(matches@, rank_of::<T>())) by {
            assert forall|i: int, j: int| 0 <= i < j < matches@.len() implies !order::lex_less(
                rank_of::<T>()(matches@[j]),
                rank_of::<T>()(matches@[i]),
            ) by {
                assert(matches@[i] == whole[i] && matches@[j] == whole[j]);
            }
        }
    }
}

/// Pushing brings in nothing but the item.
pub proof fn lemma_push_members<V>(s: Seq<V>, x: V, limit: nat, key: spec_fn(V) -> Seq<int>)
    requires
        is_ranked(s, key),
    ensures
        forall|i: int|
            0 <= i < push_top(s, x, limit, key).len() ==> s.contains(
                #[trigger] push_top(s, x, limit, key)[i],
            ) || push_top(s, x, limit, key)[i] == x,
{
    let p = lemma_position_separates(s, key(x), key);
    let r = push_top(s, x, limit, key);
    assert forall|i: int| 0 <= i < r.len() implies s.contains(#[trigger] r[i]) || r[i] == x by {
        if p >= limit {
            assert(r[i] == s[i]);
        } else if i < p {
            assert(r[i] == s[i]);
        } else if i > p {
            assert(r[i] == s[i - 1]);
        }
    }
}

/// Pushing commutes with a map under which the key does not change.
pub proof fn lemma_push_map<T, V>(
    s: Seq<T>,
    x: T,
    limit: nat,
    f: spec_fn(T) -> V,
    key_t: spec_fn(T) -> Seq<int>,
    key_v: spec_fn(V) -> Seq<int>,
)
    requires
        forall|t: T| #[trigger] key_v(f(t)) == key_t(t),
    ensures
        push_top(s, x, limit, key_t).map_values(f) == push_top(s.map_values(f), f(x), limit, key_v),
{
    lemma_position_map(s, key_t(x), f, key_t, key_v);
    let p = rank_position(s, key_t(x), key_t);
    assert(key_v(f(x)) == key_t(x));
    assert(0 <= p <= s.len());
    assert(s.insert(p, x).map_values(f) =~= s.map_values(f).insert(p, f(x)));
    assert(s.insert(p, x).drop_last().map_values(f) =~= s.map_values(f).insert(
        p,
        f(x),
    ).drop_last());
}

proof fn lemma_position_map<T, V>(
    s: Seq<T>,
    k: Seq<int>,
    f: spec_fn(T) -> V,
    key_t: spec_fn(T) -> Seq<int>,
    key_v: spec_fn(V) -> Seq<int>,
)
    requires
        forall|t: T| #[trigger] key_v(f(t)) == key_t(t),
    ensures
        rank_position(s, k, key_t) == rank_position(s.map_values(f), k, key_v),
        0 <= rank_position(s, k, key_t) <= s.len(),
    decreases s.len(),
{
    if s.len() > 0 {
        lemma_position_map(s.drop_first(), k, f, key_t, key_v);
        assert(s.map_values(f).drop_first() =~= s.drop_first().map_values(f));
        assert(key_v(f(s[0])) == key_t(s[0]));
    }
}

} // verus!
