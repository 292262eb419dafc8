//! The lexicographic order on integer sequences, to which every ranking of the
//! library is reduced.
use vstd::prelude::*;

verus! {

/// `a` comes strictly before `b` in the lexicographic order: at the first place
/// where they differ `a` is smaller, or `a` is a proper prefix of `b`.
pub open spec fn lex_less(a: Seq<int>, b: Seq<int>) -> bool
    decreases b.len(),
{
    if b.len() == 0 {
        false
    } else if a.len() == 0 {
        true
    } else if a[0] != b[0] {
        a[0] < b[0]
    } else {
        lex_less(a.drop_first(), b.drop_first())
    }
}

/// Nothing comes before itself.
pub proof fn lex_irreflexive(a: Seq<int>)
    ensures
        !lex_less(a, a),
    decreases a.len(),
{
    if a.len() > 0 {
        lex_irreflexive(a.drop_first());
    }
}

/// The order is transitive.
pub proof fn lex_transitive(a: Seq<int>, b: Seq<int>, c: Seq<int>)
    requires
        lex_less(a, b),
        lex_less(b, c),
    ensures
        lex_less(a, c),
    decreases b.len(),
{
    if a.len() > 0 && a[0] == b[0] && b[0] == c[0] {
        lex_transitive(a.drop_first(), b.drop_first(), c.drop_first());
    }
}

/// Of two sequences that are not equal one comes before the other.
pub proof fn lex_total(a: Seq<int>, b: Seq<int>)
    ensures
        a == b || lex_less(a, b) || lex_less(b, a),
    decreases a.len(),
{
    if a.len() == 0 && b.len() == 0 {
        assert(a =~= b);
    } else if a.len() > 0 && b.len() > 0 && a[0] == b[0] {
        lex_total(a.drop_first(), b.drop_first());
        if a.drop_first() == b.drop_first() {
            assert(a =~= seq![a[0]] + a.drop_first());
            assert(b =~= seq![b[0]] + b.drop_first());
        }
    }
}

/// At most one of two sequences comes before the other.
pub proof fn lex_asymmetric(a: Seq<int>, b: Seq<int>)
    requires
        lex_less(a, b),
    ensures
        !lex_less(b, a),
        a != b,
{
    lex_irreflexive(a);
    if lex_less(b, a) {
        lex_transitive(a, b, a);
    }
}

/// "Not before" is transitive: if `b` is not before `a` and `c` is not before `b`,
/// then `c` is not before `a`.
pub proof fn lex_not_less_transitive(a: Seq<int>, b: Seq<int>, c: Seq<int>)
    requires
        !lex_less(b, a),
        !lex_less(c, b),
    ensures
        !lex_less(c, a),
{
    lex_total(a, b);
    lex_total(b, c);
    if lex_less(c, a) {
        if a == b {
        } else if b == c {
        } else {
            lex_transitive(a, b, c);
            lex_asymmetric(a, c);
        }
    }
}

/// A common head does not change how two sequences compare.
pub proof fn lex_common_prefix(p: Seq<int>, a: Seq<int>, b: Seq<int>)
    ensures
        lex_less(p + a, p + b) == lex_less(a, b),
    decreases p.len(),
{
    if p.len() == 0 {
        assert(p + a =~= a);
        assert(p + b =~= b);
    } else {
        lex_common_prefix(p.drop_first(), a, b);
        assert((p + a).drop_first() =~= p.drop_first() + a);
        assert((p + b).drop_first() =~= p.drop_first() + b);
    }
}

/// A proper extension comes after what it extends.
pub proof fn lex_extension(p: Seq<int>, a: Seq<int>)
    ensures
        lex_less(p, p + a) == (a.len() > 0),
        !lex_less(p + a, p),
{
    lex_common_prefix(p, Seq::<int>::empty(), a);
    lex_common_prefix(p, a, Seq::<int>::empty());
    assert(p + Seq::<int>::empty() =~= p);
}

/// Heads that first differ at `k` decide the comparison of two keys.
pub proof fn lex_heads_differ(p: Seq<int>, q: Seq<int>, a: Seq<int>, b: Seq<int>, k: int)
    requires
        p.len() == q.len(),
        0 <= k < p.len(),
        forall|i: int| 0 <= i < k ==> p[i] == q[i],
        p[k] != q[k],
    ensures
        lex_less(p + a, q + b) == (p[k] < q[k]),
        lex_less(q + b, p + a) == (q[k] < p[k]),
{
    let head = p.take(k);
    assert(p + a =~= head + (p.skip(k) + a));
    assert(q + b =~= head + (q.skip(k) + b));
    lex_common_prefix(head, p.skip(k) + a, q.skip(k) + b);
    lex_common_prefix(head, q.skip(k) + b, p.skip(k) + a);
}

} // verus!
