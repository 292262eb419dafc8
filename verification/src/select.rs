//! Selecting from a row of numbered places.
use vstd::prelude::*;

verus! {

/// What `f` gives for the places below `n`, in their order, where it gives anything.
pub open spec fn select<V>(n: int, f: spec_fn(int) -> Option<V>) -> Seq<V>
    decreases n,
{
    if n <= 0 {
        Seq::empty()
    } else {
        match f(n - 1) {
            Some(v) => select(n - 1, f).push(v),
            None => select(n - 1, f),
        }
    }
}

/// Functions that agree below `n` select the same.
pub proof fn lemma_select_same<V>(n: int, f: spec_fn(int) -> Option<V>, g: spec_fn(int) -> Option<V>)
    requires
        forall|k: int| 0 <= k < n ==> f(k) == #[trigger] g(k),
    ensures
        select(n, f) == select(n, g),
    decreases n,
{
    if n > 0 {
        assert(f(n - 1) == g(n - 1));
        lemma_select_same(n - 1, f, g);
    }
}

/// Places that give nothing add nothing.
pub proof fn lemma_select_nothing<V>(a: int, b: int, f: spec_fn(int) -> Option<V>)
    requires
        0 <= a <= b,
        forall|k: int| a <= k < b ==> #[trigger] f(k) is None,
    ensures
        select(b, f) == select(a, f),
    decreases b,
{
    if a < b {
        assert(f(b - 1) is None);
        lemma_select_nothing(a, b - 1, f);
    }
}

/// At most one value is selected for each place.
pub proof fn lemma_select_len<V>(n: int, f: spec_fn(int) -> Option<V>)
    requires
        n >= 0,
    ensures
        select(n, f).len() <= n,
    decreases n,
{
    if n > 0 {
        lemma_select_len(n - 1, f);
    }
}

/// What is selected comes from one of the places.
pub proof fn lemma_select_source<V>(n: int, f: spec_fn(int) -> Option<V>, v: V) -> (k: int)
    requires
        select(n, f).contains(v),
    ensures
        0 <= k < n,
        f(k) == Some(v),
    decreases n,
{
    if n <= 0 {
        0
    } else {
        let rest = select(n - 1, f);
        if f(n - 1) == Some(v) {
            n - 1
        } else {
            let i = choose|i: int| 0 <= i < select(n, f).len() && select(n, f)[i] == v;
            assert(rest[i] == v);
            lemma_select_source(n - 1, f, v)
        }
    }
}

/// What a place gives is selected, after what the places before it give.
pub proof fn lemma_select_place<V>(n: int, f: spec_fn(int) -> Option<V>, k: int)
    requires
        0 <= k < n,
        f(k) is Some,
    ensures
        select(k, f).len() < select(n, f).len(),
        select(n, f)[select(k, f).len() as int] == f(k)->0,
    decreases n,
{
    if k < n - 1 {
        lemma_select_place(n - 1, f, k);
    }
}

/// Where no two places give the same, nothing is selected twice.
pub proof fn lemma_select_distinct<V>(n: int, f: spec_fn(int) -> Option<V>)
    requires
        forall|j: int, k: int|
            0 <= j < k < n && f(j) is Some && f(k) is Some ==> #[trigger] f(j) != #[trigger] f(k),
    ensures
        select(n, f).no_duplicates(),
    decreases n,
{
    if n > 0 {
        lemma_select_distinct(n - 1, f);
        if f(n - 1) is Some {
            let v = f(n - 1)->0;
            let rest = select(n - 1, f);
            if rest.contains(v) {
                let k = lemma_select_source(n - 1, f, v);
                assert(f(k) != f(n - 1));
            }
            assert forall|i: int, j: int|
                0 <= i < select(n, f).len() && 0 <= j < select(n, f).len() && i != j implies select(
                n,
                f,
            )[i] != select(n, f)[j] by {
                if i < rest.len() {
                    assert(rest.contains(rest[i]));
                }
                if j < rest.len() {
                    assert(rest.contains(rest[j]));
                }
            }
        }
    }
}

/// Selecting from what was selected is selecting at once.
pub proof fn lemma_select_again<U, V>(
    n: int,
    f: spec_fn(int) -> Option<U>,
    g: spec_fn(int) -> Option<V>,
)
    requires
        n >= 0,
    ensures
        select(select(n, f).len() as int, g) == select(
            n,
            |k: int|
                if f(k) is Some {
                    g(select(k, f).len() as int)
                } else {
                    None
                },
        ),
    decreases n,
{
    if n > 0 {
        lemma_select_again(n - 1, f, g);
    }
}

} // verus!
