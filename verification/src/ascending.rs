//! Ascending lists of numbers, each once.
use vstd::prelude::*;

verus! {

/// `r` holds the numbers of `s`, ascending and each once.
pub open spec fn is_ascending_of(r: Seq<usize>, s: Seq<usize>) -> bool {
    &&& forall|i: int, j: int| 0 <= i < j < r.len() ==> r[i] < r[j]
    &&& forall|x: usize| #[trigger] r.contains(x) <==> s.contains(x)
}

/// Ascending lists of the same numbers are equal.
pub proof fn lemma_ascending_unique(a: Seq<usize>, b: Seq<usize>)
    requires
        forall|i: int, j: int| 0 <= i < j < a.len() ==> a[i] < a[j],
        forall|i: int, j: int| 0 <= i < j < b.len() ==> b[i] < b[j],
        forall|x: usize| #[trigger] a.contains(x) <==> b.contains(x),
    ensures
        a == b,
    decreases a.len(),
{
    if a.len() == 0 {
        if b.len() > 0 {
            assert(b.contains(b[0]));
            assert(a.contains(b[0]));
        }
        assert(a =~= b);
    } else {
        assert(a.contains(a[0]));
        assert(b.contains(a[0]));
        let x = a.last();
        let y = b.last();
        assert(a[a.len() - 1] == x && a.contains(x));
        assert(b[b.len() - 1] == y && b.contains(y));
        assert(a.contains(y));
        let i = choose|i: int| 0 <= i < b.len() && b[i] == x;
        let j = choose|j: int| 0 <= j < a.len() && a[j] == y;
        assert(b[i] == x && a[j] == y);
        assert(x == y);
        let a1 = a.drop_last();
        let b1 = b.drop_last();
        assert forall|z: usize| #[trigger] a1.contains(z) <==> b1.contains(z) by {
            assert(a.contains(z) <==> b.contains(z));
            if a1.contains(z) {
                let k = choose|k: int| 0 <= k < a1.len() && a1[k] == z;
                assert(a[k] == z);
                let l = choose|l: int| 0 <= l < b.len() && b[l] == z;
                assert(l < b.len() - 1);
                assert(b1[l] == z);
            }
            if b1.contains(z) {
                let k = choose|k: int| 0 <= k < b1.len() && b1[k] == z;
                assert(b[k] == z);
                let l = choose|l: int| 0 <= l < a.len() && a[l] == z;
                assert(l < a.len() - 1);
                assert(a1[l] == z);
            }
        }
        lemma_ascending_unique(a1, b1);
        assert(a =~= a1.push(x));
        assert(b =~= b1.push(y));
    }
}

/// Adds `x` to the ascending `v` unless it is there.
pub(crate) fn insert_ascending(v: &mut Vec<usize>, x: usize)
    requires
        forall|i: int, j: int| 0 <= i < j < old(v)@.len() ==> old(v)@[i] < old(v)@[j],
    ensures
        forall|i: int, j: int| 0 <= i < j < final(v)@.len() ==> final(v)@[i] < final(v)@[j],
        forall|y: usize| #[trigger] final(v)@.contains(y) <==> (old(v)@.contains(y) || y == x),
{
    let mut p: usize = v.len();
    while p > 0 && v[p - 1] > x
        invariant
            p <= v@.len(),
            v@ == old(v)@,
            forall|i: int| p <= i < v@.len() ==> v@[i] > x,
        decreases p,
    {
        p -= 1;
    }
    if p > 0 && v[p - 1] == x {
        assert(v@[p - 1] == x);
        return;
    }
    let ghost before = v@;
    v.insert(p, x);
    proof {
        assert(v@ == before.insert(p as int, x));
        assert forall|y: usize| #[trigger] v@.contains(y) <==> (before.contains(y) || y == x) by {
            if before.contains(y) {
                let i = choose|i: int| 0 <= i < before.len() && before[i] == y;
                if i < p {
                    assert(v@[i] == y);
                } else {
                    assert(v@[i + 1] == y);
                }
            }
            if y == x {
                assert(v@[p as int] == y);
            }
            if v@.contains(y) {
                let i = choose|i: int| 0 <= i < v@.len() && v@[i] == y;
                if i < p {
                    assert(before[i] == y);
                } else if i > p {
                    assert(before[i - 1] == y);
                }
            }
        }
    }
}

/// The numbers of `s`, ascending and each once.
pub fn ascending_of(s: &Vec<usize>) -> (r: Vec<usize>)
    ensures
        is_ascending_of(r@, s@),
{
    let mut r: Vec<usize> = Vec::new();
    let mut i: usize = s.len();
    while i > 0
        invariant
            i <= s@.len(),
            forall|a: int, b: int| 0 <= a < b < r@.len() ==> r@[a] < r@[b],
            forall|x: usize| #[trigger] r@.contains(x) <==> s@.skip(i as int).contains(x),
        decreases i,
    {
        let ghost before = r@;
        i -= 1;
        insert_ascending(&mut r, s[i]);
        proof {
            let t = s@.skip(i as int);
            let t1 = s@.skip(i + 1);
            assert forall|x: usize| #[trigger] r@.contains(x) <==> t.contains(x) by {
                assert(before.contains(x) <==> t1.contains(x));
                if t1.contains(x) {
                    let k = choose|k: int| 0 <= k < t1.len() && t1[k] == x;
                    assert(t[k + 1] == x);
                }
                if x == s@[i as int] {
                    assert(t[0] == x);
                }
                if t.contains(x) {
                    let k = choose|k: int| 0 <= k < t.len() && t[k] == x;
                    if k > 0 {
                        assert(t1[k - 1] == x);
                    }
                }
            }
        }
    }
    assert(s@.skip(0) =~= s@);
    r
}

} // verus!
