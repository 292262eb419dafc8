//! Laws of what the index keeps of the texts that it sees.
use vstd::prelude::*;

use crate::extract_laws;
use crate::model;
use crate::model::IndexModel;
use crate::order_laws;
use crate::ranking::CompletionKind;
use crate::text;
use crate::top;
use crate::utf8;

verus! {

/// The text has no whitespace around it.
pub open spec fn is_tight(t: Seq<char>) -> bool {
    t.len() > 0 ==> !text::char_is_whitespace(t[0]) && !text::char_is_whitespace(t.last())
}

/// The text is kept: it has no whitespace around it, from two to three hundred characters, and
/// one that is not an ASCII digit; and there is a lowercase of it.
pub open spec fn is_kept(t: Seq<char>) -> bool {
    &&& is_tight(t)
    &&& 2 <= t.len() <= 300
    &&& exists|k: int| 0 <= k < t.len() && !('0' <= #[trigger] t[k] <= '9')
    &&& text::lowercase(t).len() > 0
}

proof fn lemma_tight(t: Seq<char>)
    requires
        is_tight(t),
    ensures
        text::trimmed(t) == t,
{
    let p = text::whitespace();
    if t.len() > 0 {
        text::lemma_head_is(t, p, 0);
        extract_laws::lemma_tail_is(t, p, 0);
    }
    assert(t.skip(0) =~= t);
    assert(t.take(t.len() as int) =~= t);
}

proof fn lemma_kept(t: Seq<char>)
    requires
        is_tight(t),
        text::lowercase(t).len() > 0,
    ensures
        model::is_candidate_text(t) <==> is_kept(t),
{
    if is_kept(t) {
        let k = choose|k: int| 0 <= k < t.len() && !('0' <= #[trigger] t[k] <= '9');
        assert(!text::is_digit(t[k]));
    }
    if model::is_candidate_text(t) {
        let k = choose|k: int| 0 <= k < t.len() && !text::is_digit(#[trigger] t[k]);
        assert(!('0' <= t[k] <= '9'));
    }
}

/// The number of the sighting is the next; after the last of all comes 0.
pub open spec fn is_next(before: u64, after: u64) -> bool {
    if before < u64::MAX {
        after == before + 1
    } else {
        after == 0
    }
}

/// All candidates but the one of the key are as they were.
pub open spec fn others_stay(m: IndexModel, r: IndexModel, key: Seq<char>) -> bool {
    &&& forall|k: Seq<char>| #[trigger]
        r.candidates.contains_key(k) <==> m.candidates.contains_key(k) || k == key
    &&& forall|k: Seq<char>|
        k != key && #[trigger] m.candidates.contains_key(k) ==> r.candidates[k]
            == m.candidates[k]
    &&& r.dictionary == m.dictionary
}

/// A text that was not seen before is kept as it is, under its lowercase, as seen once and
/// last.
pub proof fn law_new_text_is_kept(m: IndexModel, t: Seq<char>, kind: CompletionKind)
    requires
        is_kept(t),
        !m.candidates.contains_key(text::lowercase(t)),
    ensures
        ({
            let r = model::with_candidate(m, t, kind);
            let key = text::lowercase(t);
            &&& others_stay(m, r, key)
            &&& r.candidates[key].text == t
            &&& r.candidates[key].key == key
            &&& r.candidates[key].kind == kind
            &&& r.candidates[key].frequency == 1
            &&& r.candidates[key].last_seen_seq == r.next_seq
            &&& is_next(m.next_seq, r.next_seq)
            &&& r.keys.len() == m.keys.len() + 1
            &&& exists|p: int|
                #![trigger r.keys[p]]
                0 <= p < r.keys.len() && r.keys[p] == key && r.keys.remove(p) == m.keys
        }),
{
    let r = model::with_candidate(m, t, kind);
    let key = text::lowercase(t);
    lemma_tight(t);
    lemma_kept(t);
    let p = top::rank_position(m.keys, utf8::text_key(key), model::by_text());
    lemma_position_fits(m.keys, utf8::text_key(key));
    assert(r.keys == m.keys.insert(p, key));
    assert(r.keys[p] == key);
    assert(r.keys.remove(p) =~= m.keys);
}

proof fn lemma_position_fits(s: Seq<Seq<char>>, k: Seq<int>)
    ensures
        0 <= top::rank_position(s, k, model::by_text()) <= s.len(),
    decreases s.len(),
{
    if s.len() > 0 {
        lemma_position_fits(s.drop_first(), k);
    }
}

/// A text that was seen before, in whatever case, counts once more and as seen last. What was
/// kept of it gives way to what is seen now, unless it is of a better kind.
pub proof fn law_known_text_is_seen_again(m: IndexModel, t: Seq<char>, kind: CompletionKind)
    requires
        is_kept(t),
        m.candidates.contains_key(text::lowercase(t)),
    ensures
        ({
            let r = model::with_candidate(m, t, kind);
            let key = text::lowercase(t);
            let old = m.candidates[key];
            let new = r.candidates[key];
            &&& others_stay(m, r, key)
            &&& r.keys == m.keys
            &&& new.key == old.key
            &&& new.last_seen_seq == r.next_seq
            &&& is_next(m.next_seq, r.next_seq)
            &&& old.frequency < u32::MAX ==> new.frequency == old.frequency + 1
            &&& old.frequency == u32::MAX ==> new.frequency == u32::MAX
            &&& order_laws::is_better_kind(old.kind, kind) ==> new.kind == old.kind && new.text
                == old.text
            &&& !order_laws::is_better_kind(old.kind, kind) ==> new.kind == kind && new.text == t
        }),
{
    lemma_tight(t);
    lemma_kept(t);
}

/// Whitespace around a text does not matter.
pub proof fn law_whitespace_around_does_not_matter(
    m: IndexModel,
    before: Seq<char>,
    t: Seq<char>,
    behind: Seq<char>,
    kind: CompletionKind,
)
    requires
        is_tight(t),
        forall|k: int| 0 <= k < before.len() ==> text::char_is_whitespace(#[trigger] before[k]),
        forall|k: int| 0 <= k < behind.len() ==> text::char_is_whitespace(#[trigger] behind[k]),
    ensures
        model::with_candidate(m, before + t + behind, kind) == model::with_candidate(m, t, kind),
{
    let p = text::whitespace();
    let raw = before + t + behind;
    lemma_tight(t);
    if t.len() == 0 {
        assert forall|k: int| 0 <= k < raw.len() implies p(#[trigger] raw[k]) by {
            if k < before.len() {
                assert(raw[k] == before[k]);
            } else {
                assert(raw[k] == behind[k - before.len()]);
            }
        }
        text::lemma_head_is(raw, p, raw.len() as int);
        assert(text::trimmed(raw) =~= t);
    } else {
        let n = before.len() as int;
        assert forall|k: int| 0 <= k < n implies p(#[trigger] raw[k]) by {
            assert(raw[k] == before[k]);
        }
        assert(raw[n] == t[0]);
        text::lemma_head_is(raw, p, n);
        let a = raw.skip(n);
        assert(a =~= t + behind);
        assert forall|k: int| a.len() - behind.len() <= k < a.len() implies p(#[trigger] a[k]) by {
            assert(a[k] == behind[k - t.len()]);
        }
        assert(a[a.len() - behind.len() - 1] == t.last());
        extract_laws::lemma_tail_is(a, p, behind.len() as int);
        assert(a.take(t.len() as int) =~= t);
    }
}

/// A text that is too short, too long or a number is not kept, and nothing changes.
pub proof fn law_other_texts_are_not_kept(m: IndexModel, t: Seq<char>, kind: CompletionKind)
    requires
        is_tight(t),
        t.len() < 2 || t.len() > 300 || forall|k: int|
            0 <= k < t.len() ==> '0' <= #[trigger] t[k] <= '9',
    ensures
        model::with_candidate(m, t, kind) == m,
{
    lemma_tight(t);
    if 2 <= t.len() <= 300 {
        assert(text::all_digits(t)) by {
            assert forall|k: int| 0 <= k < t.len() implies text::is_digit(#[trigger] t[k]) by {
                assert('0' <= t[k] <= '9');
            }
        }
    }
}

/// Texts are taken in one after the other, each into the index that those before it made.
pub proof fn law_texts_are_taken_in_order(
    m: IndexModel,
    found: Seq<(Seq<char>, CompletionKind)>,
    more: Seq<(Seq<char>, CompletionKind)>,
    t: Seq<char>,
    kind: CompletionKind,
)
    ensures
        model::with_candidates(m, Seq::empty()) == m,
        model::with_candidates(m, seq![(t, kind)]) == model::with_candidate(m, t, kind),
        model::with_candidates(m, found + more) == model::with_candidates(
            model::with_candidates(m, found),
            more,
        ),
    decreases more.len(),
{
    let one = seq![(t, kind)];
    assert(one.drop_last() =~= Seq::empty());
    assert(one.last() == (t, kind));
    assert(model::with_candidates(m, Seq::empty()) == m);
    if more.len() == 0 {
        assert(found + more =~= found);
    } else {
        law_texts_are_taken_in_order(m, found, more.drop_last(), t, kind);
        assert((found + more).last() == more.last());
        assert((found + more).drop_last() =~= found + more.drop_last());
    }
}

} // verus!
