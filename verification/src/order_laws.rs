//! Laws of the order in which matches stand.
use vstd::prelude::*;
use vstd::utf8::*;

use crate::dictionary_ranking;
use crate::dictionary_ranking::DictionaryRankedModel;
use crate::model;
use crate::model::IndexModel;
use crate::order;
use crate::ranking;
use crate::ranking::{CompletionKind, MatchClass, RankedModel};
use crate::select;
use crate::top;
use crate::utf8;

verus! {

/// A match of class `a` is better than one of class `b`: an exact match than any other, a
/// prefix than a substring or a fuzzy match, and a substring than a fuzzy match.
pub open spec fn is_better_class(a: MatchClass, b: MatchClass) -> bool {
    ||| a == MatchClass::Exact && b != MatchClass::Exact
    ||| a == MatchClass::Prefix && (b == MatchClass::Substring || b == MatchClass::Fuzzy)
    ||| a == MatchClass::Substring && b == MatchClass::Fuzzy
}

/// A completion of kind `a` is preferred to one of kind `b`: a web address to any other, a
/// filename to a word, and all to the dictionary.
pub open spec fn is_better_kind(a: CompletionKind, b: CompletionKind) -> bool {
    ||| a == CompletionKind::Url && b != CompletionKind::Url
    ||| a == CompletionKind::Filename && (b == CompletionKind::Word || b
        == CompletionKind::Dictionary)
    ||| a == CompletionKind::Word && b == CompletionKind::Dictionary
}

/// The first byte in which the texts differ is less in `a`, or `b` goes on where `a` ends.
pub open spec fn spells_before(a: Seq<char>, b: Seq<char>) -> bool {
    let x = encode_utf8(a);
    let y = encode_utf8(b);
    ||| x.len() < y.len() && y.take(x.len() as int) == x
    ||| exists|i: int|
        0 <= i < x.len() && i < y.len() && x.take(i) == y.take(i) && #[trigger] x[i] < y[i]
}

/// Nothing speaks for `b` to stand before `a`: it is of no better class; in the same class it
/// has no lesser score; then it is of no better kind; then it was not seen later; then not
/// more often; then it is not shorter; and then it does not spell before `a`.
pub open spec fn may_stand_before(a: RankedModel, b: RankedModel) -> bool {
    let c = a.candidate;
    let d = b.candidate;
    &&& !is_better_class(b.match_class, a.match_class)
    &&& a.match_class == b.match_class ==> {
        &&& a.fuzzy_score <= b.fuzzy_score
        &&& a.fuzzy_score == b.fuzzy_score ==> {
            &&& !is_better_kind(d.kind, c.kind)
            &&& c.kind == d.kind ==> {
                &&& c.last_seen_seq >= d.last_seen_seq
                &&& c.last_seen_seq == d.last_seen_seq ==> {
                    &&& c.frequency >= d.frequency
                    &&& c.frequency == d.frequency ==> {
                        &&& encode_utf8(c.text).len() <= encode_utf8(d.text).len()
                        &&& encode_utf8(c.text).len() == encode_utf8(d.text).len()
                            ==> !spells_before(d.text, c.text)
                    }
                }
            }
        }
    }
}

/// The same of words: by class, score, length and spelling.
pub open spec fn word_may_stand_before(a: DictionaryRankedModel, b: DictionaryRankedModel) -> bool {
    &&& !is_better_class(b.match_class, a.match_class)
    &&& a.match_class == b.match_class ==> {
        &&& a.fuzzy_score <= b.fuzzy_score
        &&& a.fuzzy_score == b.fuzzy_score ==> {
            &&& encode_utf8(a.text).len() <= encode_utf8(b.text).len()
            &&& encode_utf8(a.text).len() == encode_utf8(b.text).len() ==> !spells_before(
                b.text,
                a.text,
            )
        }
    }
}

/// Texts are compared by their bytes.
pub proof fn law_texts_are_ordered_by_bytes(a: Seq<char>, b: Seq<char>)
    ensures
        utf8::text_less(a, b) <==> spells_before(a, b),
{
    let x = encode_utf8(a);
    let y = encode_utf8(b);
    let p = utf8::text_key(a);
    let q = utf8::text_key(b);
    if spells_before(a, b) {
        if x.len() < y.len() && y.take(x.len() as int) == x {
            assert(q =~= p + q.skip(x.len() as int)) by {
                assert forall|i: int| 0 <= i < p.len() implies p[i] == q[i] by {
                    assert(y.take(x.len() as int)[i] == y[i]);
                }
            }
            order::lex_extension(p, q.skip(x.len() as int));
        } else {
            let i = choose|i: int|
                0 <= i < x.len() && i < y.len() && x.take(i) == y.take(i) && #[trigger] x[i] < y[i];
            assert forall|j: int| 0 <= j < i implies p[j] == q[j] by {
                assert(x.take(i)[j] == y.take(i)[j]);
                assert(p[j] == x[j] as int);
                assert(q[j] == y[j] as int);
            }
            lemma_first_difference(p, q, i);
        }
    }
    if utf8::text_less(a, b) {
        lemma_where_less(p, q);
        if p.len() < q.len() && q.take(p.len() as int) == p {
            assert forall|i: int| 0 <= i < x.len() implies x[i] == y.take(x.len() as int)[i] by {
                assert(q.take(p.len() as int)[i] == p[i]);
            }
            assert(y.take(x.len() as int) =~= x);
        } else {
            let i = choose|i: int|
                0 <= i < p.len() && i < q.len() && p.take(i) == q.take(i) && #[trigger] p[i] < q[i];
            assert(x.take(i) =~= y.take(i)) by {
                assert forall|j: int| 0 <= j < i implies x.take(i)[j] == y.take(i)[j] by {
                    assert(p.take(i)[j] == q.take(i)[j]);
                    assert(p[j] == x[j] as int);
                    assert(q[j] == y[j] as int);
                }
            }
            assert(x[i] < y[i]);
        }
    }
}

/// Sequences that first differ at `i` compare as their numbers there.
proof fn lemma_first_difference(p: Seq<int>, q: Seq<int>, i: int)
    requires
        0 <= i < p.len(),
        i < q.len(),
        forall|j: int| 0 <= j < i ==> p[j] == q[j],
        p[i] != q[i],
    ensures
        order::lex_less(p, q) == (p[i] < q[i]),
{
    let head = p.take(i);
    assert(p =~= head + p.skip(i));
    assert(q =~= head + q.skip(i));
    order::lex_common_prefix(head, p.skip(i), q.skip(i));
}

/// Of two sequences the lesser ends where the other goes on, or is less where they first
/// differ.
proof fn lemma_where_less(p: Seq<int>, q: Seq<int>)
    requires
        order::lex_less(p, q),
    ensures
        ({
            ||| p.len() < q.len() && q.take(p.len() as int) == p
            ||| exists|i: int|
                0 <= i < p.len() && i < q.len() && p.take(i) == q.take(i) && #[trigger] p[i] < q[i]
        }),
    decreases p.len(),
{
    if p.len() == 0 {
        assert(q.take(0) =~= p);
    } else if p[0] != q[0] {
        assert(p.take(0) =~= q.take(0));
    } else {
        let r = p.drop_first();
        let s = q.drop_first();
        lemma_where_less(r, s);
        if r.len() < s.len() && s.take(r.len() as int) == r {
            assert forall|j: int| 0 <= j < p.len() implies q.take(p.len() as int)[j] == p[j] by {
                if j > 0 {
                    assert(s.take(r.len() as int)[j - 1] == r[j - 1]);
                }
            }
            assert(q.take(p.len() as int) =~= p);
        } else {
            let i = choose|i: int|
                0 <= i < r.len() && i < s.len() && r.take(i) == s.take(i) && #[trigger] r[i] < s[i];
            let a = p.take(i + 1);
            let b = q.take(i + 1);
            assert forall|j: int| 0 <= j < i + 1 implies #[trigger] a[j] == b[j] by {
                if j > 0 {
                    assert(r.take(i)[j - 1] == s.take(i)[j - 1]);
                }
            }
            assert(a =~= b);
            assert(p[i + 1] < q[i + 1]);
        }
    }
}

/// The order of session matches: the better class first, then the lesser score, the preferred
/// kind, the one that was seen later, whatever the kind, the one that was seen more often, the
/// shorter one and at last the one that spells before the other.
pub proof fn law_order_of_matches(a: RankedModel, b: RankedModel)
    ensures
        !order::lex_less(ranking::session_key(b), ranking::session_key(a)) <==> may_stand_before(
            a,
            b,
        ),
{
    let p = ranking::session_key(a);
    let q = ranking::session_key(b);
    let x = p.take(6);
    let y = q.take(6);
    let u = utf8::text_key(a.candidate.text);
    let v = utf8::text_key(b.candidate.text);
    assert(p =~= x + u);
    assert(q =~= y + v);
    law_texts_are_ordered_by_bytes(b.candidate.text, a.candidate.text);
    if x[0] != y[0] {
        order::lex_heads_differ(x, y, u, v, 0);
    } else if x[1] != y[1] {
        order::lex_heads_differ(x, y, u, v, 1);
    } else if x[2] != y[2] {
        order::lex_heads_differ(x, y, u, v, 2);
    } else if x[3] != y[3] {
        order::lex_heads_differ(x, y, u, v, 3);
    } else if x[4] != y[4] {
        order::lex_heads_differ(x, y, u, v, 4);
    } else if x[5] != y[5] {
        order::lex_heads_differ(x, y, u, v, 5);
    } else {
        assert(x =~= y);
        order::lex_common_prefix(x, v, u);
    }
}

/// The order of words: the better class first, then the lesser score, the shorter word and at
/// last the one that spells before the other.
pub proof fn law_order_of_words(a: DictionaryRankedModel, b: DictionaryRankedModel)
    ensures
        !order::lex_less(
            dictionary_ranking::dictionary_key(b),
            dictionary_ranking::dictionary_key(a),
        ) <==> word_may_stand_before(a, b),
{
    let p = dictionary_ranking::dictionary_key(a);
    let q = dictionary_ranking::dictionary_key(b);
    let x = p.take(3);
    let y = q.take(3);
    let u = utf8::text_key(a.text);
    let v = utf8::text_key(b.text);
    assert(p =~= x + u);
    assert(q =~= y + v);
    law_texts_are_ordered_by_bytes(b.text, a.text);
    if x[0] != y[0] {
        order::lex_heads_differ(x, y, u, v, 0);
    } else if x[1] != y[1] {
        order::lex_heads_differ(x, y, u, v, 1);
    } else if x[2] != y[2] {
        order::lex_heads_differ(x, y, u, v, 2);
    } else {
        assert(x =~= y);
        order::lex_common_prefix(x, v, u);
    }
}

/// The session matches of a search stand in order: of any two, nothing speaks for the later to
/// stand before the earlier. In particular, of two of the same class, score and kind the
/// earlier one was seen later.
pub proof fn law_results_stand_in_order<M: Fn(&str, &str) -> Option<(Vec<usize>, i32)>>(
    m: IndexModel,
    f: M,
    query: Seq<char>,
    query_lower: Seq<char>,
    literal: Seq<RankedModel>,
    fuzzy: Seq<RankedModel>,
    i: int,
    j: int,
)
    requires
        m.wf(),
        model::are_session_matches(m, f, query, query_lower, literal, fuzzy),
        0 <= i < j < (literal + fuzzy).len(),
    ensures
        may_stand_before((literal + fuzzy)[i], (literal + fuzzy)[j]),
{
    let both = literal + fuzzy;
    let key = ranking::by_session_key();
    crate::laws::law_session_matches_are_the_best(m, f, query, query_lower, literal, fuzzy);
    law_order_of_matches(both[i], both[j]);
    if literal.len() >= ranking::MAX_COMPLETION_RESULTS {
        let scores = |k: int| None::<u16>;
        let found = |k: int| None::<(Seq<usize>, i32)>;
        let b = model::fuzzy_items(m, query_lower, scores, found);
        assert(top::is_ranked(both, key));
    }
    assert(!order::lex_less(key(both[j]), key(both[i])));
}

/// Of all candidates that the query heads the best eight are found: where one is missing there
/// are eight, and nothing speaks for it to stand before any of them.
pub proof fn law_no_better_candidate_is_left_out<M: Fn(&str, &str) -> Option<(Vec<usize>, i32)>>(
    m: IndexModel,
    f: M,
    query: Seq<char>,
    query_lower: Seq<char>,
    literal: Seq<RankedModel>,
    fuzzy: Seq<RankedModel>,
    k: Seq<char>,
)
    requires
        m.wf(),
        model::are_session_matches(m, f, query, query_lower, literal, fuzzy),
        m.candidates.contains_key(k),
        query_lower.len() <= k.len(),
        k.take(query_lower.len() as int) == query_lower,
        !(k == query_lower && m.candidates[k].text == query),
    ensures
        ({
            let class = if k == query_lower {
                MatchClass::Exact
            } else {
                MatchClass::Prefix
            };
            ||| exists|i: int|
                #![trigger literal[i]]
                0 <= i < literal.len() && literal[i].candidate == m.candidates[k]
                    && literal[i].match_class == class
            ||| literal.len() == 8 && forall|i: int|
                #![trigger literal[i]]
                0 <= i < literal.len() ==> may_stand_before(
                    literal[i],
                    RankedModel {
                        candidate: m.candidates[k],
                        match_class: class,
                        fuzzy_score: literal[i].fuzzy_score,
                        places: literal[i].places,
                    },
                ) || is_better_class(literal[i].match_class, class)
        }),
{
    broadcast use vstd::multiset::group_multiset_axioms;
    broadcast use vstd::seq_lib::group_to_multiset_ensures;

    let key = ranking::by_session_key();
    let items = model::literal_items(m, query, query_lower);
    let choice = model::literal_choice(m, query, query_lower);
    assert(m.keys.contains(k));
    let at = choose|at: int| 0 <= at < m.keys.len() && m.keys[at] == k;
    assert(query_lower.is_prefix_of(k));
    assert(choice(at) is Some);
    let x = choice(at)->0;
    select::lemma_select_place(m.keys.len() as int, choice, at);
    assert(items.contains(x));
    if literal.contains(x) {
        let i = choose|i: int| 0 <= i < literal.len() && literal[i] == x;
        assert(literal[i].candidate == m.candidates[k]);
    } else {
        assert(items.to_multiset().count(x) > literal.to_multiset().count(x));
        if literal.len() < 8 {
            top::lemma_nothing_left_out(literal, items, 8, key);
            assert(literal.to_multiset().count(x) > 0);
            assert(false);
        }
        assert forall|i: int| #![trigger literal[i]] 0 <= i < literal.len() implies may_stand_before(
            literal[i],
            RankedModel {
                candidate: m.candidates[k],
                match_class: x.match_class,
                fuzzy_score: literal[i].fuzzy_score,
                places: literal[i].places,
            },
        ) || is_better_class(literal[i].match_class, x.match_class) by {
            let y = literal[i];
            assert(!order::lex_less(key(x), key(y)));
            law_order_of_matches(y, x);
            top::lemma_top_member(literal, items, 8, key, i);
            let s = select::lemma_select_source(m.keys.len() as int, choice, y);
        }
    }
}

} // verus!
