//! Laws of what a search finds, and of what it highlights.
use vstd::prelude::*;
use vstd::utf8::*;

use crate::masks;
use crate::matcher;
use crate::model;
use crate::model::IndexModel;
use crate::order;
use crate::ranking;
use crate::ranking::{CompletionMatch, MatchClass, MatchPlaces, RankedModel};
use crate::result_laws;
use crate::select;
use crate::text;
use crate::top;
use crate::utf8;

verus! {

/// How many typos a query may have: one from four bytes on.
pub open spec fn typos(q: Seq<char>) -> int {
    if encode_utf8(q).len() >= 4 {
        1
    } else {
        0
    }
}

/// `q` stands somewhere in `k`.
#[verifier::opaque]
pub open spec fn holds(k: Seq<char>, q: Seq<char>) -> bool {
    exists|j: int|
        0 <= j && j + q.len() <= k.len() && #[trigger] k.subrange(j, j + q.len()) == q
}

/// All characters of `q` but for `c` stand in `k`.
pub open spec fn has_all_but(k: Seq<char>, q: Seq<char>, c: char) -> bool {
    forall|i: int| 0 <= i < q.len() && q[i] != c ==> k.contains(#[trigger] q[i])
}

/// All characters of `q` stand in `k`; with a typo all but one of them, however often that
/// one stands in `q`.
pub open spec fn has_the_characters(k: Seq<char>, q: Seq<char>, n: int) -> bool {
    if n == 0 {
        forall|i: int| 0 <= i < q.len() ==> k.contains(#[trigger] q[i])
    } else {
        exists|c: char| has_all_but(k, q, c)
    }
}

/// The key is near the query: it does not hold it, is no more than the allowed typos shorter
/// than it, and has its characters but for these.
pub open spec fn is_near(k: Seq<char>, q: Seq<char>) -> bool {
    &&& !holds(k, q)
    &&& encode_utf8(k).len() + typos(q) >= encode_utf8(q).len()
    &&& has_the_characters(k, q, typos(q))
}

/// Only one number below `n` may have the property.
pub(crate) proof fn lemma_count_one(n: int, p: spec_fn(int) -> bool, c: int)
    requires
        forall|i: int| 0 <= i < n && #[trigger] p(i) ==> i == c,
    ensures
        masks::count_below(n, p) <= 1,
        n <= c ==> masks::count_below(n, p) == 0,
    decreases n,
{
    if n > 0 {
        lemma_count_one(n - 1, p, c);
        if p(n - 1) {
            assert(n - 1 == c);
        }
    }
}

/// No number below `n` has the property.
proof fn lemma_count_none(n: int, p: spec_fn(int) -> bool)
    requires
        forall|i: int| 0 <= i < n ==> !#[trigger] p(i),
    ensures
        masks::count_below(n, p) == 0,
    decreases n,
{
    if n > 0 {
        lemma_count_none(n - 1, p);
    }
}

/// A number below `n` with the property is counted, and so are two.
proof fn lemma_counted(n: int, p: spec_fn(int) -> bool, a: int, b: int)
    requires
        0 <= a <= b < n,
        p(a),
        p(b),
    ensures
        masks::count_below(n, p) >= 1,
        a < b ==> masks::count_below(n, p) >= 2,
    decreases n,
{
    if b < n - 1 {
        lemma_counted(n - 1, p, a, b);
    } else if a < b {
        lemma_counted(n - 1, p, a, a);
    }
}

/// Counting the characters that the key lacks tells whether it has all but one of them.
proof fn lemma_has_the_characters(k: Seq<char>, q: Seq<char>)
    requires
        is_ascii_chars(q),
    ensures
        masks::missing_chars(k, q) == 0 <==> has_the_characters(k, q, 0),
        masks::missing_chars(k, q) <= 1 <==> has_the_characters(k, q, 1),
{
    let p = |i: int| masks::holds_code(q, i) && !masks::holds_code(k, i);
    assert forall|i: int| 0 <= i < q.len() implies 0 <= (#[trigger] q[i]) as int && (q[i] as int)
        < 128 && p(q[i] as int) == !k.contains(q[i]) by {
        is_ascii_chars_nat_bound(q);
        if k.contains(q[i]) {
            let j = choose|j: int| 0 <= j < k.len() && k[j] == q[i];
            assert(k[j] as int == q[i] as int);
        }
        if masks::holds_code(k, q[i] as int) {
            let j = choose|j: int| 0 <= j < k.len() && #[trigger] k[j] as int == q[i] as int;
            assert(k[j] == q[i]);
        }
        assert(masks::holds_code(q, q[i] as int));
    }
    if has_the_characters(k, q, 0) {
        assert forall|i: int| 0 <= i < 128 implies !#[trigger] p(i) by {
            if masks::holds_code(q, i) {
                let j = choose|j: int| 0 <= j < q.len() && #[trigger] q[j] as int == i;
                assert(k.contains(q[j]));
            }
        }
        lemma_count_none(128, p);
    } else {
        let i = choose|i: int| 0 <= i < q.len() && !k.contains(#[trigger] q[i]);
        lemma_counted(128, p, q[i] as int, q[i] as int);
    }
    if has_the_characters(k, q, 1) {
        let c = choose|c: char| has_all_but(k, q, c);
        assert forall|i: int| 0 <= i < 128 && #[trigger] p(i) implies i == c as int by {
            let j = choose|j: int| 0 <= j < q.len() && #[trigger] q[j] as int == i;
            assert(!k.contains(q[j]));
        }
        lemma_count_one(128, p, c as int);
    } else if !has_the_characters(k, q, 0) {
        let i = choose|i: int| 0 <= i < q.len() && !k.contains(#[trigger] q[i]);
        let c = q[i];
        assert(!has_all_but(k, q, c));
        let j = choose|j: int| 0 <= j < q.len() && q[j] != c && !k.contains(#[trigger] q[j]);
        if (c as int) < q[j] as int {
            lemma_counted(128, p, c as int, q[j] as int);
        } else {
            assert(c as int != q[j] as int);
            lemma_counted(128, p, q[j] as int, c as int);
        }
    } else {
        let c = 'a';
        assert(!has_all_but(k, q, c));
    }
}

/// The keys that go to the fuzzy matcher are those near the query.
proof fn lemma_near(k: Seq<char>, q: Seq<char>)
    requires
        is_ascii_chars(q),
    ensures
        model::is_scored_key(k, q) <==> is_ascii_chars(k) && is_near(k, q),
        masks::allowed_typos(q) == typos(q),
{
    lemma_has_the_characters(k, q);
    lemma_holds(k, q);
}

/// A key that holds the query is one that does.
pub(crate) proof fn lemma_holds(k: Seq<char>, q: Seq<char>)
    ensures
        ranking::is_literal_match(k, q) <==> holds(k, q),
{
    reveal(holds);
    if holds(k, q) {
        let j = choose|j: int|
            0 <= j && j + q.len() <= k.len() && #[trigger] k.subrange(j, j + q.len()) == q;
        assert(utf8::occurs_at(k, q, j));
    }
    if ranking::is_literal_match(k, q) {
        let j = choose|j: int| utf8::occurs_at(k, q, j);
        assert(k.subrange(j, j + q.len()) == q);
    }
}

/// A match is among the fuzzy ones, or these fill the places that are left and each has a
/// score that is no worse.
pub open spec fn is_among_or_beaten(
    fuzzy: Seq<RankedModel>,
    room: int,
    candidate: ranking::CandidateModel,
    score: int,
) -> bool {
    ||| exists|i: int|
        #![trigger fuzzy[i]]
        0 <= i < fuzzy.len() && fuzzy[i].candidate == candidate && fuzzy[i].match_class
            == MatchClass::Fuzzy && fuzzy[i].fuzzy_score == score
    ||| fuzzy.len() == room && forall|i: int|
        #![trigger fuzzy[i]]
        0 <= i < fuzzy.len() ==> fuzzy[i].fuzzy_score <= score
}

/// What is to be found is among the best, or these are no worse.
proof fn lemma_among_or_beaten(
    fuzzy: Seq<RankedModel>,
    items: Seq<RankedModel>,
    room: nat,
    x: RankedModel,
)
    requires
        top::is_top(fuzzy, items, room, ranking::by_session_key()),
        items.contains(x),
        x.match_class == MatchClass::Fuzzy,
        forall|y: RankedModel| #[trigger]
            items.contains(y) ==> y.match_class == MatchClass::Fuzzy,
    ensures
        is_among_or_beaten(fuzzy, room as int, x.candidate, x.fuzzy_score),
{
    broadcast use vstd::multiset::group_multiset_axioms;
    broadcast use vstd::seq_lib::group_to_multiset_ensures;

    let key = ranking::by_session_key();
    if fuzzy.contains(x) {
        let i = choose|i: int| 0 <= i < fuzzy.len() && fuzzy[i] == x;
        assert(fuzzy[i].candidate == x.candidate);
    } else {
        assert(items.to_multiset().count(x) > fuzzy.to_multiset().count(x));
        if fuzzy.len() < room {
            top::lemma_nothing_left_out(fuzzy, items, room, key);
            assert(fuzzy.to_multiset().count(x) > 0);
            assert(false);
        }
        assert forall|i: int| #![trigger fuzzy[i]] 0 <= i < fuzzy.len() implies fuzzy[i].fuzzy_score
            <= x.fuzzy_score by {
            top::lemma_top_member(fuzzy, items, room, key, i);
            assert(items.contains(fuzzy[i]));
            assert(!order::lex_less(key(x), key(fuzzy[i])));
            crate::order_laws::law_order_of_matches(fuzzy[i], x);
        }
    }
}

/// All fuzzy matches are of the class of these.
proof fn lemma_fuzzy_class(
    m: IndexModel,
    query_lower: Seq<char>,
    scores: spec_fn(int) -> Option<u16>,
    found: spec_fn(int) -> Option<(Seq<usize>, i32)>,
    y: RankedModel,
)
    requires
        model::fuzzy_items(m, query_lower, scores, found).contains(y),
    ensures
        y.match_class == MatchClass::Fuzzy,
{
    let n = m.keys.len() as int;
    let items = model::fuzzy_items(m, query_lower, scores, found);
    let k = choose|k: int| 0 <= k < items.len() && items[k] == y;
    if is_ascii_chars(query_lower) {
        let scored = model::scored_items(m, query_lower, scores);
        let plain = model::plain_items(m, query_lower, true, found);
        if k < scored.len() {
            assert(scored.contains(y));
            let j = select::lemma_select_source(n, model::scored_choice(m, query_lower, scores), y);
        } else {
            assert(plain[k - scored.len()] == y);
            assert(plain.contains(y));
            let j = select::lemma_select_source(
                n,
                model::plain_choice(m, query_lower, true, found),
                y,
            );
        }
    } else {
        let j = select::lemma_select_source(n, model::plain_choice(m, query_lower, false, found), y);
    }
}

/// Every candidate near the query to which the fuzzy matcher gives a score is found: an ASCII
/// key that does not hold the query, is no more than a typo shorter than it, longer by any
/// amount, and has its characters but for a typo. It is among the fuzzy matches with its
/// score, or they fill the places that are left with scores as good.
pub proof fn law_candidate_near_the_query_is_found<
    M: Fn(&str, &str) -> Option<(Vec<usize>, i32)>,
>(
    m: IndexModel,
    f: M,
    query: Seq<char>,
    query_lower: Seq<char>,
    literal: Seq<RankedModel>,
    fuzzy: Seq<RankedModel>,
    k: Seq<char>,
    score: u16,
)
    requires
        m.wf(),
        model::are_session_matches(m, f, query, query_lower, literal, fuzzy),
        literal.len() < 8,
        is_ascii_chars(query_lower),
        encode_utf8(query_lower).len() >= 2,
        !query_lower.contains('\0'),
        m.candidates.contains_key(k),
        is_ascii_chars(k),
        is_near(k, query_lower),
        matcher::frizbee_score(query_lower, k, typos(query_lower) as u16) == Some(score),
    ensures
        is_among_or_beaten(fuzzy, 8 - literal.len(), m.candidates[k], -(score as int)),
{
    let key = ranking::by_session_key();
    let room = (8 - literal.len()) as nat;
    let (scores, found) = choose|
        scores: spec_fn(int) -> Option<u16>,
        found: spec_fn(int) -> Option<(Seq<usize>, i32)>,
    |
        #![trigger model::are_key_scores(m, query_lower, scores), model::are_plain_answers(m, f, query, query_lower, is_ascii_chars(query_lower), found)]
        model::are_key_scores(m, query_lower, scores) && model::are_plain_answers(
            m,
            f,
            query,
            query_lower,
            is_ascii_chars(query_lower),
            found,
        ) && top::is_top(fuzzy, model::fuzzy_items(m, query_lower, scores, found), room, key);
    let items = model::fuzzy_items(m, query_lower, scores, found);
    let scored = model::scored_items(m, query_lower, scores);
    let choice = model::scored_choice(m, query_lower, scores);
    lemma_near(k, query_lower);
    assert(m.keys.contains(k));
    let j = choose|j: int| 0 <= j < m.keys.len() && m.keys[j] == k;
    assert(scores(j) == Some(score));
    assert(choice(j) is Some);
    let x = choice(j)->0;
    select::lemma_select_place(m.keys.len() as int, choice, j);
    let at = select::select(j, choice).len() as int;
    assert(items[at] == scored[at]);
    assert(items.contains(x));
    assert forall|y: RankedModel| #[trigger] items.contains(y) implies y.match_class
        == MatchClass::Fuzzy by {
        lemma_fuzzy_class(m, query_lower, scores, found, y);
    }
    lemma_among_or_beaten(fuzzy, items, room, x);
}

/// A word typed with a letter left out or a wrong letter is offered: where a search leaves
/// room, with the dictionary or without, every candidate near the query that the fuzzy matcher
/// scores is among the results.
pub proof fn law_word_with_a_typo_is_offered<M: Fn(&str, &str) -> Option<(Vec<usize>, i32)>>(
    m: IndexModel,
    f: M,
    query: Seq<char>,
    include_dictionary: bool,
    results: Seq<CompletionMatch>,
    k: Seq<char>,
)
    requires
        m.wf(),
        query.len() >= 2,
        model::are_results(m, f, query, include_dictionary, results),
        results.len() < 8,
        is_ascii_chars(text::lowercase(query)),
        encode_utf8(text::lowercase(query)).len() >= 2,
        !text::lowercase(query).contains('\0'),
        m.candidates.contains_key(k),
        is_ascii_chars(k),
        is_near(k, text::lowercase(query)),
        matcher::frizbee_score(
            text::lowercase(query),
            k,
            typos(text::lowercase(query)) as u16,
        ) is Some,
    ensures
        exists|i: int|
            #![trigger results[i]]
            0 <= i < results.len() && results[i].text@ == m.candidates[k].text && results[i].kind
                == m.candidates[k].kind,
{
    let ql = text::lowercase(query);
    let score = matcher::frizbee_score(ql, k, typos(ql) as u16)->0;
    let (session, words) = choose|session: Seq<CompletionMatch>, words: Seq<CompletionMatch>|
        #[trigger]
        model::are_result_parts(m, f, query, include_dictionary, session, words) && results
            == session + words;
    let (literal, fuzzy) = choose|literal: Seq<RankedModel>, fuzzy: Seq<RankedModel>| #[trigger]
        model::are_session_matches(m, f, query, ql, literal, fuzzy)
            && model::are_session_completions(literal + fuzzy, ql, session);
    law_candidate_near_the_query_is_found(m, f, query, ql, literal, fuzzy, k, score);
    let i = choose|i: int|
        #![trigger fuzzy[i]]
        0 <= i < fuzzy.len() && fuzzy[i].candidate == m.candidates[k] && fuzzy[i].match_class
            == MatchClass::Fuzzy && fuzzy[i].fuzzy_score == -(score as int);
    let at = literal.len() + i;
    assert((literal + fuzzy)[at] == fuzzy[i]);
    assert(ranking::is_session_completion((literal + fuzzy)[at], ql, session[at]));
    assert(results[at] == session[at]);
}

/// A match that the query heads is of a candidate whose key begins with the query. It is exact
/// if the key is the query, and a prefix otherwise; a candidate that is what was typed is none.
pub proof fn law_headed_matches_begin_with_the_query<
    M: Fn(&str, &str) -> Option<(Vec<usize>, i32)>,
>(
    m: IndexModel,
    f: M,
    query: Seq<char>,
    query_lower: Seq<char>,
    literal: Seq<RankedModel>,
    fuzzy: Seq<RankedModel>,
    i: int,
)
    requires
        m.wf(),
        model::are_session_matches(m, f, query, query_lower, literal, fuzzy),
        0 <= i < literal.len(),
    ensures
        ({
            let x = literal[i];
            let k = x.candidate.key;
            &&& m.candidates.contains_key(k)
            &&& m.candidates[k] == x.candidate
            &&& query_lower.len() <= k.len()
            &&& k.take(query_lower.len() as int) == query_lower
            &&& k == query_lower ==> x.match_class == MatchClass::Exact
            &&& k != query_lower ==> x.match_class == MatchClass::Prefix
            &&& !(k == query_lower && x.candidate.text == query)
        }),
        literal.len() <= 8,
        literal.len() + fuzzy.len() <= 8,
        literal.len() == 8 ==> fuzzy.len() == 0,
{
    let items = model::literal_items(m, query, query_lower);
    top::lemma_top_member(literal, items, 8, ranking::by_session_key(), i);
    let j = crate::laws::lemma_literal_item(m, query, query_lower, literal[i]);
    assert(m.keys[j].take(query_lower.len() as int) =~= query_lower);
}

/// A fuzzy match is of a candidate whose key does not hold the query. Between ASCII texts the
/// key is near the query, and the match is as good as the fuzzy matcher scores it; otherwise
/// the plain matcher found the query in the candidate, and says how good the match is.
pub proof fn law_fuzzy_matches_are_near<M: Fn(&str, &str) -> Option<(Vec<usize>, i32)>>(
    m: IndexModel,
    f: M,
    query: Seq<char>,
    query_lower: Seq<char>,
    literal: Seq<RankedModel>,
    fuzzy: Seq<RankedModel>,
    i: int,
)
    requires
        m.wf(),
        model::are_session_matches(m, f, query, query_lower, literal, fuzzy),
        0 <= i < fuzzy.len(),
    ensures
        ({
            let x = fuzzy[i];
            let k = x.candidate.key;
            let q = query_lower;
            &&& literal.len() < 8
            &&& m.candidates.contains_key(k)
            &&& m.candidates[k] == x.candidate
            &&& x.match_class == MatchClass::Fuzzy
            &&& !holds(k, q)
            &&& is_ascii_chars(q) && is_ascii_chars(k) ==> {
                &&& is_near(k, q)
                &&& encode_utf8(q).len() >= 2 && !q.contains('\0') ==> {
                    &&& matcher::frizbee_score(q, k, typos(q) as u16) is Some
                    &&& x.fuzzy_score == -(matcher::frizbee_score(q, k, typos(q) as u16)->0 as int)
                }
            }
            &&& !(is_ascii_chars(q) && is_ascii_chars(k)) ==> x.places is Resolved && exists|
                score: i32,
            | #[trigger]
                ranking::is_fuzzy_answer(
                    f,
                    x.candidate.text,
                    query,
                    Some((x.places->Resolved_0, score)),
                ) && x.fuzzy_score == score
        }),
{
    let key = ranking::by_session_key();
    let q = query_lower;
    let room = (8 - literal.len()) as nat;
    let (scores, found) = choose|
        scores: spec_fn(int) -> Option<u16>,
        found: spec_fn(int) -> Option<(Seq<usize>, i32)>,
    |
        #![trigger model::are_key_scores(m, q, scores), model::are_plain_answers(m, f, query, q, is_ascii_chars(q), found)]
        model::are_key_scores(m, q, scores) && model::are_plain_answers(
            m,
            f,
            query,
            q,
            is_ascii_chars(q),
            found,
        ) && top::is_top(fuzzy, model::fuzzy_items(m, q, scores, found), room, key);
    let items = model::fuzzy_items(m, q, scores, found);
    top::lemma_top_member(fuzzy, items, room, key, i);
    let x = fuzzy[i];
    let j = crate::laws::lemma_fuzzy_item(m, q, scores, found, x);
    let k = m.keys[j];
    lemma_holds(k, q);
    if is_ascii_chars(q) && is_ascii_chars(k) {
        lemma_near(k, q);
    } else {
        assert(model::is_plain_key(k, q, is_ascii_chars(q)));
        assert(ranking::is_fuzzy_answer(f, m.candidates[k].text, query, found(j)));
        let (indices, score) = found(j)->0;
        assert(x.places == MatchPlaces::Resolved(indices));
        assert(found(j) == Some((x.places->Resolved_0, score)));
        assert(ranking::is_fuzzy_answer(
            f,
            x.candidate.text,
            query,
            Some((x.places->Resolved_0, score)),
        ));
    }
}

/// A candidate that the fuzzy matcher cannot take, because it or the query is not ASCII, is
/// found wherever the plain matcher finds the query in it.
pub proof fn law_candidate_that_is_not_ascii_is_found<
    M: Fn(&str, &str) -> Option<(Vec<usize>, i32)>,
>(
    m: IndexModel,
    f: M,
    query: Seq<char>,
    query_lower: Seq<char>,
    literal: Seq<RankedModel>,
    fuzzy: Seq<RankedModel>,
    k: Seq<char>,
    t: &str,
    q: &str,
    answer: (Vec<usize>, i32),
)
    requires
        m.wf(),
        result_laws::is_function(f),
        model::are_session_matches(m, f, query, query_lower, literal, fuzzy),
        literal.len() < 8,
        m.candidates.contains_key(k),
        !is_ascii_chars(query_lower) || !is_ascii_chars(k),
        !holds(k, query_lower),
        t@ == m.candidates[k].text,
        q@ == query,
        call_ensures(f, (t, q), Some(answer)),
    ensures
        is_among_or_beaten(fuzzy, 8 - literal.len(), m.candidates[k], answer.1 as int),
{
    let key = ranking::by_session_key();
    let ascii = is_ascii_chars(query_lower);
    let room = (8 - literal.len()) as nat;
    let (scores, found) = choose|
        scores: spec_fn(int) -> Option<u16>,
        found: spec_fn(int) -> Option<(Seq<usize>, i32)>,
    |
        #![trigger model::are_key_scores(m, query_lower, scores), model::are_plain_answers(m, f, query, query_lower, ascii, found)]
        model::are_key_scores(m, query_lower, scores) && model::are_plain_answers(
            m,
            f,
            query,
            query_lower,
            ascii,
            found,
        ) && top::is_top(fuzzy, model::fuzzy_items(m, query_lower, scores, found), room, key);
    let items = model::fuzzy_items(m, query_lower, scores, found);
    let plain = model::plain_items(m, query_lower, ascii, found);
    let choice = model::plain_choice(m, query_lower, ascii, found);
    lemma_holds(k, query_lower);
    assert(m.keys.contains(k));
    let j = choose|j: int| 0 <= j < m.keys.len() && m.keys[j] == k;
    assert(model::is_plain_key(k, query_lower, ascii));
    assert(ranking::is_fuzzy_answer(f, m.candidates[m.keys[j]].text, query, found(j)));
    assert(found(j) == ranking::found_view(Some(answer)));
    assert(choice(j) is Some);
    let x = choice(j)->0;
    select::lemma_select_place(m.keys.len() as int, choice, j);
    let at = select::select(j, choice).len() as int;
    assert(plain[at] == x);
    if ascii {
        let scored = model::scored_items(m, query_lower, scores);
        assert(items[scored.len() + at] == plain[at]);
    }
    assert(items.contains(x));
    assert forall|y: RankedModel| #[trigger] items.contains(y) implies y.match_class
        == MatchClass::Fuzzy by {
        lemma_fuzzy_class(m, query_lower, scores, found, y);
    }
    lemma_among_or_beaten(fuzzy, items, room, x);
}

/// What is highlighted of a session result: all of an exact match, of a prefix as many
/// characters from the first on as the query has, and of a fuzzy match the characters that the
/// matcher names, each once and in their order.
pub proof fn law_matched_characters_are_named<M: Fn(&str, &str) -> Option<(Vec<usize>, i32)>>(
    m: IndexModel,
    f: M,
    query: Seq<char>,
    literal: Seq<RankedModel>,
    fuzzy: Seq<RankedModel>,
    session: Seq<CompletionMatch>,
    i: int,
)
    requires
        m.wf(),
        model::are_session_matches(m, f, query, text::lowercase(query), literal, fuzzy),
        model::are_session_completions(literal + fuzzy, text::lowercase(query), session),
        0 <= i < session.len(),
    ensures
        ({
            let x = (literal + fuzzy)[i];
            let q = text::lowercase(query);
            let k = x.candidate.key;
            let marked = session[i].match_indices@;
            &&& session[i].text@ == x.candidate.text
            &&& session[i].kind == x.candidate.kind
            &&& x.match_class == MatchClass::Exact ==> marked.len() == x.candidate.text.len()
            &&& x.match_class == MatchClass::Prefix ==> marked.len() == query.len()
            &&& x.match_class != MatchClass::Fuzzy ==> forall|j: int|
                0 <= j < marked.len() && j <= usize::MAX ==> #[trigger] marked[j] == j
            &&& x.match_class == MatchClass::Fuzzy && is_ascii_chars(q) && is_ascii_chars(k)
                && encode_utf8(q).len() >= 2 && !q.contains('\0') ==> {
                match matcher::frizbee_indices(q, k, typos(q) as u16) {
                    Some(named) => {
                        &&& forall|a: int, b: int|
                            0 <= a < b < marked.len() ==> marked[a] < marked[b]
                        &&& forall|j: usize| #[trigger] marked.contains(j) <==> named.contains(j)
                    },
                    None => marked.len() == 0,
                }
            }
        }),
{
    let both = literal + fuzzy;
    let q = text::lowercase(query);
    assert(ranking::is_session_completion(both[i], q, session[i]));
    if i < literal.len() {
        assert(both[i] == literal[i]);
        let items = model::literal_items(m, query, q);
        top::lemma_top_member(literal, items, 8, ranking::by_session_key(), i);
        let j = crate::laws::lemma_literal_item(m, query, q, literal[i]);
    } else {
        let at = i - literal.len();
        assert(both[i] == fuzzy[at]);
        law_fuzzy_matches_are_near(m, f, query, q, literal, fuzzy, at);
        let key = ranking::by_session_key();
        let room = (8 - literal.len()) as nat;
        let (scores, found) = choose|
            scores: spec_fn(int) -> Option<u16>,
            found: spec_fn(int) -> Option<(Seq<usize>, i32)>,
        |
            #![trigger model::are_key_scores(m, q, scores), model::are_plain_answers(m, f, query, q, is_ascii_chars(q), found)]
            model::are_key_scores(m, q, scores) && model::are_plain_answers(
                m,
                f,
                query,
                q,
                is_ascii_chars(q),
                found,
            ) && top::is_top(fuzzy, model::fuzzy_items(m, q, scores, found), room, key);
        let items = model::fuzzy_items(m, q, scores, found);
        top::lemma_top_member(fuzzy, items, room, key, at);
        let j = crate::laws::lemma_fuzzy_item(m, q, scores, found, fuzzy[at]);
        if is_ascii_chars(q) {
            lemma_near(m.keys[j], q);
        }
    }
}

/// Every query of ordinary length can be searched for, in a session of ordinary size.
pub proof fn law_ordinary_queries_can_be_searched_for(m: IndexModel, query: Seq<char>)
    requires
        m.keys.len() <= u32::MAX,
        forall|j: int| 0 <= j < m.keys.len() ==> encode_utf8(#[trigger] m.keys[j]).len() <= 65533,
        0 < encode_utf8(text::lowercase(query)).len() <= 512,
    ensures
        model::can_search(m, query),
{
}

/// How a candidate is ranked whose key holds the query: as exact where the key is the query, as
/// a prefix where the key begins with it, and as a substring otherwise; but not at all where it
/// is what was typed. A key that does not hold the query is ranked by none of these.
pub proof fn law_candidates_are_ranked_by_place(
    c: ranking::CandidateModel,
    query: Seq<char>,
    q: Seq<char>,
)
    ensures
        match ranking::literal_rank(c, query, q) {
            Some(x) => {
                &&& x.candidate == c
                &&& holds(c.key, q)
                &&& !(c.key == q && c.text == query)
                &&& c.key == q ==> x.match_class == MatchClass::Exact && x.fuzzy_score == -1000
                &&& c.key != q && begins_with(c.key, q) ==> x.match_class == MatchClass::Prefix
                    && x.fuzzy_score == -500
                &&& !begins_with(c.key, q) ==> x.match_class == MatchClass::Substring
                    && x.fuzzy_score == 0
            },
            None => !holds(c.key, q) || (c.key == q && c.text == query),
        },
{
    let inside = utf8::contains_text(c.key, q);
    let prefix = q.is_prefix_of(c.key);
    assert(holds(c.key, q) == inside) by {
        lemma_holds(c.key, q);
    }
    assert(prefix == begins_with(c.key, q)) by {
        if prefix {
            assert(c.key.take(q.len() as int) =~= q);
        }
        if begins_with(c.key, q) {
            assert(q =~= c.key.subrange(0, q.len() as int));
        }
    }
    assert(c.key == q || prefix ==> inside) by {
        if c.key == q || prefix {
            assert(c.key.subrange(0int, 0int + q.len()) =~= q);
            assert(utf8::occurs_at(c.key, q, 0));
        }
    }
    lemma_literal_rank(c, query, q, prefix, inside);
}

/// `k` begins with `q`.
pub open spec fn begins_with(k: Seq<char>, q: Seq<char>) -> bool {
    q.len() <= k.len() && k.take(q.len() as int) == q
}

proof fn lemma_literal_rank(
    c: ranking::CandidateModel,
    query: Seq<char>,
    q: Seq<char>,
    prefix: bool,
    inside: bool,
)
    requires
        prefix == q.is_prefix_of(c.key),
        inside == utf8::contains_text(c.key, q),
        c.key == q ==> prefix,
    ensures
        match ranking::literal_rank(c, query, q) {
            Some(x) => {
                &&& x.candidate == c
                &&& c.key == q || prefix || inside
                &&& !(c.key == q && c.text == query)
                &&& x.match_class == if c.key == q {
                    MatchClass::Exact
                } else if prefix {
                    MatchClass::Prefix
                } else {
                    MatchClass::Substring
                }
                &&& x.fuzzy_score == if c.key == q {
                    -1000int
                } else if prefix {
                    -500int
                } else {
                    0int
                }
            },
            None => (c.key == q && c.text == query) || !(c.key == q || prefix || inside),
        },
{
}

/// A candidate that a fuzzy matcher found is a fuzzy match, as good and at the places as the
/// matcher says; one that it did not find is no match.
pub proof fn law_fuzzy_answer_is_taken_as_it_is(
    c: ranking::CandidateModel,
    found: Option<(Seq<usize>, i32)>,
)
    ensures
        found is None ==> ranking::fuzzy_rank(c, found) is None,
        found matches Some((indices, score)) ==> {
            let x = ranking::fuzzy_rank(c, found)->0;
            &&& ranking::fuzzy_rank(c, found) is Some
            &&& x.candidate == c
            &&& x.match_class == MatchClass::Fuzzy
            &&& x.fuzzy_score == score
            &&& x.places == MatchPlaces::Resolved(indices)
        },
{
}

/// Of two results of the session that match alike, in the same class, with the same score and
/// of the same kind, whatever the kind, the earlier one was seen later; and one of a better
/// kind comes before one of another.
pub proof fn law_later_seen_results_come_first<M: Fn(&str, &str) -> Option<(Vec<usize>, i32)>>(
    m: IndexModel,
    f: M,
    query: Seq<char>,
    literal: Seq<RankedModel>,
    fuzzy: Seq<RankedModel>,
    session: Seq<CompletionMatch>,
    i: int,
    j: int,
)
    requires
        m.wf(),
        model::are_session_matches(m, f, query, text::lowercase(query), literal, fuzzy),
        model::are_session_completions(literal + fuzzy, text::lowercase(query), session),
        0 <= i < j < session.len(),
        (literal + fuzzy)[i].match_class == (literal + fuzzy)[j].match_class,
        (literal + fuzzy)[i].fuzzy_score == (literal + fuzzy)[j].fuzzy_score,
    ensures
        ({
            let x = (literal + fuzzy)[i].candidate;
            let y = (literal + fuzzy)[j].candidate;
            &&& m.candidates.contains_key(x.key) && m.candidates[x.key] == x
            &&& m.candidates.contains_key(y.key) && m.candidates[y.key] == y
            &&& session[i].text@ == x.text && session[j].text@ == y.text
            &&& session[i].kind == session[j].kind ==> x.last_seen_seq >= y.last_seen_seq
            &&& !crate::order_laws::is_better_kind(session[j].kind, session[i].kind)
        }),
{
    let q = text::lowercase(query);
    let both = literal + fuzzy;
    crate::order_laws::law_results_stand_in_order(m, f, query, q, literal, fuzzy, i, j);
    crate::laws::lemma_session_result(m, f, query, literal, fuzzy, i);
    crate::laws::lemma_session_result(m, f, query, literal, fuzzy, j);
    assert(ranking::is_session_completion(both[i], q, session[i]));
    assert(ranking::is_session_completion(both[j], q, session[j]));
}

} // verus!
