//! Laws of the session index and of the search over it.
use vstd::prelude::*;
use vstd::utf8::*;

use crate::dictionary_ranking;
use crate::dictionary_ranking::DictionaryRankedModel;
use crate::extract;
use crate::model;
use crate::model::IndexModel;
use crate::order;
use crate::ranking;
use crate::ranking::{
    CompletionKind, CompletionMatch, MatchClass, RankedModel, MAX_COMPLETION_RESULTS,
};
use crate::select;
use crate::text;
use crate::top;
use crate::utf8;

verus! {

/// A sighting keeps the index sound.
pub proof fn law_sighting_keeps_index_sound(m: IndexModel, raw: Seq<char>, kind: CompletionKind)
    requires
        m.wf(),
    ensures
        model::with_candidate(m, raw, kind).wf(),
{
    let t = text::trimmed(raw);
    let key = text::lowercase(t);
    let r = model::with_candidate(m, raw, kind);
    if model::is_candidate_text(t) && key.len() > 0 {
        if !m.candidates.contains_key(key) {
            assert(!m.keys.contains(key));
            lemma_keys_ranked(m);
            let p = top::lemma_position_separates(m.keys, utf8::text_key(key), model::by_text());
            assert forall|i: int| 0 <= i < p implies utf8::text_less(#[trigger] m.keys[i], key) by {
                assert(order::lex_less(model::by_text()(m.keys[i]), utf8::text_key(key)));
            }
            assert forall|i: int| p <= i < m.keys.len() implies !utf8::text_less(
                #[trigger] m.keys[i],
                key,
            ) by {
                assert(!order::lex_less(model::by_text()(m.keys[i]), utf8::text_key(key)));
            }
            model::lemma_insert_sorted(m.keys, key, p);
        }
        assert forall|k: Seq<char>| #[trigger] r.keys.contains(k) <==> r.candidates.contains_key(
            k,
        ) by {
            assert(m.keys.contains(k) <==> m.candidates.contains_key(k));
        }
        assert forall|k: Seq<char>| #[trigger] r.candidates.contains_key(k) implies {
            &&& r.candidates[k].key == k
            &&& text::lowercase(r.candidates[k].text) == k
            &&& k.len() > 0
            &&& model::is_candidate_text(r.candidates[k].text)
            &&& text::trimmed(r.candidates[k].text) == r.candidates[k].text
            &&& r.candidates[k].frequency >= 1
        } by {
            text::lemma_trimmed_again(raw);
            if k != key {
                assert(m.candidates.contains_key(k));
            } else if m.candidates.contains_key(key) {
                assert(m.candidates[key].key == key);
            }
        }
    }
}

/// What is found in texts never brings a candidate of the dictionary's kind.
pub proof fn law_texts_bring_no_words(m: IndexModel, s: Seq<char>)
    requires
        m.has_no_words(),
    ensures
        model::with_candidates(m, extract::text_candidates(s)).has_no_words(),
{
    let found = extract::text_candidates(s);
    assert forall|i: int| 0 <= i < found.len() implies (#[trigger] found[i]).1
        != CompletionKind::Dictionary by {
        law_text_candidates(s, i);
    }
    lemma_sightings_bring_no_words(m, found);
}

proof fn lemma_sightings_bring_no_words(
    m: IndexModel,
    found: Seq<(Seq<char>, CompletionKind)>,
)
    requires
        m.has_no_words(),
        forall|i: int|
            0 <= i < found.len() ==> (#[trigger] found[i]).1 != CompletionKind::Dictionary,
    ensures
        model::with_candidates(m, found).has_no_words(),
    decreases found.len(),
{
    if found.len() > 0 {
        let rest = found.drop_last();
        assert forall|i: int| 0 <= i < rest.len() implies (#[trigger] rest[i]).1
            != CompletionKind::Dictionary by {
            assert(rest[i] == found[i]);
        }
        lemma_sightings_bring_no_words(m, rest);
        assert(found.last() == found[found.len() - 1]);
        let before = model::with_candidates(m, rest);
        let after = model::with_candidates(m, found);
        assert forall|k: Seq<char>| #[trigger] after.candidates.contains_key(k) implies
            after.candidates[k].kind != CompletionKind::Dictionary by {
            if before.candidates.contains_key(k) {
                assert(before.candidates[k].kind != CompletionKind::Dictionary);
            }
        }
    }
}

/// Any number of sightings keeps the index sound.
pub proof fn law_sightings_keep_index_sound(
    m: IndexModel,
    found: Seq<(Seq<char>, CompletionKind)>,
)
    requires
        m.wf(),
    ensures
        model::with_candidates(m, found).wf(),
    decreases found.len(),
{
    if found.len() > 0 {
        law_sightings_keep_index_sound(m, found.drop_last());
        law_sighting_keeps_index_sound(
            model::with_candidates(m, found.drop_last()),
            found.last().0,
            found.last().1,
        );
    }
}

proof fn lemma_keys_ranked(m: IndexModel)
    requires
        m.wf(),
    ensures
        top::is_ranked(m.keys, model::by_text()),
{
    assert forall|i: int, j: int| 0 <= i < j < m.keys.len() implies !order::lex_less(
        model::by_text()(m.keys[j]),
        model::by_text()(m.keys[i]),
    ) by {
        assert(utf8::text_less(m.keys[i], m.keys[j]));
        order::lex_asymmetric(utf8::text_key(m.keys[i]), utf8::text_key(m.keys[j]));
    }
}

/// No candidate is ever lost, nor seen less often, nor does its kind come to weigh less.
pub proof fn law_candidates_are_kept(
    m: IndexModel,
    found: Seq<(Seq<char>, CompletionKind)>,
    k: Seq<char>,
)
    requires
        m.candidates.contains_key(k),
    ensures
        model::with_candidates(m, found).candidates.contains_key(k),
        model::with_candidates(m, found).candidates[k].frequency >= m.candidates[k].frequency,
        ranking::kind_rank(model::with_candidates(m, found).candidates[k].kind)
            >= ranking::kind_rank(m.candidates[k].kind),
    decreases found.len(),
{
    if found.len() > 0 {
        law_candidates_are_kept(m, found.drop_last(), k);
    }
}

/// A text that is fit to be a candidate is one after its sighting, and the one that was
/// seen last.
pub proof fn law_sighting_is_recorded(m: IndexModel, raw: Seq<char>, kind: CompletionKind)
    requires
        model::is_candidate_text(text::trimmed(raw)),
        text::lowercase(text::trimmed(raw)).len() > 0,
    ensures
        ({
            let r = model::with_candidate(m, raw, kind);
            let k = text::lowercase(text::trimmed(raw));
            &&& r.candidates.contains_key(k)
            &&& r.candidates[k].last_seen_seq == r.next_seq
            &&& r.next_seq != m.next_seq
            &&& ranking::kind_rank(r.candidates[k].kind) >= ranking::kind_rank(kind)
        }),
{
}

/// A second sighting of the same text changes no key, and is counted.
pub proof fn law_second_sighting_is_counted(m: IndexModel, raw: Seq<char>, kind: CompletionKind)
    requires
        model::is_candidate_text(text::trimmed(raw)),
        text::lowercase(text::trimmed(raw)).len() > 0,
    ensures
        ({
            let once = model::with_candidate(m, raw, kind);
            let twice = model::with_candidate(once, raw, kind);
            let k = text::lowercase(text::trimmed(raw));
            &&& twice.keys == once.keys
            &&& twice.candidates.dom() == once.candidates.dom()
            &&& twice.candidates[k].text == once.candidates[k].text
            &&& once.candidates[k].frequency < u32::MAX ==> twice.candidates[k].frequency
                == once.candidates[k].frequency + 1
        }),
{
    let once = model::with_candidate(m, raw, kind);
    let twice = model::with_candidate(once, raw, kind);
    let k = text::lowercase(text::trimmed(raw));
    assert(once.candidates.contains_key(k));
    assert(twice.candidates.dom() =~= once.candidates.dom());
}

/// A match that the query heads holds the query; it is not fuzzy.
pub(crate) proof fn lemma_literal_item(
    m: IndexModel,
    query: Seq<char>,
    query_lower: Seq<char>,
    x: RankedModel,
) -> (j: int)
    requires
        m.wf(),
        model::literal_items(m, query, query_lower).contains(x),
    ensures
        0 <= j < m.keys.len(),
        x.match_class != MatchClass::Fuzzy,
        query_lower.is_prefix_of(m.keys[j]),
        model::literal_item(m, query, query_lower, m.keys[j]) == Some(x),
        x.candidate == m.candidates[m.keys[j]],
        x.candidate.key == m.keys[j],
        m.candidates.contains_key(m.keys[j]),
        !(x.candidate.key == query_lower && x.candidate.text == query),
{
    let j = select::lemma_select_source(
        m.keys.len() as int,
        model::literal_choice(m, query, query_lower),
        x,
    );
    assert(m.keys.contains(m.keys[j]));
    j
}

/// A fuzzy match is of a candidate whose key does not hold the query.
pub(crate) proof fn lemma_fuzzy_item(
    m: IndexModel,
    query_lower: Seq<char>,
    scores: spec_fn(int) -> Option<u16>,
    found: spec_fn(int) -> Option<(Seq<usize>, i32)>,
    x: RankedModel,
) -> (j: int)
    requires
        m.wf(),
        model::fuzzy_items(m, query_lower, scores, found).contains(x),
    ensures
        0 <= j < m.keys.len(),
        x.match_class == MatchClass::Fuzzy,
        x.candidate == m.candidates[m.keys[j]],
        x.candidate.key == m.keys[j],
        m.candidates.contains_key(m.keys[j]),
        !ranking::is_literal_match(m.keys[j], query_lower),
        if is_ascii_chars(query_lower) && is_ascii_chars(m.keys[j]) {
            model::scored_choice(m, query_lower, scores)(j) == Some(x)
        } else {
            model::plain_choice(m, query_lower, is_ascii_chars(query_lower), found)(j) == Some(x)
        },
{
    let n = m.keys.len() as int;
    let items = model::fuzzy_items(m, query_lower, scores, found);
    let k = choose|k: int| 0 <= k < items.len() && items[k] == x;
    if is_ascii_chars(query_lower) {
        let scored = model::scored_items(m, query_lower, scores);
        let plain = model::plain_items(m, query_lower, true, found);
        if k < scored.len() {
            assert(scored.contains(x));
            let j = select::lemma_select_source(
                n,
                model::scored_choice(m, query_lower, scores),
                x,
            );
            assert(m.keys.contains(m.keys[j]));
            j
        } else {
            assert(plain[k - scored.len()] == x);
            assert(plain.contains(x));
            let j = select::lemma_select_source(
                n,
                model::plain_choice(m, query_lower, true, found),
                x,
            );
            assert(m.keys.contains(m.keys[j]));
            j
        }
    } else {
        let j = select::lemma_select_source(
            n,
            model::plain_choice(m, query_lower, false, found),
            x,
        );
        assert(m.keys.contains(m.keys[j]));
        j
    }
}

/// A match that the query heads comes before any fuzzy match.
proof fn lemma_literal_first(
    m: IndexModel,
    query: Seq<char>,
    query_lower: Seq<char>,
    scores: spec_fn(int) -> Option<u16>,
    found: spec_fn(int) -> Option<(Seq<usize>, i32)>,
    x: RankedModel,
    y: RankedModel,
)
    requires
        m.wf(),
        model::literal_items(m, query, query_lower).contains(x),
        model::fuzzy_items(m, query_lower, scores, found).contains(y),
    ensures
        order::lex_less(ranking::by_session_key()(x), ranking::by_session_key()(y)),
{
    let i = lemma_literal_item(m, query, query_lower, x);
    let j = lemma_fuzzy_item(m, query_lower, scores, found, y);
    assert(ranking::session_key(x)[0] < ranking::session_key(y)[0]);
}

/// The session matches are the best of all: those that the query heads come first, the
/// fuzzy ones fill the room that is left, and together they are the best few of both.
pub proof fn law_session_matches_are_the_best<M: Fn(&str, &str) -> Option<(Vec<usize>, i32)>>(
    m: IndexModel,
    f: M,
    query: Seq<char>,
    query_lower: Seq<char>,
    literal: Seq<RankedModel>,
    fuzzy: Seq<RankedModel>,
)
    requires
        m.wf(),
        model::are_session_matches(m, f, query, query_lower, literal, fuzzy),
    ensures
        literal.len() + fuzzy.len() <= MAX_COMPLETION_RESULTS,
        literal.len() < MAX_COMPLETION_RESULTS ==> exists|
            scores: spec_fn(int) -> Option<u16>,
            found: spec_fn(int) -> Option<(Seq<usize>, i32)>,
        |
            #![trigger model::are_key_scores(m, query_lower, scores), model::are_plain_answers(m, f, query, query_lower, is_ascii_chars(query_lower), found)]
            model::are_key_scores(m, query_lower, scores) && model::are_plain_answers(
                m,
                f,
                query,
                query_lower,
                is_ascii_chars(query_lower),
                found,
            ) && top::is_top(
                literal + fuzzy,
                model::literal_items(m, query, query_lower) + model::fuzzy_items(
                    m,
                    query_lower,
                    scores,
                    found,
                ),
                MAX_COMPLETION_RESULTS as nat,
                ranking::by_session_key(),
            ),
        literal.len() >= MAX_COMPLETION_RESULTS ==> forall|
            scores: spec_fn(int) -> Option<u16>,
            found: spec_fn(int) -> Option<(Seq<usize>, i32)>,
        |
            top::is_top(
                literal + fuzzy,
                model::literal_items(m, query, query_lower) + #[trigger] model::fuzzy_items(
                    m,
                    query_lower,
                    scores,
                    found,
                ),
                MAX_COMPLETION_RESULTS as nat,
                ranking::by_session_key(),
            ),
{
    let limit = MAX_COMPLETION_RESULTS as nat;
    let key = ranking::by_session_key();
    let a = model::literal_items(m, query, query_lower);
    if literal.len() < limit {
        let rest = (limit - literal.len()) as nat;
        let (scores, found) = choose|
            scores: spec_fn(int) -> Option<u16>,
            found: spec_fn(int) -> Option<(Seq<usize>, i32)>,
        |
            #![trigger model::are_key_scores(m, query_lower, scores), model::are_plain_answers(m, f, query, query_lower, is_ascii_chars(query_lower), found)]
            model::are_key_scores(m, query_lower, scores) && model::are_plain_answers(
                m,
                f,
                query,
                query_lower,
                is_ascii_chars(query_lower),
                found,
            ) && top::is_top(
                fuzzy,
                model::fuzzy_items(m, query_lower, scores, found),
                rest,
                key,
            );
        let b = model::fuzzy_items(m, query_lower, scores, found);
        assert forall|x: RankedModel, y: RankedModel| a.contains(x) && b.contains(
            y,
        ) implies order::lex_less(key(x), key(y)) by {
            lemma_literal_first(m, query, query_lower, scores, found, x, y);
        }
        top::lemma_top_of_layers(literal, a, fuzzy, b, limit, key);
    } else {
        assert forall|
            scores: spec_fn(int) -> Option<u16>,
            found: spec_fn(int) -> Option<(Seq<usize>, i32)>,
        |
            top::is_top(
                literal + fuzzy,
                a + #[trigger] model::fuzzy_items(m, query_lower, scores, found),
                limit,
                key,
            ) by {
            let b = model::fuzzy_items(m, query_lower, scores, found);
            assert forall|x: RankedModel, y: RankedModel| a.contains(x) && b.contains(
                y,
            ) implies order::lex_less(key(x), key(y)) by {
                lemma_literal_first(m, query, query_lower, scores, found, x, y);
            }
            assert(fuzzy =~= Seq::<RankedModel>::empty());
            top::lemma_top_of_nothing(b, 0, key);
            top::lemma_top_of_layers(literal, a, fuzzy, b, limit, key);
        }
    }
}

/// Where fewer than may be returned are headed by the query, all of them are returned.
pub proof fn law_every_headed_candidate_is_found<M: Fn(&str, &str) -> Option<(Vec<usize>, i32)>>(
    m: IndexModel,
    f: M,
    query: Seq<char>,
    query_lower: Seq<char>,
    literal: Seq<RankedModel>,
    fuzzy: Seq<RankedModel>,
    k: Seq<char>,
)
    requires
        m.wf(),
        model::are_session_matches(m, f, query, query_lower, literal, fuzzy),
        literal.len() < MAX_COMPLETION_RESULTS,
        m.candidates.contains_key(k),
        query_lower.is_prefix_of(k),
        !(k == query_lower && m.candidates[k].text == query),
    ensures
        exists|i: int| 0 <= i < literal.len() && (#[trigger] literal[i]).candidate == m.candidates[k],
{
    broadcast use vstd::multiset::group_multiset_axioms;
    broadcast use vstd::seq_lib::group_to_multiset_ensures;

    let items = model::literal_items(m, query, query_lower);
    let choice = model::literal_choice(m, query, query_lower);
    assert(m.keys.contains(k));
    let j = choose|j: int| 0 <= j < m.keys.len() && m.keys[j] == k;
    assert(utf8::occurs_at(k, query_lower, 0));
    assert(choice(j) is Some);
    select::lemma_select_place(m.keys.len() as int, choice, j);
    let x = choice(j)->0;
    assert(items.contains(x));
    top::lemma_nothing_left_out(
        literal,
        items,
        MAX_COMPLETION_RESULTS as nat,
        ranking::by_session_key(),
    );
    assert(literal.to_multiset().count(x) > 0);
    assert(literal.contains(x));
    let i = choose|i: int| 0 <= i < literal.len() && literal[i] == x;
    assert(literal[i].candidate == m.candidates[k]);
}

/// A search returns at most so many results.
pub proof fn law_results_are_bounded<M: Fn(&str, &str) -> Option<(Vec<usize>, i32)>>(
    m: IndexModel,
    f: M,
    query: Seq<char>,
    include_dictionary: bool,
    results: Seq<CompletionMatch>,
)
    requires
        model::are_results(m, f, query, include_dictionary, results),
    ensures
        results.len() <= MAX_COMPLETION_RESULTS,
{
    if query.len() >= ranking::MIN_COMPLETION_QUERY_CHARS {
        let query_lower = text::lowercase(query);
        let (session, words) = choose|session: Seq<CompletionMatch>, words: Seq<CompletionMatch>|
            #[trigger]
            model::are_result_parts(m, f, query, include_dictionary, session, words) && results
                == session + words;
        if include_dictionary && session.len() < MAX_COMPLETION_RESULTS {
            let limit = (MAX_COMPLETION_RESULTS - session.len()) as nat;
            let ws = choose|ws: Seq<DictionaryRankedModel>| #[trigger]
                model::are_words(m, query, query_lower, limit, ws) && model::are_word_completions(
                    ws,
                    query_lower,
                    words,
                );
        }
    }
}

/// What a dictionary result says: it is a word that the session does not have, and not
/// what was typed, if the words are their own lowercase.
pub proof fn lemma_dictionary_result(
    m: IndexModel,
    query: Seq<char>,
    limit: nat,
    words: Seq<CompletionMatch>,
    i: int,
)
    requires
        model::are_dictionary_results(m, query, text::lowercase(query), limit, words),
        0 <= i < words.len(),
    ensures
        words[i].kind == CompletionKind::Dictionary,
        !m.candidates.contains_key(words[i].text@),
        text::lowercase(words[i].text@) == words[i].text@ ==> words[i].text@ != query,
{
    let query_lower = text::lowercase(query);
    let ws = choose|ws: Seq<DictionaryRankedModel>| #[trigger]
        model::are_words(m, query, query_lower, limit, ws) && model::are_word_completions(
            ws,
            query_lower,
            words,
        );
    assert(dictionary_ranking::is_dictionary_completion(ws[i], query_lower, words[i]));
    assert(is_ascii_chars(query_lower));
    let scores = choose|scores: spec_fn(int) -> Option<u16>| #[trigger]
        model::are_word_scores(m, query_lower, scores) && top::is_top(
            ws,
            model::word_items(m, query, query_lower) + model::scored_word_items(
                m,
                query_lower,
                scores,
            ),
            limit,
            dictionary_ranking::by_dictionary_key(),
        );
    let a = model::word_items(m, query, query_lower);
    let b = model::scored_word_items(m, query_lower, scores);
    top::lemma_top_member(ws, a + b, limit, dictionary_ranking::by_dictionary_key(), i);
    let k = choose|k: int| 0 <= k < (a + b).len() && (a + b)[k] == ws[i];
    if k < a.len() {
        assert(a.contains(ws[i]));
        let j = select::lemma_select_source(
            model::words_to_rank(m, query_lower).len() as int,
            model::word_choice(m, query, query_lower),
            ws[i],
        );
    } else {
        assert(b[k - a.len()] == ws[i]);
        assert(b.contains(ws[i]));
        let j = select::lemma_select_source(
            model::words_to_score(m, query_lower).len() as int,
            model::scored_word_choice(m, query_lower, scores),
            ws[i],
        );
        let word = model::words_to_score(m, query_lower)[j].text;
        if word == query_lower {
            assert(word.subrange(0, word.len() as int) =~= query_lower);
            assert(utf8::occurs_at(word, query_lower, 0));
        }
    }
}

/// What a session result says: it is the text of a candidate, and not what was typed.
pub proof fn lemma_session_result<M: Fn(&str, &str) -> Option<(Vec<usize>, i32)>>(
    m: IndexModel,
    f: M,
    query: Seq<char>,
    literal: Seq<RankedModel>,
    fuzzy: Seq<RankedModel>,
    i: int,
)
    requires
        m.wf(),
        model::are_session_matches(m, f, query, text::lowercase(query), literal, fuzzy),
        0 <= i < (literal + fuzzy).len(),
    ensures
        ({
            let c = (literal + fuzzy)[i].candidate;
            &&& m.candidates.contains_key(c.key)
            &&& m.candidates[c.key] == c
            &&& c.text != query
        }),
{
    let query_lower = text::lowercase(query);
    if i < literal.len() {
        let items = model::literal_items(m, query, query_lower);
        top::lemma_top_member(
            literal,
            items,
            MAX_COMPLETION_RESULTS as nat,
            ranking::by_session_key(),
            i,
        );
        let j = lemma_literal_item(m, query, query_lower, literal[i]);
        assert((literal + fuzzy)[i] == literal[i]);
    } else {
        let p = i - literal.len();
        let rest = (MAX_COMPLETION_RESULTS - literal.len()) as nat;
        let (scores, found) = choose|
            scores: spec_fn(int) -> Option<u16>,
            found: spec_fn(int) -> Option<(Seq<usize>, i32)>,
        |
            #![trigger model::are_key_scores(m, query_lower, scores), model::are_plain_answers(m, f, query, query_lower, is_ascii_chars(query_lower), found)]
            model::are_key_scores(m, query_lower, scores) && model::are_plain_answers(
                m,
                f,
                query,
                query_lower,
                is_ascii_chars(query_lower),
                found,
            ) && top::is_top(
                fuzzy,
                model::fuzzy_items(m, query_lower, scores, found),
                rest,
                ranking::by_session_key(),
            );
        let items = model::fuzzy_items(m, query_lower, scores, found);
        top::lemma_top_member(fuzzy, items, rest, ranking::by_session_key(), p);
        let j = lemma_fuzzy_item(m, query_lower, scores, found, fuzzy[p]);
        assert((literal + fuzzy)[i] == fuzzy[p]);
        let key = m.keys[j];
        if key == query_lower {
            assert(key.subrange(0, key.len() as int) =~= query_lower);
            assert(utf8::occurs_at(key, query_lower, 0));
        }
    }
}

/// What was typed is never offered, neither by the session nor, if its words are their
/// own lowercase, by the dictionary.
pub proof fn law_typed_text_is_not_offered<M: Fn(&str, &str) -> Option<(Vec<usize>, i32)>>(
    m: IndexModel,
    f: M,
    query: Seq<char>,
    include_dictionary: bool,
    results: Seq<CompletionMatch>,
    i: int,
)
    requires
        m.wf(),
        model::are_results(m, f, query, include_dictionary, results),
        0 <= i < results.len(),
    ensures
        results[i].text@ == query ==> results[i].kind == CompletionKind::Dictionary
            && text::lowercase(query) != query,
{
    let query_lower = text::lowercase(query);
    let (session, words) = choose|session: Seq<CompletionMatch>, words: Seq<CompletionMatch>|
        #[trigger]
        model::are_result_parts(m, f, query, include_dictionary, session, words) && results
            == session + words;
    if i < session.len() {
        let (literal, fuzzy) = choose|literal: Seq<RankedModel>, fuzzy: Seq<RankedModel>|
            #[trigger]
            model::are_session_matches(m, f, query, query_lower, literal, fuzzy)
                && model::are_session_completions(literal + fuzzy, query_lower, session);
        lemma_session_result(m, f, query, literal, fuzzy, i);
        assert(ranking::is_session_completion((literal + fuzzy)[i], query_lower, session[i]));
        assert(results[i] == session[i]);
    } else {
        let p = i - session.len();
        let limit = (MAX_COMPLETION_RESULTS - session.len()) as nat;
        lemma_dictionary_result(m, query, limit, words, p);
        assert(results[i] == words[p]);
    }
}

/// The results of the session come first; each is the text of a candidate with its kind.
/// Behind them come words of the dictionary that the session does not have.
pub proof fn law_session_comes_before_dictionary<M: Fn(&str, &str) -> Option<(Vec<usize>, i32)>>(
    m: IndexModel,
    f: M,
    query: Seq<char>,
    include_dictionary: bool,
    results: Seq<CompletionMatch>,
) -> (n: int)
    requires
        m.wf(),
        model::are_results(m, f, query, include_dictionary, results),
    ensures
        0 <= n <= results.len(),
        !include_dictionary ==> n == results.len(),
        forall|i: int|
            0 <= i < n ==> {
                let k = text::lowercase((#[trigger] results[i]).text@);
                &&& m.candidates.contains_key(k)
                &&& m.candidates[k].text == results[i].text@
                &&& m.candidates[k].kind == results[i].kind
            },
        forall|i: int|
            n <= i < results.len() ==> (#[trigger] results[i]).kind == CompletionKind::Dictionary
                && !m.candidates.contains_key(results[i].text@),
{
    if query.len() < ranking::MIN_COMPLETION_QUERY_CHARS {
        0
    } else {
        let query_lower = text::lowercase(query);
        let (session, words) = choose|session: Seq<CompletionMatch>, words: Seq<CompletionMatch>|
            #[trigger]
            model::are_result_parts(m, f, query, include_dictionary, session, words) && results
                == session + words;
        let n = session.len() as int;
        let (literal, fuzzy) = choose|literal: Seq<RankedModel>, fuzzy: Seq<RankedModel>|
            #[trigger]
            model::are_session_matches(m, f, query, query_lower, literal, fuzzy)
                && model::are_session_completions(literal + fuzzy, query_lower, session);
        assert forall|i: int| 0 <= i < n implies {
            let k = text::lowercase((#[trigger] results[i]).text@);
            &&& m.candidates.contains_key(k)
            &&& m.candidates[k].text == results[i].text@
            &&& m.candidates[k].kind == results[i].kind
        } by {
            lemma_session_result(m, f, query, literal, fuzzy, i);
            assert(ranking::is_session_completion((literal + fuzzy)[i], query_lower, session[i]));
            assert(results[i] == session[i]);
        }
        assert forall|i: int| n <= i < results.len() implies (#[trigger] results[i]).kind
            == CompletionKind::Dictionary && !m.candidates.contains_key(results[i].text@) by {
            let p = i - n;
            lemma_dictionary_result(
                m,
                query,
                (MAX_COMPLETION_RESULTS - session.len()) as nat,
                words,
                p,
            );
            assert(results[i] == words[p]);
        }
        n
    }
}

/// Of the matches that the query heads only which candidates there are matters: in
/// whatever order they are looked at, the best are the same.
pub proof fn law_order_of_scan_is_irrelevant(
    m: IndexModel,
    query: Seq<char>,
    query_lower: Seq<char>,
    limit: nat,
    r: Seq<RankedModel>,
    scanned: Seq<RankedModel>,
    s: Seq<RankedModel>,
)
    requires
        m.wf(),
        top::is_top(
            r,
            model::literal_items(m, query, query_lower),
            limit,
            ranking::by_session_key(),
        ),
        scanned.to_multiset() == model::literal_items(m, query, query_lower).to_multiset(),
        top::is_top(s, scanned, limit, ranking::by_session_key()),
    ensures
        r == s,
{
    let items = model::literal_items(m, query, query_lower);
    let key = ranking::by_session_key();
    assert forall|a: RankedModel, b: RankedModel|
        items.contains(a) && items.contains(b) && key(a) == key(b) implies a == b by {
        let i = lemma_literal_item(m, query, query_lower, a);
        let j = lemma_literal_item(m, query, query_lower, b);
        lemma_key_gives_text(a, b);
    }
    top::law_top_is_unique(r, items, s, scanned, limit, key);
}

/// The same holds of the fuzzy matches, for what the matchers said of the keys.
pub proof fn law_order_of_fuzzy_scan_is_irrelevant(
    m: IndexModel,
    query_lower: Seq<char>,
    scores: spec_fn(int) -> Option<u16>,
    found: spec_fn(int) -> Option<(Seq<usize>, i32)>,
    limit: nat,
    r: Seq<RankedModel>,
    scanned: Seq<RankedModel>,
    s: Seq<RankedModel>,
)
    requires
        m.wf(),
        top::is_top(
            r,
            model::fuzzy_items(m, query_lower, scores, found),
            limit,
            ranking::by_session_key(),
        ),
        scanned.to_multiset() == model::fuzzy_items(
            m,
            query_lower,
            scores,
            found,
        ).to_multiset(),
        top::is_top(s, scanned, limit, ranking::by_session_key()),
    ensures
        r == s,
{
    let items = model::fuzzy_items(m, query_lower, scores, found);
    let key = ranking::by_session_key();
    assert forall|a: RankedModel, b: RankedModel|
        items.contains(a) && items.contains(b) && key(a) == key(b) implies a == b by {
        let i = lemma_fuzzy_item(m, query_lower, scores, found, a);
        let j = lemma_fuzzy_item(m, query_lower, scores, found, b);
        lemma_key_gives_text(a, b);
        assert(m.keys[i] == m.keys[j]);
        lemma_keys_distinct(m, i, j);
    }
    top::law_top_is_unique(r, items, s, scanned, limit, key);
}

/// Matches with equal keys are of the same text.
proof fn lemma_key_gives_text(a: RankedModel, b: RankedModel)
    requires
        ranking::session_key(a) == ranking::session_key(b),
    ensures
        a.candidate.text == b.candidate.text,
{
    let x = ranking::session_key(a);
    let y = ranking::session_key(b);
    assert(x.skip(6) =~= utf8::text_key(a.candidate.text));
    assert(y.skip(6) =~= utf8::text_key(b.candidate.text));
    utf8::lemma_text_key_injective(a.candidate.text, b.candidate.text);
}

/// No key stands twice in the index.
proof fn lemma_keys_distinct(m: IndexModel, i: int, j: int)
    requires
        m.wf(),
        0 <= i < m.keys.len(),
        0 <= j < m.keys.len(),
        m.keys[i] == m.keys[j],
    ensures
        i == j,
{
    order::lex_irreflexive(utf8::text_key(m.keys[i]));
    if i < j {
        assert(utf8::text_less(m.keys[i], m.keys[j]));
    } else if j < i {
        assert(utf8::text_less(m.keys[j], m.keys[i]));
    }
}

/// The matches that the query heads are all different.
proof fn lemma_literal_items_distinct(m: IndexModel, query: Seq<char>, query_lower: Seq<char>)
    requires
        m.wf(),
    ensures
        model::literal_items(m, query, query_lower).no_duplicates(),
{
    let f = model::literal_choice(m, query, query_lower);
    assert forall|j: int, k: int|
        0 <= j < k < m.keys.len() && f(j) is Some && f(k) is Some implies #[trigger] f(j)
        != #[trigger] f(k) by {
        if f(j) == f(k) {
            assert(m.keys.contains(m.keys[j]) && m.keys.contains(m.keys[k]));
            assert(m.candidates[m.keys[j]].key == m.candidates[m.keys[k]].key);
            lemma_keys_distinct(m, j, k);
        }
    }
    select::lemma_select_distinct(m.keys.len() as int, f);
}

/// The fuzzy matches are all different.
proof fn lemma_fuzzy_items_distinct(
    m: IndexModel,
    query_lower: Seq<char>,
    scores: spec_fn(int) -> Option<u16>,
    found: spec_fn(int) -> Option<(Seq<usize>, i32)>,
)
    requires
        m.wf(),
    ensures
        model::fuzzy_items(m, query_lower, scores, found).no_duplicates(),
{
    let n = m.keys.len() as int;
    let ascii = is_ascii_chars(query_lower);
    let f = model::scored_choice(m, query_lower, scores);
    let g = model::plain_choice(m, query_lower, ascii, found);
    assert forall|j: int, k: int|
        0 <= j < k < n && f(j) is Some && f(k) is Some implies #[trigger] f(j)
        != #[trigger] f(k) by {
        if f(j) == f(k) {
            assert(m.keys.contains(m.keys[j]) && m.keys.contains(m.keys[k]));
            assert(m.candidates[m.keys[j]].key == m.candidates[m.keys[k]].key);
            lemma_keys_distinct(m, j, k);
        }
    }
    select::lemma_select_distinct(n, f);
    assert forall|j: int, k: int|
        0 <= j < k < n && g(j) is Some && g(k) is Some implies #[trigger] g(j)
        != #[trigger] g(k) by {
        if g(j) == g(k) {
            assert(m.keys.contains(m.keys[j]) && m.keys.contains(m.keys[k]));
            assert(m.candidates[m.keys[j]].key == m.candidates[m.keys[k]].key);
            lemma_keys_distinct(m, j, k);
        }
    }
    select::lemma_select_distinct(n, g);
    if ascii {
        let a = model::scored_items(m, query_lower, scores);
        let b = model::plain_items(m, query_lower, true, found);
        assert forall|i: int, j: int| 0 <= i < a.len() && 0 <= j < b.len() implies a[i] != b[j] by {
            assert(a.contains(a[i]));
            assert(b.contains(b[j]));
            let p = select::lemma_select_source(n, f, a[i]);
            let q = select::lemma_select_source(n, g, b[j]);
            if a[i] == b[j] {
                assert(m.keys.contains(m.keys[p]) && m.keys.contains(m.keys[q]));
                assert(m.candidates[m.keys[p]].key == m.candidates[m.keys[q]].key);
                lemma_keys_distinct(m, p, q);
            }
        }
        assert((a + b).no_duplicates());
    }
}

/// No candidate is offered twice: the session matches of a query are all of different
/// texts.
pub proof fn law_no_candidate_is_offered_twice<M: Fn(&str, &str) -> Option<(Vec<usize>, i32)>>(
    m: IndexModel,
    f: M,
    query: Seq<char>,
    query_lower: Seq<char>,
    literal: Seq<RankedModel>,
    fuzzy: Seq<RankedModel>,
    i: int,
    j: int,
)
    requires
        m.wf(),
        model::are_session_matches(m, f, query, query_lower, literal, fuzzy),
        0 <= i < j < (literal + fuzzy).len(),
    ensures
        (literal + fuzzy)[i].candidate.text != (literal + fuzzy)[j].candidate.text,
{
    let limit = MAX_COMPLETION_RESULTS as nat;
    let key = ranking::by_session_key();
    let a = model::literal_items(m, query, query_lower);
    let n = literal.len() as int;
    lemma_literal_items_distinct(m, query, query_lower);
    top::lemma_top_distinct(literal, a, limit, key);
    let x = (literal + fuzzy)[i];
    let y = (literal + fuzzy)[j];
    if j < n {
        top::lemma_top_member(literal, a, limit, key, i);
        top::lemma_top_member(literal, a, limit, key, j);
        let p = lemma_literal_item(m, query, query_lower, x);
        let q = lemma_literal_item(m, query, query_lower, y);
        assert(literal[i] != literal[j]);
    } else {
        let rest = (limit - n) as nat;
        let (scores, found) = choose|
            scores: spec_fn(int) -> Option<u16>,
            found: spec_fn(int) -> Option<(Seq<usize>, i32)>,
        |
            #![trigger model::are_key_scores(m, query_lower, scores), model::are_plain_answers(m, f, query, query_lower, is_ascii_chars(query_lower), found)]
            model::are_key_scores(m, query_lower, scores) && model::are_plain_answers(
                m,
                f,
                query,
                query_lower,
                is_ascii_chars(query_lower),
                found,
            ) && top::is_top(
                fuzzy,
                model::fuzzy_items(m, query_lower, scores, found),
                rest,
                key,
            );
        let b = model::fuzzy_items(m, query_lower, scores, found);
        top::lemma_top_member(fuzzy, b, rest, key, j - n);
        let q = lemma_fuzzy_item(m, query_lower, scores, found, y);
        if i < n {
            top::lemma_top_member(literal, a, limit, key, i);
            let p = lemma_literal_item(m, query, query_lower, x);
            assert(utf8::occurs_at(m.keys[p], query_lower, 0));
        } else {
            lemma_fuzzy_items_distinct(m, query_lower, scores, found);
            top::lemma_top_distinct(fuzzy, b, rest, key);
            top::lemma_top_member(fuzzy, b, rest, key, i - n);
            let p = lemma_fuzzy_item(m, query_lower, scores, found, x);
            assert(fuzzy[i - n] != fuzzy[j - n]);
            if x.candidate.text == y.candidate.text {
                assert(m.keys[p] == m.keys[q]);
                lemma_keys_distinct(m, p, q);
            }
        }
    }
}

/// What a token stands for: a web address starts with its scheme, and a filename has no
/// separators, so that no path is ever completed.
pub proof fn law_token_candidates(raw: Seq<char>)
    ensures
        match extract::token_candidate(raw) {
            Some((t, CompletionKind::Url)) => extract::has_web_scheme(t),
            Some((t, CompletionKind::Filename)) => !extract::has_separator(t)
                && extract::is_filename_like(t),
            Some(_) => false,
            None => true,
        },
{
    let t = extract::bare_token(raw);
    reveal_strlit("https://");
    reveal_strlit("http://");
    if t.len() > 0 && utf8::contains_text(t, "https://"@) {
        lemma_address_keeps_scheme(t, "https://"@);
    } else if t.len() > 0 && utf8::contains_text(t, "http://"@) {
        lemma_address_keeps_scheme(t, "http://"@);
    }
}

/// Trimming an address leaves its scheme.
proof fn lemma_address_keeps_scheme(t: Seq<char>, scheme: Seq<char>)
    requires
        utf8::contains_text(t, scheme),
        scheme.len() > 0,
        scheme.last() == '/',
    ensures
        scheme.is_prefix_of(
            extract::without_trailing(t.skip(utf8::first_occurrence(t, scheme))),
        ),
{
    let j = utf8::first_occurrence(t, scheme);
    let k = choose|k: int| utf8::occurs_at(t, scheme, k);
    lemma_least_occurrence(t, scheme, k);
    let rest = t.skip(j);
    let p = |c: char| extract::trailing_punctuation(c);
    assert(rest.subrange(0, scheme.len() as int) =~= t.subrange(j, j + scheme.len()));
    assert(rest[scheme.len() - 1] == scheme.last());
    text::lemma_tail_len(rest, p);
    assert(!p(rest[scheme.len() - 1]));
    assert(extract::without_trailing(rest).subrange(0, scheme.len() as int) =~= scheme);
}

/// Where a text occurs it has a first occurrence.
proof fn lemma_least_occurrence(t: Seq<char>, needle: Seq<char>, k: int)
    requires
        utf8::occurs_at(t, needle, k),
    ensures
        utf8::is_first_occurrence(t, needle, utf8::first_occurrence(t, needle)),
    decreases k,
{
    if exists|i: int| 0 <= i < k && utf8::occurs_at(t, needle, i) {
        let i = choose|i: int| 0 <= i < k && utf8::occurs_at(t, needle, i);
        lemma_least_occurrence(t, needle, i);
    } else {
        assert(utf8::is_first_occurrence(t, needle, k));
    }
}

/// A stretch of characters with a property has nothing else in it, and is not empty.
proof fn lemma_run_chars(s: Seq<char>, p: spec_fn(char) -> bool, i: int, c: char)
    requires
        0 <= i < extract::runs(s, p).len(),
    ensures
        extract::runs(s, p)[i].len() > 0,
        extract::runs(s, p)[i].contains(c) ==> p(c),
    decreases s.len(),
{
    if s.len() > 0 {
        if !p(s[0]) {
            lemma_run_chars(s.drop_first(), p, i, c);
        } else {
            let n = text::head_len(s, p) as int;
            text::lemma_head_len(s, p);
            if i == 0 {
                assert(extract::runs(s, p)[0] == s.take(n));
            } else {
                assert(extract::runs(s, p)[i] == extract::runs(s.skip(n), p)[i - 1]);
                lemma_run_chars(s.skip(n), p, i - 1, c);
            }
        }
    }
}

/// What is found in a text: a web address with its scheme, a filename without separators,
/// or a word of at least two word characters that is not a number.
pub proof fn law_text_candidates(s: Seq<char>, i: int)
    requires
        0 <= i < extract::text_candidates(s).len(),
    ensures
        match extract::text_candidates(s)[i].1 {
            CompletionKind::Url => extract::has_web_scheme(extract::text_candidates(s)[i].0),
            CompletionKind::Filename => !extract::has_separator(
                extract::text_candidates(s)[i].0,
            ),
            CompletionKind::Word => {
                &&& extract::text_candidates(s)[i].0.len() >= ranking::MIN_COMPLETION_QUERY_CHARS
                &&& !text::all_digits(extract::text_candidates(s)[i].0)
                &&& forall|c: char|
                    extract::text_candidates(s)[i].0.contains(c) ==> #[trigger]
                    extract::word_char(c)
            },
            CompletionKind::Dictionary => false,
        },
{
    let tokens = extract::token_candidates(s);
    let words = extract::word_candidates(s);
    let x = extract::text_candidates(s)[i];
    if i < tokens.len() {
        assert(tokens[i] == x);
        assert(tokens.contains(x));
        let f = |j: int| extract::token_candidate(
            extract::runs(s, extract::token_chars())[j],
        );
        let j = select::lemma_select_source(
            extract::runs(s, extract::token_chars()).len() as int,
            f,
            x,
        );
        law_token_candidates(extract::runs(s, extract::token_chars())[j]);
    } else {
        assert(words[i - tokens.len()] == x);
        assert(words.contains(x));
        let f = |j: int| extract::word_candidate(extract::runs(s, extract::word_chars())[j]);
        let j = select::lemma_select_source(
            extract::runs(s, extract::word_chars()).len() as int,
            f,
            x,
        );
        assert forall|c: char| x.0.contains(c) implies #[trigger] extract::word_char(c) by {
            lemma_run_chars(s, extract::word_chars(), j, c);
        }
    }
}

/// Every filename of the index is free of separators.
pub open spec fn filenames_are_bare(m: IndexModel) -> bool {
    forall|k: Seq<char>| #[trigger]
        m.candidates.contains_key(k) && m.candidates[k].kind == CompletionKind::Filename
            ==> !extract::has_separator(m.candidates[k].text)
}

/// Taking in a text never brings a path into the index: where filenames are free of
/// separators, they stay so.
pub proof fn law_paths_are_not_candidates(m: IndexModel, s: Seq<char>)
    requires
        filenames_are_bare(m),
    ensures
        filenames_are_bare(model::with_candidates(m, extract::text_candidates(s))),
{
    let found = extract::text_candidates(s);
    assert forall|i: int| 0 <= i < found.len() && found[i].1
        == CompletionKind::Filename implies !extract::has_separator((#[trigger] found[i]).0) by {
        law_text_candidates(s, i);
    }
    lemma_sightings_keep_bare(m, found);
}

proof fn lemma_sightings_keep_bare(m: IndexModel, found: Seq<(Seq<char>, CompletionKind)>)
    requires
        filenames_are_bare(m),
        forall|i: int|
            0 <= i < found.len() && found[i].1 == CompletionKind::Filename
                ==> !extract::has_separator((#[trigger] found[i]).0),
    ensures
        filenames_are_bare(model::with_candidates(m, found)),
    decreases found.len(),
{
    if found.len() > 0 {
        let rest = found.drop_last();
        assert forall|i: int| 0 <= i < rest.len() && rest[i].1
            == CompletionKind::Filename implies !extract::has_separator((#[trigger] rest[i]).0) by {
            assert(rest[i] == found[i]);
        }
        lemma_sightings_keep_bare(m, rest);
        let last = found.last();
        assert(last == found[found.len() - 1]);
        lemma_trimmed_part(last.0, '/');
        lemma_trimmed_part(last.0, '\\');
    }
}

/// Trimming brings in no character.
proof fn lemma_trimmed_part(s: Seq<char>, c: char)
    ensures
        text::trimmed(s).contains(c) ==> s.contains(c),
{
    let p = text::whitespace();
    text::lemma_head_len(s, p);
    let a = text::trim_start_by(s, p);
    text::lemma_tail_len(a, p);
    if text::trimmed(s).contains(c) {
        let i = choose|i: int| 0 <= i < text::trimmed(s).len() && text::trimmed(s)[i] == c;
        assert(a[i] == c);
        assert(s[i + text::head_len(s, p)] == c);
    }
}

} // verus!
