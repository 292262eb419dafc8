//! Laws of the results of a search as a whole.
use vstd::prelude::*;
use vstd::utf8::*;

use crate::ascending;
use crate::dictionary;
use crate::dictionary::DictionaryModel;
use crate::dictionary_ranking;
use crate::dictionary_ranking::DictionaryRankedModel;
use crate::laws;
use crate::masks;
use crate::matcher;
use crate::model;
use crate::model::IndexModel;
use crate::ranking;
use crate::ranking::{
    CompletionKind, CompletionMatch, MatchPlaces, RankedModel, MAX_COMPLETION_RESULTS,
    MIN_COMPLETION_QUERY_CHARS,
};
use crate::select;
use crate::text;
use crate::top;
use crate::utf8;

verus! {

/// The plain matcher answers alike whenever it is asked the same.
pub open spec fn is_function<M: Fn(&str, &str) -> Option<(Vec<usize>, i32)>>(f: M) -> bool {
    forall|
        t: &str,
        q: &str,
        r: Option<(Vec<usize>, i32)>,
        t1: &str,
        q1: &str,
        r1: Option<(Vec<usize>, i32)>,
    |
        #[trigger] call_ensures(f, (t, q), r) && #[trigger] call_ensures(f, (t1, q1), r1) && t@
            == t1@ && q@ == q1@ ==> ranking::found_view(r) == ranking::found_view(r1)
}

/// The two completions show and insert the same.
pub open spec fn is_same_completion(a: CompletionMatch, b: CompletionMatch) -> bool {
    &&& a.text@ == b.text@
    &&& a.kind == b.kind
    &&& a.match_indices@ == b.match_indices@
}

/// The fuzzy matcher treats the query alike on every machine, where it is asked at all.
pub open spec fn is_portable_query(query_lower: Seq<char>) -> bool {
    is_ascii_chars(query_lower) ==> matcher::is_portable(query_lower)
}

/// What matchers that answer alike say of the keys makes the same fuzzy matches.
proof fn lemma_same_fuzzy_items<M: Fn(&str, &str) -> Option<(Vec<usize>, i32)>>(
    m: IndexModel,
    f: M,
    query: Seq<char>,
    query_lower: Seq<char>,
    scores: spec_fn(int) -> Option<u16>,
    found: spec_fn(int) -> Option<(Seq<usize>, i32)>,
    scores1: spec_fn(int) -> Option<u16>,
    found1: spec_fn(int) -> Option<(Seq<usize>, i32)>,
)
    requires
        is_function(f),
        is_portable_query(query_lower),
        model::are_key_scores(m, query_lower, scores),
        model::are_key_scores(m, query_lower, scores1),
        model::are_plain_answers(
            m,
            f,
            query,
            query_lower,
            is_ascii_chars(query_lower),
            found,
        ),
        model::are_plain_answers(
            m,
            f,
            query,
            query_lower,
            is_ascii_chars(query_lower),
            found1,
        ),
    ensures
        model::fuzzy_items(m, query_lower, scores, found) == model::fuzzy_items(
            m,
            query_lower,
            scores1,
            found1,
        ),
{
    let n = m.keys.len() as int;
    let ascii = is_ascii_chars(query_lower);
    let g = model::plain_choice(m, query_lower, ascii, found);
    let g1 = model::plain_choice(m, query_lower, ascii, found1);
    assert forall|j: int| 0 <= j < n implies g(j) == #[trigger] g1(j) by {
        if model::is_plain_key(m.keys[j], query_lower, ascii) {
            let t = m.candidates[m.keys[j]].text;
            assert(ranking::is_fuzzy_answer(f, t, query, found(j)));
            assert(ranking::is_fuzzy_answer(f, t, query, found1(j)));
        }
    }
    select::lemma_select_same(n, g, g1);
    if ascii {
        let h = model::scored_choice(m, query_lower, scores);
        let h1 = model::scored_choice(m, query_lower, scores1);
        assert forall|j: int| 0 <= j < n implies h(j) == #[trigger] h1(j) by {
            if model::is_scored_key(m.keys[j], query_lower) {
                assert(scores(j) == scores1(j));
            }
        }
        select::lemma_select_same(n, h, h1);
    }
}

/// The session matches of a query are always the same.
proof fn lemma_same_session_matches<M: Fn(&str, &str) -> Option<(Vec<usize>, i32)>>(
    m: IndexModel,
    f: M,
    query: Seq<char>,
    query_lower: Seq<char>,
    literal: Seq<RankedModel>,
    fuzzy: Seq<RankedModel>,
    literal1: Seq<RankedModel>,
    fuzzy1: Seq<RankedModel>,
)
    requires
        m.wf(),
        is_function(f),
        is_portable_query(query_lower),
        model::are_session_matches(m, f, query, query_lower, literal, fuzzy),
        model::are_session_matches(m, f, query, query_lower, literal1, fuzzy1),
    ensures
        literal == literal1,
        fuzzy == fuzzy1,
        forall|i: int|
            0 <= i < (literal + fuzzy).len() ==> ((#[trigger] (literal + fuzzy)[i]).places is Fuzzy
                ==> matcher::is_portable(query_lower)),
{
    let items = model::literal_items(m, query, query_lower);
    let key = ranking::by_session_key();
    laws::law_order_of_scan_is_irrelevant(
        m,
        query,
        query_lower,
        MAX_COMPLETION_RESULTS as nat,
        literal,
        items,
        literal1,
    );
    let rest = (MAX_COMPLETION_RESULTS - literal.len()) as nat;
    if literal.len() < MAX_COMPLETION_RESULTS {
        let ascii = is_ascii_chars(query_lower);
        let (scores, found) = choose|
            scores: spec_fn(int) -> Option<u16>,
            found: spec_fn(int) -> Option<(Seq<usize>, i32)>,
        |
            #![trigger model::are_key_scores(m, query_lower, scores), model::are_plain_answers(m, f, query, query_lower, ascii, found)]
            model::are_key_scores(m, query_lower, scores) && model::are_plain_answers(
                m,
                f,
                query,
                query_lower,
                ascii,
                found,
            ) && top::is_top(fuzzy, model::fuzzy_items(m, query_lower, scores, found), rest, key);
        let (scores1, found1) = choose|
            scores: spec_fn(int) -> Option<u16>,
            found: spec_fn(int) -> Option<(Seq<usize>, i32)>,
        |
            #![trigger model::are_key_scores(m, query_lower, scores), model::are_plain_answers(m, f, query, query_lower, ascii, found)]
            model::are_key_scores(m, query_lower, scores) && model::are_plain_answers(
                m,
                f,
                query,
                query_lower,
                ascii,
                found,
            ) && top::is_top(fuzzy1, model::fuzzy_items(m, query_lower, scores, found), rest, key);
        lemma_same_fuzzy_items(m, f, query, query_lower, scores, found, scores1, found1);
        let both = model::fuzzy_items(m, query_lower, scores, found);
        laws::law_order_of_fuzzy_scan_is_irrelevant(
            m,
            query_lower,
            scores,
            found,
            rest,
            fuzzy,
            both,
            fuzzy1,
        );
        assert forall|i: int| 0 <= i < fuzzy.len() && (#[trigger] fuzzy[i]).places is Fuzzy implies
            matcher::is_portable(query_lower) by {
            if !ascii {
                top::lemma_top_member(fuzzy, both, rest, key, i);
                let j = select::lemma_select_source(
                    m.keys.len() as int,
                    model::plain_choice(m, query_lower, false, found),
                    fuzzy[i],
                );
            }
        }
    } else {
        assert(fuzzy =~= fuzzy1);
    }
    assert forall|i: int|
        0 <= i < (literal + fuzzy).len() && (#[trigger] (literal + fuzzy)[i]).places is Fuzzy implies
        matcher::is_portable(query_lower) by {
        if i < literal.len() {
            top::lemma_top_member(literal, items, MAX_COMPLETION_RESULTS as nat, key, i);
            let j = select::lemma_select_source(
                m.keys.len() as int,
                model::literal_choice(m, query, query_lower),
                literal[i],
            );
        } else {
            assert((literal + fuzzy)[i] == fuzzy[i - literal.len()]);
        }
    }
}

/// There is only one way to count out places.
proof fn lemma_same_places(
    places: MatchPlaces,
    t: Seq<char>,
    key: Seq<char>,
    query_lower: Seq<char>,
    a: Seq<usize>,
    b: Seq<usize>,
)
    requires
        ranking::are_places(places, t, key, query_lower, a),
        ranking::are_places(places, t, key, query_lower, b),
        places is Fuzzy ==> matcher::is_portable(query_lower),
    ensures
        a == b,
{
    match places {
        MatchPlaces::ByteRange(start, end) => {
            assert forall|x: usize| #[trigger] a.contains(x) <==> b.contains(x) by {}
            ascending::lemma_ascending_unique(a, b);
        },
        MatchPlaces::Fuzzy(max_typos) => {
            match matcher::frizbee_indices(query_lower, key, max_typos) {
                Some(indices) => {
                    assert forall|x: usize| #[trigger] a.contains(x) <==> b.contains(x) by {}
                    ascending::lemma_ascending_unique(a, b);
                },
                None => {
                    assert(a =~= b);
                },
            }
        },
        _ => {},
    }
}

/// The dictionary only fills the places that the session leaves: a search without it finds
/// the head of what the search with it finds, and all behind that are words of the
/// dictionary that the session does not have. Where the session fills all places the two
/// find the same.
pub proof fn law_dictionary_fills_the_rest<M: Fn(&str, &str) -> Option<(Vec<usize>, i32)>>(
    m: IndexModel,
    f: M,
    query: Seq<char>,
    without: Seq<CompletionMatch>,
    with: Seq<CompletionMatch>,
)
    requires
        m.wf(),
        is_function(f),
        query.len() >= ranking::MIN_COMPLETION_QUERY_CHARS ==> is_portable_query(
            text::lowercase(query),
        ),
        model::are_results(m, f, query, false, without),
        model::are_results(m, f, query, true, with),
    ensures
        without.len() <= with.len(),
        forall|i: int|
            0 <= i < without.len() ==> is_same_completion(#[trigger] without[i], with[i]),
        forall|i: int|
            without.len() <= i < with.len() ==> (#[trigger] with[i]).kind
                == CompletionKind::Dictionary && !m.candidates.contains_key(with[i].text@),
        without.len() == MAX_COMPLETION_RESULTS ==> with.len() == without.len(),
{
    if query.len() >= ranking::MIN_COMPLETION_QUERY_CHARS {
        let ql = text::lowercase(query);
        let (session, none) = choose|session: Seq<CompletionMatch>, words: Seq<CompletionMatch>|
            #[trigger]
            model::are_result_parts(m, f, query, false, session, words) && without == session
                + words;
        let (session1, words) = choose|session: Seq<CompletionMatch>, words: Seq<CompletionMatch>|
            #[trigger]
            model::are_result_parts(m, f, query, true, session, words) && with == session + words;
        let (literal, fuzzy) = choose|literal: Seq<RankedModel>, fuzzy: Seq<RankedModel>| #[trigger]
            model::are_session_matches(m, f, query, ql, literal, fuzzy)
                && model::are_session_completions(literal + fuzzy, ql, session);
        let (literal1, fuzzy1) = choose|literal: Seq<RankedModel>, fuzzy: Seq<RankedModel>|
            #[trigger]
            model::are_session_matches(m, f, query, ql, literal, fuzzy)
                && model::are_session_completions(literal + fuzzy, ql, session1);
        lemma_same_session_matches(m, f, query, ql, literal, fuzzy, literal1, fuzzy1);
        let both = literal + fuzzy;
        assert(without =~= session);
        assert forall|i: int| 0 <= i < without.len() implies is_same_completion(
            #[trigger] without[i],
            with[i],
        ) by {
            assert(with[i] == session1[i]);
            assert(ranking::is_session_completion(both[i], ql, session[i]));
            assert(ranking::is_session_completion(both[i], ql, session1[i]));
            lemma_same_places(
                both[i].places,
                both[i].candidate.text,
                both[i].candidate.key,
                ql,
                session[i].match_indices@,
                session1[i].match_indices@,
            );
        }
        assert forall|i: int| without.len() <= i < with.len() implies (#[trigger] with[i]).kind
            == CompletionKind::Dictionary && !m.candidates.contains_key(with[i].text@) by {
            let p = i - session1.len();
            assert(with[i] == words[p]);
            laws::lemma_dictionary_result(
                m,
                query,
                (MAX_COMPLETION_RESULTS - session1.len()) as nat,
                words,
                p,
            );
        }
    }
}

/// The letter mask of every word of the list is that of the word.
pub open spec fn masks_fit(d: DictionaryModel) -> bool {
    forall|i: int|
        0 <= i < d.records.len() ==> masks::is_letter_mask(
            (#[trigger] d.records[i]).letter_mask,
            d.records[i].text,
        )
}

/// Where the letter masks are those of the words, a word that matches fuzzily lacks no more
/// letters of the query than typos are allowed.
pub proof fn law_fuzzy_words_lack_few_letters(
    m: IndexModel,
    query_lower: Seq<char>,
    scores: spec_fn(int) -> Option<u16>,
    w: DictionaryRankedModel,
)
    requires
        m.dictionary.wf(),
        masks_fit(m.dictionary),
        model::scored_word_items(m, query_lower, scores).contains(w),
    ensures
        masks::lacking_letters(w.text, query_lower) <= masks::allowed_typos(query_lower),
{
    let words = model::words_to_score(m, query_lower);
    let j = select::lemma_select_source(
        words.len() as int,
        model::scored_word_choice(m, query_lower, scores),
        w,
    );
    model::lemma_word_of_query(m.dictionary, query_lower, m.dictionary.pair_index, j);
    masks::lemma_mask_tells_letters(words[j].letter_mask, words[j].text, query_lower);
}

/// Every word of the list is its own lowercase and stands in it once, and no posting names
/// a word twice.
pub open spec fn is_plain_list(d: DictionaryModel) -> bool {
    &&& forall|i: int|
        0 <= i < d.records.len() ==> text::lowercase((#[trigger] d.records[i]).text)
            == d.records[i].text
    &&& forall|i: int, j: int|
        0 <= i < j < d.records.len() ==> (#[trigger] d.records[i]).text != (
        #[trigger] d.records[j]).text
    &&& forall|k: int|
        0 <= k < dictionary::DICTIONARY_PAIR_COUNT ==> (#[trigger] dictionary::posting_ids(
            d.bigram_index,
            k,
        )).no_duplicates()
    &&& forall|k: int|
        0 <= k < dictionary::DICTIONARY_PAIR_COUNT ==> (#[trigger] dictionary::posting_ids(
            d.pair_index,
            k,
        )).no_duplicates()
}

/// The words that a query may match in a plain list are their own lowercase and all
/// different.
proof fn lemma_plain_words(d: DictionaryModel, s: Seq<char>, index: Seq<u8>)
    requires
        d.wf(),
        is_plain_list(d),
        index == d.bigram_index || index == d.pair_index,
    ensures
        ({
            let words = model::words_of_query(d, s, index);
            &&& forall|i: int|
                0 <= i < words.len() ==> text::lowercase((#[trigger] words[i]).text)
                    == words[i].text
            &&& forall|i: int, j: int|
                0 <= i < j < words.len() ==> (#[trigger] words[i]).text != (
                #[trigger] words[j]).text
        }),
{
    let words = model::words_of_query(d, s, index);
    let ids = dictionary::posting_ids(index, model::rarest_pair(s, index)->0);
    assert forall|i: int| 0 <= i < words.len() implies text::lowercase((#[trigger] words[i]).text)
        == words[i].text by {
        model::lemma_word_of_query(d, s, index, i);
    }
    assert forall|i: int, j: int| 0 <= i < j < words.len() implies (#[trigger] words[i]).text != (
    #[trigger] words[j]).text by {
        model::lemma_word_of_query(d, s, index, i);
        model::lemma_word_of_query(d, s, index, j);
        assert(ids[i] != ids[j]);
        if ids[i] < ids[j] {
            assert(d.records[ids[i] as int].text != d.records[ids[j] as int].text);
        } else {
            assert(d.records[ids[j] as int].text != d.records[ids[i] as int].text);
        }
    }
}

/// The best words of a plain list are their own lowercase and all different.
proof fn lemma_words_differ(
    m: IndexModel,
    query: Seq<char>,
    query_lower: Seq<char>,
    limit: nat,
    ws: Seq<DictionaryRankedModel>,
)
    requires
        m.wf(),
        is_plain_list(m.dictionary),
        model::are_words(m, query, query_lower, limit, ws),
    ensures
        forall|i: int|
            0 <= i < ws.len() ==> text::lowercase((#[trigger] ws[i]).text) == ws[i].text,
        forall|i: int, j: int|
            0 <= i < j < ws.len() ==> (#[trigger] ws[i]).text != (#[trigger] ws[j]).text,
{
    if is_ascii_chars(query_lower) {
        let key = dictionary_ranking::by_dictionary_key();
        let scores = choose|scores: spec_fn(int) -> Option<u16>| #[trigger]
            model::are_word_scores(m, query_lower, scores) && top::is_top(
                ws,
                model::word_items(m, query, query_lower) + model::scored_word_items(
                    m,
                    query_lower,
                    scores,
                ),
                limit,
                key,
            );
        let a = model::word_items(m, query, query_lower);
        let b = model::scored_word_items(m, query_lower, scores);
        let f = model::word_choice(m, query, query_lower);
        let g = model::scored_word_choice(m, query_lower, scores);
        let wa = model::words_to_rank(m, query_lower);
        let wb = model::words_to_score(m, query_lower);
        lemma_plain_words(m.dictionary, query_lower, m.dictionary.bigram_index);
        lemma_plain_words(m.dictionary, query_lower, m.dictionary.pair_index);
        assert forall|j: int, k: int|
            0 <= j < k < wa.len() && f(j) is Some && f(k) is Some implies #[trigger] f(j)
            != #[trigger] f(k) by {
            assert(wa[j].text != wa[k].text);
        }
        select::lemma_select_distinct(wa.len() as int, f);
        assert forall|j: int, k: int|
            0 <= j < k < wb.len() && g(j) is Some && g(k) is Some implies #[trigger] g(j)
            != #[trigger] g(k) by {
            assert(wb[j].text != wb[k].text);
        }
        select::lemma_select_distinct(wb.len() as int, g);
        assert forall|i: int, j: int| 0 <= i < a.len() && 0 <= j < b.len() implies a[i] != b[j] by {
            assert(a.contains(a[i]));
            assert(b.contains(b[j]));
            let p = select::lemma_select_source(wa.len() as int, f, a[i]);
            let q = select::lemma_select_source(wb.len() as int, g, b[j]);
            lemma_ranked_word_is_literal(wa[p].text, query, query_lower);
        }
        assert((a + b).no_duplicates());
        top::lemma_top_distinct(ws, a + b, limit, key);
        assert forall|i: int| 0 <= i < ws.len() implies text::lowercase((#[trigger] ws[i]).text)
            == ws[i].text by {
            top::lemma_top_member(ws, a + b, limit, key, i);
            lemma_word_place(m, query, query_lower, scores, ws[i]);
        }
        assert forall|i: int, j: int| 0 <= i < j < ws.len() implies (#[trigger] ws[i]).text != (
        #[trigger] ws[j]).text by {
            top::lemma_top_member(ws, a + b, limit, key, i);
            top::lemma_top_member(ws, a + b, limit, key, j);
            let (x, p) = lemma_word_place(m, query, query_lower, scores, ws[i]);
            let (y, q) = lemma_word_place(m, query, query_lower, scores, ws[j]);
            if ws[i].text == ws[j].text {
                if x && y {
                    if p < q {
                        assert(wa[p].text != wa[q].text);
                    } else if q < p {
                        assert(wa[q].text != wa[p].text);
                    }
                } else if !x && !y {
                    if p < q {
                        assert(wb[p].text != wb[q].text);
                    } else if q < p {
                        assert(wb[q].text != wb[p].text);
                    }
                } else if x {
                    lemma_ranked_word_is_literal(wa[p].text, query, query_lower);
                } else {
                    lemma_ranked_word_is_literal(wa[q].text, query, query_lower);
                }
                assert(ws[i] != ws[j]);
            }
        }
    }
}

/// A word that is ranked by how it holds the query holds it.
proof fn lemma_ranked_word_is_literal(word: Seq<char>, query: Seq<char>, query_lower: Seq<char>)
    requires
        dictionary_ranking::word_rank(word, query, query_lower) is Some,
    ensures
        ranking::is_literal_match(word, query_lower),
{
    if word == query_lower {
        assert(word.subrange(0, word.len() as int) =~= query_lower);
        assert(utf8::occurs_at(word, query_lower, 0));
    } else if query_lower.is_prefix_of(word) {
        assert(utf8::occurs_at(word, query_lower, 0));
    }
}

/// Where a word among the matches comes from: whether it holds the query, and its place.
proof fn lemma_word_place(
    m: IndexModel,
    query: Seq<char>,
    query_lower: Seq<char>,
    scores: spec_fn(int) -> Option<u16>,
    w: DictionaryRankedModel,
) -> (r: (bool, int))
    requires
        (model::word_items(m, query, query_lower) + model::scored_word_items(
            m,
            query_lower,
            scores,
        )).contains(w),
    ensures
        r.0 ==> {
            &&& 0 <= r.1 < model::words_to_rank(m, query_lower).len()
            &&& model::word_choice(m, query, query_lower)(r.1) == Some(w)
            &&& model::words_to_rank(m, query_lower)[r.1].text == w.text
        },
        !r.0 ==> {
            &&& 0 <= r.1 < model::words_to_score(m, query_lower).len()
            &&& model::scored_word_choice(m, query_lower, scores)(r.1) == Some(w)
            &&& model::words_to_score(m, query_lower)[r.1].text == w.text
            &&& !ranking::is_literal_match(w.text, query_lower)
        },
{
    let a = model::word_items(m, query, query_lower);
    let b = model::scored_word_items(m, query_lower, scores);
    let k = choose|k: int| 0 <= k < (a + b).len() && (a + b)[k] == w;
    if k < a.len() {
        assert(a[k] == w);
        let p = select::lemma_select_source(
            model::words_to_rank(m, query_lower).len() as int,
            model::word_choice(m, query, query_lower),
            w,
        );
        (true, p)
    } else {
        assert(b[k - a.len()] == w);
        let p = select::lemma_select_source(
            model::words_to_score(m, query_lower).len() as int,
            model::scored_word_choice(m, query_lower, scores),
            w,
        );
        (false, p)
    }
}

/// No text is offered twice, in whatever case: all results of a search differ by their
/// lowercase, where the dictionary is a plain list.
pub proof fn law_no_text_is_offered_twice<M: Fn(&str, &str) -> Option<(Vec<usize>, i32)>>(
    m: IndexModel,
    f: M,
    query: Seq<char>,
    include_dictionary: bool,
    results: Seq<CompletionMatch>,
    i: int,
    j: int,
)
    requires
        m.wf(),
        is_plain_list(m.dictionary),
        model::are_results(m, f, query, include_dictionary, results),
        0 <= i < j < results.len(),
    ensures
        text::lowercase(results[i].text@) != text::lowercase(results[j].text@),
{
    let ql = text::lowercase(query);
    let (session, words) = choose|session: Seq<CompletionMatch>, words: Seq<CompletionMatch>|
        #[trigger]
        model::are_result_parts(m, f, query, include_dictionary, session, words) && results
            == session + words;
    let (literal, fuzzy) = choose|literal: Seq<RankedModel>, fuzzy: Seq<RankedModel>| #[trigger]
        model::are_session_matches(m, f, query, ql, literal, fuzzy)
            && model::are_session_completions(literal + fuzzy, ql, session);
    let both = literal + fuzzy;
    let n = session.len() as int;
    if i < n {
        laws::lemma_session_result(m, f, query, literal, fuzzy, i);
        assert(ranking::is_session_completion(both[i], ql, session[i]));
        assert(results[i] == session[i]);
    }
    if j < n {
        laws::lemma_session_result(m, f, query, literal, fuzzy, j);
        assert(ranking::is_session_completion(both[j], ql, session[j]));
        assert(results[j] == session[j]);
        laws::law_no_candidate_is_offered_twice(m, f, query, ql, literal, fuzzy, i, j);
    } else {
        let limit = (MAX_COMPLETION_RESULTS - session.len()) as nat;
        let ws = choose|ws: Seq<DictionaryRankedModel>| #[trigger]
            model::are_words(m, query, ql, limit, ws) && model::are_word_completions(
                ws,
                ql,
                words,
            );
        lemma_words_differ(m, query, ql, limit, ws);
        laws::lemma_dictionary_result(m, query, limit, words, j - n);
        assert(results[j] == words[j - n]);
        assert(dictionary_ranking::is_dictionary_completion(ws[j - n], ql, words[j - n]));
        if i >= n {
            assert(results[i] == words[i - n]);
            assert(dictionary_ranking::is_dictionary_completion(ws[i - n], ql, words[i - n]));
            assert(ws[i - n].text != ws[j - n].text);
        }
    }
}

/// A search asks whether to stop once at its start and at every 128th candidate that it
/// looks at: of those that the query heads and, where these leave room, of all.
pub proof fn law_search_asks_as_it_scans<M: Fn(&str, &str) -> Option<(Vec<usize>, i32)>>(
    m: IndexModel,
    f: M,
    query: Seq<char>,
    include_dictionary: bool,
    n: int,
    results: Seq<CompletionMatch>,
)
    requires
        query.len() >= MIN_COMPLETION_QUERY_CHARS,
        model::are_results_after(m, f, query, include_dictionary, n, results),
    ensures
        ({
            let ql = text::lowercase(query);
            let headed = model::headed_keys(m, ql).len();
            if model::literal_items(m, query, ql).len() < MAX_COMPLETION_RESULTS {
                n >= 1 + headed as int / 128 + m.keys.len() as int / 128
            } else {
                n >= 1 + headed as int / 128
            }
        }),
{
}

/// Where enough candidates are headed by the query, no others are looked at: the search asks
/// no more questions than these give rise to, however large the session and the dictionary
/// are.
pub proof fn law_full_prefix_search_scans_no_more<
    M: Fn(&str, &str) -> Option<(Vec<usize>, i32)>,
>(
    m: IndexModel,
    f: M,
    query: Seq<char>,
    include_dictionary: bool,
)
    requires
        query.len() >= MIN_COMPLETION_QUERY_CHARS,
        model::literal_items(m, query, text::lowercase(query)).len() >= MAX_COMPLETION_RESULTS,
    ensures
        ({
            let most = 1 + model::headed_keys(m, text::lowercase(query)).len() as int / 128;
            &&& forall|n: int, results: Seq<CompletionMatch>| #[trigger]
                model::are_results_after(m, f, query, include_dictionary, n, results) ==> n == most
            &&& forall|n: int| #[trigger]
                model::comes_to_ask(m, f, query, include_dictionary, n) ==> n <= most
        }),
{
}

} // verus!
