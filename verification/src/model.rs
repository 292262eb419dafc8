//! What the session index holds, and what a search over it finds.
use vstd::prelude::*;
use vstd::utf8::*;

use crate::asking;
use crate::dictionary;
use crate::dictionary::{DictionaryModel, RecordModel};
use crate::dictionary_ranking;
use crate::dictionary_ranking::DictionaryRankedModel;
use crate::masks;
use crate::matcher;
use crate::order;
use crate::ranking;
use crate::ranking::{
    CandidateModel, CompletionKind, CompletionMatch, MatchClass, MatchPlaces, RankedModel,
    MAX_CANDIDATE_CHARS, MAX_COMPLETION_RESULTS, MIN_COMPLETION_QUERY_CHARS,
};
use crate::select;
use crate::text;
use crate::top;
use crate::utf8;

verus! {

/// The content of a session index.
#[verifier::ext_equal]
pub struct IndexModel {
    /// The candidates by their keys.
    pub candidates: Map<Seq<char>, CandidateModel>,
    /// The keys in the order of texts.
    pub keys: Seq<Seq<char>>,
    /// The number of the last sighting.
    pub next_seq: u64,
    /// The words behind the candidates.
    pub dictionary: DictionaryModel,
}

/// The text is fit to be a candidate: long enough, not too long, and not a number.
pub open spec fn is_candidate_text(t: Seq<char>) -> bool {
    &&& MIN_COMPLETION_QUERY_CHARS <= t.len() <= MAX_CANDIDATE_CHARS
    &&& !text::all_digits(t)
}

/// The order of the keys.
pub open spec fn by_text() -> spec_fn(Seq<char>) -> Seq<int> {
    |k: Seq<char>| utf8::text_key(k)
}

impl IndexModel {
    /// The keys are those of the candidates, each once and in order; each candidate is
    /// fit to be one, was seen, has no whitespace around it and is kept under the
    /// lowercase of its text; and the dictionary is sound.
    pub open spec fn wf(self) -> bool {
        &&& forall|i: int, j: int|
            0 <= i < j < self.keys.len() ==> utf8::text_less(
                #[trigger] self.keys[i],
                #[trigger] self.keys[j],
            )
        &&& forall|k: Seq<char>| #[trigger]
            self.keys.contains(k) <==> self.candidates.contains_key(k)
        &&& forall|k: Seq<char>| #[trigger]
            self.candidates.contains_key(k) ==> {
                &&& self.candidates[k].key == k
                &&& text::lowercase(self.candidates[k].text) == k
                &&& k.len() > 0
                &&& is_candidate_text(self.candidates[k].text)
                &&& text::trimmed(self.candidates[k].text) == self.candidates[k].text
                &&& self.candidates[k].frequency >= 1
            }
        &&& self.dictionary.wf()
    }

    /// No candidate is of the kind of the dictionary's words.
    pub open spec fn has_no_words(self) -> bool {
        forall|k: Seq<char>| #[trigger]
            self.candidates.contains_key(k) ==> self.candidates[k].kind
                != CompletionKind::Dictionary
    }
}

/// The index without candidates, with the given dictionary.
pub open spec fn empty_index(dictionary: DictionaryModel) -> IndexModel {
    IndexModel {
        candidates: Map::empty(),
        keys: Seq::empty(),
        next_seq: 0,
        dictionary,
    }
}

/// The candidate after another sighting of it as `t` of kind `kind`: it is seen once
/// more, now last, and takes on the text and the kind unless its own kind weighs more.
pub open spec fn seen_again(
    old: CandidateModel,
    t: Seq<char>,
    kind: CompletionKind,
    seq: u64,
) -> CandidateModel {
    let takes = ranking::kind_rank(kind) >= ranking::kind_rank(old.kind);
    CandidateModel {
        text: if takes {
            t
        } else {
            old.text
        },
        key: old.key,
        kind: if takes {
            kind
        } else {
            old.kind
        },
        frequency: if old.frequency < u32::MAX {
            (old.frequency + 1) as u32
        } else {
            old.frequency
        },
        last_seen_seq: seq,
    }
}

/// The number after `seq`; after the last comes 0.
pub open spec fn next_number(seq: u64) -> u64 {
    if seq < u64::MAX {
        (seq + 1) as u64
    } else {
        0
    }
}

/// The index after a sighting of `raw` as a candidate of kind `kind`.
pub open spec fn with_candidate(m: IndexModel, raw: Seq<char>, kind: CompletionKind) -> IndexModel {
    let t = text::trimmed(raw);
    let key = text::lowercase(t);
    let seq = next_number(m.next_seq);
    if !is_candidate_text(t) || key.len() == 0 {
        m
    } else if m.candidates.contains_key(key) {
        IndexModel {
            candidates: m.candidates.insert(key, seen_again(m.candidates[key], t, kind, seq)),
            next_seq: seq,
            ..m
        }
    } else {
        IndexModel {
            candidates: m.candidates.insert(
                key,
                CandidateModel { text: t, key, kind, frequency: 1, last_seen_seq: seq },
            ),
            keys: m.keys.insert(
                top::rank_position(m.keys, utf8::text_key(key), by_text()),
                key,
            ),
            next_seq: seq,
            ..m
        }
    }
}

/// The index after the sightings, in their order.
pub open spec fn with_candidates(
    m: IndexModel,
    found: Seq<(Seq<char>, CompletionKind)>,
) -> IndexModel
    decreases found.len(),
{
    if found.len() == 0 {
        m
    } else {
        let last = found.last();
        with_candidate(with_candidates(m, found.drop_last()), last.0, last.1)
    }
}

/// The match of key `k` if the query heads it.
pub open spec fn literal_item(
    m: IndexModel,
    query: Seq<char>,
    query_lower: Seq<char>,
    k: Seq<char>,
) -> Option<RankedModel> {
    if query_lower.is_prefix_of(k) {
        ranking::literal_rank(m.candidates[k], query, query_lower)
    } else {
        None
    }
}

/// The match of key `j` if the query heads it.
pub open spec fn literal_choice(
    m: IndexModel,
    query: Seq<char>,
    query_lower: Seq<char>,
) -> spec_fn(int) -> Option<RankedModel> {
    |j: int| literal_item(m, query, query_lower, m.keys[j])
}

/// The candidates whose keys the query heads, as matches.
pub open spec fn literal_items(
    m: IndexModel,
    query: Seq<char>,
    query_lower: Seq<char>,
) -> Seq<RankedModel> {
    select::select(m.keys.len() as int, literal_choice(m, query, query_lower))
}

/// Key `j` if the query heads it.
pub open spec fn headed_choice(m: IndexModel, query_lower: Seq<char>) -> spec_fn(int) -> Option<
    int,
> {
    |j: int|
        if query_lower.is_prefix_of(m.keys[j]) {
            Some(j)
        } else {
            None
        }
}

/// The numbers of the keys that the query heads.
pub open spec fn headed_keys(m: IndexModel, query_lower: Seq<char>) -> Seq<int> {
    select::select(m.keys.len() as int, headed_choice(m, query_lower))
}

/// The fewest bytes of a candidate that can still match with the allowed typos.
pub open spec fn min_match_len(query_lower: Seq<char>) -> int {
    utf8::utf8_len(query_lower) - masks::allowed_typos(query_lower)
}

/// The key goes to the fuzzy matcher: it is ASCII, does not hold the query, is long
/// enough, and lacks no more of the query's characters than typos are allowed.
pub open spec fn is_scored_key(k: Seq<char>, query_lower: Seq<char>) -> bool {
    &&& is_ascii_chars(k)
    &&& !ranking::is_literal_match(k, query_lower)
    &&& utf8::utf8_len(k) >= min_match_len(query_lower)
    &&& masks::missing_chars(k, query_lower) <= masks::allowed_typos(query_lower)
}

/// A candidate as a fuzzy match with the given score, of which more is better.
pub open spec fn scored_candidate(
    candidate: CandidateModel,
    max_typos: u16,
    score: u16,
) -> RankedModel {
    RankedModel {
        candidate,
        match_class: MatchClass::Fuzzy,
        fuzzy_score: -(score as int),
        places: MatchPlaces::Fuzzy(max_typos),
    }
}

/// What the fuzzy matcher reports of the candidates that were sent to it, as matches.
pub open spec fn reported_candidates(
    sent: Seq<CandidateModel>,
    report: Seq<(usize, u16)>,
    max_typos: u16,
) -> Seq<RankedModel> {
    report.map_values(|e: (usize, u16)| scored_candidate(sent[e.0 as int], max_typos, e.1))
}

/// The match of key `j` if it is scored.
pub open spec fn scored_choice(
    m: IndexModel,
    query_lower: Seq<char>,
    scores: spec_fn(int) -> Option<u16>,
) -> spec_fn(int) -> Option<RankedModel> {
    |j: int|
        if is_scored_key(m.keys[j], query_lower) {
            match scores(j) {
                Some(score) => Some(
                    scored_candidate(
                        m.candidates[m.keys[j]],
                        masks::allowed_typos(query_lower),
                        score,
                    ),
                ),
                None => None,
            }
        } else {
            None
        }
}

/// The candidates that the fuzzy matcher scores, as matches.
pub open spec fn scored_items(
    m: IndexModel,
    query_lower: Seq<char>,
    scores: spec_fn(int) -> Option<u16>,
) -> Seq<RankedModel> {
    select::select(m.keys.len() as int, scored_choice(m, query_lower, scores))
}

/// The key goes to the plain fuzzy matcher: it does not hold the query, and is not
/// ASCII where only such keys are asked for.
pub open spec fn is_plain_key(
    k: Seq<char>,
    query_lower: Seq<char>,
    only_non_ascii: bool,
) -> bool {
    &&& !ranking::is_literal_match(k, query_lower)
    &&& !(only_non_ascii && is_ascii_chars(k))
}

/// The match of key `j` if the plain fuzzy matcher finds the query in its text.
pub open spec fn plain_choice(
    m: IndexModel,
    query_lower: Seq<char>,
    only_non_ascii: bool,
    found: spec_fn(int) -> Option<(Seq<usize>, i32)>,
) -> spec_fn(int) -> Option<RankedModel> {
    |j: int|
        if is_plain_key(m.keys[j], query_lower, only_non_ascii) {
            ranking::fuzzy_rank(m.candidates[m.keys[j]], found(j))
        } else {
            None
        }
}

/// The candidates that the plain fuzzy matcher finds, as matches.
pub open spec fn plain_items(
    m: IndexModel,
    query_lower: Seq<char>,
    only_non_ascii: bool,
    found: spec_fn(int) -> Option<(Seq<usize>, i32)>,
) -> Seq<RankedModel> {
    select::select(m.keys.len() as int, plain_choice(m, query_lower, only_non_ascii, found))
}

/// The fuzzy matches of a query. An ASCII query is scored against the ASCII keys, and
/// the others go to the plain matcher; any other query goes there with all keys.
pub open spec fn fuzzy_items(
    m: IndexModel,
    query_lower: Seq<char>,
    scores: spec_fn(int) -> Option<u16>,
    found: spec_fn(int) -> Option<(Seq<usize>, i32)>,
) -> Seq<RankedModel> {
    if is_ascii_chars(query_lower) {
        scored_items(m, query_lower, scores) + plain_items(m, query_lower, true, found)
    } else {
        plain_items(m, query_lower, false, found)
    }
}

/// The scores of the keys are those of the fuzzy matcher.
pub open spec fn are_key_scores(
    m: IndexModel,
    query_lower: Seq<char>,
    scores: spec_fn(int) -> Option<u16>,
) -> bool {
    matcher::is_portable(query_lower) ==> forall|j: int|
        0 <= j < m.keys.len() && is_scored_key(m.keys[j], query_lower) ==> #[trigger] scores(j)
            == matcher::frizbee_score(query_lower, m.keys[j], masks::allowed_typos(query_lower))
}

/// What was found in the texts of the keys are answers of the plain matcher `f`.
pub open spec fn are_plain_answers<M: Fn(&str, &str) -> Option<(Vec<usize>, i32)>>(
    m: IndexModel,
    f: M,
    query: Seq<char>,
    query_lower: Seq<char>,
    only_non_ascii: bool,
    found: spec_fn(int) -> Option<(Seq<usize>, i32)>,
) -> bool {
    forall|j: int|
        0 <= j < m.keys.len() && is_plain_key(m.keys[j], query_lower, only_non_ascii)
            ==> ranking::is_fuzzy_answer(
            f,
            m.candidates[m.keys[j]].text,
            query,
            #[trigger] found(j),
        )
}

/// `r` are the best `limit` matches of the plain matcher.
pub open spec fn are_plain_matches<M: Fn(&str, &str) -> Option<(Vec<usize>, i32)>>(
    m: IndexModel,
    f: M,
    query: Seq<char>,
    query_lower: Seq<char>,
    only_non_ascii: bool,
    limit: nat,
    r: Seq<RankedModel>,
) -> bool {
    exists|found: spec_fn(int) -> Option<(Seq<usize>, i32)>| #[trigger]
        are_plain_answers(m, f, query, query_lower, only_non_ascii, found) && top::is_top(
            r,
            plain_items(m, query_lower, only_non_ascii, found),
            limit,
            ranking::by_session_key(),
        )
}

/// `r` are the best `limit` fuzzy matches.
pub open spec fn are_fuzzy_matches<M: Fn(&str, &str) -> Option<(Vec<usize>, i32)>>(
    m: IndexModel,
    f: M,
    query: Seq<char>,
    query_lower: Seq<char>,
    limit: nat,
    r: Seq<RankedModel>,
) -> bool {
    exists|
        scores: spec_fn(int) -> Option<u16>,
        found: spec_fn(int) -> Option<(Seq<usize>, i32)>,
    |
        #![trigger are_key_scores(m, query_lower, scores), are_plain_answers(m, f, query, query_lower, is_ascii_chars(query_lower), found)]
        are_key_scores(m, query_lower, scores) && are_plain_answers(
            m,
            f,
            query,
            query_lower,
            is_ascii_chars(query_lower),
            found,
        ) && top::is_top(
            r,
            fuzzy_items(m, query_lower, scores, found),
            limit,
            ranking::by_session_key(),
        )
}

/// `literal` and `fuzzy` are the session matches of a query: the best of those that the
/// query heads, and, as far as there is room, the best fuzzy matches behind them.
pub open spec fn are_session_matches<M: Fn(&str, &str) -> Option<(Vec<usize>, i32)>>(
    m: IndexModel,
    f: M,
    query: Seq<char>,
    query_lower: Seq<char>,
    literal: Seq<RankedModel>,
    fuzzy: Seq<RankedModel>,
) -> bool {
    &&& top::is_top(
        literal,
        literal_items(m, query, query_lower),
        MAX_COMPLETION_RESULTS as nat,
        ranking::by_session_key(),
    )
    &&& if literal.len() < MAX_COMPLETION_RESULTS {
        are_fuzzy_matches(
            m,
            f,
            query,
            query_lower,
            (MAX_COMPLETION_RESULTS - literal.len()) as nat,
            fuzzy,
        )
    } else {
        fuzzy.len() == 0
    }
}

/// The rarest pair of the query in a pair index, if one of its pairs has words.
pub open spec fn rarest_pair(s: Seq<char>, index: Seq<u8>) -> Option<int> {
    if exists|k: int| dictionary::is_rarest_pair(s, index, k) {
        Some(choose|k: int| dictionary::is_rarest_pair(s, index, k))
    } else {
        None
    }
}

/// The words that may match: those of the rarest pair.
pub open spec fn words_of_query(
    d: DictionaryModel,
    s: Seq<char>,
    index: Seq<u8>,
) -> Seq<RecordModel> {
    match rarest_pair(s, index) {
        Some(k) => dictionary::posting_ids(index, k).map_values(|id: usize| d.records[id as int]),
        None => Seq::empty(),
    }
}

/// The words among which those are sought that hold the query.
pub open spec fn words_to_rank(m: IndexModel, query_lower: Seq<char>) -> Seq<RecordModel> {
    words_of_query(m.dictionary, query_lower, m.dictionary.bigram_index)
}

/// The match of word `j` if it holds the query and the session does not have it.
pub open spec fn word_choice(
    m: IndexModel,
    query: Seq<char>,
    query_lower: Seq<char>,
) -> spec_fn(int) -> Option<DictionaryRankedModel> {
    |j: int|
        if m.candidates.contains_key(words_to_rank(m, query_lower)[j].text) {
            None
        } else {
            dictionary_ranking::word_rank(
                words_to_rank(m, query_lower)[j].text,
                query,
                query_lower,
            )
        }
}

/// The words that hold the query, as matches.
pub open spec fn word_items(
    m: IndexModel,
    query: Seq<char>,
    query_lower: Seq<char>,
) -> Seq<DictionaryRankedModel> {
    select::select(
        words_to_rank(m, query_lower).len() as int,
        word_choice(m, query, query_lower),
    )
}

/// The word goes to the fuzzy matcher: the session does not have it, it does not hold
/// the query, is long enough, and lacks no more of the query's letters than typos are
/// allowed.
pub open spec fn is_scored_word(m: IndexModel, word: RecordModel, query_lower: Seq<char>) -> bool {
    &&& !m.candidates.contains_key(word.text)
    &&& !ranking::is_literal_match(word.text, query_lower)
    &&& utf8::utf8_len(word.text) >= min_match_len(query_lower)
    &&& masks::missing_letters(word.letter_mask, query_lower) <= masks::allowed_typos(query_lower)
}

/// The words among which fuzzy matches are sought: none for a query of less than four
/// bytes.
pub open spec fn words_to_score(m: IndexModel, query_lower: Seq<char>) -> Seq<RecordModel> {
    if utf8::utf8_len(query_lower) < 4 {
        Seq::empty()
    } else {
        words_of_query(m.dictionary, query_lower, m.dictionary.pair_index)
    }
}

/// A word as a fuzzy match with the given score, of which more is better.
pub open spec fn scored_word(word: Seq<char>, max_typos: u16, score: u16) -> DictionaryRankedModel {
    DictionaryRankedModel {
        text: word,
        match_class: MatchClass::Fuzzy,
        fuzzy_score: -(score as int),
        places: MatchPlaces::Fuzzy(max_typos),
    }
}

/// What the fuzzy matcher reports of the words that were sent to it, as matches.
pub open spec fn reported_words(
    sent: Seq<Seq<char>>,
    report: Seq<(usize, u16)>,
    max_typos: u16,
) -> Seq<DictionaryRankedModel> {
    report.map_values(|e: (usize, u16)| scored_word(sent[e.0 as int], max_typos, e.1))
}

/// The match of word `j` if it is scored.
pub open spec fn scored_word_choice(
    m: IndexModel,
    query_lower: Seq<char>,
    scores: spec_fn(int) -> Option<u16>,
) -> spec_fn(int) -> Option<DictionaryRankedModel> {
    |j: int|
        if is_scored_word(m, words_to_score(m, query_lower)[j], query_lower) {
            match scores(j) {
                Some(score) => Some(
                    scored_word(
                        words_to_score(m, query_lower)[j].text,
                        masks::allowed_typos(query_lower),
                        score,
                    ),
                ),
                None => None,
            }
        } else {
            None
        }
}

/// The words that the fuzzy matcher scores, as matches.
pub open spec fn scored_word_items(
    m: IndexModel,
    query_lower: Seq<char>,
    scores: spec_fn(int) -> Option<u16>,
) -> Seq<DictionaryRankedModel> {
    select::select(
        words_to_score(m, query_lower).len() as int,
        scored_word_choice(m, query_lower, scores),
    )
}

/// The scores of the words are those of the fuzzy matcher.
pub open spec fn are_word_scores(
    m: IndexModel,
    query_lower: Seq<char>,
    scores: spec_fn(int) -> Option<u16>,
) -> bool {
    matcher::is_portable(query_lower) ==> forall|j: int|
        0 <= j < words_to_score(m, query_lower).len() && is_scored_word(
            m,
            words_to_score(m, query_lower)[j],
            query_lower,
        ) ==> #[trigger] scores(j) == matcher::frizbee_score(
            query_lower,
            words_to_score(m, query_lower)[j].text,
            masks::allowed_typos(query_lower),
        )
}

/// `r` are the best `limit` words that hold the query.
pub open spec fn are_literal_words(
    m: IndexModel,
    query: Seq<char>,
    query_lower: Seq<char>,
    limit: nat,
    r: Seq<DictionaryRankedModel>,
) -> bool {
    top::is_top(
        r,
        word_items(m, query, query_lower),
        limit,
        dictionary_ranking::by_dictionary_key(),
    )
}

/// `r` are the best `limit` words that match fuzzily.
pub open spec fn are_fuzzy_words(
    m: IndexModel,
    query_lower: Seq<char>,
    limit: nat,
    r: Seq<DictionaryRankedModel>,
) -> bool {
    exists|scores: spec_fn(int) -> Option<u16>| #[trigger]
        are_word_scores(m, query_lower, scores) && top::is_top(
            r,
            scored_word_items(m, query_lower, scores),
            limit,
            dictionary_ranking::by_dictionary_key(),
        )
}

/// `r` are the best `limit` words for a query; there are none for a query that is not
/// ASCII.
pub open spec fn are_words(
    m: IndexModel,
    query: Seq<char>,
    query_lower: Seq<char>,
    limit: nat,
    r: Seq<DictionaryRankedModel>,
) -> bool {
    if is_ascii_chars(query_lower) {
        exists|scores: spec_fn(int) -> Option<u16>| #[trigger]
            are_word_scores(m, query_lower, scores) && top::is_top(
                r,
                word_items(m, query, query_lower) + scored_word_items(m, query_lower, scores),
                limit,
                dictionary_ranking::by_dictionary_key(),
            )
    } else {
        r.len() == 0
    }
}

/// `results` are the completions of session matches, in their order.
pub open spec fn are_session_completions(
    matches: Seq<RankedModel>,
    query_lower: Seq<char>,
    results: Seq<CompletionMatch>,
) -> bool {
    &&& results.len() == matches.len()
    &&& forall|i: int|
        0 <= i < results.len() ==> ranking::is_session_completion(
            matches[i],
            query_lower,
            #[trigger] results[i],
        )
}

/// `results` are the completions of words, in their order.
pub open spec fn are_word_completions(
    words: Seq<DictionaryRankedModel>,
    query_lower: Seq<char>,
    results: Seq<CompletionMatch>,
) -> bool {
    &&& results.len() == words.len()
    &&& forall|i: int|
        0 <= i < results.len() ==> dictionary_ranking::is_dictionary_completion(
            words[i],
            query_lower,
            #[trigger] results[i],
        )
}

/// `results` are the completions of the best `limit` words.
pub open spec fn are_dictionary_results(
    m: IndexModel,
    query: Seq<char>,
    query_lower: Seq<char>,
    limit: nat,
    results: Seq<CompletionMatch>,
) -> bool {
    exists|words: Seq<DictionaryRankedModel>| #[trigger]
        are_words(m, query, query_lower, limit, words) && are_word_completions(
            words,
            query_lower,
            results,
        )
}

/// `results` are the completions of what the session finds.
pub open spec fn are_session_results<M: Fn(&str, &str) -> Option<(Vec<usize>, i32)>>(
    m: IndexModel,
    f: M,
    query: Seq<char>,
    results: Seq<CompletionMatch>,
) -> bool {
    let query_lower = text::lowercase(query);
    exists|literal: Seq<RankedModel>, fuzzy: Seq<RankedModel>| #[trigger]
        are_session_matches(m, f, query, query_lower, literal, fuzzy) && are_session_completions(
            literal + fuzzy,
            query_lower,
            results,
        )
}

/// The results of a query come in two parts, the session's `session` and the
/// dictionary's `words`.
pub open spec fn are_result_parts<M: Fn(&str, &str) -> Option<(Vec<usize>, i32)>>(
    m: IndexModel,
    f: M,
    query: Seq<char>,
    include_dictionary: bool,
    session: Seq<CompletionMatch>,
    words: Seq<CompletionMatch>,
) -> bool {
    let query_lower = text::lowercase(query);
    &&& are_session_results(m, f, query, session)
    &&& session.len() <= MAX_COMPLETION_RESULTS
    &&& if include_dictionary && session.len() < MAX_COMPLETION_RESULTS {
        are_dictionary_results(
            m,
            query,
            query_lower,
            (MAX_COMPLETION_RESULTS - session.len()) as nat,
            words,
        )
    } else {
        words.len() == 0
    }
}

/// `results` are what a search for `query` finds: nothing for a query that is too
/// short; otherwise the matches of the session, and, where the dictionary is asked for
/// and there is room, its words behind them.
pub open spec fn are_results<M: Fn(&str, &str) -> Option<(Vec<usize>, i32)>>(
    m: IndexModel,
    f: M,
    query: Seq<char>,
    include_dictionary: bool,
    results: Seq<CompletionMatch>,
) -> bool {
    if query.len() < MIN_COMPLETION_QUERY_CHARS {
        results.len() == 0
    } else {
        exists|session: Seq<CompletionMatch>, words: Seq<CompletionMatch>| #[trigger]
            are_result_parts(m, f, query, include_dictionary, session, words) && results == session
                + words
    }
}

/// The scores of the keys by the name of what the fuzzy matcher gives.
pub open spec fn key_scores(m: IndexModel, query_lower: Seq<char>) -> spec_fn(int) -> Option<u16> {
    |j: int| matcher::frizbee_score(query_lower, m.keys[j], masks::allowed_typos(query_lower))
}

/// The scores of the words by the name of what the fuzzy matcher gives.
pub open spec fn word_scores(m: IndexModel, query_lower: Seq<char>) -> spec_fn(int) -> Option<u16> {
    |j: int|
        matcher::frizbee_score(
            query_lower,
            words_to_score(m, query_lower)[j].text,
            masks::allowed_typos(query_lower),
        )
}

/// The fuzzy matcher scores `n` of the keys.
pub open spec fn is_scored_count(m: IndexModel, query_lower: Seq<char>, n: nat) -> bool {
    &&& n <= m.keys.len()
    &&& matcher::is_portable(query_lower) ==> n == scored_items(
        m,
        query_lower,
        key_scores(m, query_lower),
    ).len()
}

/// The fuzzy matcher scores `n` of the words.
pub open spec fn is_scored_word_count(m: IndexModel, query_lower: Seq<char>, n: nat) -> bool {
    &&& n <= words_to_score(m, query_lower).len()
    &&& matcher::is_portable(query_lower) ==> n == scored_word_items(
        m,
        query_lower,
        word_scores(m, query_lower),
    ).len()
}

/// How many questions the fuzzy search of the session asks: it scans the keys, what the
/// fuzzy matcher scores of them, and for the plain matcher the keys again.
pub open spec fn fuzzy_questions(m: IndexModel, query_lower: Seq<char>, scored: nat) -> int {
    if is_ascii_chars(query_lower) {
        asking::questions_of(m.keys.len()) + asking::questions_of(scored) + asking::questions_of(
            m.keys.len(),
        )
    } else {
        asking::questions_of(m.keys.len())
    }
}

/// How many questions the fuzzy search of the dictionary asks.
pub open spec fn word_questions(m: IndexModel, query_lower: Seq<char>, scored: nat) -> int {
    asking::questions_of(words_to_score(m, query_lower).len()) + asking::questions_of(scored)
}

/// How many questions the search of the dictionary for `limit` words asks: none for a query
/// that is not ASCII; the fuzzy search is made only where there is room.
pub open spec fn dictionary_questions(
    m: IndexModel,
    query: Seq<char>,
    query_lower: Seq<char>,
    limit: nat,
    scored: nat,
) -> int {
    if !is_ascii_chars(query_lower) {
        0
    } else {
        asking::questions_of(words_to_rank(m, query_lower).len()) + if word_items(
            m,
            query,
            query_lower,
        ).len() < limit {
            word_questions(m, query_lower, scored)
        } else {
            0
        }
    }
}

/// How many questions the search of the session asks: it scans the keys that the query heads;
/// the fuzzy search is made only where there is room.
pub open spec fn session_questions(
    m: IndexModel,
    query: Seq<char>,
    query_lower: Seq<char>,
    scored: nat,
) -> int {
    asking::questions_of(headed_keys(m, query_lower).len()) + if literal_items(
        m,
        query,
        query_lower,
    ).len() < MAX_COMPLETION_RESULTS {
        fuzzy_questions(m, query_lower, scored)
    } else {
        0
    }
}

/// How many questions a search asks of which the session finds `session` results: none for a
/// query that is too short; otherwise one at the start and those of its scans.
pub open spec fn search_questions(
    m: IndexModel,
    query: Seq<char>,
    include_dictionary: bool,
    session: nat,
    scored: nat,
    scored_words: nat,
) -> int {
    let query_lower = text::lowercase(query);
    if query.len() < MIN_COMPLETION_QUERY_CHARS {
        0
    } else {
        1 + session_questions(m, query, query_lower, scored) + if include_dictionary && session < MAX_COMPLETION_RESULTS {
            dictionary_questions(
                m,
                query,
                query_lower,
                (MAX_COMPLETION_RESULTS - session) as nat,
                scored_words,
            )
        } else {
            0
        }
    }
}

/// `n` is how many questions a search asks of which the session finds `session` results.
pub open spec fn is_question_count(
    m: IndexModel,
    query: Seq<char>,
    include_dictionary: bool,
    session: nat,
    n: int,
) -> bool {
    exists|scored: nat, scored_words: nat|
        #![trigger is_scored_count(m, text::lowercase(query), scored), is_scored_word_count(m, text::lowercase(query), scored_words)]
        is_scored_count(m, text::lowercase(query), scored) && is_scored_word_count(
            m,
            text::lowercase(query),
            scored_words,
        ) && n == search_questions(m, query, include_dictionary, session, scored, scored_words)
}

/// The session finds `n` results.
pub open spec fn is_session_count<M: Fn(&str, &str) -> Option<(Vec<usize>, i32)>>(
    m: IndexModel,
    f: M,
    query: Seq<char>,
    n: nat,
) -> bool {
    exists|literal: Seq<RankedModel>, fuzzy: Seq<RankedModel>| #[trigger]
        are_session_matches(m, f, query, text::lowercase(query), literal, fuzzy) && n
            == literal.len() + fuzzy.len()
}

/// `results` are what a search finds that asks `n` questions.
pub open spec fn are_results_after<M: Fn(&str, &str) -> Option<(Vec<usize>, i32)>>(
    m: IndexModel,
    f: M,
    query: Seq<char>,
    include_dictionary: bool,
    n: int,
    results: Seq<CompletionMatch>,
) -> bool {
    if query.len() < MIN_COMPLETION_QUERY_CHARS {
        results.len() == 0 && n == 0
    } else {
        exists|session: Seq<CompletionMatch>, words: Seq<CompletionMatch>| #[trigger]
            are_result_parts(m, f, query, include_dictionary, session, words) && results == session
                + words && is_question_count(m, query, include_dictionary, session.len(), n)
    }
}

/// A search comes to ask `n` questions: it asks no fewer, as far as it is known by then what
/// the session finds. Before that is known the dictionary is not searched.
pub open spec fn comes_to_ask<M: Fn(&str, &str) -> Option<(Vec<usize>, i32)>>(
    m: IndexModel,
    f: M,
    query: Seq<char>,
    include_dictionary: bool,
    n: int,
) -> bool {
    exists|session: nat, most: int| #[trigger]
        is_question_count(m, query, include_dictionary, session, most) && n <= most && (session
            == MAX_COMPLETION_RESULTS || is_session_count(m, f, query, session))
}

/// What a search finds that asks questions it finds.
pub proof fn lemma_results_after<M: Fn(&str, &str) -> Option<(Vec<usize>, i32)>>(
    m: IndexModel,
    f: M,
    query: Seq<char>,
    include_dictionary: bool,
    n: int,
    results: Seq<CompletionMatch>,
)
    requires
        are_results_after(m, f, query, include_dictionary, n, results),
    ensures
        are_results(m, f, query, include_dictionary, results),
{
}

/// The scores of the keys make up how many are scored.
pub proof fn lemma_scored_count(
    m: IndexModel,
    query_lower: Seq<char>,
    scores: spec_fn(int) -> Option<u16>,
)
    requires
        are_key_scores(m, query_lower, scores),
    ensures
        is_scored_count(m, query_lower, scored_items(m, query_lower, scores).len()),
{
    let n = m.keys.len() as int;
    let f = scored_choice(m, query_lower, scores);
    let g = scored_choice(m, query_lower, key_scores(m, query_lower));
    select::lemma_select_len(n, f);
    if matcher::is_portable(query_lower) {
        assert forall|j: int| 0 <= j < n implies f(j) == #[trigger] g(j) by {
            if is_scored_key(m.keys[j], query_lower) {
                assert(scores(j) == key_scores(m, query_lower)(j));
            }
        }
        select::lemma_select_same(n, f, g);
    }
}

/// The scores of the words make up how many are scored.
pub proof fn lemma_scored_word_count(
    m: IndexModel,
    query_lower: Seq<char>,
    scores: spec_fn(int) -> Option<u16>,
)
    requires
        are_word_scores(m, query_lower, scores),
    ensures
        is_scored_word_count(m, query_lower, scored_word_items(m, query_lower, scores).len()),
{
    let n = words_to_score(m, query_lower).len() as int;
    let f = scored_word_choice(m, query_lower, scores);
    let g = scored_word_choice(m, query_lower, word_scores(m, query_lower));
    select::lemma_select_len(n, f);
    if matcher::is_portable(query_lower) {
        assert forall|j: int| 0 <= j < n implies f(j) == #[trigger] g(j) by {
            if is_scored_word(m, words_to_score(m, query_lower)[j], query_lower) {
                assert(scores(j) == word_scores(m, query_lower)(j));
            }
        }
        select::lemma_select_same(n, f, g);
    }
}

/// There is a number of scored keys.
pub proof fn lemma_some_scored_count(m: IndexModel, query_lower: Seq<char>) -> (n: nat)
    ensures
        is_scored_count(m, query_lower, n),
{
    lemma_scored_count(m, query_lower, key_scores(m, query_lower));
    scored_items(m, query_lower, key_scores(m, query_lower)).len()
}

/// There is a number of scored words.
pub proof fn lemma_some_scored_word_count(m: IndexModel, query_lower: Seq<char>) -> (n: nat)
    ensures
        is_scored_word_count(m, query_lower, n),
{
    lemma_scored_word_count(m, query_lower, word_scores(m, query_lower));
    scored_word_items(m, query_lower, word_scores(m, query_lower)).len()
}

/// An ASCII needle of `n` bytes can be matched against each of the keys that is ASCII.
pub open spec fn keys_take(keys: Seq<Seq<char>>, n: nat) -> bool {
    forall|k: Seq<char>| #[trigger]
        keys.contains(k) && is_ascii_chars(k) ==> matcher::haystack_fits(
            n,
            utf8::utf8_len(k),
            masks::typos_for(n),
        )
}

/// `limit` is the length of the longest ASCII needle that can be matched against the keys.
pub open spec fn is_needle_limit(keys: Seq<Seq<char>>, limit: nat) -> bool {
    forall|n: nat|
        0 < n <= matcher::MAX_NEEDLE_BYTES ==> (#[trigger] keys_take(keys, n) <==> n <= limit)
}

/// One more key can only lower the limit.
pub proof fn lemma_needle_limit(
    keys: Seq<Seq<char>>,
    limit: nat,
    more: Seq<Seq<char>>,
    k: Seq<char>,
)
    requires
        is_needle_limit(keys, limit),
        forall|o: Seq<char>| #[trigger] more.contains(o) <==> (keys.contains(o) || o == k),
    ensures
        is_needle_limit(
            more,
            if is_ascii_chars(k) && matcher::needle_limit(utf8::utf8_len(k)) < limit {
                matcher::needle_limit(utf8::utf8_len(k))
            } else {
                limit
            },
        ),
{
    assert forall|n: nat| 0 < n <= matcher::MAX_NEEDLE_BYTES implies (#[trigger] keys_take(more, n)
        <==> keys_take(keys, n) && (is_ascii_chars(k) ==> n <= matcher::needle_limit(
        utf8::utf8_len(k),
    ))) by {
        assert(more.contains(k));
        if keys_take(more, n) {
            assert forall|o: Seq<char>| #[trigger] keys.contains(o) && is_ascii_chars(o) implies
                matcher::haystack_fits(n, utf8::utf8_len(o), masks::typos_for(n)) by {
                assert(more.contains(o));
            }
        }
    }
}

/// An ASCII query can be scored against the keys of the index: the fuzzy matcher can
/// take it, every ASCII key, and as many keys as there are.
pub open spec fn can_score(m: IndexModel, query_lower: Seq<char>) -> bool {
    is_ascii_chars(query_lower) ==> {
        &&& matcher::needle_fits(query_lower, masks::allowed_typos(query_lower))
        &&& m.keys.len() <= u32::MAX
        &&& forall|j: int|
            0 <= j < m.keys.len() && is_ascii_chars(m.keys[j]) ==> matcher::haystack_fits(
                utf8::utf8_len(query_lower),
                utf8::utf8_len(#[trigger] m.keys[j]),
                masks::allowed_typos(query_lower),
            )
    }
}

/// The query can be searched for: it is too short to be, or it can be scored.
pub open spec fn can_search(m: IndexModel, query: Seq<char>) -> bool {
    query.len() >= MIN_COMPLETION_QUERY_CHARS ==> can_score(m, text::lowercase(query))
}

/// There is at most one rarest pair.
pub proof fn lemma_rarest_pair(s: Seq<char>, index: Seq<u8>, k: int)
    requires
        dictionary::is_rarest_pair(s, index, k),
    ensures
        rarest_pair(s, index) == Some(k),
{
    let o = choose|o: int| dictionary::is_rarest_pair(s, index, o);
    assert(dictionary::is_rarest_pair(s, index, o));
    assert(dictionary::is_pair_key(s, o) && dictionary::is_pair_key(s, k));
}

/// A word that a query may match is one of the dictionary: the one that the posting of the
/// rarest pair names.
pub proof fn lemma_word_of_query(d: DictionaryModel, s: Seq<char>, index: Seq<u8>, j: int)
    requires
        d.wf(),
        dictionary::is_pair_index(index, d.records.len() as int),
        0 <= j < words_of_query(d, s, index).len(),
    ensures
        ({
            let k = rarest_pair(s, index)->0;
            let ids = dictionary::posting_ids(index, k);
            &&& 0 <= k < dictionary::DICTIONARY_PAIR_COUNT
            &&& ids.len() == words_of_query(d, s, index).len()
            &&& ids[j] < d.records.len()
            &&& words_of_query(d, s, index)[j] == d.records[ids[j] as int]
        }),
        utf8::utf8_len(words_of_query(d, s, index)[j].text) < 256,
{
    let k = rarest_pair(s, index)->0;
    assert(dictionary::is_rarest_pair(s, index, k));
    let p = choose|p: int|
        0 <= p < s.len() - 1 && dictionary::is_lower(s[p]) && dictionary::is_lower(s[p + 1]) && k
            == #[trigger] dictionary::pair_at(s, p);
    assert(dictionary::is_posting(index, k, d.records.len() as int));
    let id = dictionary::posting_ids(index, k)[j];
    assert(id < d.records.len());
    assert(words_of_query(d, s, index)[j] == d.records[id as int]);
}

/// A key put at its place keeps the keys in order.
pub proof fn lemma_insert_sorted(keys: Seq<Seq<char>>, k: Seq<char>, p: int)
    requires
        forall|i: int, j: int|
            0 <= i < j < keys.len() ==> utf8::text_less(#[trigger] keys[i], #[trigger] keys[j]),
        !keys.contains(k),
        0 <= p <= keys.len(),
        forall|i: int| 0 <= i < p ==> utf8::text_less(#[trigger] keys[i], k),
        forall|i: int| p <= i < keys.len() ==> !utf8::text_less(#[trigger] keys[i], k),
    ensures
        forall|i: int, j: int|
            0 <= i < j < keys.insert(p, k).len() ==> utf8::text_less(
                #[trigger] keys.insert(p, k)[i],
                #[trigger] keys.insert(p, k)[j],
            ),
        forall|o: Seq<char>| #[trigger]
            keys.insert(p, k).contains(o) <==> (keys.contains(o) || o == k),
{
    let r = keys.insert(p, k);
    assert forall|i: int, j: int| 0 <= i < j < r.len() implies utf8::text_less(
        #[trigger] r[i],
        #[trigger] r[j],
    ) by {
        if i == p {
            let o = keys[j - 1];
            assert(r[j] == o);
            assert(!utf8::text_less(o, k));
            order::lex_total(utf8::text_key(o), utf8::text_key(k));
            if utf8::text_key(o) == utf8::text_key(k) {
                utf8::lemma_text_key_injective(o, k);
                assert(keys.contains(k));
            }
        } else if j == p {
            assert(r[i] == keys[i]);
        } else if j < p {
            assert(r[i] == keys[i] && r[j] == keys[j]);
        } else if i < p {
            assert(r[i] == keys[i] && r[j] == keys[j - 1]);
        } else {
            assert(r[i] == keys[i - 1] && r[j] == keys[j - 1]);
        }
    }
    assert forall|o: Seq<char>| #[trigger] r.contains(o) <==> (keys.contains(o) || o == k) by {
        if keys.contains(o) {
            let i = choose|i: int| 0 <= i < keys.len() && keys[i] == o;
            if i < p {
                assert(r[i] == o);
            } else {
                assert(r[i + 1] == o);
            }
        }
        if o == k {
            assert(r[p] == o);
        }
        if r.contains(o) {
            let i = choose|i: int| 0 <= i < r.len() && r[i] == o;
            if i < p {
                assert(keys[i] == o);
            } else if i > p {
                assert(keys[i - 1] == o);
            }
        }
    }
}

} // verus!
