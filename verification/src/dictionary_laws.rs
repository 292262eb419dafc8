//! Laws of the dictionary: what its tables say, and which of its words a search finds.
use vstd::prelude::*;
use vstd::utf8::*;

use crate::dictionary;
use crate::dictionary::DictionaryModel;
use crate::dictionary_ranking;
use crate::dictionary_ranking::DictionaryRankedModel;
use crate::masks;
use crate::match_laws;
use crate::matcher;
use crate::model;
use crate::model::IndexModel;
use crate::order;
use crate::order_laws;
use crate::ranking;
use crate::ranking::{CompletionKind, CompletionMatch, MatchClass, MatchPlaces, RankedModel};
use crate::result_laws;
use crate::select;
use crate::text;
use crate::top;
use crate::utf8;

verus! {

/// The number in four bytes, the least of them first.
pub open spec fn number_at(bytes: Seq<u8>, at: int) -> int {
    bytes[at] + 256 * (bytes[at + 1] + 256 * (bytes[at + 2] + 256 * bytes[at + 3]))
}

/// Every nine bytes of the record table name a word: its first byte in the text of all words,
/// its length in bytes, and the mask of its letters.
pub proof fn law_records_name_the_words(
    words: Seq<char>,
    index: Seq<u8>,
    bigram_index: Seq<u8>,
    pair_index: Seq<u8>,
    i: int,
)
    requires
        dictionary::is_dictionary(words, index, bigram_index, pair_index),
        0 <= i < index.len() as int / 9,
    ensures
        ({
            let d = dictionary::dictionary_model(words, index, bigram_index, pair_index);
            let start = number_at(index, 9 * i);
            let end = start + index[9 * i + 4];
            &&& d.records.len() == index.len() as int / 9
            &&& d.records[i].letter_mask == number_at(index, 9 * i + 5)
            &&& exists|j: int, k: int|
                #![trigger words.subrange(j, k)]
                0 <= j <= k <= words.len() && encode_utf8(words.take(j)).len() == start
                    && encode_utf8(words.take(k)).len() == end && d.records[i].text
                    == words.subrange(j, k)
        }),
{
    let d = dictionary::dictionary_model(words, index, bigram_index, pair_index);
    let start = dictionary::u32_le(index, i * 9);
    let end = start + index[i * 9 + 4];
    assert(dictionary::record_fits(words, index, i));
    let j = utf8::lemma_boundary_is_offset(words, start);
    let k = utf8::lemma_boundary_is_offset(words, end);
    if k < j {
        utf8::lemma_offsets_increase(words, k, j);
    }
    text::lemma_slice_chars(words, j, k);
    assert(d.records[i].text == words.subrange(j, k));
}

/// A pair of letters has a header of eight bytes: where the numbers of its words start, and
/// how many they are; each of them takes four bytes.
pub proof fn law_postings_number_the_words(index: Seq<u8>, left: char, right: char, i: int)
    requires
        'a' <= left <= 'z',
        'a' <= right <= 'z',
        0 <= i < number_at(index, 8 * pair_number(left, right) + 4),
    ensures
        ({
            let k = pair_number(left, right);
            let ids = dictionary::posting_ids(index, k);
            &&& ids.len() == number_at(index, 8 * k + 4)
            &&& number_at(index, number_at(index, 8 * k) + 4 * i) <= usize::MAX ==> ids[i]
                == number_at(index, number_at(index, 8 * k) + 4 * i)
        }),
{
}

/// The number of a pair of letters.
pub open spec fn pair_number(left: char, right: char) -> int {
    26 * (left as int - 'a' as int) + (right as int - 'a' as int)
}

/// The bigram index lists each word under every two lowercase letters that are neighbours in
/// it.
pub open spec fn lists_neighbours(d: DictionaryModel) -> bool {
    forall|i: int, j: int|
        0 <= i < d.records.len() && 0 <= j < d.records[i].text.len() - 1 && 'a'
            <= d.records[i].text[j] <= 'z' && 'a' <= d.records[i].text[j + 1] <= 'z'
            ==> is_listed(d, d.bigram_index, i, #[trigger] d.records[i].text[j], d.records[i].text[j + 1])
}

/// The pair index lists each word under every two lowercase letters of which the second
/// follows the first in it.
pub open spec fn lists_pairs(d: DictionaryModel) -> bool {
    forall|i: int, j: int, k: int|
        #![trigger d.records[i].text[j], d.records[i].text[k]]
        0 <= i < d.records.len() && 0 <= j < k < d.records[i].text.len() && 'a'
            <= d.records[i].text[j] <= 'z' && 'a' <= d.records[i].text[k] <= 'z' ==> is_listed(
            d,
            d.pair_index,
            i,
            d.records[i].text[j],
            d.records[i].text[k],
        )
}

/// Word `i` is listed under the pair.
pub open spec fn is_listed(
    d: DictionaryModel,
    index: Seq<u8>,
    i: int,
    left: char,
    right: char,
) -> bool {
    exists|k: int|
        0 <= k < dictionary::posting_ids(index, pair_number(left, right)).len()
            && #[trigger] dictionary::posting_ids(index, pair_number(left, right))[k] == i
}

/// The query has two lowercase letters that are neighbours.
pub open spec fn has_a_pair(q: Seq<char>) -> bool {
    exists|j: int|
        0 <= j < q.len() - 1 && 'a' <= #[trigger] q[j] <= 'z' && 'a' <= q[j + 1] <= 'z'
}

/// Of the pairs of the query that have words, one is the rarest.
proof fn lemma_some_rarest(q: Seq<char>, index: Seq<u8>, k: int) -> (r: int)
    requires
        dictionary::is_pair_key(q, k),
        dictionary::posting_count(index, k) > 0,
    ensures
        dictionary::is_rarest_pair(q, index, r),
    decreases dictionary::posting_count(index, k), k,
{
    if dictionary::is_rarest_pair(q, index, k) {
        k
    } else {
        let o = choose|o: int| #[trigger]
            dictionary::is_pair_key(q, o) && dictionary::posting_count(index, o) > 0 && !(
            dictionary::posting_count(index, k) < dictionary::posting_count(index, o) || (
            dictionary::posting_count(index, k) == dictionary::posting_count(index, o) && k <= o));
        lemma_pair_key_bounds(q, o);
        lemma_some_rarest(q, index, o)
    }
}

proof fn lemma_pair_key_bounds(q: Seq<char>, k: int)
    requires
        dictionary::is_pair_key(q, k),
    ensures
        0 <= k < 676,
        exists|j: int|
            0 <= j < q.len() - 1 && 'a' <= #[trigger] q[j] <= 'z' && 'a' <= q[j + 1] <= 'z' && k
                == pair_number(q[j], q[j + 1]),
{
    let j = choose|j: int|
        0 <= j < q.len() - 1 && dictionary::is_lower(q[j]) && dictionary::is_lower(q[j + 1]) && k
            == #[trigger] dictionary::pair_at(q, j);
    assert('a' <= q[j] <= 'z');
}

/// A word that is listed under every pair of the query is among those that are looked at.
proof fn lemma_listed_word_is_looked_at(
    d: DictionaryModel,
    q: Seq<char>,
    index: Seq<u8>,
    i: int,
) -> (at: int)
    requires
        0 <= i < d.records.len(),
        has_a_pair(q),
        forall|j: int|
            0 <= j < q.len() - 1 && 'a' <= #[trigger] q[j] <= 'z' && 'a' <= q[j + 1] <= 'z'
                ==> is_listed(d, index, i, q[j], q[j + 1]),
    ensures
        0 <= at < model::words_of_query(d, q, index).len(),
        model::words_of_query(d, q, index)[at] == d.records[i],
{
    let j = choose|j: int|
        0 <= j < q.len() - 1 && 'a' <= #[trigger] q[j] <= 'z' && 'a' <= q[j + 1] <= 'z';
    let k = pair_number(q[j], q[j + 1]);
    assert(dictionary::pair_at(q, j) == k);
    assert(dictionary::is_pair_key(q, k));
    assert(is_listed(d, index, i, q[j], q[j + 1]));
    assert(dictionary::posting_count(index, k) > 0);
    let some = lemma_some_rarest(q, index, k);
    let r = model::rarest_pair(q, index)->0;
    assert(dictionary::is_rarest_pair(q, index, r));
    lemma_pair_key_bounds(q, r);
    let n = choose|n: int|
        0 <= n < q.len() - 1 && 'a' <= #[trigger] q[n] <= 'z' && 'a' <= q[n + 1] <= 'z' && r
            == pair_number(q[n], q[n + 1]);
    assert(is_listed(d, index, i, q[n], q[n + 1]));
    let ids = dictionary::posting_ids(index, r);
    let at = choose|at: int|
        0 <= at < dictionary::posting_ids(index, pair_number(q[n], q[n + 1])).len()
            && #[trigger] dictionary::posting_ids(index, pair_number(q[n], q[n + 1]))[at] == i;
    assert(ids[at] == i);
    at
}

/// How a word matches a query that it holds.
pub open spec fn class_of(word: Seq<char>, q: Seq<char>) -> MatchClass {
    if word == q {
        MatchClass::Exact
    } else if q.len() <= word.len() && word.take(q.len() as int) == q {
        MatchClass::Prefix
    } else {
        MatchClass::Substring
    }
}

/// A word is found as a match of the class, or the places are taken by words of no worse
/// class, none of the same class longer than it.
pub open spec fn word_is_among_or_beaten(
    ws: Seq<DictionaryRankedModel>,
    limit: nat,
    word: Seq<char>,
    class: MatchClass,
) -> bool {
    ||| exists|k: int|
        #![trigger ws[k]]
        0 <= k < ws.len() && ws[k].text == word && ws[k].match_class == class
    ||| ws.len() == limit && forall|k: int|
        #![trigger ws[k]]
        0 <= k < ws.len() ==> !order_laws::is_better_class(class, ws[k].match_class) && (
        ws[k].match_class == class ==> encode_utf8(ws[k].text).len() <= encode_utf8(word).len())
}

/// What a match of a word says of it: a word that the session does not have. It holds the
/// query, and is ranked by how it does; or it does not, and is as good a fuzzy match as the
/// fuzzy matcher says, for a query of four bytes or more than which it is no more than one
/// shorter.
pub proof fn law_words_match_the_query(
    m: IndexModel,
    query: Seq<char>,
    q: Seq<char>,
    limit: nat,
    ws: Seq<DictionaryRankedModel>,
    n: int,
)
    requires
        m.dictionary.wf(),
        model::are_words(m, query, q, limit, ws),
        0 <= n < ws.len(),
    ensures
        ({
            let w = ws[n];
            &&& is_ascii_chars(q)
            &&& !m.candidates.contains_key(w.text)
            &&& is_in_the_list(m.dictionary, w.text)
            &&& match_laws::holds(w.text, q) ==> is_ranked_by_place(w, query, q)
            &&& !match_laws::holds(w.text, q) ==> is_ranked_by_score(w, q)
        }),
{
    let key = dictionary_ranking::by_dictionary_key();
    let w = ws[n];
    let scores = choose|scores: spec_fn(int) -> Option<u16>| #[trigger]
        model::are_word_scores(m, q, scores) && top::is_top(
            ws,
            model::word_items(m, query, q) + model::scored_word_items(m, q, scores),
            limit,
            key,
        );
    let a = model::word_items(m, query, q);
    let b = model::scored_word_items(m, q, scores);
    top::lemma_top_member(ws, a + b, limit, key, n);
    let k = choose|k: int| 0 <= k < (a + b).len() && (a + b)[k] == w;
    if k < a.len() {
        assert(a.contains(w));
        lemma_holding_word(m, query, q, w);
    } else {
        assert(b[k - a.len()] == w);
        assert(b.contains(w));
        lemma_fuzzy_word(m, q, scores, w);
    }
}

/// The word is one of the dictionary.
pub open spec fn is_in_the_list(d: DictionaryModel, word: Seq<char>) -> bool {
    exists|i: int|
        #![trigger d.records[i]]
        0 <= i < d.records.len() && d.records[i].text == word
}

/// A match of a word that holds the query.
proof fn lemma_holding_word(m: IndexModel, query: Seq<char>, q: Seq<char>, w: DictionaryRankedModel)
    requires
        m.dictionary.wf(),
        model::word_items(m, query, q).contains(w),
    ensures
        !m.candidates.contains_key(w.text),
        is_in_the_list(m.dictionary, w.text),
        match_laws::holds(w.text, q),
        is_ranked_by_place(w, query, q),
{
    let j = select::lemma_select_source(
        model::words_to_rank(m, q).len() as int,
        model::word_choice(m, query, q),
        w,
    );
    let word = model::words_to_rank(m, q)[j].text;
    lemma_word_rank(word, query, q);
    lemma_looked_at_is_listed(m.dictionary, q, m.dictionary.bigram_index, j);
}

/// The words that are looked at are of the dictionary.
proof fn lemma_looked_at_is_listed(d: DictionaryModel, q: Seq<char>, index: Seq<u8>, j: int)
    requires
        d.wf(),
        dictionary::is_pair_index(index, d.records.len() as int),
        0 <= j < model::words_of_query(d, q, index).len(),
    ensures
        is_in_the_list(d, model::words_of_query(d, q, index)[j].text),
{
    model::lemma_word_of_query(d, q, index, j);
}

/// How a word is ranked that holds the query.
proof fn lemma_word_rank(word: Seq<char>, query: Seq<char>, q: Seq<char>)
    ensures
        match dictionary_ranking::word_rank(word, query, q) {
            Some(w) => w.text == word && match_laws::holds(word, q) && is_ranked_by_place(
                w,
                query,
                q,
            ),
            None => !match_laws::holds(word, q) || (word == q && word == query),
        },
{
    let prefix = q.is_prefix_of(word);
    let inside = utf8::contains_text(word, q);
    assert(match_laws::holds(word, q) == inside) by {
        match_laws::lemma_holds(word, q);
    }
    assert(prefix == (q.len() <= word.len() && word.take(q.len() as int) == q)) by {
        lemma_holds_itself(word, q);
    }
    assert(word == q || prefix ==> inside) by {
        lemma_holds_itself(word, q);
    }
    lemma_word_rank_by_place(word, query, q, prefix, inside);
}

/// How a word is ranked, by whether it begins with the query and whether it holds it.
proof fn lemma_word_rank_by_place(
    word: Seq<char>,
    query: Seq<char>,
    q: Seq<char>,
    prefix: bool,
    inside: bool,
)
    requires
        prefix == q.is_prefix_of(word),
        inside == utf8::contains_text(word, q),
    ensures
        match dictionary_ranking::word_rank(word, query, q) {
            Some(w) => {
                &&& w.text == word
                &&& word == q || prefix || inside
                &&& w.match_class == if word == q {
                    MatchClass::Exact
                } else if prefix {
                    MatchClass::Prefix
                } else {
                    MatchClass::Substring
                }
                &&& w.fuzzy_score == if word == q {
                    -1000int
                } else if prefix {
                    -500int
                } else {
                    0int
                }
                &&& word == q ==> word != query
            },
            None => (word == q && word == query) || !(word == q || prefix || inside),
        },
{
}

/// A fuzzy match of a word.
proof fn lemma_fuzzy_word(
    m: IndexModel,
    q: Seq<char>,
    scores: spec_fn(int) -> Option<u16>,
    w: DictionaryRankedModel,
)
    requires
        m.dictionary.wf(),
        model::are_word_scores(m, q, scores),
        model::scored_word_items(m, q, scores).contains(w),
    ensures
        !m.candidates.contains_key(w.text),
        is_in_the_list(m.dictionary, w.text),
        !match_laws::holds(w.text, q),
        is_ranked_by_score(w, q),
{
    let j = select::lemma_select_source(
        model::words_to_score(m, q).len() as int,
        model::scored_word_choice(m, q, scores),
        w,
    );
    lemma_looked_at_is_listed(m.dictionary, q, m.dictionary.pair_index, j);
    match_laws::lemma_holds(w.text, q);
}

/// The match is ranked by where the query stands in the word; it is not what was typed.
pub open spec fn is_ranked_by_place(
    w: DictionaryRankedModel,
    query: Seq<char>,
    q: Seq<char>,
) -> bool {
    &&& w.match_class == class_of(w.text, q)
    &&& w.match_class == MatchClass::Exact ==> w.text != query && w.fuzzy_score == -1000
    &&& w.match_class == MatchClass::Prefix ==> w.fuzzy_score == -500
    &&& w.match_class == MatchClass::Substring ==> w.fuzzy_score == 0
}

/// The match is ranked by the score of the fuzzy matcher, for a query of four bytes or more than
/// which the word is no more than one shorter.
pub open spec fn is_ranked_by_score(w: DictionaryRankedModel, q: Seq<char>) -> bool {
    &&& w.match_class == MatchClass::Fuzzy
    &&& encode_utf8(q).len() >= 4
    &&& encode_utf8(w.text).len() + 1 >= encode_utf8(q).len()
    &&& !q.contains('\0') ==> matcher::frizbee_score(q, w.text, 1) is Some && w.fuzzy_score == -(
    matcher::frizbee_score(q, w.text, 1)->0 as int)
}

/// A word that is the query, or begins with it, holds it.
proof fn lemma_holds_itself(word: Seq<char>, q: Seq<char>)
    ensures
        word == q ==> utf8::contains_text(word, q),
        q.is_prefix_of(word) ==> utf8::contains_text(word, q),
        q.is_prefix_of(word) <==> q.len() <= word.len() && word.take(q.len() as int) == q,
{
    if word == q {
        assert(word.subrange(0int, 0int + q.len()) =~= q);
        assert(utf8::occurs_at(word, q, 0));
    }
    if q.is_prefix_of(word) {
        assert(word.subrange(0int, 0int + q.len()) =~= q);
        assert(utf8::occurs_at(word, q, 0));
        assert(word.take(q.len() as int) =~= q);
    }
    if q.len() <= word.len() && word.take(q.len() as int) == q {
        assert(q =~= word.subrange(0, q.len() as int));
    }
}

/// Every word of the dictionary that holds the query is found, where the tables list it: as an
/// exact match, a prefix or a substring. It is left out only where the session has it, where
/// it is what was typed, and where better words take all places.
pub proof fn law_word_that_holds_the_query_is_found(
    m: IndexModel,
    query: Seq<char>,
    q: Seq<char>,
    limit: nat,
    ws: Seq<DictionaryRankedModel>,
    i: int,
)
    requires
        m.dictionary.wf(),
        lists_neighbours(m.dictionary),
        model::are_words(m, query, q, limit, ws),
        is_ascii_chars(q),
        has_a_pair(q),
        0 <= i < m.dictionary.records.len(),
        match_laws::holds(m.dictionary.records[i].text, q),
        !m.candidates.contains_key(m.dictionary.records[i].text),
        !(m.dictionary.records[i].text == q && q == query),
    ensures
        ({
            let word = m.dictionary.records[i].text;
            word_is_among_or_beaten(ws, limit, word, class_of(word, q))
        }),
{
    let d = m.dictionary;
    let word = d.records[i].text;
    let key = dictionary_ranking::by_dictionary_key();
    let scores = choose|scores: spec_fn(int) -> Option<u16>| #[trigger]
        model::are_word_scores(m, q, scores) && top::is_top(
            ws,
            model::word_items(m, query, q) + model::scored_word_items(m, q, scores),
            limit,
            key,
        );
    let a = model::word_items(m, query, q);
    let b = model::scored_word_items(m, q, scores);
    let x = lemma_holding_word_is_item(m, query, q, i);
    let place = choose|place: int| 0 <= place < a.len() && a[place] == x;
    assert((a + b)[place] == x);
    lemma_word_left_out(ws, a + b, limit, x);
    if ws.contains(x) {
        let k = choose|k: int| 0 <= k < ws.len() && ws[k] == x;
        assert(ws[k].text == word);
    } else {
        assert forall|k: int| #![trigger ws[k]] 0 <= k < ws.len() implies !order_laws::is_better_class(
            x.match_class,
            ws[k].match_class,
        ) && (ws[k].match_class == x.match_class ==> encode_utf8(ws[k].text).len() <= encode_utf8(
            word,
        ).len()) by {
            assert(order_laws::word_may_stand_before(ws[k], x));
            law_words_match_the_query(m, query, q, limit, ws, k);
        }
    }
}

/// A word that holds the query is among those that do.
proof fn lemma_holding_word_is_item(m: IndexModel, query: Seq<char>, q: Seq<char>, i: int) -> (x:
    DictionaryRankedModel)
    requires
        m.dictionary.wf(),
        lists_neighbours(m.dictionary),
        has_a_pair(q),
        0 <= i < m.dictionary.records.len(),
        match_laws::holds(m.dictionary.records[i].text, q),
        !m.candidates.contains_key(m.dictionary.records[i].text),
        !(m.dictionary.records[i].text == q && q == query),
    ensures
        model::word_items(m, query, q).contains(x),
        x.text == m.dictionary.records[i].text,
        is_ranked_by_place(x, query, q),
{
    let word = m.dictionary.records[i].text;
    let s = lemma_holding_word_is_looked_at(m.dictionary, q, i);
    let choice = model::word_choice(m, query, q);
    lemma_word_rank(word, query, q);
    assert(model::words_to_rank(m, q)[s].text == word);
    let x = dictionary_ranking::word_rank(word, query, q)->0;
    assert(choice(s) == Some(x));
    select::lemma_select_place(model::words_to_rank(m, q).len() as int, choice, s);
    x
}

/// A word that holds the query is looked at.
proof fn lemma_holding_word_is_looked_at(d: DictionaryModel, q: Seq<char>, i: int) -> (s: int)
    requires
        lists_neighbours(d),
        has_a_pair(q),
        0 <= i < d.records.len(),
        match_laws::holds(d.records[i].text, q),
    ensures
        0 <= s < model::words_of_query(d, q, d.bigram_index).len(),
        model::words_of_query(d, q, d.bigram_index)[s] == d.records[i],
{
    reveal(match_laws::holds);
    let word = d.records[i].text;
    let at = choose|at: int|
        0 <= at && at + q.len() <= word.len() && #[trigger] word.subrange(at, at + q.len()) == q;
    assert forall|j: int|
        0 <= j < q.len() - 1 && 'a' <= #[trigger] q[j] <= 'z' && 'a' <= q[j + 1]
            <= 'z' implies is_listed(d, d.bigram_index, i, q[j], q[j + 1]) by {
        assert(word.subrange(at, at + q.len())[j] == word[at + j]);
        assert(word.subrange(at, at + q.len())[j + 1] == word[at + j + 1]);
        assert(d.records[i].text[at + j] == q[j]);
    }
    lemma_listed_word_is_looked_at(d, q, d.bigram_index, i)
}

/// A word that is left out is beaten by all that are found, and these take all places.
proof fn lemma_word_left_out(
    ws: Seq<DictionaryRankedModel>,
    items: Seq<DictionaryRankedModel>,
    limit: nat,
    x: DictionaryRankedModel,
)
    requires
        top::is_top(ws, items, limit, dictionary_ranking::by_dictionary_key()),
        items.contains(x),
    ensures
        ws.contains(x) || (ws.len() == limit && forall|k: int|
            0 <= k < ws.len() ==> order_laws::word_may_stand_before(#[trigger] ws[k], x)),
{
    broadcast use vstd::multiset::group_multiset_axioms;
    broadcast use vstd::seq_lib::group_to_multiset_ensures;

    let key = dictionary_ranking::by_dictionary_key();
    if !ws.contains(x) {
        assert(items.to_multiset().count(x) > ws.to_multiset().count(x));
        if ws.len() < limit {
            top::lemma_nothing_left_out(ws, items, limit, key);
            assert(ws.to_multiset().count(x) > 0);
            assert(false);
        }
        assert forall|k: int| 0 <= k < ws.len() implies order_laws::word_may_stand_before(
            #[trigger] ws[k],
            x,
        ) by {
            assert(!order::lex_less(key(x), key(ws[k])));
            order_laws::law_order_of_words(ws[k], x);
        }
    }
}

/// The words stand in order: of any two, nothing speaks for the later to stand before the
/// earlier.
pub proof fn law_words_stand_in_order(
    m: IndexModel,
    query: Seq<char>,
    q: Seq<char>,
    limit: nat,
    ws: Seq<DictionaryRankedModel>,
    i: int,
    j: int,
)
    requires
        model::are_words(m, query, q, limit, ws),
        0 <= i < j < ws.len(),
    ensures
        order_laws::word_may_stand_before(ws[i], ws[j]),
{
    let key = dictionary_ranking::by_dictionary_key();
    assert(!order::lex_less(key(ws[j]), key(ws[i])));
    order_laws::law_order_of_words(ws[i], ws[j]);
}

/// The pairs of the query stand in the word: of every two lowercase letters that are neighbours
/// in the query, the second follows the first somewhere in the word.
pub open spec fn has_the_pairs(word: Seq<char>, q: Seq<char>) -> bool {
    forall|j: int|
        0 <= j < q.len() - 1 && 'a' <= #[trigger] q[j] <= 'z' && 'a' <= q[j + 1] <= 'z' ==> exists|
            x: int,
            y: int,
        |
            #![trigger word[x], word[y]]
            0 <= x < y < word.len() && word[x] == q[j] && word[y] == q[j + 1]
}

/// The letters of the query stand in the word, all but `c`.
pub open spec fn has_the_letters_but(word: Seq<char>, q: Seq<char>, c: char) -> bool {
    forall|j: int|
        0 <= j < q.len() && ('a' <= #[trigger] q[j] <= 'z' || 'A' <= q[j] <= 'Z') && q[j] != c
            ==> word.contains(q[j])
}

/// A word with all letters but one lacks one at most.
proof fn lemma_letters(word: Seq<char>, q: Seq<char>, c: char)
    requires
        has_the_letters_but(word, q, c),
    ensures
        masks::lacking_letters(word, q) <= 1,
{
    let p = |i: int| masks::holds_letter(q, i) && !masks::holds_letter(word, i);
    let of_c = if 'a' <= c <= 'z' {
        c as int - 97
    } else {
        c as int - 65
    };
    assert forall|i: int| 0 <= i < 26 && #[trigger] p(i) implies i == of_c by {
        let code = if masks::holds_code(q, 97 + i) {
            97 + i
        } else {
            65 + i
        };
        let j = choose|j: int| 0 <= j < q.len() && #[trigger] q[j] as int == code;
        assert('a' <= q[j] <= 'z' || 'A' <= q[j] <= 'Z');
        if q[j] != c {
            assert(word.contains(q[j]));
            let n = choose|n: int| 0 <= n < word.len() && word[n] == q[j];
            assert(word[n] as int == code);
            assert(masks::holds_code(word, code));
        }
    }
    match_laws::lemma_count_one(26, p, of_c);
}

/// Every word of the dictionary near the query that the fuzzy matcher scores is found, where
/// the tables list it: it does not hold the query, is no more than one byte shorter, has its
/// pairs of letters in their order and its letters but for one. It is left out only where the
/// session has it, and where better matches take all places.
pub proof fn law_word_near_the_query_is_found(
    m: IndexModel,
    query: Seq<char>,
    q: Seq<char>,
    limit: nat,
    ws: Seq<DictionaryRankedModel>,
    i: int,
    c: char,
    score: u16,
)
    requires
        m.dictionary.wf(),
        lists_pairs(m.dictionary),
        result_laws::masks_fit(m.dictionary),
        model::are_words(m, query, q, limit, ws),
        is_ascii_chars(q),
        has_a_pair(q),
        encode_utf8(q).len() >= 4,
        !q.contains('\0'),
        0 <= i < m.dictionary.records.len(),
        !m.candidates.contains_key(m.dictionary.records[i].text),
        !match_laws::holds(m.dictionary.records[i].text, q),
        encode_utf8(m.dictionary.records[i].text).len() + 1 >= encode_utf8(q).len(),
        has_the_pairs(m.dictionary.records[i].text, q),
        has_the_letters_but(m.dictionary.records[i].text, q, c),
        matcher::frizbee_score(q, m.dictionary.records[i].text, 1) == Some(score),
    ensures
        ({
            let word = m.dictionary.records[i].text;
            ||| exists|k: int|
                #![trigger ws[k]]
                0 <= k < ws.len() && ws[k].text == word && ws[k].match_class == MatchClass::Fuzzy
                    && ws[k].fuzzy_score == -(score as int)
            ||| ws.len() == limit && forall|k: int|
                #![trigger ws[k]]
                0 <= k < ws.len() ==> ws[k].match_class != MatchClass::Fuzzy || ws[k].fuzzy_score
                    <= -(score as int)
        }),
{
    let d = m.dictionary;
    let word = d.records[i].text;
    let key = dictionary_ranking::by_dictionary_key();
    let scores = choose|scores: spec_fn(int) -> Option<u16>| #[trigger]
        model::are_word_scores(m, q, scores) && top::is_top(
            ws,
            model::word_items(m, query, q) + model::scored_word_items(m, q, scores),
            limit,
            key,
        );
    let a = model::word_items(m, query, q);
    let b = model::scored_word_items(m, q, scores);
    assert forall|j: int|
        0 <= j < q.len() - 1 && 'a' <= #[trigger] q[j] <= 'z' && 'a' <= q[j + 1]
            <= 'z' implies is_listed(d, d.pair_index, i, q[j], q[j + 1]) by {
        let (x, y) = choose|x: int, y: int|
            #![trigger word[x], word[y]]
            0 <= x < y < word.len() && word[x] == q[j] && word[y] == q[j + 1];
        assert(d.records[i].text[x] == q[j]);
        assert(d.records[i].text[y] == q[j + 1]);
    }
    let s = lemma_listed_word_is_looked_at(d, q, d.pair_index, i);
    let choice = model::scored_word_choice(m, q, scores);
    match_laws::lemma_holds(word, q);
    lemma_letters(word, q, c);
    masks::lemma_mask_tells_letters(d.records[i].letter_mask, word, q);
    assert(model::words_to_score(m, q)[s] == d.records[i]);
    assert(model::is_scored_word(m, d.records[i], q));
    assert(scores(s) == Some(score));
    let x = model::scored_word(word, 1, score);
    assert(choice(s) == Some(x));
    select::lemma_select_place(model::words_to_score(m, q).len() as int, choice, s);
    let place = select::select(s, choice).len() as int;
    assert((a + b)[a.len() + place] == b[place]);
    assert((a + b).contains(x));
    lemma_word_left_out(ws, a + b, limit, x);
    if ws.contains(x) {
        let k = choose|k: int| 0 <= k < ws.len() && ws[k] == x;
        assert(ws[k].text == word);
    }
}

/// Where a search with the dictionary leaves room, every word of the dictionary that holds the
/// query is among the results, unless the session has it or it is what was typed.
pub proof fn law_word_of_the_dictionary_is_offered<
    M: Fn(&str, &str) -> Option<(Vec<usize>, i32)>,
>(m: IndexModel, f: M, query: Seq<char>, results: Seq<CompletionMatch>, i: int)
    requires
        m.dictionary.wf(),
        lists_neighbours(m.dictionary),
        query.len() >= 2,
        model::are_results(m, f, query, true, results),
        results.len() < 8,
        is_ascii_chars(text::lowercase(query)),
        has_a_pair(text::lowercase(query)),
        0 <= i < m.dictionary.records.len(),
        match_laws::holds(m.dictionary.records[i].text, text::lowercase(query)),
        !m.candidates.contains_key(m.dictionary.records[i].text),
        !(m.dictionary.records[i].text == text::lowercase(query) && text::lowercase(query)
            == query),
    ensures
        exists|n: int|
            #![trigger results[n]]
            0 <= n < results.len() && results[n].text@ == m.dictionary.records[i].text
                && results[n].kind == CompletionKind::Dictionary,
{
    let q = text::lowercase(query);
    let word = m.dictionary.records[i].text;
    let (session, words) = choose|session: Seq<CompletionMatch>, words: Seq<CompletionMatch>|
        #[trigger]
        model::are_result_parts(m, f, query, true, session, words) && results == session + words;
    let limit = (8 - session.len()) as nat;
    let ws = choose|ws: Seq<DictionaryRankedModel>| #[trigger]
        model::are_words(m, query, q, limit, ws) && model::are_word_completions(ws, q, words);
    law_word_that_holds_the_query_is_found(m, query, q, limit, ws, i);
    let k = choose|k: int|
        #![trigger ws[k]]
        0 <= k < ws.len() && ws[k].text == word && ws[k].match_class == class_of(word, q);
    assert(dictionary_ranking::is_dictionary_completion(ws[k], q, words[k]));
    assert(results[session.len() + k] == words[k]);
}

/// Where a search leaves room, every candidate of the session that the query heads is among the
/// results, unless it is what was typed. A query of fewer than two characters finds nothing.
pub proof fn law_candidate_of_the_session_is_offered<
    M: Fn(&str, &str) -> Option<(Vec<usize>, i32)>,
>(
    m: IndexModel,
    f: M,
    query: Seq<char>,
    include_dictionary: bool,
    results: Seq<CompletionMatch>,
    k: Seq<char>,
)
    requires
        m.wf(),
        model::are_results(m, f, query, include_dictionary, results),
    ensures
        query.len() < 2 ==> results.len() == 0,
        ({
            let q = text::lowercase(query);
            query.len() >= 2 && results.len() < 8 && m.candidates.contains_key(k) && q.len()
                <= k.len() && k.take(q.len() as int) == q && !(k == q && m.candidates[k].text
                == query) ==> exists|n: int|
                #![trigger results[n]]
                0 <= n < results.len() && results[n].text@ == m.candidates[k].text
                    && results[n].kind == m.candidates[k].kind
        }),
{
    let q = text::lowercase(query);
    if query.len() >= 2 && results.len() < 8 && m.candidates.contains_key(k) && q.len() <= k.len()
        && k.take(q.len() as int) == q && !(k == q && m.candidates[k].text == query) {
        let (session, words) = choose|session: Seq<CompletionMatch>, words: Seq<CompletionMatch>|
            #[trigger]
            model::are_result_parts(m, f, query, include_dictionary, session, words) && results
                == session + words;
        let (literal, fuzzy) = choose|literal: Seq<RankedModel>, fuzzy: Seq<RankedModel>| #[trigger]
            model::are_session_matches(m, f, query, q, literal, fuzzy)
                && model::are_session_completions(literal + fuzzy, q, session);
        order_laws::law_no_better_candidate_is_left_out(m, f, query, q, literal, fuzzy, k);
        let i = choose|i: int|
            #![trigger literal[i]]
            0 <= i < literal.len() && literal[i].candidate == m.candidates[k];
        assert((literal + fuzzy)[i] == literal[i]);
        assert(ranking::is_session_completion((literal + fuzzy)[i], q, session[i]));
        assert(results[i] == session[i]);
    }
}

/// What is highlighted of a word that holds the query: where the query stands in it first,
/// and no more.
pub proof fn law_query_is_highlighted_in_words(
    w: DictionaryRankedModel,
    query: Seq<char>,
    q: Seq<char>,
    r: CompletionMatch,
    at: int,
)
    requires
        dictionary_ranking::word_rank(w.text, query, q) == Some(w),
        dictionary_ranking::is_dictionary_completion(w, q, r),
        q.len() > 0,
        w.text.len() <= usize::MAX,
        stands_first_at(w.text, q, at),
    ensures
        r.text@ == w.text,
        r.kind == CompletionKind::Dictionary,
        forall|j: usize| #[trigger]
            r.match_indices@.contains(j) <==> at <= j < at + q.len(),
        forall|a: int, b: int|
            0 <= a < b < r.match_indices@.len() ==> r.match_indices@[a] < r.match_indices@[b],
{
    lemma_word_places(w.text, query, q);
    lemma_places_mark(w.text, q, at, w.places, r.match_indices@);
}

/// Where the query stands in a word that is ranked.
spec fn places_in(s: Seq<char>, q: Seq<char>) -> MatchPlaces {
    if s == q {
        MatchPlaces::All
    } else if q.is_prefix_of(s) {
        MatchPlaces::Prefix(q.len())
    } else {
        let start = utf8::byte_offset(s, utf8::first_occurrence(s, q)) as int;
        MatchPlaces::ByteRange(start, start + utf8::utf8_len(q))
    }
}

proof fn lemma_word_places(word: Seq<char>, query: Seq<char>, q: Seq<char>)
    ensures
        match dictionary_ranking::word_rank(word, query, q) {
            Some(w) => w.places == places_in(word, q),
            None => true,
        },
{
}

proof fn lemma_places_mark(
    s: Seq<char>,
    q: Seq<char>,
    at: int,
    places: MatchPlaces,
    marked: Seq<usize>,
)
    requires
        s.len() <= usize::MAX,
        stands_first_at(s, q, at),
        places == places_in(s, q),
        ranking::are_places(places, s, s, q, marked),
    ensures
        forall|j: usize| #[trigger] marked.contains(j) <==> at <= j < at + q.len(),
        forall|a: int, b: int| 0 <= a < b < marked.len() ==> marked[a] < marked[b],
{
    lemma_first_stand(s, q, at);
    if s == q {
        lemma_first_numbers(s.len());
    } else if q.is_prefix_of(s) {
        lemma_first_numbers(q.len());
    } else {
        let start = utf8::byte_offset(s, at) as int;
        assert(utf8::byte_offset(s, at + q.len()) == start + utf8::utf8_len(q)) by {
            utf8::lemma_encode_concat(s.take(at), q);
        }
        lemma_range(s, at, at + q.len(), marked);
    }
}

/// The query stands in the word at `at`, and not before.
#[verifier::opaque]
pub open spec fn stands_first_at(s: Seq<char>, q: Seq<char>, at: int) -> bool {
    &&& 0 <= at
    &&& at + q.len() <= s.len()
    &&& s.subrange(at, at + q.len()) == q
    &&& forall|k: int| 0 <= k < at ==> #[trigger] s.subrange(k, k + q.len()) != q
}

proof fn lemma_first_stand(s: Seq<char>, q: Seq<char>, at: int)
    requires
        stands_first_at(s, q, at),
    ensures
        0 <= at,
        at + q.len() <= s.len(),
        s.take(at + q.len()) == s.take(at) + q,
        utf8::contains_text(s, q),
        utf8::first_occurrence(s, q) == at,
        s == q || q.is_prefix_of(s) ==> at == 0,
{
    reveal(stands_first_at);
    assert(utf8::occurs_at(s, q, at));
    assert forall|k: int| 0 <= k < at implies !utf8::occurs_at(s, q, k) by {
        assert(s.subrange(k, k + q.len()) != q);
    }
    utf8::lemma_first_occurrence_is(s, q, at);
    assert(s.take(at + q.len()) =~= s.take(at) + q) by {
        assert forall|n: int| 0 <= n < q.len() implies s[at + n] == q[n] by {
            assert(s.subrange(at, at + q.len())[n] == s[at + n]);
        }
    }
    if (s == q || q.is_prefix_of(s)) && at > 0 {
        assert(s.subrange(0int, 0int + q.len()) =~= q);
    }
}

/// The first numbers are those below.
proof fn lemma_first_numbers(n: nat)
    requires
        n <= usize::MAX,
    ensures
        forall|j: usize| #[trigger] ranking::first_numbers(n).contains(j) <==> j < n,
        forall|a: int, b: int|
            0 <= a < b < ranking::first_numbers(n).len() ==> ranking::first_numbers(n)[a]
                < ranking::first_numbers(n)[b],
{
    let s = ranking::first_numbers(n);
    assert forall|j: usize| #[trigger] s.contains(j) <==> j < n by {
        if j < n {
            assert(s[j as int] == j);
        }
    }
}

/// The characters between two places start in the bytes between them.
proof fn lemma_range(s: Seq<char>, a: int, b: int, marked: Seq<usize>)
    requires
        0 <= a <= b <= s.len(),
        ranking::are_chars_in_range(
            s,
            utf8::byte_offset(s, a) as int,
            utf8::byte_offset(s, b) as int,
            marked,
        ),
    ensures
        forall|j: usize| #[trigger] marked.contains(j) <==> a <= j < b,
{
    assert forall|j: usize| #[trigger] marked.contains(j) <==> a <= j < b by {
        if j < s.len() {
            if j < a {
                utf8::lemma_offsets_increase(s, j as int, a);
            } else if a < j {
                utf8::lemma_offsets_increase(s, a, j as int);
            }
            if j < b {
                utf8::lemma_offsets_increase(s, j as int, b);
            } else if b < j {
                utf8::lemma_offsets_increase(s, b, j as int);
            }
        }
    }
}

/// A pair index over `n` words: it has 676 headers of eight bytes, and what each of them names
/// lies within it and numbers words below `n`.
pub open spec fn is_index_over(index: Seq<u8>, n: int) -> bool {
    &&& index.len() >= 5408
    &&& forall|k: int|
        0 <= k < 676 ==> {
            let at = #[trigger] number_at(index, 8 * k);
            let count = number_at(index, 8 * k + 4);
            &&& at + 4 * count <= index.len()
            &&& forall|i: int| 0 <= i < count ==> #[trigger] number_at(index, at + 4 * i) < n
        }
}

/// Tables are taken exactly if they fit together: whole records, each naming whole characters
/// of the text of all words, and two pair indexes over as many words as there are records.
pub proof fn law_tables_that_fit_are_taken(
    words: Seq<char>,
    index: Seq<u8>,
    bigram_index: Seq<u8>,
    pair_index: Seq<u8>,
)
    requires
        index.len() <= u32::MAX,
    ensures
        dictionary::is_dictionary(words, index, bigram_index, pair_index) <==> {
            let n = index.len() as int / 9;
            &&& index.len() as int == 9 * n
            &&& forall|i: int| 0 <= i < n ==> #[trigger] names_whole_characters(words, index, i)
            &&& is_index_over(bigram_index, n)
            &&& is_index_over(pair_index, n)
        },
{
    let n = index.len() as int / 9;
    assert forall|i: int| 0 <= i < n implies dictionary::record_fits(words, index, i)
        == #[trigger] names_whole_characters(words, index, i) by {
        lemma_record_fits(words, index, i);
    }
    lemma_pair_index(bigram_index, n);
    lemma_pair_index(pair_index, n);
    if dictionary::is_dictionary(words, index, bigram_index, pair_index) {
        assert forall|i: int| 0 <= i < n implies #[trigger] names_whole_characters(
            words,
            index,
            i,
        ) by {
            assert(dictionary::record_fits(words, index, i));
        }
    } else if index.len() as int == 9 * n && is_index_over(bigram_index, n) && is_index_over(
        pair_index,
        n,
    ) {
        let i = choose|i: int| 0 <= i < n && !#[trigger] dictionary::record_fits(words, index, i);
        assert(!names_whole_characters(words, index, i));
    }
}

/// Record `i` starts and ends between characters of the text of all words.
pub open spec fn names_whole_characters(words: Seq<char>, index: Seq<u8>, i: int) -> bool {
    let start = number_at(index, 9 * i);
    let end = start + index[9 * i + 4];
    exists|j: int, k: int|
        0 <= j <= words.len() && 0 <= k <= words.len() && #[trigger] encode_utf8(words.take(j)).len()
            == start && #[trigger] encode_utf8(words.take(k)).len() == end
}

proof fn lemma_record_fits(words: Seq<char>, index: Seq<u8>, i: int)
    requires
        0 <= i,
    ensures
        dictionary::record_fits(words, index, i) == names_whole_characters(words, index, i),
{
    let start = dictionary::u32_le(index, i * 9);
    let end = start + index[i * 9 + 4];
    assert(start == number_at(index, 9 * i));
    if dictionary::record_fits(words, index, i) {
        let j = utf8::lemma_boundary_is_offset(words, start);
        let k = utf8::lemma_boundary_is_offset(words, end);
        assert(encode_utf8(words.take(j)).len() == start);
        assert(encode_utf8(words.take(k)).len() == end);
    }
    if names_whole_characters(words, index, i) {
        let (j, k) = choose|j: int, k: int|
            0 <= j <= words.len() && 0 <= k <= words.len() && #[trigger] encode_utf8(
                words.take(j),
            ).len() == start && #[trigger] encode_utf8(words.take(k)).len() == end;
        utf8::lemma_offset_is_boundary(words, j);
        utf8::lemma_offset_is_boundary(words, k);
    }
}

proof fn lemma_pair_index(index: Seq<u8>, n: int)
    requires
        n <= u32::MAX,
    ensures
        dictionary::is_pair_index(index, n) == is_index_over(index, n),
{
    if index.len() >= 5408 {
        assert forall|k: int| 0 <= k < 676 implies dictionary::is_posting(index, k, n) == {
            let at = #[trigger] number_at(index, 8 * k);
            let count = number_at(index, 8 * k + 4);
            &&& at + 4 * count <= index.len()
            &&& forall|i: int| 0 <= i < count ==> #[trigger] number_at(index, at + 4 * i) < n
        } by {
            lemma_posting(index, k, n);
        }
        if is_index_over(index, n) {
            assert forall|k: int| 0 <= k < 676 implies #[trigger] dictionary::is_posting(
                index,
                k,
                n,
            ) by {
                let at = number_at(index, 8 * k);
            }
        }
        if dictionary::is_pair_index(index, n) {
            assert forall|k: int| 0 <= k < 676 implies {
                let at = #[trigger] number_at(index, 8 * k);
                let count = number_at(index, 8 * k + 4);
                &&& at + 4 * count <= index.len()
                &&& forall|i: int| 0 <= i < count ==> #[trigger] number_at(index, at + 4 * i) < n
            } by {
                assert(dictionary::is_posting(index, k, n));
            }
        }
    }
}

proof fn lemma_posting(index: Seq<u8>, k: int, n: int)
    requires
        n <= u32::MAX,
        0 <= k < 676,
        index.len() >= 5408,
    ensures
        dictionary::is_posting(index, k, n) == ({
            let at = number_at(index, 8 * k);
            let count = number_at(index, 8 * k + 4);
            &&& at + 4 * count <= index.len()
            &&& forall|i: int| 0 <= i < count ==> #[trigger] number_at(index, at + 4 * i) < n
        }),
{
    let at = number_at(index, 8 * k);
    let count = number_at(index, 8 * k + 4);
    let ids = dictionary::posting_ids(index, k);
    assert(dictionary::posting_offset(index, k) == at);
    assert(dictionary::posting_count(index, k) == count);
    assert forall|i: int| 0 <= i < count implies 0 <= #[trigger] number_at(index, at + 4 * i)
        <= u32::MAX && ids[i] == number_at(index, at + 4 * i) by {
        assert(dictionary::u32_le(index, at + 4 * i) == number_at(index, at + 4 * i));
    }
    if dictionary::is_posting(index, k, n) {
        assert forall|i: int| 0 <= i < count implies #[trigger] number_at(index, at + 4 * i) < n by {
            assert(ids[i] < n);
        }
    } else if at + 4 * count <= index.len() {
        let i = choose|i: int|
            0 <= i < dictionary::posting_ids(index, k).len() && !(
            #[trigger] dictionary::posting_ids(index, k)[i] < n);
        assert(number_at(index, at + 4 * i) >= n);
    }
}

/// The completions of words are the words, in their order.
pub proof fn law_words_are_offered_in_their_order(
    ws: Seq<DictionaryRankedModel>,
    q: Seq<char>,
    words: Seq<CompletionMatch>,
    i: int,
)
    requires
        model::are_word_completions(ws, q, words),
        0 <= i < words.len(),
    ensures
        words.len() == ws.len(),
        words[i].text@ == ws[i].text,
        words[i].kind == CompletionKind::Dictionary,
{
    assert(dictionary_ranking::is_dictionary_completion(ws[i], q, words[i]));
}

} // verus!
