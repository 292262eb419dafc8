//! How the words of the dictionary match a query, and the order of these matches.
use std::cmp::Ordering;
use std::ops::Range;
use vstd::prelude::*;
use vstd::string::*;

use crate::matcher::frizbee_match_indices;
use crate::order;
use crate::ranking;
use crate::ranking::{
    char_indices_for_byte_range, count_up, CompletionKind, CompletionMatch, MatchClass, MatchPlaces,
};
use crate::text::{byte_len, compare_text, str_eq, str_find, str_starts_with};
use crate::top;
use crate::top::{push_top_match, Ranked};
use crate::utf8;

verus! {

/// A word of the dictionary that matches the query.
pub struct DictionaryRankedMatch<'a> {
    pub text: &'a str,
    pub match_class: MatchClass,
    pub fuzzy_score: i32,
    pub match_indices: DictionaryMatchIndices,
}

/// Which characters of a word are highlighted.
pub enum DictionaryMatchIndices {
    All,
    Prefix { char_count: usize },
    ByteRange(Range<usize>),
    Fuzzy { max_typos: u16 },
}

impl View for DictionaryMatchIndices {
    type V = MatchPlaces;

    open spec fn view(&self) -> MatchPlaces {
        match self {
            DictionaryMatchIndices::All => MatchPlaces::All,
            DictionaryMatchIndices::Prefix { char_count } => MatchPlaces::Prefix(
                *char_count as nat,
            ),
            DictionaryMatchIndices::ByteRange(range) => MatchPlaces::ByteRange(
                range.start as int,
                range.end as int,
            ),
            DictionaryMatchIndices::Fuzzy { max_typos } => MatchPlaces::Fuzzy(*max_typos),
        }
    }
}

/// A word that matches, with all that decides its place.
pub struct DictionaryRankedModel {
    pub text: Seq<char>,
    pub match_class: MatchClass,
    pub fuzzy_score: int,
    pub places: MatchPlaces,
}

impl<'a> View for DictionaryRankedMatch<'a> {
    type V = DictionaryRankedModel;

    open spec fn view(&self) -> DictionaryRankedModel {
        DictionaryRankedModel {
            text: self.text@,
            match_class: self.match_class,
            fuzzy_score: self.fuzzy_score as int,
            places: self.match_indices@,
        }
    }
}

/// The key of a dictionary match: the class, the score (less is better), the length
/// and at last the word itself.
pub open spec fn dictionary_key(m: DictionaryRankedModel) -> Seq<int> {
    seq![
        ranking::class_position(m.match_class) as int,
        m.fuzzy_score,
        utf8::utf8_len(m.text) as int,
    ] + utf8::text_key(m.text)
}

/// The key function of dictionary matches.
pub open spec fn by_dictionary_key() -> spec_fn(DictionaryRankedModel) -> Seq<int> {
    |m: DictionaryRankedModel| dictionary_key(m)
}

/// The matches as plain values.
pub open spec fn dictionary_views(s: Seq<DictionaryRankedMatch<'_>>) -> Seq<DictionaryRankedModel> {
    s.map_values(|m: DictionaryRankedMatch<'_>| m@)
}

/// Compares two dictionary matches by their keys.
pub fn compare_dictionary_matches(
    left: &DictionaryRankedMatch<'_>,
    right: &DictionaryRankedMatch<'_>,
) -> (r: Ordering)
    ensures
        r == Ordering::Less <==> order::lex_less(dictionary_key(left@), dictionary_key(right@)),
        r == Ordering::Greater <==> order::lex_less(dictionary_key(right@), dictionary_key(left@)),
{
    let ghost p = dictionary_key(left@).take(3);
    let ghost q = dictionary_key(right@).take(3);
    let ghost a = utf8::text_key(left.text@);
    let ghost b = utf8::text_key(right.text@);
    proof {
        assert(dictionary_key(left@) =~= p + a);
        assert(dictionary_key(right@) =~= q + b);
    }
    let left_class = left.match_class.position();
    let right_class = right.match_class.position();
    if left_class != right_class {
        proof {
            order::lex_heads_differ(p, q, a, b, 0);
        }
        return if left_class < right_class {
            Ordering::Less
        } else {
            Ordering::Greater
        };
    }
    if left.fuzzy_score != right.fuzzy_score {
        proof {
            order::lex_heads_differ(p, q, a, b, 1);
        }
        return if left.fuzzy_score < right.fuzzy_score {
            Ordering::Less
        } else {
            Ordering::Greater
        };
    }
    let left_len = byte_len(left.text);
    let right_len = byte_len(right.text);
    if left_len != right_len {
        proof {
            order::lex_heads_differ(p, q, a, b, 2);
        }
        return if left_len < right_len {
            Ordering::Less
        } else {
            Ordering::Greater
        };
    }
    proof {
        assert(p =~= q);
        order::lex_common_prefix(p, a, b);
        order::lex_common_prefix(p, b, a);
    }
    compare_text(left.text, right.text)
}

impl<'a> Ranked for DictionaryRankedMatch<'a> {
    open spec fn rank_key(&self) -> Seq<int> {
        dictionary_key(self@)
    }

    fn compare_rank(&self, other: &Self) -> (r: Ordering) {
        compare_dictionary_matches(self, other)
    }
}

/// The matches are in order as plain values exactly if they are in order.
pub proof fn lemma_dictionary_views(s: Seq<DictionaryRankedMatch<'_>>)
    ensures
        top::is_ranked(s, top::rank_of::<DictionaryRankedMatch<'_>>()) <==> top::is_ranked(
            dictionary_views(s),
            by_dictionary_key(),
        ),
{
    let key = top::rank_of::<DictionaryRankedMatch<'_>>();
    let v = dictionary_views(s);
    assert forall|i: int| 0 <= i < s.len() implies key(#[trigger] s[i]) == by_dictionary_key()(
        v[i],
    ) by {}
    if top::is_ranked(s, key) {
        assert forall|i: int, j: int| 0 <= i < j < v.len() implies !order::lex_less(
            by_dictionary_key()(v[j]),
            by_dictionary_key()(v[i]),
        ) by {
            assert(!order::lex_less(key(s[j]), key(s[i])));
        }
    }
    if top::is_ranked(v, by_dictionary_key()) {
        assert forall|i: int, j: int| 0 <= i < j < s.len() implies !order::lex_less(
            key(s[j]),
            key(s[i]),
        ) by {
            assert(!order::lex_less(by_dictionary_key()(v[j]), by_dictionary_key()(v[i])));
        }
    }
}

/// Puts a dictionary match at its place among the best `limit`.
pub fn push_top_dictionary_match<'a>(
    matches: &mut Vec<DictionaryRankedMatch<'a>>,
    ranked: DictionaryRankedMatch<'a>,
    limit: usize,
)
    requires
        top::is_ranked(dictionary_views(old(matches)@), by_dictionary_key()),
    ensures
        dictionary_views(final(matches)@) == top::push_top(
            dictionary_views(old(matches)@),
            ranked@,
            limit as nat,
            by_dictionary_key(),
        ),
        top::is_ranked(dictionary_views(final(matches)@), by_dictionary_key()),
{
    proof {
        lemma_dictionary_views(matches@);
        top::lemma_push_map(
            matches@,
            ranked,
            limit as nat,
            |m: DictionaryRankedMatch<'a>| m@,
            top::rank_of::<DictionaryRankedMatch<'a>>(),
            by_dictionary_key(),
        );
    }
    push_top_match(matches, ranked, limit);
    proof {
        lemma_dictionary_views(matches@);
    }
}

/// How a word matches a query that it holds; nothing for a word that is what was
/// typed, and for one that does not hold the query.
pub open spec fn word_rank(
    word: Seq<char>,
    query: Seq<char>,
    query_lower: Seq<char>,
) -> Option<DictionaryRankedModel> {
    if word == query_lower && word == query {
        None
    } else if word == query_lower {
        Some(
            DictionaryRankedModel {
                text: word,
                match_class: MatchClass::Exact,
                fuzzy_score: -1000,
                places: MatchPlaces::All,
            },
        )
    } else if query_lower.is_prefix_of(word) {
        Some(
            DictionaryRankedModel {
                text: word,
                match_class: MatchClass::Prefix,
                fuzzy_score: -500,
                places: MatchPlaces::Prefix(query_lower.len()),
            },
        )
    } else if utf8::contains_text(word, query_lower) {
        let start = utf8::byte_offset(word, utf8::first_occurrence(word, query_lower)) as int;
        Some(
            DictionaryRankedModel {
                text: word,
                match_class: MatchClass::Substring,
                fuzzy_score: 0,
                places: MatchPlaces::ByteRange(start, start + utf8::utf8_len(query_lower)),
            },
        )
    } else {
        None
    }
}

/// The match as a plain value.
pub open spec fn word_option_view(r: Option<DictionaryRankedMatch<'_>>) -> Option<
    DictionaryRankedModel,
> {
    match r {
        Some(m) => Some(m@),
        None => None,
    }
}

/// How a word matches a query that it holds, if it does.
pub fn rank_word<'a>(word: &'a str, query: &str, query_lower: &str) -> (r: Option<
    DictionaryRankedMatch<'a>,
>)
    ensures
        word_option_view(r) == word_rank(word@, query@, query_lower@),
{
    let same = str_eq(word, query_lower);
    if same && str_eq(word, query) {
        return None;
    }
    if same {
        return Some(
            DictionaryRankedMatch {
                text: word,
                match_class: MatchClass::Exact,
                fuzzy_score: -1_000,
                match_indices: DictionaryMatchIndices::All,
            },
        );
    }
    if str_starts_with(word, query_lower) {
        return Some(
            DictionaryRankedMatch {
                text: word,
                match_class: MatchClass::Prefix,
                fuzzy_score: -500,
                match_indices: DictionaryMatchIndices::Prefix {
                    char_count: query_lower.unicode_len(),
                },
            },
        );
    }
    if let Some(start) = str_find(word, query_lower) {
        let word_len = byte_len(word);
        assert(start + utf8::utf8_len(query_lower@) <= word_len);
        let end: usize = start + byte_len(query_lower);
        return Some(
            DictionaryRankedMatch {
                text: word,
                match_class: MatchClass::Substring,
                fuzzy_score: 0,
                match_indices: DictionaryMatchIndices::ByteRange(start..end),
            },
        );
    }
    None
}

/// `m` is the completion that a dictionary match stands for.
pub open spec fn is_dictionary_completion(
    ranked: DictionaryRankedModel,
    query_lower: Seq<char>,
    m: CompletionMatch,
) -> bool {
    &&& m.text@ == ranked.text
    &&& m.kind == CompletionKind::Dictionary
    &&& ranking::are_places(
        ranked.places,
        ranked.text,
        ranked.text,
        query_lower,
        m.match_indices@,
    )
}

/// The completion that a dictionary match stands for.
pub fn dictionary_match_to_completion_match(
    ranked: DictionaryRankedMatch<'_>,
    query_lower: &str,
) -> (r: CompletionMatch)
    requires
        ranking::can_align(ranked@.places, ranked.text@, query_lower@),
    ensures
        is_dictionary_completion(ranked@, query_lower@, r),
{
    let match_indices = match ranked.match_indices {
        DictionaryMatchIndices::All => count_up(ranked.text.unicode_len()),
        DictionaryMatchIndices::Prefix { char_count } => count_up(char_count),
        DictionaryMatchIndices::ByteRange(range) => char_indices_for_byte_range(
            ranked.text,
            range,
        ),
        DictionaryMatchIndices::Fuzzy { max_typos } => frizbee_match_indices(
            query_lower,
            ranked.text,
            max_typos,
        ),
    };
    CompletionMatch {
        text: ranked.text.to_owned(),
        kind: CompletionKind::Dictionary,
        match_indices,
    }
}

} // verus!
