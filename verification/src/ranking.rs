//! Candidates, how they match a query, and the order of the matches.
use std::cmp::Ordering;
use std::ops::Range;
use vstd::prelude::*;
use vstd::string::*;
use vstd::utf8::*;

use crate::masks;
use crate::matcher;
use crate::matcher::frizbee_match_indices;
use crate::order;
use crate::text::{byte_len, char_width, compare_text, str_contains, str_eq, str_find, str_starts_with};
use crate::top;
use crate::top::{push_top_match, Ranked};
use crate::utf8;

verus! {

/// Shorter queries are not completed, and shorter candidates are not kept.
pub const MIN_COMPLETION_QUERY_CHARS: usize = 2;

/// How many completions a search returns at most.
pub const MAX_COMPLETION_RESULTS: usize = 8;

/// Longer candidates are not kept.
pub const MAX_CANDIDATE_CHARS: usize = 300;

/// Where a completion comes from.
#[derive(Clone, Copy, Debug, PartialEq, Eq, Structural)]
pub enum CompletionKind {
    Word,
    Filename,
    Url,
    Dictionary,
}

/// The label that is shown beside a completion of this kind.
pub open spec fn kind_label(kind: CompletionKind) -> Seq<char> {
    match kind {
        CompletionKind::Word => "session"@,
        CompletionKind::Filename => "file"@,
        CompletionKind::Url => "url"@,
        CompletionKind::Dictionary => "dict"@,
    }
}

/// The weight of a kind: URLs before filenames before words before the dictionary.
pub open spec fn kind_rank(kind: CompletionKind) -> u8 {
    match kind {
        CompletionKind::Url => 3,
        CompletionKind::Filename => 2,
        CompletionKind::Word => 1,
        CompletionKind::Dictionary => 0,
    }
}

impl CompletionKind {
    /// The label that is shown beside a completion of this kind.
    pub fn label(self) -> (r: &'static str)
        ensures
            r@ == kind_label(self),
    {
        match self {
            CompletionKind::Word => "session",
            CompletionKind::Filename => "file",
            CompletionKind::Url => "url",
            CompletionKind::Dictionary => "dict",
        }
    }

    /// The weight of the kind.
    pub fn rank(self) -> (r: u8)
        ensures
            r == kind_rank(self),
    {
        match self {
            CompletionKind::Url => 3,
            CompletionKind::Filename => 2,
            CompletionKind::Word => 1,
            CompletionKind::Dictionary => 0,
        }
    }
}

/// A completion: the text to insert, where it comes from, and which of its
/// characters the query matched.
#[derive(Clone, Debug, PartialEq, Eq)]
pub struct CompletionMatch {
    pub text: String,
    pub kind: CompletionKind,
    pub match_indices: Vec<usize>,
}

/// What is kept of a candidate, beside the key under which it is found.
#[derive(Clone, Debug)]
pub struct CompletionCandidate {
    pub text: String,
    pub kind: CompletionKind,
    pub frequency: u32,
    pub last_seen_seq: u64,
    pub key_byte_len: usize,
    pub key_ascii_mask: [u64; 2],
    pub key_is_ascii: bool,
}

/// A candidate together with its key.
#[derive(Clone, Copy)]
pub struct CandidateView<'a> {
    pub text: &'a str,
    pub key: &'a str,
    pub kind: CompletionKind,
    pub frequency: u32,
    pub last_seen_seq: u64,
    pub key_byte_len: usize,
    pub key_ascii_mask: [u64; 2],
    pub key_is_ascii: bool,
}

/// A candidate: its text, its key, its kind, how often and when it was last seen.
pub struct CandidateModel {
    pub text: Seq<char>,
    pub key: Seq<char>,
    pub kind: CompletionKind,
    pub frequency: u32,
    pub last_seen_seq: u64,
}

impl<'a> View for CandidateView<'a> {
    type V = CandidateModel;

    open spec fn view(&self) -> CandidateModel {
        CandidateModel {
            text: self.text@,
            key: self.key@,
            kind: self.kind,
            frequency: self.frequency,
            last_seen_seq: self.last_seen_seq,
        }
    }
}

impl<'a> CandidateView<'a> {
    /// What is kept beside the key is true of the key.
    pub open spec fn describes_key(&self) -> bool {
        &&& self.key_byte_len == utf8::utf8_len(self.key@)
        &&& masks::is_char_mask(self.key_ascii_mask, self.key@)
        &&& self.key_is_ascii == is_ascii_chars(self.key@)
    }
}

/// The candidate with its key.
pub fn candidate_view<'a>(key: &'a str, candidate: &'a CompletionCandidate) -> (r: CandidateView<
    'a,
>)
    ensures
        r.key@ == key@,
        r.text@ == candidate.text@,
        r.kind == candidate.kind,
        r.frequency == candidate.frequency,
        r.last_seen_seq == candidate.last_seen_seq,
        r.key_byte_len == candidate.key_byte_len,
        r.key_ascii_mask == candidate.key_ascii_mask,
        r.key_is_ascii == candidate.key_is_ascii,
{
    CandidateView {
        text: candidate.text.as_str(),
        key,
        kind: candidate.kind,
        frequency: candidate.frequency,
        last_seen_seq: candidate.last_seen_seq,
        key_byte_len: candidate.key_byte_len,
        key_ascii_mask: candidate.key_ascii_mask,
        key_is_ascii: candidate.key_is_ascii,
    }
}

/// How a candidate matches, the best first.
#[derive(Clone, Copy, Debug, PartialEq, Eq, Structural)]
pub enum MatchClass {
    Exact,
    Prefix,
    Substring,
    Fuzzy,
}

/// The place of a class in the order.
pub open spec fn class_position(class: MatchClass) -> u8 {
    match class {
        MatchClass::Exact => 0,
        MatchClass::Prefix => 1,
        MatchClass::Substring => 2,
        MatchClass::Fuzzy => 3,
    }
}

impl MatchClass {
    /// The place of the class in the order.
    pub fn position(self) -> (r: u8)
        ensures
            r == class_position(self),
    {
        match self {
            MatchClass::Exact => 0,
            MatchClass::Prefix => 1,
            MatchClass::Substring => 2,
            MatchClass::Fuzzy => 3,
        }
    }
}

/// Which characters of a match are highlighted, before they are counted out.
pub enum MatchPlaces {
    Resolved(Seq<usize>),
    All,
    Prefix(nat),
    ByteRange(int, int),
    Fuzzy(u16),
}

/// A candidate that matches the query.
pub struct RankedMatch<'a> {
    pub candidate: CandidateView<'a>,
    pub match_class: MatchClass,
    pub fuzzy_score: i32,
    pub match_indices: RankedMatchIndices,
}

/// Which characters of a candidate are highlighted.
pub enum RankedMatchIndices {
    Resolved(Vec<usize>),
    All,
    Prefix { char_count: usize },
    ByteRange(Range<usize>),
    FrizbeeFuzzy { max_typos: u16 },
}

impl View for RankedMatchIndices {
    type V = MatchPlaces;

    open spec fn view(&self) -> MatchPlaces {
        match self {
            RankedMatchIndices::Resolved(indices) => MatchPlaces::Resolved(indices@),
            RankedMatchIndices::All => MatchPlaces::All,
            RankedMatchIndices::Prefix { char_count } => MatchPlaces::Prefix(*char_count as nat),
            RankedMatchIndices::ByteRange(range) => MatchPlaces::ByteRange(
                range.start as int,
                range.end as int,
            ),
            RankedMatchIndices::FrizbeeFuzzy { max_typos } => MatchPlaces::Fuzzy(*max_typos),
        }
    }
}

/// A candidate that matches, with all that decides its place.
pub struct RankedModel {
    pub candidate: CandidateModel,
    pub match_class: MatchClass,
    pub fuzzy_score: int,
    pub places: MatchPlaces,
}

impl<'a> View for RankedMatch<'a> {
    type V = RankedModel;

    open spec fn view(&self) -> RankedModel {
        RankedModel {
            candidate: self.candidate@,
            match_class: self.match_class,
            fuzzy_score: self.fuzzy_score as int,
            places: self.match_indices@,
        }
    }
}

/// The key of a session match: the class, the score (less is better), the kind, the
/// last sighting, the frequency, the length and at last the text itself.
pub open spec fn session_key(m: RankedModel) -> Seq<int> {
    seq![
        class_position(m.match_class) as int,
        m.fuzzy_score,
        -(kind_rank(m.candidate.kind) as int),
        -(m.candidate.last_seen_seq as int),
        -(m.candidate.frequency as int),
        utf8::utf8_len(m.candidate.text) as int,
    ] + utf8::text_key(m.candidate.text)
}

/// The key function of session matches.
pub open spec fn by_session_key() -> spec_fn(RankedModel) -> Seq<int> {
    |m: RankedModel| session_key(m)
}

/// The matches as plain values.
pub open spec fn ranked_views(s: Seq<RankedMatch<'_>>) -> Seq<RankedModel> {
    s.map_values(|m: RankedMatch<'_>| m@)
}

/// Compares two session matches by their keys.
pub fn compare_ranked_matches(left: &RankedMatch<'_>, right: &RankedMatch<'_>) -> (r: Ordering)
    ensures
        r == Ordering::Less <==> order::lex_less(session_key(left@), session_key(right@)),
        r == Ordering::Greater <==> order::lex_less(session_key(right@), session_key(left@)),
{
    let ghost p = session_key(left@).take(6);
    let ghost q = session_key(right@).take(6);
    let ghost a = utf8::text_key(left.candidate.text@);
    let ghost b = utf8::text_key(right.candidate.text@);
    proof {
        assert(session_key(left@) =~= p + a);
        assert(session_key(right@) =~= q + b);
    }
    let left_class = left.match_class.position();
    let right_class = right.match_class.position();
    if left_class != right_class {
        proof {
            order::lex_heads_differ(p, q, a, b, 0);
        }
        return if left_class < right_class {
            Ordering::Less
        } else {
            Ordering::Greater
        };
    }
    if left.fuzzy_score != right.fuzzy_score {
        proof {
            order::lex_heads_differ(p, q, a, b, 1);
        }
        return if left.fuzzy_score < right.fuzzy_score {
            Ordering::Less
        } else {
            Ordering::Greater
        };
    }
    let left_kind = left.candidate.kind.rank();
    let right_kind = right.candidate.kind.rank();
    if left_kind != right_kind {
        proof {
            order::lex_heads_differ(p, q, a, b, 2);
        }
        return if left_kind > right_kind {
            Ordering::Less
        } else {
            Ordering::Greater
        };
    }
    if left.candidate.last_seen_seq != right.candidate.last_seen_seq {
        proof {
            order::lex_heads_differ(p, q, a, b, 3);
        }
        return if left.candidate.last_seen_seq > right.candidate.last_seen_seq {
            Ordering::Less
        } else {
            Ordering::Greater
        };
    }
    if left.candidate.frequency != right.candidate.frequency {
        proof {
            order::lex_heads_differ(p, q, a, b, 4);
        }
        return if left.candidate.frequency > right.candidate.frequency {
            Ordering::Less
        } else {
            Ordering::Greater
        };
    }
    let left_len = byte_len(left.candidate.text);
    let right_len = byte_len(right.candidate.text);
    if left_len != right_len {
        proof {
            order::lex_heads_differ(p, q, a, b, 5);
        }
        return if left_len < right_len {
            Ordering::Less
        } else {
            Ordering::Greater
        };
    }
    proof {
        assert(p =~= q);
        order::lex_common_prefix(p, a, b);
        order::lex_common_prefix(p, b, a);
    }
    compare_text(left.candidate.text, right.candidate.text)
}

impl<'a> Ranked for RankedMatch<'a> {
    open spec fn rank_key(&self) -> Seq<int> {
        session_key(self@)
    }

    fn compare_rank(&self, other: &Self) -> (r: Ordering) {
        compare_ranked_matches(self, other)
    }
}

/// The matches are in order as plain values exactly if they are in order.
pub proof fn lemma_ranked_views(s: Seq<RankedMatch<'_>>)
    ensures
        top::is_ranked(s, top::rank_of::<RankedMatch<'_>>()) <==> top::is_ranked(
            ranked_views(s),
            by_session_key(),
        ),
{
    let key = top::rank_of::<RankedMatch<'_>>();
    let v = ranked_views(s);
    assert forall|i: int| 0 <= i < s.len() implies key(#[trigger] s[i]) == by_session_key()(
        v[i],
    ) by {}
    if top::is_ranked(s, key) {
        assert forall|i: int, j: int| 0 <= i < j < v.len() implies !order::lex_less(
            by_session_key()(v[j]),
            by_session_key()(v[i]),
        ) by {
            assert(!order::lex_less(key(s[j]), key(s[i])));
        }
    }
    if top::is_ranked(v, by_session_key()) {
        assert forall|i: int, j: int| 0 <= i < j < s.len() implies !order::lex_less(
            key(s[j]),
            key(s[i]),
        ) by {
            assert(!order::lex_less(by_session_key()(v[j]), by_session_key()(v[i])));
        }
    }
}

/// Puts a session match at its place among the best `limit`.
pub fn push_top_ranked_match<'a>(
    matches: &mut Vec<RankedMatch<'a>>,
    ranked: RankedMatch<'a>,
    limit: usize,
)
    requires
        top::is_ranked(ranked_views(old(matches)@), by_session_key()),
    ensures
        ranked_views(final(matches)@) == top::push_top(
            ranked_views(old(matches)@),
            ranked@,
            limit as nat,
            by_session_key(),
        ),
        top::is_ranked(ranked_views(final(matches)@), by_session_key()),
        forall|i: int|
            0 <= i < final(matches)@.len() ==> old(matches)@.contains(
                #[trigger] final(matches)@[i],
            ) || final(matches)@[i] == ranked,
{
    proof {
        lemma_ranked_views(matches@);
        top::lemma_push_map(
            matches@,
            ranked,
            limit as nat,
            |m: RankedMatch<'a>| m@,
            top::rank_of::<RankedMatch<'a>>(),
            by_session_key(),
        );
        top::lemma_push_members(
            matches@,
            ranked,
            limit as nat,
            top::rank_of::<RankedMatch<'a>>(),
        );
    }
    push_top_match(matches, ranked, limit);
    proof {
        lemma_ranked_views(matches@);
    }
}

/// The key holds the query: it is found without fuzzy matching.
pub open spec fn is_literal_match(key: Seq<char>, query_lower: Seq<char>) -> bool {
    utf8::contains_text(key, query_lower)
}

/// Whether the key is the query or holds it.
pub fn has_literal_match(candidate_key: &str, query_lower: &str) -> (r: bool)
    ensures
        r == is_literal_match(candidate_key@, query_lower@),
{
    proof {
        if candidate_key@ == query_lower@ {
            assert(candidate_key@.subrange(0, candidate_key@.len() as int) =~= query_lower@);
            assert(utf8::occurs_at(candidate_key@, query_lower@, 0));
        }
    }
    str_eq(candidate_key, query_lower) || str_contains(candidate_key, query_lower)
}

/// Whether the word is the query or holds it.
pub fn dictionary_has_literal_match(word: &str, query_lower: &str) -> (r: bool)
    ensures
        r == is_literal_match(word@, query_lower@),
{
    has_literal_match(word, query_lower)
}

/// How a candidate matches a query that its key holds; nothing for a key that is the
/// query with a text that is what was typed, and for a key that does not hold the
/// query.
pub open spec fn literal_rank(
    candidate: CandidateModel,
    query: Seq<char>,
    query_lower: Seq<char>,
) -> Option<RankedModel> {
    if candidate.key == query_lower && candidate.text == query {
        None
    } else if candidate.key == query_lower {
        Some(
            RankedModel {
                candidate,
                match_class: MatchClass::Exact,
                fuzzy_score: -1000,
                places: MatchPlaces::All,
            },
        )
    } else if query_lower.is_prefix_of(candidate.key) {
        Some(
            RankedModel {
                candidate,
                match_class: MatchClass::Prefix,
                fuzzy_score: -500,
                places: MatchPlaces::Prefix(query.len()),
            },
        )
    } else if utf8::contains_text(candidate.key, query_lower) {
        let start = utf8::byte_offset(
            candidate.key,
            utf8::first_occurrence(candidate.key, query_lower),
        ) as int;
        Some(
            RankedModel {
                candidate,
                match_class: MatchClass::Substring,
                fuzzy_score: 0,
                places: MatchPlaces::ByteRange(start, start + utf8::utf8_len(query_lower)),
            },
        )
    } else {
        None
    }
}

/// How a candidate matches by the places and the score that a fuzzy matcher found.
pub open spec fn fuzzy_rank(
    candidate: CandidateModel,
    found: Option<(Seq<usize>, i32)>,
) -> Option<RankedModel> {
    match found {
        Some((indices, score)) => Some(
            RankedModel {
                candidate,
                match_class: MatchClass::Fuzzy,
                fuzzy_score: score as int,
                places: MatchPlaces::Resolved(indices),
            },
        ),
        None => None,
    }
}

/// What a fuzzy matcher found, as plain values.
pub open spec fn found_view(found: Option<(Vec<usize>, i32)>) -> Option<(Seq<usize>, i32)> {
    match found {
        Some((indices, score)) => Some((indices@, score)),
        None => None,
    }
}

/// `found` is an answer of the fuzzy matcher `f` to `text` and `query`.
pub open spec fn is_fuzzy_answer<M: Fn(&str, &str) -> Option<(Vec<usize>, i32)>>(
    f: M,
    text: Seq<char>,
    query: Seq<char>,
    found: Option<(Seq<usize>, i32)>,
) -> bool {
    exists|t: &str, q: &str, r: Option<(Vec<usize>, i32)>|
        t@ == text && q@ == query && found_view(r) == found && #[trigger] call_ensures(f, (t, q), r)
}

/// The match as a plain value.
pub open spec fn ranked_option_view(r: Option<RankedMatch<'_>>) -> Option<RankedModel> {
    match r {
        Some(m) => Some(m@),
        None => None,
    }
}

/// The candidate as a match by what a fuzzy matcher found.
pub fn rank_fuzzy_candidate<'a>(
    candidate: CandidateView<'a>,
    found: Option<(Vec<usize>, i32)>,
) -> (r: Option<RankedMatch<'a>>)
    ensures
        ranked_option_view(r) == fuzzy_rank(candidate@, found_view(found)),
        r is Some ==> r->0.candidate == candidate,
{
    match found {
        Some((indices, score)) => Some(
            RankedMatch {
                candidate,
                match_class: MatchClass::Fuzzy,
                fuzzy_score: score,
                match_indices: RankedMatchIndices::Resolved(indices),
            },
        ),
        None => None,
    }
}

/// How the candidate matches a query that its key holds; nothing for any other key. There
/// is no match where the candidate is what was typed.
fn rank_literal_candidate<'a>(
    candidate: CandidateView<'a>,
    query: &str,
    query_lower: &str,
) -> (r: Option<Option<RankedMatch<'a>>>)
    ensures
        match r {
            Some(ranked) => {
                &&& is_literal_match(candidate.key@, query_lower@)
                &&& ranked_option_view(ranked) == literal_rank(candidate@, query@, query_lower@)
                &&& ranked is Some ==> ranked->0.candidate == candidate
            },
            None => !is_literal_match(candidate.key@, query_lower@),
        },
{
    proof {
        if candidate.key@ == query_lower@ {
            assert(candidate.key@.subrange(0, candidate.key@.len() as int) =~= query_lower@);
            assert(utf8::occurs_at(candidate.key@, query_lower@, 0));
        }
        if query_lower@.is_prefix_of(candidate.key@) {
            assert(utf8::occurs_at(candidate.key@, query_lower@, 0));
        }
    }
    let same_key = str_eq(candidate.key, query_lower);
    if same_key && str_eq(candidate.text, query) {
        return Some(None);
    }
    let how: (MatchClass, i32, RankedMatchIndices) = if same_key {
        (MatchClass::Exact, -1_000, RankedMatchIndices::All)
    } else if str_starts_with(candidate.key, query_lower) {
        let char_count: usize = query.unicode_len();
        (MatchClass::Prefix, -500, RankedMatchIndices::Prefix { char_count })
    } else if let Some(start) = str_find(candidate.key, query_lower) {
        let key_len = byte_len(candidate.key);
        assert(start + utf8::utf8_len(query_lower@) <= key_len);
        let end: usize = start + byte_len(query_lower);
        (MatchClass::Substring, 0, RankedMatchIndices::ByteRange(start..end))
    } else {
        return None;
    };
    Some(
        Some(
            RankedMatch {
                candidate,
                match_class: how.0,
                fuzzy_score: how.1,
                match_indices: how.2,
            },
        ),
    )
}

/// How the candidate matches the query, if it does. A candidate whose key holds the
/// query is ranked by how it does; any other is handed to the fuzzy matcher, if it is
/// asked for.
pub fn rank_candidate<'a, M: Fn(&str, &str) -> Option<(Vec<usize>, i32)>>(
    candidate: CandidateView<'a>,
    query: &str,
    query_lower: &str,
    include_fuzzy: bool,
    fuzzy_match: &M,
) -> (r: Option<RankedMatch<'a>>)
    requires
        forall|t: &str, q: &str| #[trigger] call_requires(*fuzzy_match, (t, q)),
    ensures
        is_literal_match(candidate.key@, query_lower@) ==> ranked_option_view(r) == literal_rank(
            candidate@,
            query@,
            query_lower@,
        ),
        !is_literal_match(candidate.key@, query_lower@) && !include_fuzzy ==> r is None,
        !is_literal_match(candidate.key@, query_lower@) && include_fuzzy ==> exists|
            found: Option<(Seq<usize>, i32)>,
        | #[trigger]
            is_fuzzy_answer(*fuzzy_match, candidate.text@, query@, found) && ranked_option_view(r)
                == fuzzy_rank(candidate@, found),
        r is Some ==> r->0.candidate == candidate,
{
    if let Some(ranked) = rank_literal_candidate(candidate, query, query_lower) {
        return ranked;
    }
    if !include_fuzzy {
        return None;
    }
    let found = fuzzy_match(candidate.text, query);
    proof {
        assert(is_fuzzy_answer(*fuzzy_match, candidate.text@, query@, found_view(found)));
    }
    rank_fuzzy_candidate(candidate, found)
}

/// The numbers below `n`, ascending.
pub open spec fn first_numbers(n: nat) -> Seq<usize> {
    Seq::new(n, |i: int| i as usize)
}

/// The numbers below `n`, ascending.
pub fn count_up(n: usize) -> (r: Vec<usize>)
    ensures
        r@ == first_numbers(n as nat),
{
    let mut r: Vec<usize> = Vec::new();
    let mut i: usize = 0;
    while i < n
        invariant
            i <= n,
            r@ == first_numbers(i as nat),
        decreases n - i,
    {
        r.push(i);
        i += 1;
        assert(r@ =~= first_numbers(i as nat));
    }
    r
}

/// `r` holds the numbers of the characters of `text` that start in the bytes from
/// `start` to `end`, ascending.
pub open spec fn are_chars_in_range(text: Seq<char>, start: int, end: int, r: Seq<usize>) -> bool {
    &&& forall|i: int, j: int| 0 <= i < j < r.len() ==> r[i] < r[j]
    &&& forall|j: usize| #[trigger]
        r.contains(j) <==> (j < text.len() && start <= utf8::byte_offset(text, j as int) < end)
}

/// The numbers of the characters of `text` that start in the given bytes.
pub fn char_indices_for_byte_range(text: &str, range: Range<usize>) -> (r: Vec<usize>)
    ensures
        are_chars_in_range(text@, range.start as int, range.end as int, r@),
{
    let mut r: Vec<usize> = Vec::new();
    let mut char_idx: usize = 0;
    let mut byte_idx: usize = 0;
    let text_len = byte_len(text);
    let ghost s = text@;
    proof {
        assert(s.take(0) =~= Seq::<char>::empty());
    }
    for c in it: text.chars()
        invariant
            it.seq() == s,
            s == text@,
            text_len == utf8::utf8_len(s),
            char_idx == it.index(),
            byte_idx == utf8::byte_offset(s, it.index()),
            forall|i: int, j: int| 0 <= i < j < r@.len() ==> r@[i] < r@[j],
            forall|j: usize| #[trigger]
                r@.contains(j) <==> (j < it.index() && range.start <= utf8::byte_offset(
                    s,
                    j as int,
                ) < range.end),
    {
        let ghost k = it.index();
        let ghost before = r@;
        proof {
            assert(c == s[k]);
            assert(s.take(k + 1) =~= s.take(k).push(c));
            utf8::lemma_encode_push(s.take(k), c);
            utf8::lemma_offset_is_boundary(s, k + 1);
            utf8::lemma_offset_is_boundary(s, k);
            utf8::lemma_encode_nonempty(s.skip(k));
            assert forall|j: int| 0 <= j < before.len() implies #[trigger] before[j] < k by {
                assert(before.contains(before[j]));
            }
        }
        if byte_idx >= range.start && byte_idx < range.end {
            r.push(char_idx);
        }
        proof {
            assert forall|j: usize| #[trigger] r@.contains(j) <==> (j < k + 1 && range.start
                <= utf8::byte_offset(s, j as int) < range.end) by {
                if before.contains(j) {
                    let i = choose|i: int| 0 <= i < before.len() && before[i] == j;
                    assert(r@[i] == j);
                }
                if r@.contains(j) {
                    let i = choose|i: int| 0 <= i < r@.len() && r@[i] == j;
                    if i < before.len() {
                        assert(before[i] == j);
                    }
                }
                if j == k && range.start <= byte_idx < range.end {
                    assert(r@[r@.len() - 1] == j);
                }
            }
        }
        byte_idx += char_width(c);
        proof {
            utf8::lemma_encode_nonempty(s);
            assert(k + 1 <= s.len());
            utf8::lemma_len_le_bytes(s);
        }
        char_idx += 1;
    }
    r
}

/// `r` counts out the places: those found already, all, the first few, those that
/// start in a range of bytes, or those where the fuzzy matcher aligns the query with
/// the key.
pub open spec fn are_places(
    places: MatchPlaces,
    text: Seq<char>,
    key: Seq<char>,
    query_lower: Seq<char>,
    r: Seq<usize>,
) -> bool {
    match places {
        MatchPlaces::Resolved(indices) => r == indices,
        MatchPlaces::All => r == first_numbers(text.len()),
        MatchPlaces::Prefix(n) => r == first_numbers(n),
        MatchPlaces::ByteRange(start, end) => are_chars_in_range(text, start, end, r),
        MatchPlaces::Fuzzy(max_typos) => matcher::is_alignment(query_lower, key, max_typos, r),
    }
}

/// `m` is the completion that a session match stands for.
pub open spec fn is_session_completion(
    ranked: RankedModel,
    query_lower: Seq<char>,
    m: CompletionMatch,
) -> bool {
    &&& m.text@ == ranked.candidate.text
    &&& m.kind == ranked.candidate.kind
    &&& are_places(
        ranked.places,
        ranked.candidate.text,
        ranked.candidate.key,
        query_lower,
        m.match_indices@,
    )
}

/// The query and the key can be aligned, where that is still to be done.
pub open spec fn can_align(places: MatchPlaces, key: Seq<char>, query_lower: Seq<char>) -> bool {
    match places {
        MatchPlaces::Fuzzy(max_typos) => {
            &&& matcher::needle_fits(query_lower, max_typos)
            &&& matcher::haystack_fits(utf8::utf8_len(query_lower), utf8::utf8_len(key), max_typos)
        },
        _ => true,
    }
}

/// The completion that a session match stands for.
pub fn ranked_to_completion_match(ranked: RankedMatch<'_>, query_lower: &str) -> (r: CompletionMatch)
    requires
        can_align(ranked@.places, ranked.candidate.key@, query_lower@),
    ensures
        is_session_completion(ranked@, query_lower@, r),
{
    let match_indices = match ranked.match_indices {
        RankedMatchIndices::Resolved(indices) => indices,
        RankedMatchIndices::All => count_up(ranked.candidate.text.unicode_len()),
        RankedMatchIndices::Prefix { char_count } => count_up(char_count),
        RankedMatchIndices::ByteRange(range) => char_indices_for_byte_range(
            ranked.candidate.text,
            range,
        ),
        RankedMatchIndices::FrizbeeFuzzy { max_typos } => frizbee_match_indices(
            query_lower,
            ranked.candidate.key,
            max_typos,
        ),
    };
    CompletionMatch {
        text: ranked.candidate.text.to_owned(),
        kind: ranked.candidate.kind,
        match_indices,
    }
}

} // verus!
