//! The session index: candidates seen in the conversation, and the search over them
//! and the dictionary.
use std::cmp::Ordering;
use vstd::hash_map::StringHashMap;
use vstd::prelude::*;
use vstd::string::*;
use vstd::utf8::*;

use crate::asking;
use crate::asking::should_cancel_scan;
use crate::dictionary;
use crate::dictionary::{
    dictionary_pair_word_ids, dictionary_record_at, rarest_query_pair, DictionaryModel,
    EnglishDictionary,
};
use crate::dictionary_ranking;
use crate::dictionary_ranking::{
    dictionary_match_to_completion_match, push_top_dictionary_match, rank_word, DictionaryMatchIndices, DictionaryRankedMatch,
    DictionaryRankedModel,
};
use crate::extract;
use crate::extract::extract_candidates;
use crate::laws;
use crate::masks;
use crate::masks::{
    ascii_char_mask, ascii_letter_mask, completion_max_typos, dictionary_max_typos,
    missing_ascii_chars, missing_ascii_letters,
};
use crate::matcher;
use crate::matcher::{
    frizbee_scores, GREEDY_HAYSTACK_BYTES, MAX_HAYSTACK_BYTES, MAX_NEEDLE_BYTES,
};
use crate::model;
use crate::model::IndexModel;
use crate::order;
use crate::ranking;
use crate::ranking::{
    candidate_view, dictionary_has_literal_match, has_literal_match, push_top_ranked_match, rank_candidate, ranked_to_completion_match, CandidateModel, CandidateView,
    CompletionCandidate, CompletionKind, CompletionMatch, MatchClass, RankedMatch, RankedMatchIndices, RankedModel,
    MAX_CANDIDATE_CHARS, MAX_COMPLETION_RESULTS,
    MIN_COMPLETION_QUERY_CHARS,
};
use crate::select;
use crate::text;
use crate::text::{
    byte_len, compare_text, is_all_digits, normalize, str_starts_with, trim_text,
};
use crate::top;
use crate::utf8;

verus! {

/// A candidate and its key as plain values.
pub open spec fn candidate_model(key: Seq<char>, c: CompletionCandidate) -> CandidateModel {
    CandidateModel {
        text: c.text@,
        key,
        kind: c.kind,
        frequency: c.frequency,
        last_seen_seq: c.last_seen_seq,
    }
}

/// What is kept beside the key is true of the key.
pub open spec fn describes(key: Seq<char>, c: CompletionCandidate) -> bool {
    &&& c.key_byte_len == utf8::utf8_len(key)
    &&& masks::is_char_mask(c.key_ascii_mask, key)
    &&& c.key_is_ascii == is_ascii_chars(key)
}

/// The candidates by their keys, the keys in order, and the length of the longest query
/// that can be scored against them.
struct Entries {
    candidates: StringHashMap<CompletionCandidate>,
    prefix_keys: Vec<String>,
    needle_limit: usize,
}

/// What is kept under the key `k` is a sound candidate.
spec fn is_sound(k: Seq<char>, c: CompletionCandidate) -> bool {
    &&& describes(k, c)
    &&& text::lowercase(c.text@) == k
    &&& k.len() > 0
    &&& model::is_candidate_text(c.text@)
    &&& text::trimmed(c.text@) == c.text@
    &&& c.frequency >= 1
}

impl Entries {
    spec fn models(&self) -> Map<Seq<char>, CandidateModel> {
        Map::new(
            |k: Seq<char>| self.candidates@.contains_key(k),
            |k: Seq<char>| candidate_model(k, self.candidates@[k]),
        )
    }

    spec fn keys(&self) -> Seq<Seq<char>> {
        self.prefix_keys@.map_values(|s: String| s@)
    }

    spec fn model(&self, next_seq: u64, dictionary: EnglishDictionary) -> IndexModel {
        IndexModel {
            candidates: self.models(),
            keys: self.keys(),
            next_seq,
            dictionary: dictionary@,
        }
    }

    /// The keys are those of the candidates, in order, and each candidate describes its
    /// key.
    spec fn wf(&self) -> bool {
        &&& forall|i: int, j: int|
            0 <= i < j < self.keys().len() ==> utf8::text_less(
                #[trigger] self.keys()[i],
                #[trigger] self.keys()[j],
            )
        &&& forall|k: Seq<char>| #[trigger]
            self.keys().contains(k) <==> self.candidates@.contains_key(k)
        &&& forall|k: Seq<char>| #[trigger]
            self.candidates@.contains_key(k) ==> is_sound(k, self.candidates@[k])
        &&& model::is_needle_limit(self.keys(), self.needle_limit as nat)
    }

    /// The content is sound whatever the counter is.
    proof fn lemma_model_wf(&self, next_seq: u64, dictionary: EnglishDictionary)
        requires
            self.wf(),
            dictionary@.wf(),
        ensures
            self.model(next_seq, dictionary).wf(),
    {
        let m = self.model(next_seq, dictionary);
        assert forall|k: Seq<char>| #[trigger] m.keys.contains(k) <==> m.candidates.contains_key(
            k,
        ) by {
            assert(self.keys().contains(k) <==> self.candidates@.contains_key(k));
        }
        assert forall|k: Seq<char>| #[trigger] m.candidates.contains_key(k) implies {
            &&& m.candidates[k].key == k
            &&& text::lowercase(m.candidates[k].text) == k
            &&& k.len() > 0
            &&& model::is_candidate_text(m.candidates[k].text)
            &&& text::trimmed(m.candidates[k].text) == m.candidates[k].text
            &&& m.candidates[k].frequency >= 1
        } by {
            assert(self.candidates@.contains_key(k));
        }
    }

    fn empty() -> (r: Entries)
        ensures
            r.wf(),
            r.models() == Map::<Seq<char>, CandidateModel>::empty(),
            r.keys() == Seq::<Seq<char>>::empty(),
    {
        let r = Entries {
            candidates: StringHashMap::new(),
            prefix_keys: Vec::new(),
            needle_limit: MAX_NEEDLE_BYTES,
        };
        proof {
            assert(r.keys() =~= Seq::<Seq<char>>::empty());
            assert(r.models() =~= Map::<Seq<char>, CandidateModel>::empty());
        }
        r
    }

    /// The number of keys that come before `key`.
    fn lower_bound(&self, key: &str) -> (p: usize)
        requires
            self.wf(),
        ensures
            p == top::rank_position(self.keys(), utf8::text_key(key@), model::by_text()),
            p <= self.keys().len(),
            forall|i: int| 0 <= i < p ==> utf8::text_less(#[trigger] self.keys()[i], key@),
            forall|i: int|
                p <= i < self.keys().len() ==> !utf8::text_less(#[trigger] self.keys()[i], key@),
    {
        let ghost keys = self.keys();
        let mut lo: usize = 0;
        let mut hi: usize = self.prefix_keys.len();
        while lo < hi
            invariant
                self.wf(),
                keys == self.keys(),
                lo <= hi <= keys.len(),
                keys.len() == self.prefix_keys@.len(),
                forall|i: int| 0 <= i < lo ==> utf8::text_less(#[trigger] keys[i], key@),
                forall|i: int| hi <= i < keys.len() ==> !utf8::text_less(#[trigger] keys[i], key@),
            decreases hi - lo,
        {
            let mid: usize = lo + (hi - lo) / 2;
            let before = match compare_text(self.prefix_keys[mid].as_str(), key) {
                Ordering::Less => true,
                _ => false,
            };
            proof {
                assert(keys[mid + 0] == self.prefix_keys@[mid + 0]@);
                if before {
                    assert forall|i: int| 0 <= i < mid + 1 implies utf8::text_less(
                        #[trigger] keys[i],
                        key@,
                    ) by {
                        if i < mid {
                            assert(utf8::text_less(keys[i], keys[mid + 0]));
                            order::lex_transitive(
                                utf8::text_key(keys[i]),
                                utf8::text_key(keys[mid + 0]),
                                utf8::text_key(key@),
                            );
                        }
                    }
                } else {
                    assert forall|i: int| mid <= i < keys.len() implies !utf8::text_less(
                        #[trigger] keys[i],
                        key@,
                    ) by {
                        if i > mid {
                            assert(utf8::text_less(keys[mid + 0], keys[i]));
                            if utf8::text_less(keys[i], key@) {
                                order::lex_transitive(
                                    utf8::text_key(keys[mid + 0]),
                                    utf8::text_key(keys[i]),
                                    utf8::text_key(key@),
                                );
                            }
                        }
                    }
                }
            }
            if before {
                lo = mid + 1;
            } else {
                hi = mid;
            }
        }
        proof {
            top::lemma_position_is(keys, utf8::text_key(key@), model::by_text(), lo + 0);
        }
        lo
    }

    /// Candidate number `j` in the order of the keys.
    fn candidate_at(&self, j: usize) -> (r: CandidateView<'_>)
        requires
            self.wf(),
            j < self.keys().len(),
        ensures
            r@ == self.models()[self.keys()[j as int]],
            r.key@ == self.keys()[j as int],
            r.describes_key(),
    {
        let key = self.prefix_keys[j].as_str();
        let found = self.candidates.get(key);
        proof {
            assert(self.keys()[j as int] == key@);
            assert(self.keys().contains(key@));
            assert(self.candidates@.contains_key(key@));
        }
        let candidate = found.unwrap();
        let r = candidate_view(key, candidate);
        assert(r@ == candidate_model(key@, *candidate));
        r
    }

    /// Records a sighting of `text` under `key`.
    fn record(&mut self, text: &str, key: String, kind: CompletionKind, seq: u64)
        requires
            old(self).wf(),
            key@ == text::lowercase(text@),
            key@.len() > 0,
            model::is_candidate_text(text@),
            text::trimmed(text@) == text@,
        ensures
            final(self).wf(),
            old(self).models().contains_key(key@) ==> {
                &&& final(self).keys() == old(self).keys()
                &&& final(self).models() == old(self).models().insert(
                    key@,
                    model::seen_again(old(self).models()[key@], text@, kind, seq),
                )
            },
            !old(self).models().contains_key(key@) ==> {
                &&& final(self).keys() == old(self).keys().insert(
                    top::rank_position(
                        old(self).keys(),
                        utf8::text_key(key@),
                        model::by_text(),
                    ),
                    key@,
                )
                &&& final(self).models() == old(self).models().insert(
                    key@,
                    CandidateModel {
                        text: text@,
                        key: key@,
                        kind,
                        frequency: 1,
                        last_seen_seq: seq,
                    },
                )
            },
    {
        let key_byte_len = byte_len(key.as_str());
        let key_ascii_mask = ascii_char_mask(key.as_str());
        let key_is_ascii = key.as_str().is_ascii();
        let ghost before = *self;
        let ghost k = key@;
        let existing = self.candidates.get(key.as_str());
        if let Some(c) = existing {
            let takes = kind.rank() >= c.kind.rank();
            let updated = CompletionCandidate {
                text: if takes {
                    text.to_owned()
                } else {
                    c.text.clone()
                },
                kind: if takes {
                    kind
                } else {
                    c.kind
                },
                frequency: c.frequency.saturating_add(1),
                last_seen_seq: seq,
                key_byte_len: c.key_byte_len,
                key_ascii_mask: c.key_ascii_mask,
                key_is_ascii: c.key_is_ascii,
            };
            self.candidates.insert(key, updated);
            proof {
                assert(self.keys() == before.keys());
                assert forall|o: Seq<char>| #[trigger] self.keys().contains(o)
                    <==> self.candidates@.contains_key(o) by {
                    assert(before.keys().contains(o) <==> before.candidates@.contains_key(o));
                }
                assert forall|o: Seq<char>| #[trigger] self.candidates@.contains_key(o) implies is_sound(
                    o,
                    self.candidates@[o],
                ) by {
                    assert(before.candidates@.contains_key(o));
                }
                assert(self.models() =~= before.models().insert(
                    k,
                    model::seen_again(before.models()[k], text@, kind, seq),
                ));
            }
        } else {
            let insert_at = self.lower_bound(key.as_str());
            self.prefix_keys.insert(insert_at, key.clone());
            let candidate = CompletionCandidate {
                text: text.to_owned(),
                kind,
                frequency: 1,
                last_seen_seq: seq,
                key_byte_len,
                key_ascii_mask,
                key_is_ascii,
            };
            self.candidates.insert(key, candidate);
            let limit: usize = if key_byte_len > MAX_HAYSTACK_BYTES {
                0
            } else if key_byte_len > GREEDY_HAYSTACK_BYTES && key_byte_len < MAX_NEEDLE_BYTES {
                key_byte_len
            } else {
                MAX_NEEDLE_BYTES
            };
            if key_is_ascii && limit < self.needle_limit {
                self.needle_limit = limit;
            }
            proof {
                let p = insert_at as int;
                let keys = self.keys();
                assert(keys =~= before.keys().insert(p, k));
                assert(!before.keys().contains(k));
                model::lemma_insert_sorted(before.keys(), k, p);
                assert forall|o: Seq<char>| #[trigger] keys.contains(o)
                    <==> self.candidates@.contains_key(o) by {
                    assert(before.keys().contains(o) <==> before.candidates@.contains_key(o));
                }
                assert forall|o: Seq<char>| #[trigger] self.candidates@.contains_key(o) implies is_sound(
                    o,
                    self.candidates@[o],
                ) by {
                    if o != k {
                        assert(before.candidates@.contains_key(o));
                    }
                }
                model::lemma_needle_limit(before.keys(), before.needle_limit as nat, keys, k);
                assert(self.models() =~= before.models().insert(
                    k,
                    CandidateModel {
                        text: text@,
                        key: k,
                        kind,
                        frequency: 1,
                        last_seen_seq: seq,
                    },
                ));
            }
        }
    }
}

/// The candidates seen in a session, with the dictionary behind them.
pub struct SessionCompletionIndex {
    entries: Entries,
    next_seq: u64,
    dictionary: EnglishDictionary,
}

impl View for SessionCompletionIndex {
    type V = IndexModel;

    closed spec fn view(&self) -> IndexModel {
        self.entries.model(self.next_seq, self.dictionary)
    }
}

impl SessionCompletionIndex {
    #[verifier::type_invariant]
    spec fn entries_fit(&self) -> bool {
        self.entries.wf() && self.dictionary@.wf()
    }

    /// What is kept of the candidates, by their keys.
    pub closed spec fn stored(&self) -> Map<Seq<char>, CompletionCandidate> {
        self.entries.candidates@
    }

    /// The candidates are what is kept, and what is kept beside each key is true of it.
    pub open spec fn stored_fits(&self) -> bool {
        &&& self.stored().dom() == self@.candidates.dom()
        &&& forall|k: Seq<char>| #[trigger]
            self.stored().contains_key(k) ==> describes(k, self.stored()[k]) && candidate_model(
                k,
                self.stored()[k],
            ) == self@.candidates[k]
    }

    proof fn lemma_stored(&self)
        requires
            self.entries.wf(),
        ensures
            self.stored_fits(),
    {
        assert(self.stored().dom() =~= self@.candidates.dom());
    }

    /// The index without candidates, with the given dictionary.
    pub fn with_dictionary(dictionary: EnglishDictionary) -> (r: Self)
        ensures
            r@ == model::empty_index(dictionary@),
            r@.wf(),
            r.stored_fits(),
    {
        let entries = Entries::empty();
        proof {
            use_type_invariant(&dictionary);
            dictionary.lemma_wf();
            entries.lemma_model_wf(0, dictionary);
        }
        let r = SessionCompletionIndex { entries, next_seq: 0, dictionary };
        proof {
            r.lemma_stored();
        }
        r
    }

    /// The index without candidates and without words behind them.
    pub fn without_dictionary() -> (r: Self)
        ensures
            r@ == model::empty_index(r@.dictionary),
            r@.dictionary.records.len() == 0,
            r@.wf(),
            r.stored_fits(),
    {
        SessionCompletionIndex::with_dictionary(EnglishDictionary::empty())
    }

    /// The number of candidates.
    pub fn len(&self) -> (n: usize)
        ensures
            n == self@.candidates.dom().len(),
    {
        proof {
            assert(self@.candidates.dom() =~= self.entries.candidates@.dom());
        }
        self.entries.candidates.len()
    }

    /// Records a sighting of `text` as a candidate of kind `kind`, unless it is not fit
    /// to be one.
    pub fn add_candidate(&mut self, text: String, kind: CompletionKind)
        ensures
            final(self)@ == model::with_candidate(old(self)@, text@, kind),
            final(self)@.wf(),
            final(self).stored_fits(),
    {
        proof {
            use_type_invariant(&*self);
            self.entries.lemma_model_wf(self.next_seq, self.dictionary);
            self.lemma_stored();
            text::lemma_trimmed_again(text@);
        }
        let text = trim_text(text.as_str());
        let chars = text.unicode_len();
        if chars < MIN_COMPLETION_QUERY_CHARS || chars > MAX_CANDIDATE_CHARS || is_all_digits(
            text,
        ) {
            return;
        }
        let key = normalize(text);
        if byte_len(key.as_str()) == 0 {
            proof {
                utf8::lemma_encode_nonempty(key@);
            }
            return;
        }
        proof {
            utf8::lemma_encode_nonempty(key@);
        }
        let seq = self.next_seq.wrapping_add(1);
        let ghost k = key@;
        let ghost before = self.entries;
        let mut entries = Entries::empty();
        std::mem::swap(&mut entries, &mut self.entries);
        entries.record(text, key, kind, seq);
        proof {
            entries.lemma_model_wf(seq, self.dictionary);
        }
        self.entries = entries;
        self.next_seq = seq;
        proof {
            self.lemma_stored();
        }
    }
}

impl SessionCompletionIndex {
    /// Records the candidates of a text.
    pub fn ingest_text(&mut self, text: &str)
        ensures
            final(self)@ == model::with_candidates(old(self)@, extract::text_candidates(text@)),
            final(self)@.wf(),
            final(self).stored_fits(),
            old(self)@.has_no_words() ==> final(self)@.has_no_words(),
    {
        proof {
            use_type_invariant(&*self);
            self.entries.lemma_model_wf(self.next_seq, self.dictionary);
            self.lemma_stored();
            if self@.has_no_words() {
                laws::law_texts_bring_no_words(self@, text@);
            }
        }
        let found = extract_candidates(text);
        let ghost all = extract::found_views(found@);
        let ghost before = self@;
        let mut i: usize = 0;
        assert(all.take(0) =~= Seq::<(Seq<char>, CompletionKind)>::empty());
        while i < found.len()
            invariant
                i <= found@.len(),
                all == extract::found_views(found@),
                self@ == model::with_candidates(before, all.take(i as int)),
                self@.wf(),
                self.stored_fits(),
            decreases found@.len() - i,
        {
            let candidate = found[i].0.clone();
            let kind = found[i].1;
            proof {
                let t = all.take(i + 1);
                assert(t.last() == (candidate@, kind));
                assert(t.drop_last() =~= all.take(i as int));
            }
            self.add_candidate(candidate, kind);
            i += 1;
        }
        assert(all.take(i as int) =~= all);
    }
}

impl SessionCompletionIndex {
    /// The best `limit` candidates whose keys the query heads. The keys are in order, so
    /// that only these are looked at.
    pub fn session_literal_matches<'a, F: Fn(u64) -> bool>(
        &'a self,
        query: &str,
        query_lower: &str,
        limit: usize,
        is_cancelled: &F,
        asked: &mut u64,
    ) -> (r: Option<Vec<RankedMatch<'a>>>)
        requires
            asking::can_ask(is_cancelled),
            asking::has_room(*old(asked), 1),
        ensures
            match r {
                Some(matches) => top::is_top(
                    ranking::ranked_views(matches@),
                    model::literal_items(self@, query@, query_lower@),
                    limit as nat,
                    ranking::by_session_key(),
                ) && asking::went_through(
                    is_cancelled,
                    *old(asked) as int,
                    *final(asked) as int,
                    asking::questions_of(model::headed_keys(self@, query_lower@).len()),
                ),
                None => asking::was_stopped(
                    is_cancelled,
                    *old(asked) as int,
                    *final(asked) as int,
                    asking::questions_of(model::headed_keys(self@, query_lower@).len()),
                ),
            },
    {
        let ghost a0 = *asked;
        proof {
            use_type_invariant(self);
            self.entries.lemma_model_wf(self.next_seq, self.dictionary);
        }
        let ghost m = self@;
        let ghost f = model::literal_choice(m, query@, query_lower@);
        let ghost h = model::headed_choice(m, query_lower@);
        let ghost key = ranking::by_session_key();
        let mut matches: Vec<RankedMatch<'a>> = Vec::new();
        let mut scanned: usize = 0;
        let start = self.entries.lower_bound(query_lower);
        let len = self.entries.prefix_keys.len();
        proof {
            lemma_none_before(m, query@, query_lower@, start as int);
            top::lemma_top_of_nothing(select::select(start as int, f), limit as nat, key);
            assert(ranking::ranked_views(matches@) =~= Seq::<RankedModel>::empty());
        }
        let mut i: usize = start;
        while i < len && self.is_headed(i, query_lower)
            invariant
                m == self@,
                f == model::literal_choice(m, query@, query_lower@),
                h == model::headed_choice(m, query_lower@),
                key == ranking::by_session_key(),
                asking::can_ask(is_cancelled),
                start <= i <= len,
                len == m.keys.len(),
                scanned == i - start,
                scanned == select::select(i as int, h).len(),
                a0 == *old(asked),
                asking::has_room(a0, 1),
                *asked == a0 + asking::questions_of(scanned as nat),
                asking::goes_on(is_cancelled, a0 as int, *asked as int),
                top::is_top(
                    ranking::ranked_views(matches@),
                    select::select(i as int, f),
                    limit as nat,
                    key,
                ),
            decreases len - i,
        {
            proof {
                select::lemma_select_place(len as int, h, i as int);
            }
            if should_cancel_scan(&mut scanned, is_cancelled, asked) {
                return None;
            }
            let ghost before = ranking::ranked_views(matches@);
            let ranked = self.rank_headed(i, query, query_lower);
            assert(ranking::ranked_option_view(ranked) == f(i as int));
            if let Some(found) = ranked {
                proof {
                    top::lemma_push_keeps_top(
                        before,
                        select::select(i as int, f),
                        found@,
                        limit as nat,
                        key,
                    );
                }
                push_top_ranked_match(&mut matches, found, limit);
            }
            i += 1;
        }
        proof {
            lemma_none_after(m, query@, query_lower@, i as int);
        }
        Some(matches)
    }

    /// Whether the query heads key `i`.
    fn is_headed(&self, i: usize, query_lower: &str) -> (r: bool)
        requires
            i < self@.keys.len(),
        ensures
            r == query_lower@.is_prefix_of(self@.keys[i as int]),
    {
        assert(self@.keys[i as int] == self.entries.prefix_keys@[i as int]@);
        str_starts_with(self.entries.prefix_keys[i].as_str(), query_lower)
    }

    /// The candidate of key `i`, which the query heads, as a match.
    fn rank_headed<'a>(&'a self, i: usize, query: &str, query_lower: &str) -> (r: Option<
        RankedMatch<'a>,
    >)
        requires
            i < self@.keys.len(),
            query_lower@.is_prefix_of(self@.keys[i as int]),
        ensures
            ranking::ranked_option_view(r) == model::literal_item(
                self@,
                query@,
                query_lower@,
                self@.keys[i as int],
            ),
    {
        proof {
            use_type_invariant(self);
        }
        let no_match = |_text: &str, _query: &str| -> (r: Option<(Vec<usize>, i32)>) { None };
        let view = self.entries.candidate_at(i);
        proof {
            lemma_headed_is_literal(view.key@, query_lower@);
        }
        rank_candidate(view, query, query_lower, false, &no_match)
    }
}

/// A key that the query heads holds it.
proof fn lemma_headed_is_literal(k: Seq<char>, q: Seq<char>)
    requires
        q.is_prefix_of(k),
    ensures
        ranking::is_literal_match(k, q),
{
    assert(utf8::occurs_at(k, q, 0));
}

/// Among the keys that come before the query none is headed by it.
proof fn lemma_none_before(m: IndexModel, query: Seq<char>, query_lower: Seq<char>, start: int)
    requires
        0 <= start <= m.keys.len(),
        forall|j: int| 0 <= j < start ==> utf8::text_less(#[trigger] m.keys[j], query_lower),
    ensures
        select::select(start, model::literal_choice(m, query, query_lower)).len() == 0,
        select::select(start, model::headed_choice(m, query_lower)).len() == 0,
{
    let f = model::literal_choice(m, query, query_lower);
    let h = model::headed_choice(m, query_lower);
    assert forall|j: int| 0 <= j < start implies (#[trigger] h(j)) is None by {
        lemma_before_not_prefixed(m.keys[j], query_lower);
    }
    assert forall|j: int| 0 <= j < start implies (#[trigger] f(j)) is None by {
        assert(h(j) is None);
    }
    select::lemma_select_nothing(0, start, f);
    select::lemma_select_nothing(0, start, h);
}

/// From a key on that does not come before the query and is not headed by it, none is.
proof fn lemma_none_after(m: IndexModel, query: Seq<char>, query_lower: Seq<char>, i: int)
    requires
        m.wf(),
        0 <= i <= m.keys.len(),
        i < m.keys.len() ==> !utf8::text_less(m.keys[i], query_lower)
            && !query_lower.is_prefix_of(m.keys[i]),
    ensures
        model::literal_items(m, query, query_lower) == select::select(
            i,
            model::literal_choice(m, query, query_lower),
        ),
        model::headed_keys(m, query_lower) == select::select(
            i,
            model::headed_choice(m, query_lower),
        ),
{
    let f = model::literal_choice(m, query, query_lower);
    let h = model::headed_choice(m, query_lower);
    let len = m.keys.len() as int;
    assert forall|j: int| i <= j < len implies (#[trigger] h(j)) is None by {
        if query_lower.is_prefix_of(m.keys[j]) {
            if j > i {
                order::lex_asymmetric(utf8::text_key(m.keys[i]), utf8::text_key(m.keys[j]));
            }
            lemma_prefixed_between(query_lower, m.keys[i], m.keys[j]);
        }
    }
    assert forall|j: int| i <= j < len implies (#[trigger] f(j)) is None by {
        assert(h(j) is None);
    }
    select::lemma_select_nothing(i, len, f);
    select::lemma_select_nothing(i, len, h);
}

/// A key that comes before the query is not headed by it.
proof fn lemma_before_not_prefixed(k: Seq<char>, q: Seq<char>)
    requires
        utf8::text_less(k, q),
    ensures
        !q.is_prefix_of(k),
{
    utf8::lemma_text_key_prefix(q, k);
    if q.is_prefix_of(k) {
        utf8::lemma_prefixed_not_less(utf8::text_key(q), utf8::text_key(k));
    }
}

/// A key between the query and a key that the query heads is headed by it too.
proof fn lemma_prefixed_between(q: Seq<char>, a: Seq<char>, b: Seq<char>)
    requires
        !utf8::text_less(a, q),
        !utf8::text_less(b, a),
        q.is_prefix_of(b),
    ensures
        q.is_prefix_of(a),
{
    utf8::lemma_text_key_prefix(q, a);
    utf8::lemma_text_key_prefix(q, b);
    utf8::lemma_prefixed_stand_together(
        utf8::text_key(q),
        utf8::text_key(a),
        utf8::text_key(b),
    );
}

impl SessionCompletionIndex {
    /// The best `limit` candidates that the plain fuzzy matcher finds, of those whose keys
    /// do not hold the query; where only those are asked for, of those whose keys are not
    /// ASCII.
    pub fn session_legacy_fuzzy_matches<
        'a,
        F: Fn(u64) -> bool,
        M: Fn(&str, &str) -> Option<(Vec<usize>, i32)>,
    >(
        &'a self,
        query: &str,
        query_lower: &str,
        only_non_ascii: bool,
        limit: usize,
        is_cancelled: &F,
        asked: &mut u64,
        fuzzy_match: &M,
    ) -> (r: Option<Vec<RankedMatch<'a>>>)
        requires
            asking::can_ask(is_cancelled),
            asking::has_room(*old(asked), 1),
            forall|t: &str, q: &str| #[trigger] call_requires(*fuzzy_match, (t, q)),
        ensures
            match r {
                Some(matches) => model::are_plain_matches(
                    self@,
                    *fuzzy_match,
                    query@,
                    query_lower@,
                    only_non_ascii,
                    limit as nat,
                    ranking::ranked_views(matches@),
                ) && asking::went_through(
                    is_cancelled,
                    *old(asked) as int,
                    *final(asked) as int,
                    asking::questions_of(self@.keys.len()),
                ),
                None => asking::was_stopped(
                    is_cancelled,
                    *old(asked) as int,
                    *final(asked) as int,
                    asking::questions_of(self@.keys.len()),
                ),
            },
    {
        let ghost a0 = *asked;
        proof {
            use_type_invariant(self);
            self.entries.lemma_model_wf(self.next_seq, self.dictionary);
        }
        let ghost m = self@;
        let ghost key = ranking::by_session_key();
        // what the matcher found in the texts of the keys so far
        let ghost mut answers: Map<int, Option<(Seq<usize>, i32)>> = Map::empty();
        let mut matches: Vec<RankedMatch<'a>> = Vec::new();
        let mut scanned: usize = 0;
        let len = self.entries.prefix_keys.len();
        proof {
            let f = model::plain_choice(m, query_lower@, only_non_ascii, answer_fn(answers));
            top::lemma_top_of_nothing(select::select(0, f), limit as nat, key);
            assert(ranking::ranked_views(matches@) =~= Seq::<RankedModel>::empty());
        }
        let mut i: usize = 0;
        while i < len
            invariant
                self.entries.wf(),
                m == self@,
                m.wf(),
                key == ranking::by_session_key(),
                asking::can_ask(is_cancelled),
                forall|t: &str, q: &str| #[trigger] call_requires(*fuzzy_match, (t, q)),
                i <= len,
                scanned == i,
                a0 == *old(asked),
                asking::has_room(a0, 1),
                *asked == a0 + asking::questions_of(scanned as nat),
                asking::goes_on(is_cancelled, a0 as int, *asked as int),
                len == m.keys.len(),
                len == self.entries.prefix_keys@.len(),
                forall|j: int|
                    0 <= j < i && model::is_plain_key(m.keys[j], query_lower@, only_non_ascii)
                        ==> ranking::is_fuzzy_answer(
                        *fuzzy_match,
                        m.candidates[m.keys[j]].text,
                        query@,
                        #[trigger] answers[j],
                    ),
                top::is_top(
                    ranking::ranked_views(matches@),
                    select::select(
                        i as int,
                        model::plain_choice(m, query_lower@, only_non_ascii, answer_fn(answers)),
                    ),
                    limit as nat,
                    key,
                ),
            decreases len - i,
        {
            if should_cancel_scan(&mut scanned, is_cancelled, asked) {
                return None;
            }
            let view = self.entries.candidate_at(i);
            let ghost f = model::plain_choice(
                m,
                query_lower@,
                only_non_ascii,
                answer_fn(answers),
            );
            proof {
                assert(view@ == m.candidates[m.keys[i as int]]);
            }
            if has_literal_match(view.key, query_lower) || (only_non_ascii && view.key_is_ascii) {
                assert(f(i as int) is None);
                i += 1;
                continue;
            }
            let ghost before = ranking::ranked_views(matches@);
            let ranked = rank_candidate(view, query, query_lower, true, fuzzy_match);
            proof {
                let found = choose|found: Option<(Seq<usize>, i32)>| #[trigger]
                    ranking::is_fuzzy_answer(*fuzzy_match, view.text@, query@, found)
                        && ranking::ranked_option_view(ranked) == ranking::fuzzy_rank(view@, found);
                let answers1 = answers.insert(i as int, found);
                let f1 = model::plain_choice(
                    m,
                    query_lower@,
                    only_non_ascii,
                    answer_fn(answers1),
                );
                assert forall|j: int| 0 <= j < i implies f(j) == #[trigger] f1(j) by {
                    assert(answers[j] == answers1[j]);
                }
                select::lemma_select_same(i as int, f, f1);
                assert(f1(i as int) == ranking::fuzzy_rank(view@, found));
                assert forall|j: int|
                    0 <= j < i + 1 && model::is_plain_key(
                        m.keys[j],
                        query_lower@,
                        only_non_ascii,
                    ) implies ranking::is_fuzzy_answer(
                    *fuzzy_match,
                    m.candidates[m.keys[j]].text,
                    query@,
                    #[trigger] answers1[j],
                ) by {
                    if j < i {
                        assert(answers1[j] == answers[j]);
                    }
                }
                if ranked is Some {
                    top::lemma_push_keeps_top(
                        before,
                        select::select(i as int, f1),
                        ranked->0@,
                        limit as nat,
                        key,
                    );
                }
                answers = answers1;
            }
            if let Some(found) = ranked {
                push_top_ranked_match(&mut matches, found, limit);
            }
            i += 1;
        }
        proof {
            assert(model::are_plain_answers(
                m,
                *fuzzy_match,
                query@,
                query_lower@,
                only_non_ascii,
                answer_fn(answers),
            ));
        }
        Some(matches)
    }
}

/// The answers as a function.
spec fn answer_fn(answers: Map<int, Option<(Seq<usize>, i32)>>) -> spec_fn(int) -> Option<
    (Seq<usize>, i32),
> {
    |j: int| answers[j]
}

/// Puts all of `more` at their places among the best `limit` of `items`.
fn push_all_ranked<'a>(
    matches: &mut Vec<RankedMatch<'a>>,
    more: Vec<RankedMatch<'a>>,
    limit: usize,
    Ghost(items): Ghost<Seq<RankedModel>>,
)
    requires
        top::is_top(
            ranking::ranked_views(old(matches)@),
            items,
            limit as nat,
            ranking::by_session_key(),
        ),
    ensures
        top::is_top(
            ranking::ranked_views(final(matches)@),
            items + ranking::ranked_views(more@),
            limit as nat,
            ranking::by_session_key(),
        ),
{
    let ghost all = ranking::ranked_views(more@);
    let ghost key = ranking::by_session_key();
    let ghost mut done: int = 0;
    let mut rest = more;
    assert(items + all.take(0) =~= items);
    while rest.len() > 0
        invariant
            key == ranking::by_session_key(),
            0 <= done <= all.len(),
            ranking::ranked_views(rest@) == all.skip(done),
            top::is_top(
                ranking::ranked_views(matches@),
                items + all.take(done),
                limit as nat,
                key,
            ),
        decreases rest@.len(),
    {
        let ghost before = ranking::ranked_views(matches@);
        let ghost rest0 = rest@;
        let ranked = rest.remove(0);
        proof {
            assert(ranked@ == ranking::ranked_views(rest0)[0]);
            assert(all.skip(done).len() == rest0.len());
            assert(ranked@ == all[done]);
            top::lemma_push_keeps_top(
                before,
                items + all.take(done),
                ranked@,
                limit as nat,
                key,
            );
            assert((items + all.take(done)).push(ranked@) =~= items + all.take(done + 1));
            assert(ranking::ranked_views(rest@) =~= all.skip(done + 1)) by {
                assert forall|i: int| 0 <= i < rest@.len() implies ranking::ranked_views(
                    rest@,
                )[i] == all.skip(done + 1)[i] by {
                    assert(rest@[i] == rest0[i + 1]);
                    assert(ranking::ranked_views(rest0)[i + 1] == all.skip(done)[i + 1]);
                }
            }
            done = done + 1;
        }
        push_top_ranked_match(matches, ranked, limit);
    }
    assert(all.take(done) =~= all);
}

/// The candidates as plain values.
pub open spec fn views(s: Seq<CandidateView<'_>>) -> Seq<CandidateModel> {
    s.map_values(|c: CandidateView<'_>| c@)
}

/// The candidate of key `j` if it goes to the fuzzy matcher.
spec fn scored_key_choice(m: IndexModel, query_lower: Seq<char>) -> spec_fn(int) -> Option<
    CandidateModel,
> {
    |j: int|
        if model::is_scored_key(m.keys[j], query_lower) {
            Some(m.candidates[m.keys[j]])
        } else {
            None
        }
}

/// A candidate with its score.
spec fn scored_item(query_lower: Seq<char>) -> spec_fn(CandidateModel, u16) -> RankedModel {
    |c: CandidateModel, score: u16|
        model::scored_candidate(c, masks::allowed_typos(query_lower), score)
}

/// What the matcher reports of the candidates sent to it are the scored candidates of
/// the index, and what it says of the keys sent to it, it says of the keys of the index.
proof fn lemma_session_report(
    m: IndexModel,
    query_lower: Seq<char>,
    sent: Seq<CandidateModel>,
    report: Seq<(usize, u16)>,
)
    requires
        m.wf(),
        sent == select::select(m.keys.len() as int, scored_key_choice(m, query_lower)),
        matcher::places_ascend(report, sent.len() as int),
        matcher::is_portable(query_lower) ==> forall|k: int|
            0 <= k < sent.len() ==> #[trigger] matcher::score_at(report, k)
                == matcher::frizbee_score(
                query_lower,
                sent[k].key,
                masks::allowed_typos(query_lower),
            ),
    ensures
        model::reported_candidates(sent, report, masks::allowed_typos(query_lower))
            == model::scored_items(
            m,
            query_lower,
            matcher::source_scores(scored_key_choice(m, query_lower), report),
        ),
        model::are_key_scores(
            m,
            query_lower,
            matcher::source_scores(scored_key_choice(m, query_lower), report),
        ),
{
    let n = m.keys.len() as int;
    let pre = scored_key_choice(m, query_lower);
    let scores = matcher::source_scores(pre, report);
    matcher::lemma_report_of_sources(n, pre, sent, report, scored_item(query_lower));
    let g = matcher::scored_source(pre, scores, scored_item(query_lower));
    let f = model::scored_choice(m, query_lower, scores);
    assert forall|j: int| 0 <= j < n implies g(j) == #[trigger] f(j) by {}
    select::lemma_select_same(n, g, f);
    if matcher::is_portable(query_lower) {
        assert forall|j: int|
            0 <= j < n && model::is_scored_key(m.keys[j], query_lower) implies #[trigger] scores(j)
            == matcher::frizbee_score(
            query_lower,
            m.keys[j],
            masks::allowed_typos(query_lower),
        ) by {
            select::lemma_select_place(n, pre, j);
            let p = select::select(j, pre).len() as int;
            assert(sent[p] == m.candidates[m.keys[j]]);
            assert(m.keys.contains(m.keys[j]));
            assert(m.candidates.contains_key(m.keys[j]));
            assert(matcher::score_at(report, p) == matcher::frizbee_score(
                query_lower,
                sent[p].key,
                masks::allowed_typos(query_lower),
            ));
        }
    }
}

impl SessionCompletionIndex {
    /// The candidates that go to the fuzzy matcher, in the order of their keys.
    fn candidates_to_score<'a, F: Fn(u64) -> bool>(
        &'a self,
        query_lower: &str,
        is_cancelled: &F,
        asked: &mut u64,
    ) -> (r: Option<Vec<CandidateView<'a>>>)
        requires
            asking::can_ask(is_cancelled),
            asking::has_room(*old(asked), 1),
        ensures
            match r {
                Some(sent) => views(sent@) == select::select(
                    self@.keys.len() as int,
                    scored_key_choice(self@, query_lower@),
                ) && asking::went_through(
                    is_cancelled,
                    *old(asked) as int,
                    *final(asked) as int,
                    asking::questions_of(self@.keys.len()),
                ),
                None => asking::was_stopped(
                    is_cancelled,
                    *old(asked) as int,
                    *final(asked) as int,
                    asking::questions_of(self@.keys.len()),
                ),
            },
    {
        let ghost a0 = *asked;
        proof {
            use_type_invariant(self);
        }
        let ghost m = self@;
        let ghost pre = scored_key_choice(m, query_lower@);
        let max_typos = completion_max_typos(query_lower);
        let min_len: usize = byte_len(query_lower).saturating_sub(max_typos as usize);
        let query_mask = ascii_char_mask(query_lower);
        let allowed_missing_chars: u32 = max_typos as u32;
        let mut sent: Vec<CandidateView<'a>> = Vec::new();
        let mut scanned: usize = 0;
        let len = self.entries.prefix_keys.len();
        assert(views(sent@) =~= select::select(0, pre));
        let mut i: usize = 0;
        while i < len
            invariant
                self.entries.wf(),
                m == self@,
                pre == scored_key_choice(m, query_lower@),
                asking::can_ask(is_cancelled),
                max_typos == masks::allowed_typos(query_lower@),
                min_len == model::min_match_len(query_lower@),
                masks::is_char_mask(query_mask, query_lower@),
                allowed_missing_chars == max_typos,
                i <= len,
                scanned == i,
                a0 == *old(asked),
                asking::has_room(a0, 1),
                *asked == a0 + asking::questions_of(scanned as nat),
                asking::goes_on(is_cancelled, a0 as int, *asked as int),
                len == m.keys.len(),
                len == self.entries.prefix_keys@.len(),
                views(sent@) == select::select(i as int, pre),
            decreases len - i,
        {
            if should_cancel_scan(&mut scanned, is_cancelled, asked) {
                return None;
            }
            let view = self.entries.candidate_at(i);
            let missing = missing_ascii_chars(view.key_ascii_mask, query_mask);
            proof {
                assert(view@ == m.candidates[m.keys[i as int]]);
                assert(missing == masks::missing_chars(view.key@, query_lower@));
            }
            let skipped = !view.key_is_ascii || has_literal_match(view.key, query_lower)
                || view.key_byte_len < min_len || missing > allowed_missing_chars;
            assert(skipped == (pre(i as int) is None));
            if !skipped {
                let ghost before = sent@;
                sent.push(view);
                assert(views(sent@) =~= views(before).push(view@));
            }
            i += 1;
        }
        Some(sent)
    }

    /// The best `limit` fuzzy matches of the query.
    pub fn session_fuzzy_matches<
        'a,
        F: Fn(u64) -> bool,
        M: Fn(&str, &str) -> Option<(Vec<usize>, i32)>,
    >(
        &'a self,
        query: &str,
        query_lower: &str,
        limit: usize,
        is_cancelled: &F,
        asked: &mut u64,
        fuzzy_match: &M,
    ) -> (r: Option<Vec<RankedMatch<'a>>>)
        requires
            asking::can_ask(is_cancelled),
            forall|t: &str, q: &str| #[trigger] call_requires(*fuzzy_match, (t, q)),
            asking::has_room(*old(asked), 3),
            limit > 0 ==> model::can_score(self@, query_lower@),
        ensures
            match r {
                Some(matches) => if limit == 0 {
                    matches@.len() == 0 && *final(asked) == *old(asked)
                } else {
                    &&& model::are_fuzzy_matches(
                        self@,
                        *fuzzy_match,
                        query@,
                        query_lower@,
                        limit as nat,
                        ranking::ranked_views(matches@),
                    )
                    &&& exists|scored: nat| #[trigger]
                        model::is_scored_count(self@, query_lower@, scored)
                            && asking::went_through(
                            is_cancelled,
                            *old(asked) as int,
                            *final(asked) as int,
                            model::fuzzy_questions(self@, query_lower@, scored),
                        )
                },
                None => limit > 0 && exists|scored: nat| #[trigger]
                    model::is_scored_count(self@, query_lower@, scored) && asking::was_stopped(
                        is_cancelled,
                        *old(asked) as int,
                        *final(asked) as int,
                        model::fuzzy_questions(self@, query_lower@, scored),
                    ),
            },
    {
        let ghost a0 = *asked;
        if limit == 0 {
            return Some(Vec::new());
        }
        proof {
            use_type_invariant(self);
            self.entries.lemma_model_wf(self.next_seq, self.dictionary);
        }
        let ghost m = self@;
        let ghost ql = query_lower@;
        if !query_lower.is_ascii() {
            proof {
                let scored = model::lemma_some_scored_count(m, ql);
            }
            let plain = self.session_legacy_fuzzy_matches(
                query,
                query_lower,
                false,
                limit,
                is_cancelled,
                asked,
                fuzzy_match,
            )?;
            proof {
                let scores = |j: int| matcher::frizbee_score(
                    ql,
                    m.keys[j],
                    masks::allowed_typos(ql),
                );
                assert(model::are_key_scores(m, ql, scores));
                let found = choose|found: spec_fn(int) -> Option<(Seq<usize>, i32)>| #[trigger]
                    model::are_plain_answers(m, *fuzzy_match, query@, ql, false, found)
                        && top::is_top(
                        ranking::ranked_views(plain@),
                        model::plain_items(m, ql, false, found),
                        limit as nat,
                        ranking::by_session_key(),
                    );
                assert(model::are_plain_answers(
                    m,
                    *fuzzy_match,
                    query@,
                    ql,
                    is_ascii_chars(ql),
                    found,
                ));
            }
            return Some(plain);
        }
        let max_typos = completion_max_typos(query_lower);
        proof {
            let scored = model::lemma_some_scored_count(m, ql);
        }
        let sent = self.candidates_to_score(query_lower, is_cancelled, asked)?;
        let ghost key = ranking::by_session_key();
        let ghost sent_views = views(sent@);
        proof {
            select::lemma_select_len(m.keys.len() as int, scored_key_choice(m, ql));
        }
        let haystacks = candidate_keys(&sent);
        proof {
            assert forall|k: int| 0 <= k < haystacks@.len() implies matcher::haystack_fits(
                utf8::utf8_len(ql),
                utf8::utf8_len(#[trigger] haystacks@[k]@),
                max_typos,
            ) by {
                assert(sent_views[k] == sent@[k]@);
                assert(sent_views.contains(sent_views[k]));
                let j = select::lemma_select_source(
                    m.keys.len() as int,
                    scored_key_choice(m, ql),
                    sent_views[k],
                );
                assert(m.keys.contains(m.keys[j]));
                assert(m.candidates.contains_key(m.keys[j]));
            }
        }
        let report = frizbee_scores(query_lower, haystacks.as_slice(), max_typos);
        let ghost items = model::reported_candidates(sent_views, report@, max_typos);
        let ghost scores = matcher::source_scores(scored_key_choice(m, ql), report@);
        proof {
            assert forall|k: int| matcher::is_portable(ql) && 0 <= k < sent_views.len() implies
                #[trigger] matcher::score_at(report@, k) == matcher::frizbee_score(
                ql,
                sent_views[k].key,
                masks::allowed_typos(ql),
            ) by {
                assert(haystacks@[k]@ == sent_views[k].key);
            }
            lemma_session_report(m, ql, sent_views, report@);
            model::lemma_scored_count(m, ql, scores);
            matcher::lemma_report_len(report@, sent_views.len() as int);
        }
        let mut matches = rank_scored(&sent, &report, max_typos, limit, is_cancelled, asked)?;
        let plain = self.session_legacy_fuzzy_matches(
            query,
            query_lower,
            true,
            limit,
            is_cancelled,
            asked,
            fuzzy_match,
        )?;
        push_all_ranked(&mut matches, plain, limit, Ghost(items));
        proof {
            let found = choose|found: spec_fn(int) -> Option<(Seq<usize>, i32)>| #[trigger]
                model::are_plain_answers(m, *fuzzy_match, query@, ql, true, found)
                    && top::is_top(
                    ranking::ranked_views(plain@),
                    model::plain_items(m, ql, true, found),
                    limit as nat,
                    key,
                );
            top::lemma_top_of_top(
                ranking::ranked_views(matches@),
                items,
                ranking::ranked_views(plain@),
                model::plain_items(m, ql, true, found),
                limit as nat,
                key,
            );
            assert(model::are_key_scores(m, ql, scores));
            assert(model::are_plain_answers(
                m,
                *fuzzy_match,
                query@,
                ql,
                is_ascii_chars(ql),
                found,
            ));
        }
        Some(matches)
    }
}

/// The best `limit` of the candidates that the fuzzy matcher reports of those that were
/// sent to it.
pub fn rank_scored<'a, F: Fn(u64) -> bool>(
    sent: &Vec<CandidateView<'a>>,
    report: &Vec<(usize, u16)>,
    max_typos: u16,
    limit: usize,
    is_cancelled: &F,
    asked: &mut u64,
) -> (r: Option<Vec<RankedMatch<'a>>>)
    requires
        asking::can_ask(is_cancelled),
        asking::has_room(*old(asked), 1),
        forall|i: int| 0 <= i < report@.len() ==> (#[trigger] report@[i]).0 < sent@.len(),
    ensures
        match r {
            Some(matches) => top::is_top(
                ranking::ranked_views(matches@),
                model::reported_candidates(views(sent@), report@, max_typos),
                limit as nat,
                ranking::by_session_key(),
            ) && asking::went_through(
                is_cancelled,
                *old(asked) as int,
                *final(asked) as int,
                asking::questions_of(report@.len()),
            ),
            None => asking::was_stopped(
                is_cancelled,
                *old(asked) as int,
                *final(asked) as int,
                asking::questions_of(report@.len()),
            ),
        },
{
    let ghost a0 = *asked;
    let ghost key = ranking::by_session_key();
    let ghost items = model::reported_candidates(views(sent@), report@, max_typos);
    let mut matches: Vec<RankedMatch<'a>> = Vec::new();
    let mut scanned: usize = 0;
    proof {
        top::lemma_top_of_nothing(items.take(0), limit as nat, key);
        assert(ranking::ranked_views(matches@) =~= Seq::<RankedModel>::empty());
    }
    let mut i: usize = 0;
    while i < report.len()
        invariant
            asking::can_ask(is_cancelled),
            key == ranking::by_session_key(),
            i <= report@.len(),
            scanned == i,
            a0 == *old(asked),
            asking::has_room(a0, 1),
            *asked == a0 + asking::questions_of(scanned as nat),
            asking::goes_on(is_cancelled, a0 as int, *asked as int),
            forall|i: int| 0 <= i < report@.len() ==> (#[trigger] report@[i]).0 < sent@.len(),
            items == model::reported_candidates(views(sent@), report@, max_typos),
            top::is_top(
                ranking::ranked_views(matches@),
                items.take(i as int),
                limit as nat,
                key,
            ),
        decreases report@.len() - i,
    {
        if should_cancel_scan(&mut scanned, is_cancelled, asked) {
            return None;
        }
        let (place, score) = report[i];
        assert(report@[i as int].0 < sent@.len());
        let ghost before = ranking::ranked_views(matches@);
        let ranked = RankedMatch {
            candidate: sent[place],
            match_class: MatchClass::Fuzzy,
            fuzzy_score: -(score as i32),
            match_indices: RankedMatchIndices::FrizbeeFuzzy { max_typos },
        };
        proof {
            assert(views(sent@)[place as int] == sent@[place as int]@);
            assert(items[i as int] == ranked@);
            assert(items.take(i + 1) =~= items.take(i as int).push(ranked@));
            top::lemma_push_keeps_top(before, items.take(i as int), ranked@, limit as nat, key);
        }
        push_top_ranked_match(&mut matches, ranked, limit);
        i += 1;
    }
    assert(items.take(i as int) =~= items);
    Some(matches)
}

/// The best `limit` of the words that the fuzzy matcher reports of those that were sent to
/// it.
pub fn rank_scored_words<'a, F: Fn(u64) -> bool>(
    sent: &Vec<&'a str>,
    report: &Vec<(usize, u16)>,
    max_typos: u16,
    limit: usize,
    is_cancelled: &F,
    asked: &mut u64,
) -> (r: Option<Vec<DictionaryRankedMatch<'a>>>)
    requires
        asking::can_ask(is_cancelled),
        asking::has_room(*old(asked), 1),
        forall|i: int| 0 <= i < report@.len() ==> (#[trigger] report@[i]).0 < sent@.len(),
    ensures
        match r {
            Some(matches) => top::is_top(
                dictionary_ranking::dictionary_views(matches@),
                model::reported_words(texts(sent@), report@, max_typos),
                limit as nat,
                dictionary_ranking::by_dictionary_key(),
            ) && asking::went_through(
                is_cancelled,
                *old(asked) as int,
                *final(asked) as int,
                asking::questions_of(report@.len()),
            ),
            None => asking::was_stopped(
                is_cancelled,
                *old(asked) as int,
                *final(asked) as int,
                asking::questions_of(report@.len()),
            ),
        },
{
    let ghost a0 = *asked;
    let ghost key = dictionary_ranking::by_dictionary_key();
    let ghost items = model::reported_words(texts(sent@), report@, max_typos);
    let mut matches: Vec<DictionaryRankedMatch<'a>> = Vec::new();
    let mut scanned: usize = 0;
    proof {
        top::lemma_top_of_nothing(items.take(0), limit as nat, key);
        assert(dictionary_ranking::dictionary_views(matches@) =~= Seq::<
            DictionaryRankedModel,
        >::empty());
    }
    let mut i: usize = 0;
    while i < report.len()
        invariant
            asking::can_ask(is_cancelled),
            key == dictionary_ranking::by_dictionary_key(),
            i <= report@.len(),
            scanned == i,
            a0 == *old(asked),
            asking::has_room(a0, 1),
            *asked == a0 + asking::questions_of(scanned as nat),
            asking::goes_on(is_cancelled, a0 as int, *asked as int),
            forall|i: int| 0 <= i < report@.len() ==> (#[trigger] report@[i]).0 < sent@.len(),
            items == model::reported_words(texts(sent@), report@, max_typos),
            top::is_top(
                dictionary_ranking::dictionary_views(matches@),
                items.take(i as int),
                limit as nat,
                key,
            ),
        decreases report@.len() - i,
    {
        if should_cancel_scan(&mut scanned, is_cancelled, asked) {
            return None;
        }
        let (place, score) = report[i];
        assert(report@[i as int].0 < sent@.len());
        let ghost before = dictionary_ranking::dictionary_views(matches@);
        let ranked = DictionaryRankedMatch {
            text: sent[place],
            match_class: MatchClass::Fuzzy,
            fuzzy_score: -(score as i32),
            match_indices: DictionaryMatchIndices::Fuzzy { max_typos },
        };
        proof {
            assert(texts(sent@)[place as int] == sent@[place as int]@);
            assert(items[i as int] == ranked@);
            assert(items.take(i + 1) =~= items.take(i as int).push(ranked@));
            top::lemma_push_keeps_top(before, items.take(i as int), ranked@, limit as nat, key);
        }
        push_top_dictionary_match(&mut matches, ranked, limit);
        i += 1;
    }
    assert(items.take(i as int) =~= items);
    Some(matches)
}

/// The keys of the candidates.
fn candidate_keys<'a>(candidates: &Vec<CandidateView<'a>>) -> (r: Vec<&'a str>)
    ensures
        r@.len() == candidates@.len(),
        forall|i: int| 0 <= i < r@.len() ==> (#[trigger] r@[i])@ == candidates@[i].key@,
{
    let mut r: Vec<&'a str> = Vec::new();
    let mut i: usize = 0;
    while i < candidates.len()
        invariant
            i <= candidates@.len(),
            r@.len() == i,
            forall|j: int| 0 <= j < i ==> (#[trigger] r@[j])@ == candidates@[j].key@,
        decreases candidates@.len() - i,
    {
        r.push(candidates[i].key);
        i += 1;
    }
    r
}

/// The word numbers of a posting name words.
proof fn lemma_words_of_pair(m: IndexModel, query_lower: Seq<char>, index: Seq<u8>, k: usize)
    requires
        dictionary::is_pair_index(index, m.dictionary.records.len() as int),
        k < dictionary::DICTIONARY_PAIR_COUNT,
        dictionary::is_rarest_pair(query_lower, index, k as int),
    ensures
        dictionary::posting_fits(index, k as int),
        dictionary::posting_ids(index, k as int).len() <= u32::MAX,
        model::words_of_query(m.dictionary, query_lower, index).len() == dictionary::posting_ids(
            index,
            k as int,
        ).len(),
        forall|j: int|
            0 <= j < dictionary::posting_ids(index, k as int).len() ==> {
                &&& (#[trigger] dictionary::posting_ids(index, k as int)[j])
                    < m.dictionary.records.len()
                &&& model::words_of_query(m.dictionary, query_lower, index)[j]
                    == m.dictionary.records[dictionary::posting_ids(index, k as int)[j] as int]
            },
{
    model::lemma_rarest_pair(query_lower, index, k as int);
    assert(dictionary::is_posting(index, k as int, m.dictionary.records.len() as int));
}

/// A query none of whose pairs has words has no words.
proof fn lemma_no_words(d: DictionaryModel, query_lower: Seq<char>, index: Seq<u8>)
    requires
        forall|k: int| #[trigger]
            dictionary::is_pair_key(query_lower, k) ==> dictionary::posting_count(index, k) == 0,
    ensures
        model::words_of_query(d, query_lower, index).len() == 0,
{
    if exists|k: int| dictionary::is_rarest_pair(query_lower, index, k) {
        let k = choose|k: int| dictionary::is_rarest_pair(query_lower, index, k);
        assert(dictionary::is_pair_key(query_lower, k));
    }
}

/// The word `j` if it goes to the fuzzy matcher.
spec fn scored_word_text(m: IndexModel, query_lower: Seq<char>) -> spec_fn(int) -> Option<
    Seq<char>,
> {
    |j: int|
        if model::is_scored_word(m, model::words_to_score(m, query_lower)[j], query_lower) {
            Some(model::words_to_score(m, query_lower)[j].text)
        } else {
            None
        }
}

/// A word with its score.
spec fn scored_word_item(query_lower: Seq<char>) -> spec_fn(
    Seq<char>,
    u16,
) -> DictionaryRankedModel {
    |word: Seq<char>, score: u16|
        model::scored_word(word, masks::allowed_typos(query_lower), score)
}

/// The texts as plain values.
pub open spec fn texts(s: Seq<&str>) -> Seq<Seq<char>> {
    s.map_values(|t: &str| t@)
}

/// What the matcher reports of the words sent to it are the scored words, and what it
/// says of the words sent to it, it says of those of the dictionary.
proof fn lemma_word_report(
    m: IndexModel,
    query_lower: Seq<char>,
    sent: Seq<Seq<char>>,
    report: Seq<(usize, u16)>,
)
    requires
        sent == select::select(
            model::words_to_score(m, query_lower).len() as int,
            scored_word_text(m, query_lower),
        ),
        matcher::places_ascend(report, sent.len() as int),
        matcher::is_portable(query_lower) ==> forall|k: int|
            0 <= k < sent.len() ==> #[trigger] matcher::score_at(report, k)
                == matcher::frizbee_score(query_lower, sent[k], masks::allowed_typos(query_lower)),
    ensures
        model::reported_words(sent, report, masks::allowed_typos(query_lower))
            == model::scored_word_items(
            m,
            query_lower,
            matcher::source_scores(scored_word_text(m, query_lower), report),
        ),
        model::are_word_scores(
            m,
            query_lower,
            matcher::source_scores(scored_word_text(m, query_lower), report),
        ),
{
    let words = model::words_to_score(m, query_lower);
    let n = words.len() as int;
    let pre = scored_word_text(m, query_lower);
    let scores = matcher::source_scores(pre, report);
    matcher::lemma_report_of_sources(n, pre, sent, report, scored_word_item(query_lower));
    let g = matcher::scored_source(pre, scores, scored_word_item(query_lower));
    let f = model::scored_word_choice(m, query_lower, scores);
    assert forall|j: int| 0 <= j < n implies g(j) == #[trigger] f(j) by {}
    select::lemma_select_same(n, g, f);
    if matcher::is_portable(query_lower) {
        assert forall|j: int|
            0 <= j < n && model::is_scored_word(
                m,
                words[j],
                query_lower,
            ) implies #[trigger] scores(j) == matcher::frizbee_score(
            query_lower,
            words[j].text,
            masks::allowed_typos(query_lower),
        ) by {
            select::lemma_select_place(n, pre, j);
            let p = select::select(j, pre).len() as int;
            assert(sent[p] == words[j].text);
            assert(matcher::score_at(report, p) == matcher::frizbee_score(
                query_lower,
                sent[p],
                masks::allowed_typos(query_lower),
            ));
        }
    }
}

/// Where no word goes to the fuzzy matcher there are no fuzzy matches.
proof fn lemma_no_word_sent(
    m: IndexModel,
    query_lower: Seq<char>,
    scores: spec_fn(int) -> Option<u16>,
    limit: nat,
)
    requires
        select::select(
            model::words_to_score(m, query_lower).len() as int,
            scored_word_text(m, query_lower),
        ).len() == 0,
    ensures
        top::is_top(
            Seq::<DictionaryRankedModel>::empty(),
            model::scored_word_items(m, query_lower, scores),
            limit,
            dictionary_ranking::by_dictionary_key(),
        ),
        model::scored_word_items(m, query_lower, scores).len() == 0,
{
    let n = model::words_to_score(m, query_lower).len() as int;
    let pre = scored_word_text(m, query_lower);
    let f = model::scored_word_choice(m, query_lower, scores);
    assert forall|j: int| 0 <= j < n implies #[trigger] f(j) is None by {
        if pre(j) is Some {
            select::lemma_select_place(n, pre, j);
        }
    }
    select::lemma_select_nothing(0, n, f);
    top::lemma_top_of_nothing(
        model::scored_word_items(m, query_lower, scores),
        limit,
        dictionary_ranking::by_dictionary_key(),
    );
}

/// Whatever the matcher would say of the words are scores of them.
proof fn lemma_any_word_scores(m: IndexModel, query_lower: Seq<char>) -> (scores: spec_fn(
    int,
) -> Option<u16>)
    ensures
        model::are_word_scores(m, query_lower, scores),
{
    |j: int|
        matcher::frizbee_score(
            query_lower,
            model::words_to_score(m, query_lower)[j].text,
            masks::allowed_typos(query_lower),
        )
}

impl SessionCompletionIndex {
    /// The best `limit` words that hold the query and that the session does not have.
    pub fn dictionary_literal_matches<'a, F: Fn(u64) -> bool>(
        &'a self,
        query: &str,
        query_lower: &str,
        limit: usize,
        is_cancelled: &F,
        asked: &mut u64,
    ) -> (r: Option<Vec<DictionaryRankedMatch<'a>>>)
        requires
            asking::can_ask(is_cancelled),
            asking::has_room(*old(asked), 1),
        ensures
            match r {
                Some(matches) => model::are_literal_words(
                    self@,
                    query@,
                    query_lower@,
                    limit as nat,
                    dictionary_ranking::dictionary_views(matches@),
                ) && asking::went_through(
                    is_cancelled,
                    *old(asked) as int,
                    *final(asked) as int,
                    asking::questions_of(model::words_to_rank(self@, query_lower@).len()),
                ),
                None => asking::was_stopped(
                    is_cancelled,
                    *old(asked) as int,
                    *final(asked) as int,
                    asking::questions_of(model::words_to_rank(self@, query_lower@).len()),
                ),
            },
    {
        let ghost a0 = *asked;
        let ghost m = self@;
        let ghost f = model::word_choice(m, query@, query_lower@);
        let ghost key = dictionary_ranking::by_dictionary_key();
        let index = self.dictionary.bigram_index();
        let mut matches: Vec<DictionaryRankedMatch<'a>> = Vec::new();
        proof {
            top::lemma_top_of_nothing(select::select(0, f), limit as nat, key);
            assert(dictionary_ranking::dictionary_views(matches@) =~= Seq::<
                DictionaryRankedModel,
            >::empty());
        }
        let pair = match rarest_query_pair(query_lower, index) {
            Some(pair) => pair,
            None => {
                proof {
                    lemma_no_words(m.dictionary, query_lower@, index@);
                }
                return Some(matches);
            },
        };
        proof {
            lemma_words_of_pair(m, query_lower@, index@, pair);
        }
        let ids = dictionary_pair_word_ids(index, pair);
        let ghost words = model::words_to_rank(m, query_lower@);
        let mut scanned: usize = 0;
        let mut i: usize = 0;
        while i < ids.len()
            invariant
                m == self@,
                m.dictionary.wf(),
                f == model::word_choice(m, query@, query_lower@),
                key == dictionary_ranking::by_dictionary_key(),
                words == model::words_to_rank(m, query_lower@),
                asking::can_ask(is_cancelled),
                ids@.len() == words.len(),
                forall|j: int|
                    0 <= j < ids@.len() ==> (#[trigger] ids@[j]) < m.dictionary.records.len()
                        && words[j] == m.dictionary.records[ids@[j] as int],
                i <= ids@.len(),
                scanned == i,
                a0 == *old(asked),
                asking::has_room(a0, 1),
                *asked == a0 + asking::questions_of(scanned as nat),
                asking::goes_on(is_cancelled, a0 as int, *asked as int),
                top::is_top(
                    dictionary_ranking::dictionary_views(matches@),
                    select::select(i as int, f),
                    limit as nat,
                    key,
                ),
            decreases ids@.len() - i,
        {
            if should_cancel_scan(&mut scanned, is_cancelled, asked) {
                return None;
            }
            let word_id = ids[i];
            assert(ids@[i as int] < m.dictionary.records.len());
            let record = dictionary_record_at(&self.dictionary, word_id);
            assert(record.text@ == words[i as int].text);
            if self.entries.candidates.contains_key(record.text) {
                assert(f(i as int) is None);
                i += 1;
                continue;
            }
            let ghost before = dictionary_ranking::dictionary_views(matches@);
            let ranked = rank_word(record.text, query, query_lower);
            assert(dictionary_ranking::word_option_view(ranked) == f(i as int));
            if let Some(found) = ranked {
                proof {
                    top::lemma_push_keeps_top(
                        before,
                        select::select(i as int, f),
                        found@,
                        limit as nat,
                        key,
                    );
                }
                push_top_dictionary_match(&mut matches, found, limit);
            }
            i += 1;
        }
        Some(matches)
    }

    /// The words that go to the fuzzy matcher, of those that the pair index names.
    fn words_to_score<'a, F: Fn(u64) -> bool>(
        &'a self,
        query_lower: &str,
        ids: &Vec<usize>,
        is_cancelled: &F,
        asked: &mut u64,
    ) -> (r: Option<Vec<&'a str>>)
        requires
            asking::can_ask(is_cancelled),
            asking::has_room(*old(asked), 1),
            ids@.len() == model::words_to_score(self@, query_lower@).len(),
            forall|j: int|
                0 <= j < ids@.len() ==> (#[trigger] ids@[j]) < self@.dictionary.records.len()
                    && model::words_to_score(self@, query_lower@)[j]
                    == self@.dictionary.records[ids@[j] as int],
        ensures
            match r {
                Some(sent) => {
                    &&& texts(sent@) == select::select(
                        ids@.len() as int,
                        scored_word_text(self@, query_lower@),
                    )
                    &&& forall|k: int|
                        0 <= k < sent@.len() ==> model::min_match_len(query_lower@)
                            <= utf8::utf8_len((#[trigger] sent@[k])@) < 256
                    &&& asking::went_through(
                        is_cancelled,
                        *old(asked) as int,
                        *final(asked) as int,
                        asking::questions_of(ids@.len()),
                    )
                },
                None => asking::was_stopped(
                    is_cancelled,
                    *old(asked) as int,
                    *final(asked) as int,
                    asking::questions_of(ids@.len()),
                ),
            },
    {
        let ghost a0 = *asked;
        let ghost m = self@;
        let ghost words = model::words_to_score(m, query_lower@);
        let ghost pre = scored_word_text(m, query_lower@);
        let max_typos = dictionary_max_typos(query_lower);
        let min_len: usize = byte_len(query_lower).saturating_sub(max_typos as usize);
        let query_mask = ascii_letter_mask(query_lower);
        let allowed_missing_letters: u32 = max_typos as u32;
        let mut sent: Vec<&'a str> = Vec::new();
        let mut scanned: usize = 0;
        assert(texts(sent@) =~= select::select(0, pre));
        let mut i: usize = 0;
        while i < ids.len()
            invariant
                m == self@,
                words == model::words_to_score(m, query_lower@),
                pre == scored_word_text(m, query_lower@),
                asking::can_ask(is_cancelled),
                max_typos == masks::allowed_typos(query_lower@),
                min_len == model::min_match_len(query_lower@),
                masks::is_letter_mask(query_mask, query_lower@),
                allowed_missing_letters == max_typos,
                ids@.len() == words.len(),
                forall|j: int|
                    0 <= j < ids@.len() ==> (#[trigger] ids@[j]) < m.dictionary.records.len()
                        && words[j] == m.dictionary.records[ids@[j] as int],
                i <= ids@.len(),
                scanned == i,
                a0 == *old(asked),
                asking::has_room(a0, 1),
                *asked == a0 + asking::questions_of(scanned as nat),
                asking::goes_on(is_cancelled, a0 as int, *asked as int),
                texts(sent@) == select::select(i as int, pre),
                forall|k: int|
                    0 <= k < sent@.len() ==> min_len <= utf8::utf8_len((#[trigger] sent@[k])@) < 256,
            decreases ids@.len() - i,
        {
            if should_cancel_scan(&mut scanned, is_cancelled, asked) {
                return None;
            }
            let word_id = ids[i];
            assert(ids@[i as int] < m.dictionary.records.len());
            let record = dictionary_record_at(&self.dictionary, word_id);
            let missing = missing_ascii_letters(record.letter_mask, query_mask);
            proof {
                assert(record.text@ == words[i as int].text);
                assert(missing == masks::missing_letters(record.letter_mask, query_lower@));
            }
            let skipped = self.entries.candidates.contains_key(record.text)
                || dictionary_has_literal_match(record.text, query_lower) || record.byte_len
                < min_len || missing > allowed_missing_letters;
            assert(skipped == (pre(i as int) is None));
            if !skipped {
                let ghost before = sent@;
                sent.push(record.text);
                assert(texts(sent@) =~= texts(before).push(record.text@));
            }
            i += 1;
        }
        Some(sent)
    }

    /// The best `limit` words that match the query fuzzily.
    pub fn dictionary_fuzzy_matches<'a, F: Fn(u64) -> bool>(
        &'a self,
        query_lower: &str,
        limit: usize,
        is_cancelled: &F,
        asked: &mut u64,
    ) -> (r: Option<Vec<DictionaryRankedMatch<'a>>>)
        requires
            asking::can_ask(is_cancelled),
            asking::has_room(*old(asked), 2),
        ensures
            match r {
                Some(matches) => {
                    &&& model::are_fuzzy_words(
                        self@,
                        query_lower@,
                        limit as nat,
                        dictionary_ranking::dictionary_views(matches@),
                    )
                    &&& limit == 0 ==> *final(asked) == *old(asked)
                    &&& limit > 0 ==> exists|scored: nat| #[trigger]
                        model::is_scored_word_count(self@, query_lower@, scored)
                            && asking::went_through(
                            is_cancelled,
                            *old(asked) as int,
                            *final(asked) as int,
                            model::word_questions(self@, query_lower@, scored),
                        )
                },
                None => limit > 0 && exists|scored: nat| #[trigger]
                    model::is_scored_word_count(self@, query_lower@, scored)
                        && asking::was_stopped(
                        is_cancelled,
                        *old(asked) as int,
                        *final(asked) as int,
                        model::word_questions(self@, query_lower@, scored),
                    ),
            },
    {
        let ghost a0 = *asked;
        let ghost m = self@;
        let ghost ql = query_lower@;
        let ghost key = dictionary_ranking::by_dictionary_key();
        let mut matches: Vec<DictionaryRankedMatch<'a>> = Vec::new();
        let ghost any = lemma_any_word_scores(m, ql);
        proof {
            model::lemma_scored_word_count(m, ql, any);
            assert(dictionary_ranking::dictionary_views(matches@) =~= Seq::<
                DictionaryRankedModel,
            >::empty());
            assert(model::are_word_scores(m, ql, any));
            if limit == 0 || model::words_to_score(m, ql).len() == 0 {
                top::lemma_top_of_nothing(
                    model::scored_word_items(m, ql, any),
                    limit as nat,
                    key,
                );
            }
        }
        if limit == 0 || byte_len(query_lower) < 4 {
            return Some(matches);
        }
        let index = self.dictionary.pair_index();
        let pair = match rarest_query_pair(query_lower, index) {
            Some(pair) => pair,
            None => {
                proof {
                    lemma_no_words(m.dictionary, ql, index@);
                }
                return Some(matches);
            },
        };
        proof {
            lemma_words_of_pair(m, ql, index@, pair);
        }
        let ids = dictionary_pair_word_ids(index, pair);
        let max_typos = dictionary_max_typos(query_lower);
        let sent = self.words_to_score(query_lower, &ids, is_cancelled, asked)?;
        let ghost sent_texts = texts(sent@);
        let ghost pre = scored_word_text(m, ql);
        proof {
            select::lemma_select_len(ids@.len() as int, pre);
            assert forall|k: int| 0 <= k < sent@.len() implies sent_texts[k]
                == #[trigger] sent@[k]@ by {}
        }
        if sent.len() == 0 {
            proof {
                lemma_no_word_sent(m, ql, any, limit as nat);
            }
            return Some(matches);
        }
        assert(utf8::utf8_len(sent@[0]@) < 256);
        let report = frizbee_scores(query_lower, sent.as_slice(), max_typos);
        let ghost scores = matcher::source_scores(pre, report@);
        proof {
            assert forall|k: int| matcher::is_portable(ql) && 0 <= k < sent_texts.len() implies
                #[trigger] matcher::score_at(report@, k) == matcher::frizbee_score(
                ql,
                sent_texts[k],
                masks::allowed_typos(ql),
            ) by {
                assert(sent@[k]@ == sent_texts[k]);
            }
            lemma_word_report(m, ql, sent_texts, report@);
            model::lemma_scored_word_count(m, ql, scores);
            matcher::lemma_report_len(report@, sent_texts.len() as int);
        }
        let matches = rank_scored_words(&sent, &report, max_typos, limit, is_cancelled, asked)?;
        assert(model::are_word_scores(m, ql, scores));
        Some(matches)
    }
}

/// Puts all of `more` at their places among the best `limit` of `items`.
fn push_all_words<'a>(
    matches: &mut Vec<DictionaryRankedMatch<'a>>,
    more: Vec<DictionaryRankedMatch<'a>>,
    limit: usize,
    Ghost(items): Ghost<Seq<DictionaryRankedModel>>,
)
    requires
        top::is_top(
            dictionary_ranking::dictionary_views(old(matches)@),
            items,
            limit as nat,
            dictionary_ranking::by_dictionary_key(),
        ),
    ensures
        top::is_top(
            dictionary_ranking::dictionary_views(final(matches)@),
            items + dictionary_ranking::dictionary_views(more@),
            limit as nat,
            dictionary_ranking::by_dictionary_key(),
        ),
{
    let ghost all = dictionary_ranking::dictionary_views(more@);
    let ghost key = dictionary_ranking::by_dictionary_key();
    let ghost mut done: int = 0;
    let mut rest = more;
    assert(items + all.take(0) =~= items);
    while rest.len() > 0
        invariant
            key == dictionary_ranking::by_dictionary_key(),
            0 <= done <= all.len(),
            dictionary_ranking::dictionary_views(rest@) == all.skip(done),
            top::is_top(
                dictionary_ranking::dictionary_views(matches@),
                items + all.take(done),
                limit as nat,
                key,
            ),
        decreases rest@.len(),
    {
        let ghost before = dictionary_ranking::dictionary_views(matches@);
        let ghost rest0 = rest@;
        let ranked = rest.remove(0);
        proof {
            assert(ranked@ == dictionary_ranking::dictionary_views(rest0)[0]);
            assert(all.skip(done).len() == rest0.len());
            assert(ranked@ == all[done]);
            top::lemma_push_keeps_top(
                before,
                items + all.take(done),
                ranked@,
                limit as nat,
                key,
            );
            assert((items + all.take(done)).push(ranked@) =~= items + all.take(done + 1));
            assert(dictionary_ranking::dictionary_views(rest@) =~= all.skip(done + 1)) by {
                assert forall|i: int|
                    0 <= i < rest@.len() implies dictionary_ranking::dictionary_views(rest@)[i]
                    == all.skip(done + 1)[i] by {
                    assert(rest@[i] == rest0[i + 1]);
                    assert(dictionary_ranking::dictionary_views(rest0)[i + 1] == all.skip(
                        done,
                    )[i + 1]);
                }
            }
            done = done + 1;
        }
        push_top_dictionary_match(matches, ranked, limit);
    }
    assert(all.take(done) =~= all);
}

/// The matches of words that can be turned into completions.
spec fn words_can_align(words: Seq<DictionaryRankedModel>, query_lower: Seq<char>) -> bool {
    forall|i: int|
        0 <= i < words.len() ==> ranking::can_align(
            (#[trigger] words[i]).places,
            words[i].text,
            query_lower,
        )
}

/// The matches of candidates that can be turned into completions.
spec fn candidates_can_align(matches: Seq<RankedModel>, query_lower: Seq<char>) -> bool {
    forall|i: int|
        0 <= i < matches.len() ==> ranking::can_align(
            (#[trigger] matches[i]).places,
            matches[i].candidate.key,
            query_lower,
        )
}

/// The completions of the words, in their order.
fn complete_words(words: Vec<DictionaryRankedMatch<'_>>, query_lower: &str) -> (r: Vec<
    CompletionMatch,
>)
    requires
        words_can_align(dictionary_ranking::dictionary_views(words@), query_lower@),
    ensures
        model::are_word_completions(
            dictionary_ranking::dictionary_views(words@),
            query_lower@,
            r@,
        ),
{
    let ghost all = dictionary_ranking::dictionary_views(words@);
    let mut rest = words;
    let mut r: Vec<CompletionMatch> = Vec::new();
    while rest.len() > 0
        invariant
            words_can_align(all, query_lower@),
            r@.len() <= all.len(),
            dictionary_ranking::dictionary_views(rest@) == all.skip(r@.len() as int),
            forall|i: int|
                0 <= i < r@.len() ==> dictionary_ranking::is_dictionary_completion(
                    all[i],
                    query_lower@,
                    #[trigger] r@[i],
                ),
        decreases rest@.len(),
    {
        let ghost done = r@.len() as int;
        let ghost rest0 = rest@;
        let ranked = rest.remove(0);
        proof {
            assert(ranked@ == dictionary_ranking::dictionary_views(rest0)[0]);
            assert(all.skip(done).len() == rest0.len());
            assert(ranked@ == all[done]);
            assert(dictionary_ranking::dictionary_views(rest@) =~= all.skip(done + 1)) by {
                assert forall|i: int|
                    0 <= i < rest@.len() implies dictionary_ranking::dictionary_views(rest@)[i]
                    == all.skip(done + 1)[i] by {
                    assert(rest@[i] == rest0[i + 1]);
                    assert(dictionary_ranking::dictionary_views(rest0)[i + 1] == all.skip(
                        done,
                    )[i + 1]);
                }
            }
        }
        r.push(dictionary_match_to_completion_match(ranked, query_lower));
    }
    r
}

/// The completions of the session matches, in their order.
fn complete_candidates(matches: Vec<RankedMatch<'_>>, query_lower: &str) -> (r: Vec<
    CompletionMatch,
>)
    requires
        candidates_can_align(ranking::ranked_views(matches@), query_lower@),
    ensures
        model::are_session_completions(ranking::ranked_views(matches@), query_lower@, r@),
{
    let ghost all = ranking::ranked_views(matches@);
    let mut rest = matches;
    let mut r: Vec<CompletionMatch> = Vec::new();
    while rest.len() > 0
        invariant
            candidates_can_align(all, query_lower@),
            r@.len() <= all.len(),
            ranking::ranked_views(rest@) == all.skip(r@.len() as int),
            forall|i: int|
                0 <= i < r@.len() ==> ranking::is_session_completion(
                    all[i],
                    query_lower@,
                    #[trigger] r@[i],
                ),
        decreases rest@.len(),
    {
        let ghost done = r@.len() as int;
        let ghost rest0 = rest@;
        let ranked = rest.remove(0);
        proof {
            assert(ranked@ == ranking::ranked_views(rest0)[0]);
            assert(all.skip(done).len() == rest0.len());
            assert(ranked@ == all[done]);
            assert(ranking::ranked_views(rest@) =~= all.skip(done + 1)) by {
                assert forall|i: int| 0 <= i < rest@.len() implies ranking::ranked_views(
                    rest@,
                )[i] == all.skip(done + 1)[i] by {
                    assert(rest@[i] == rest0[i + 1]);
                    assert(ranking::ranked_views(rest0)[i + 1] == all.skip(done)[i + 1]);
                }
            }
        }
        r.push(ranked_to_completion_match(ranked, query_lower));
    }
    r
}

/// Every word that is found can be turned into a completion.
proof fn lemma_words_can_align(
    m: IndexModel,
    query: Seq<char>,
    query_lower: Seq<char>,
    scores: spec_fn(int) -> Option<u16>,
    limit: nat,
    r: Seq<DictionaryRankedModel>,
)
    requires
        m.dictionary.wf(),
        top::is_top(
            r,
            model::word_items(m, query, query_lower) + model::scored_word_items(
                m,
                query_lower,
                scores,
            ),
            limit,
            dictionary_ranking::by_dictionary_key(),
        ),
    ensures
        words_can_align(r, query_lower),
{
    let literal = model::word_items(m, query, query_lower);
    let scored = model::scored_word_items(m, query_lower, scores);
    let words = model::words_to_score(m, query_lower);
    assert forall|i: int| 0 <= i < r.len() implies ranking::can_align(
        (#[trigger] r[i]).places,
        r[i].text,
        query_lower,
    ) by {
        top::lemma_top_member(
            r,
            literal + scored,
            limit,
            dictionary_ranking::by_dictionary_key(),
            i,
        );
        let k = choose|k: int| 0 <= k < (literal + scored).len() && (literal + scored)[k] == r[i];
        if k < literal.len() {
            assert(literal.contains(r[i]));
            let j = select::lemma_select_source(
                model::words_to_rank(m, query_lower).len() as int,
                model::word_choice(m, query, query_lower),
                r[i],
            );
        } else {
            assert(scored[k - literal.len()] == r[i]);
            assert(scored.contains(r[i]));
            let j = select::lemma_select_source(
                words.len() as int,
                model::scored_word_choice(m, query_lower, scores),
                r[i],
            );
            model::lemma_word_of_query(m.dictionary, query_lower, m.dictionary.pair_index, j);
        }
    }
}

/// Words that hold the query come before those that match fuzzily.
proof fn lemma_literal_words_first(
    m: IndexModel,
    query: Seq<char>,
    query_lower: Seq<char>,
    scores: spec_fn(int) -> Option<u16>,
    x: DictionaryRankedModel,
    y: DictionaryRankedModel,
)
    requires
        model::word_items(m, query, query_lower).contains(x),
        model::scored_word_items(m, query_lower, scores).contains(y),
    ensures
        order::lex_less(
            dictionary_ranking::by_dictionary_key()(x),
            dictionary_ranking::by_dictionary_key()(y),
        ),
{
    let i = select::lemma_select_source(
        model::words_to_rank(m, query_lower).len() as int,
        model::word_choice(m, query, query_lower),
        x,
    );
    let j = select::lemma_select_source(
        model::words_to_score(m, query_lower).len() as int,
        model::scored_word_choice(m, query_lower, scores),
        y,
    );
    assert(dictionary_ranking::dictionary_key(x)[0] < dictionary_ranking::dictionary_key(y)[0]);
}

impl SessionCompletionIndex {
    /// The completions of the best `limit` words: those that hold the query and, as far as
    /// there is room, those that match it fuzzily behind them.
    pub fn search_dictionary<F: Fn(u64) -> bool>(
        &self,
        query: &str,
        query_lower: &str,
        limit: usize,
        is_cancelled: &F,
        asked: &mut u64,
    ) -> (r: Option<Vec<CompletionMatch>>)
        requires
            asking::can_ask(is_cancelled),
            asking::has_room(*old(asked), 3),
        ensures
            match r {
                Some(results) => model::are_dictionary_results(
                    self@,
                    query@,
                    query_lower@,
                    limit as nat,
                    results@,
                ),
                None => exists|scored: nat| #[trigger]
                    model::is_scored_word_count(self@, query_lower@, scored)
                        && asking::was_stopped(
                        is_cancelled,
                        *old(asked) as int,
                        *final(asked) as int,
                        model::dictionary_questions(
                            self@,
                            query@,
                            query_lower@,
                            limit as nat,
                            scored,
                        ),
                    ),
            },
            r is Some ==> exists|scored: nat| #[trigger]
                model::is_scored_word_count(self@, query_lower@, scored) && asking::went_through(
                    is_cancelled,
                    *old(asked) as int,
                    *final(asked) as int,
                    model::dictionary_questions(
                        self@,
                        query@,
                        query_lower@,
                        limit as nat,
                        scored,
                    ),
                ),
    {
        proof {
            use_type_invariant(self);
        }
        let ghost m = self@;
        let ghost ql = query_lower@;
        let ghost key = dictionary_ranking::by_dictionary_key();
        let ghost any_scored = model::lemma_some_scored_word_count(m, ql);
        if !query_lower.is_ascii() {
            let results: Vec<CompletionMatch> = Vec::new();
            proof {
                let none = Seq::<DictionaryRankedModel>::empty();
                assert(model::are_words(m, query@, ql, limit as nat, none));
            }
            return Some(results);
        }
        let mut matches = self.dictionary_literal_matches(
            query,
            query_lower,
            limit,
            is_cancelled,
            asked,
        )?;
        let ghost literal = dictionary_ranking::dictionary_views(matches@);
        let ghost literal_items = model::word_items(m, query@, ql);
        let ghost mut scores = lemma_any_word_scores(m, ql);
        proof {
            assert forall|x: DictionaryRankedModel, y: DictionaryRankedModel|
                literal_items.contains(x) && model::scored_word_items(m, ql, scores).contains(
                    y,
                ) implies order::lex_less(key(x), key(y)) by {
                lemma_literal_words_first(m, query@, ql, scores, x, y);
            }
        }
        if matches.len() < limit {
            let fuzzy = self.dictionary_fuzzy_matches(
                query_lower,
                limit - matches.len(),
                is_cancelled,
                asked,
            )?;
            let ghost fuzzy_views = dictionary_ranking::dictionary_views(fuzzy@);
            proof {
                let rest = (limit - literal.len()) as nat;
                scores = choose|scores: spec_fn(int) -> Option<u16>| #[trigger]
                    model::are_word_scores(m, ql, scores) && top::is_top(
                        fuzzy_views,
                        model::scored_word_items(m, ql, scores),
                        rest,
                        key,
                    );
                assert forall|x: DictionaryRankedModel, y: DictionaryRankedModel|
                    literal_items.contains(x) && model::scored_word_items(
                        m,
                        ql,
                        scores,
                    ).contains(y) implies order::lex_less(key(x), key(y)) by {
                    lemma_literal_words_first(m, query@, ql, scores, x, y);
                }
                top::lemma_top_of_layers(
                    literal,
                    literal_items,
                    fuzzy_views,
                    model::scored_word_items(m, ql, scores),
                    limit as nat,
                    key,
                );
                top::lemma_top_of_itself(literal, limit as nat, key);
            }
            push_all_words(&mut matches, fuzzy, limit, Ghost(literal));
            proof {
                let none = Seq::<DictionaryRankedModel>::empty();
                let both = literal_items + model::scored_word_items(m, ql, scores);
                assert(none + (literal + fuzzy_views) =~= literal + fuzzy_views);
                assert(none + both =~= both);
                top::lemma_top_of_top(
                    dictionary_ranking::dictionary_views(matches@),
                    none,
                    literal + fuzzy_views,
                    both,
                    limit as nat,
                    key,
                );
            }
        } else {
            proof {
                let none = Seq::<DictionaryRankedModel>::empty();
                let scored = model::scored_word_items(m, ql, scores);
                top::lemma_top_of_nothing(scored, 0, key);
                top::lemma_top_of_layers(
                    literal,
                    literal_items,
                    none,
                    scored,
                    limit as nat,
                    key,
                );
                assert(literal + none =~= literal);
            }
        }
        proof {
            let words = dictionary_ranking::dictionary_views(matches@);
            assert(model::are_word_scores(m, ql, scores));
            assert(model::are_words(m, query@, ql, limit as nat, words));
            lemma_words_can_align(m, query@, ql, scores, limit as nat, words);
        }
        Some(complete_words(matches, query_lower))
    }
}

/// Every candidate whose key the query heads can be turned into a completion.
proof fn lemma_literal_can_align(
    m: IndexModel,
    query: Seq<char>,
    query_lower: Seq<char>,
    limit: nat,
    r: Seq<RankedModel>,
)
    requires
        top::is_top(
            r,
            model::literal_items(m, query, query_lower),
            limit,
            ranking::by_session_key(),
        ),
    ensures
        candidates_can_align(r, query_lower),
{
    let items = model::literal_items(m, query, query_lower);
    assert forall|i: int| 0 <= i < r.len() implies ranking::can_align(
        (#[trigger] r[i]).places,
        r[i].candidate.key,
        query_lower,
    ) by {
        top::lemma_top_member(r, items, limit, ranking::by_session_key(), i);
        let j = select::lemma_select_source(
            m.keys.len() as int,
            model::literal_choice(m, query, query_lower),
            r[i],
        );
    }
}

/// Every fuzzy match can be turned into a completion.
proof fn lemma_fuzzy_can_align(
    m: IndexModel,
    query_lower: Seq<char>,
    scores: spec_fn(int) -> Option<u16>,
    found: spec_fn(int) -> Option<(Seq<usize>, i32)>,
    limit: nat,
    r: Seq<RankedModel>,
)
    requires
        m.wf(),
        model::can_score(m, query_lower),
        top::is_top(
            r,
            model::fuzzy_items(m, query_lower, scores, found),
            limit,
            ranking::by_session_key(),
        ),
    ensures
        candidates_can_align(r, query_lower),
{
    let items = model::fuzzy_items(m, query_lower, scores, found);
    let n = m.keys.len() as int;
    assert forall|i: int| 0 <= i < r.len() implies ranking::can_align(
        (#[trigger] r[i]).places,
        r[i].candidate.key,
        query_lower,
    ) by {
        top::lemma_top_member(r, items, limit, ranking::by_session_key(), i);
        let k = choose|k: int| 0 <= k < items.len() && items[k] == r[i];
        if is_ascii_chars(query_lower) {
            let scored = model::scored_items(m, query_lower, scores);
            let plain = model::plain_items(m, query_lower, true, found);
            if k < scored.len() {
                assert(scored.contains(r[i]));
                let j = select::lemma_select_source(
                    n,
                    model::scored_choice(m, query_lower, scores),
                    r[i],
                );
                assert(m.keys.contains(m.keys[j]));
                assert(m.candidates.contains_key(m.keys[j]));
            } else {
                assert(plain[k - scored.len()] == r[i]);
                assert(plain.contains(r[i]));
                let j = select::lemma_select_source(
                    n,
                    model::plain_choice(m, query_lower, true, found),
                    r[i],
                );
            }
        } else {
            let j = select::lemma_select_source(
                n,
                model::plain_choice(m, query_lower, false, found),
                r[i],
            );
        }
    }
}

/// As long as it is not known what the session finds, a search comes to ask the questions
/// at its start and of the scans of the session.
proof fn lemma_full_session_asks<M: Fn(&str, &str) -> Option<(Vec<usize>, i32)>>(
    m: IndexModel,
    f: M,
    query: Seq<char>,
    include_dictionary: bool,
    scored: nat,
    scored_words: nat,
)
    requires
        model::is_scored_count(m, text::lowercase(query), scored),
        model::is_scored_word_count(m, text::lowercase(query), scored_words),
    ensures
        forall|n: int|
            n <= model::search_questions(
                m,
                query,
                include_dictionary,
                MAX_COMPLETION_RESULTS as nat,
                scored,
                scored_words,
            ) ==> #[trigger] model::comes_to_ask(m, f, query, include_dictionary, n),
{
    let most = model::search_questions(
        m,
        query,
        include_dictionary,
        MAX_COMPLETION_RESULTS as nat,
        scored,
        scored_words,
    );
    assert(model::is_question_count(
        m,
        query,
        include_dictionary,
        MAX_COMPLETION_RESULTS as nat,
        most,
    ));
}

impl SessionCompletionIndex {
    /// Whether the query can be searched for.
    pub fn is_searchable(&self, query: &str) -> (r: bool)
        ensures
            r == model::can_search(self@, query@),
    {
        if query.unicode_len() < MIN_COMPLETION_QUERY_CHARS {
            return true;
        }
        proof {
            use_type_invariant(self);
        }
        let query_lower = normalize(query);
        if !query_lower.as_str().is_ascii() {
            return true;
        }
        let ghost m = self@;
        let ghost ql = query_lower@;
        let needle_len = byte_len(query_lower.as_str());
        if needle_len == 0 || needle_len > MAX_NEEDLE_BYTES {
            return false;
        }
        let len = self.entries.prefix_keys.len();
        if len as u64 > u32::MAX as u64 {
            return false;
        }
        proof {
            if model::keys_take(m.keys, needle_len as nat) {
                assert forall|j: int|
                    0 <= j < m.keys.len() && is_ascii_chars(m.keys[j]) implies matcher::haystack_fits(
                    utf8::utf8_len(ql),
                    utf8::utf8_len(#[trigger] m.keys[j]),
                    masks::allowed_typos(ql),
                ) by {
                    assert(m.keys.contains(m.keys[j]));
                }
            }
            if model::can_score(m, ql) {
                assert forall|k: Seq<char>| #[trigger]
                    m.keys.contains(k) && is_ascii_chars(k) implies matcher::haystack_fits(
                    needle_len as nat,
                    utf8::utf8_len(k),
                    masks::typos_for(needle_len as nat),
                ) by {
                    let j = choose|j: int| 0 <= j < m.keys.len() && m.keys[j] == k;
                    assert(m.keys[j] == k);
                }
            }
        }
        needle_len <= self.entries.needle_limit
    }

    /// What a search for the query finds, unless it is cancelled. Before it starts, and
    /// at every 128th candidate of a scan, it asks whether to stop; the first yes ends it.
    pub fn search_with_dictionary_cancellable<
        F: Fn(u64) -> bool,
        M: Fn(&str, &str) -> Option<(Vec<usize>, i32)>,
    >(
        &self,
        query: &str,
        include_dictionary: bool,
        is_cancelled: &F,
        fuzzy_match: &M,
    ) -> (r: Option<Vec<CompletionMatch>>)
        requires
            asking::can_ask(is_cancelled),
            forall|t: &str, q: &str| #[trigger] call_requires(*fuzzy_match, (t, q)),
            model::can_search(self@, query@),
        ensures
            match r {
                Some(results) => {
                    &&& model::are_results(
                        self@,
                        *fuzzy_match,
                        query@,
                        include_dictionary,
                        results@,
                    )
                    &&& exists|n: int| #[trigger]
                        model::are_results_after(
                            self@,
                            *fuzzy_match,
                            query@,
                            include_dictionary,
                            n,
                            results@,
                        ) && asking::goes_on(is_cancelled, 0, n)
                },
                None => exists|n: int| #[trigger]
                    model::comes_to_ask(self@, *fuzzy_match, query@, include_dictionary, n)
                        && asking::stops_before(is_cancelled, 0, n),
            },
    {
        let mut asked: u64 = 0;
        let r = self.search_asking(
            query,
            include_dictionary,
            is_cancelled,
            &mut asked,
            fuzzy_match,
        );
        proof {
            if r is Some {
                model::lemma_results_after(
                    self@,
                    *fuzzy_match,
                    query@,
                    include_dictionary,
                    asked as int,
                    r->0@,
                );
            }
        }
        r
    }

    /// The completions of what the session finds: the candidates that the query heads and,
    /// as far as there is room, those that match it fuzzily behind them.
    fn session_results<F: Fn(u64) -> bool, M: Fn(&str, &str) -> Option<(Vec<usize>, i32)>>(
        &self,
        query: &str,
        query_lower: &str,
        is_cancelled: &F,
        asked: &mut u64,
        fuzzy_match: &M,
    ) -> (r: Option<Vec<CompletionMatch>>)
        requires
            asking::can_ask(is_cancelled),
            asking::has_room(*old(asked), 4),
            forall|t: &str, q: &str| #[trigger] call_requires(*fuzzy_match, (t, q)),
            query_lower@ == text::lowercase(query@),
            model::can_score(self@, query_lower@),
        ensures
            *final(asked) <= *old(asked) + 4 * asking::QUESTIONS_PER_SCAN,
            match r {
                Some(results) => {
                    &&& model::are_session_results(self@, *fuzzy_match, query@, results@)
                    &&& results@.len() <= MAX_COMPLETION_RESULTS
                    &&& exists|scored: nat| #[trigger]
                        model::is_scored_count(self@, query_lower@, scored)
                            && asking::went_through(
                            is_cancelled,
                            *old(asked) as int,
                            *final(asked) as int,
                            model::session_questions(self@, query@, query_lower@, scored),
                        )
                },
                None => exists|scored: nat| #[trigger]
                    model::is_scored_count(self@, query_lower@, scored) && asking::was_stopped(
                        is_cancelled,
                        *old(asked) as int,
                        *final(asked) as int,
                        model::session_questions(self@, query@, query_lower@, scored),
                    ),
            },
    {
        let ghost m = self@;
        let ghost ql = query_lower@;
        let ghost mut scored = model::lemma_some_scored_count(m, ql);
        proof {
            use_type_invariant(self);
            self.entries.lemma_model_wf(self.next_seq, self.dictionary);
            select::lemma_select_len(m.keys.len() as int, model::headed_choice(m, ql));
            assert(m.keys.len() == self.entries.prefix_keys.len());
        }
        let ghost key = ranking::by_session_key();
        let literal_found = self.session_literal_matches(
            query,
            query_lower,
            MAX_COMPLETION_RESULTS,
            is_cancelled,
            asked,
        );
        let mut session_matches = match literal_found {
            Some(session_matches) => session_matches,
            None => {
                return None;
            },
        };
        let ghost a1 = *asked as int;
        let ghost literal = ranking::ranked_views(session_matches@);
        let ghost mut fuzzy_views = Seq::<RankedModel>::empty();
        proof {
            lemma_literal_can_align(m, query@, ql, MAX_COMPLETION_RESULTS as nat, literal);
            assert(literal + fuzzy_views =~= literal);
        }
        if session_matches.len() < MAX_COMPLETION_RESULTS {
            let fuzzy_found = self.session_fuzzy_matches(
                query,
                query_lower,
                MAX_COMPLETION_RESULTS - session_matches.len(),
                is_cancelled,
                asked,
                fuzzy_match,
            );
            proof {
                scored =
                choose|scored: nat| #[trigger]
                    model::is_scored_count(m, ql, scored) && if fuzzy_found is Some {
                        asking::went_through(
                            is_cancelled,
                            a1,
                            *asked as int,
                            model::fuzzy_questions(m, ql, scored),
                        )
                    } else {
                        asking::was_stopped(
                            is_cancelled,
                            a1,
                            *asked as int,
                            model::fuzzy_questions(m, ql, scored),
                        )
                    };
            }
            let mut fuzzy = match fuzzy_found {
                Some(fuzzy) => fuzzy,
                None => {
                    return None;
                },
            };
            let ghost rest = (MAX_COMPLETION_RESULTS - literal.len()) as nat;
            let ghost more = fuzzy@;
            let ghost before = session_matches@;
            proof {
                fuzzy_views = ranking::ranked_views(fuzzy@);
                let (scores, found) = choose|
                    scores: spec_fn(int) -> Option<u16>,
                    found: spec_fn(int) -> Option<(Seq<usize>, i32)>,
                |
                    #![trigger model::are_key_scores(m, ql, scores), model::are_plain_answers(m, *fuzzy_match, query@, ql, is_ascii_chars(ql), found)]
                    model::are_key_scores(m, ql, scores) && model::are_plain_answers(
                        m,
                        *fuzzy_match,
                        query@,
                        ql,
                        is_ascii_chars(ql),
                        found,
                    ) && top::is_top(
                        fuzzy_views,
                        model::fuzzy_items(m, ql, scores, found),
                        rest,
                        key,
                    );
                lemma_fuzzy_can_align(m, ql, scores, found, rest, fuzzy_views);
            }
            session_matches.append(&mut fuzzy);
            proof {
                assert(session_matches@ =~= before + more);
                assert(ranking::ranked_views(session_matches@) =~= literal + fuzzy_views);
            }
        }
        proof {
            assert(model::are_session_matches(m, *fuzzy_match, query@, ql, literal, fuzzy_views));
            assert(candidates_can_align(literal + fuzzy_views, ql)) by {
                assert forall|i: int| 0 <= i < (literal + fuzzy_views).len() implies
                    ranking::can_align(
                    (#[trigger] (literal + fuzzy_views)[i]).places,
                    (literal + fuzzy_views)[i].candidate.key,
                    ql,
                ) by {
                    if i < literal.len() {
                        assert((literal + fuzzy_views)[i] == literal[i]);
                    } else {
                        assert((literal + fuzzy_views)[i] == fuzzy_views[i - literal.len()]);
                    }
                }
            }
        }
        Some(complete_candidates(session_matches, query_lower))
    }

    /// The same, with questions that go on from number `asked`.
    pub fn search_asking<
        F: Fn(u64) -> bool,
        M: Fn(&str, &str) -> Option<(Vec<usize>, i32)>,
    >(
        &self,
        query: &str,
        include_dictionary: bool,
        is_cancelled: &F,
        asked: &mut u64,
        fuzzy_match: &M,
    ) -> (r: Option<Vec<CompletionMatch>>)
        requires
            asking::can_ask(is_cancelled),
            asking::has_room(*old(asked), 8),
            forall|t: &str, q: &str| #[trigger] call_requires(*fuzzy_match, (t, q)),
            model::can_search(self@, query@),
        ensures
            match r {
                Some(results) => {
                    &&& model::are_results_after(
                        self@,
                        *fuzzy_match,
                        query@,
                        include_dictionary,
                        *final(asked) - *old(asked),
                        results@,
                    )
                    &&& asking::goes_on(is_cancelled, *old(asked) as int, *final(asked) as int)
                },
                None => {
                    &&& model::comes_to_ask(
                        self@,
                        *fuzzy_match,
                        query@,
                        include_dictionary,
                        *final(asked) - *old(asked),
                    )
                    &&& asking::stops_before(
                        is_cancelled,
                        *old(asked) as int,
                        *final(asked) as int,
                    )
                },
            },
    {
        if query.unicode_len() < MIN_COMPLETION_QUERY_CHARS {
            return Some(Vec::new());
        }
        let query_lower = normalize(query);
        let ghost m = self@;
        let ghost ql = query_lower@;
        let ghost a0 = *asked as int;
        let ghost mut scored = model::lemma_some_scored_count(m, ql);
        let ghost mut scored_words = model::lemma_some_scored_word_count(m, ql);
        proof {
            use_type_invariant(self);
            self.entries.lemma_model_wf(self.next_seq, self.dictionary);
            lemma_full_session_asks(
                m,
                *fuzzy_match,
                query@,
                include_dictionary,
                scored,
                scored_words,
            );
        }
        let number = *asked;
        *asked = number + 1;
        if is_cancelled(number) {
            return None;
        }
        let session_found = self.session_results(
            query,
            query_lower.as_str(),
            is_cancelled,
            asked,
            fuzzy_match,
        );
        proof {
            scored =
            choose|scored: nat| #[trigger]
                model::is_scored_count(m, ql, scored) && if session_found is Some {
                    asking::went_through(
                        is_cancelled,
                        a0 + 1,
                        *asked as int,
                        model::session_questions(m, query@, ql, scored),
                    )
                } else {
                    asking::was_stopped(
                        is_cancelled,
                        a0 + 1,
                        *asked as int,
                        model::session_questions(m, query@, ql, scored),
                    )
                };
            lemma_full_session_asks(
                m,
                *fuzzy_match,
                query@,
                include_dictionary,
                scored,
                scored_words,
            );
        }
        let mut results = match session_found {
            Some(results) => results,
            None => {
                return None;
            },
        };
        let ghost session = results@;
        let ghost a2 = *asked as int;
        let remaining: usize = MAX_COMPLETION_RESULTS - results.len();
        let ghost mut words = Seq::<CompletionMatch>::empty();
        if include_dictionary && remaining > 0 {
            let words_found = self.search_dictionary(
                query,
                query_lower.as_str(),
                remaining,
                is_cancelled,
                asked,
            );
            proof {
                scored_words =
                choose|scored: nat| #[trigger]
                    model::is_scored_word_count(m, ql, scored) && if words_found is Some {
                        asking::went_through(
                            is_cancelled,
                            a2,
                            *asked as int,
                            model::dictionary_questions(m, query@, ql, remaining as nat, scored),
                        )
                    } else {
                        asking::was_stopped(
                            is_cancelled,
                            a2,
                            *asked as int,
                            model::dictionary_questions(m, query@, ql, remaining as nat, scored),
                        )
                    };
                assert(model::is_session_count(m, *fuzzy_match, query@, session.len()));
                assert(model::is_question_count(
                    m,
                    query@,
                    include_dictionary,
                    session.len(),
                    model::search_questions(
                        m,
                        query@,
                        include_dictionary,
                        session.len(),
                        scored,
                        scored_words,
                    ),
                ));
            }
            let mut found = match words_found {
                Some(found) => found,
                None => {
                    return None;
                },
            };
            proof {
                words = found@;
            }
            results.append(&mut found);
        }
        proof {
            assert(results@ =~= session + words);
            assert(model::are_result_parts(
                m,
                *fuzzy_match,
                query@,
                include_dictionary,
                session,
                words,
            ));
            assert(model::is_question_count(
                m,
                query@,
                include_dictionary,
                session.len(),
                *asked - a0,
            ));
        }
        Some(results)
    }

    /// What a search for the query finds.
    pub fn search_with_dictionary<M: Fn(&str, &str) -> Option<(Vec<usize>, i32)>>(
        &self,
        query: &str,
        include_dictionary: bool,
        fuzzy_match: &M,
    ) -> (r: Vec<CompletionMatch>)
        requires
            forall|t: &str, q: &str| #[trigger] call_requires(*fuzzy_match, (t, q)),
            model::can_search(self@, query@),
        ensures
            model::are_results(self@, *fuzzy_match, query@, include_dictionary, r@),
    {
        let never_cancelled = |_number: u64| -> (r: bool)
            ensures
                !r,
            { false };
        let found = self.search_with_dictionary_cancellable(
            query,
            include_dictionary,
            &never_cancelled,
            fuzzy_match,
        );
        found.unwrap()
    }

    /// What a search for the query finds, with the dictionary.
    pub fn search<M: Fn(&str, &str) -> Option<(Vec<usize>, i32)>>(
        &self,
        query: &str,
        fuzzy_match: &M,
    ) -> (r: Vec<CompletionMatch>)
        requires
            forall|t: &str, q: &str| #[trigger] call_requires(*fuzzy_match, (t, q)),
            model::can_search(self@, query@),
        ensures
            model::are_results(self@, *fuzzy_match, query@, true, r@),
    {
        self.search_with_dictionary(query, true, fuzzy_match)
    }

    /// What a search for the query finds, if the query can be searched for.
    pub fn try_search<M: Fn(&str, &str) -> Option<(Vec<usize>, i32)>>(
        &self,
        query: &str,
        include_dictionary: bool,
        fuzzy_match: &M,
    ) -> (r: Option<Vec<CompletionMatch>>)
        requires
            forall|t: &str, q: &str| #[trigger] call_requires(*fuzzy_match, (t, q)),
        ensures
            match r {
                Some(results) => model::can_search(self@, query@) && model::are_results(
                    self@,
                    *fuzzy_match,
                    query@,
                    include_dictionary,
                    results@,
                ),
                None => !model::can_search(self@, query@),
            },
    {
        if !self.is_searchable(query) {
            None
        } else if include_dictionary {
            Some(self.search(query, fuzzy_match))
        } else {
            Some(self.search_with_dictionary(query, false, fuzzy_match))
        }
    }
}

} // verus!
