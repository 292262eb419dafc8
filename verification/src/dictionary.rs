//! The English word list and its two pair indexes.
//!
//! The list comes as one text and three byte tables. The record table has one record
//! per word: the byte offset of the word in the text, its byte length and the mask of
//! its letters. A pair index has a header for each pair of lowercase letters, the
//! offset and the length of a posting of word numbers: in the bigram index the words
//! in which the two letters are neighbours, in the pair index the words in which they
//! follow each other at any distance.
use vstd::prelude::*;
use vstd::slice::slice_subrange;
use vstd::utf8::*;

use crate::ascending::insert_ascending;
use crate::text;
use crate::text::byte_slice;
use crate::utf8;

verus! {

/// The size of a record: offset (4 bytes), length (1 byte), letter mask (4 bytes).
pub const DICTIONARY_INDEX_RECORD_BYTES: usize = 9;

/// The number of pairs of lowercase letters.
pub const DICTIONARY_PAIR_COUNT: usize = 676;

/// The size of a pair's header: offset (4 bytes), number of words (4 bytes).
pub const DICTIONARY_PAIR_RECORD_BYTES: usize = 8;

/// The size of all headers of a pair index.
pub const DICTIONARY_PAIR_HEADER_BYTES: usize = 5408;

/// The little-endian number in the four bytes from `at` on.
pub open spec fn u32_le(bytes: Seq<u8>, at: int) -> int {
    bytes[at] + bytes[at + 1] * 0x100 + bytes[at + 2] * 0x1_0000 + bytes[at + 3] * 0x100_0000
}

/// Where the posting of pair `key` starts.
pub open spec fn posting_offset(index: Seq<u8>, key: int) -> int {
    u32_le(index, key * 8)
}

/// How many words the posting of pair `key` has.
pub open spec fn posting_count(index: Seq<u8>, key: int) -> int {
    u32_le(index, key * 8 + 4)
}

/// The header and the posting of pair `key` lie within the index.
pub open spec fn posting_fits(index: Seq<u8>, key: int) -> bool {
    &&& 0 <= key < DICTIONARY_PAIR_COUNT
    &&& key * 8 + 8 <= index.len()
    &&& posting_offset(index, key) + posting_count(index, key) * 4 <= index.len()
}

/// The word numbers in the posting of pair `key`, in the order of the index.
pub open spec fn posting_ids(index: Seq<u8>, key: int) -> Seq<usize> {
    Seq::new(
        posting_count(index, key) as nat,
        |i: int| u32_le(index, posting_offset(index, key) + 4 * i) as usize,
    )
}

/// The posting of pair `key` lies within the index, and its word numbers are below
/// `n`.
pub open spec fn is_posting(index: Seq<u8>, key: int, n: int) -> bool {
    &&& posting_fits(index, key)
    &&& forall|i: int|
        0 <= i < posting_ids(index, key).len() ==> #[trigger] posting_ids(index, key)[i] < n
}

/// A pair index over `n` words: all headers are there, and every posting is one over
/// `n` words.
pub open spec fn is_pair_index(index: Seq<u8>, n: int) -> bool {
    &&& index.len() >= DICTIONARY_PAIR_HEADER_BYTES
    &&& forall|key: int| 0 <= key < DICTIONARY_PAIR_COUNT ==> #[trigger] is_posting(index, key, n)
}

/// `c` is a lowercase ASCII letter.
pub open spec fn is_lower(c: char) -> bool {
    97 <= c as int <= 122
}

/// The number of the letter pair at `j`.
pub open spec fn pair_at(s: Seq<char>, j: int) -> int {
    (s[j] as int - 97) * 26 + (s[j + 1] as int - 97)
}

/// `k` is the number of two lowercase letters that are neighbours in `s`.
pub open spec fn is_pair_key(s: Seq<char>, k: int) -> bool {
    exists|j: int|
        0 <= j < s.len() - 1 && is_lower(s[j]) && is_lower(s[j + 1]) && k == #[trigger] pair_at(s, j)
}

/// One word of the list.
pub struct RecordModel {
    pub text: Seq<char>,
    pub letter_mask: u32,
}

/// The content of record `i`.
pub open spec fn record_model(words: Seq<char>, index: Seq<u8>, i: int) -> RecordModel {
    RecordModel {
        text: decode_utf8(
            encode_utf8(words).subrange(
                u32_le(index, i * 9),
                u32_le(index, i * 9) + index[i * 9 + 4],
            ),
        ),
        letter_mask: u32_le(index, i * 9 + 5) as u32,
    }
}

/// Record `i` names a part of the text that starts and ends between characters.
pub open spec fn record_fits(words: Seq<char>, index: Seq<u8>, i: int) -> bool {
    let start = u32_le(index, i * 9);
    let end = start + index[i * 9 + 4];
    &&& end <= utf8::utf8_len(words)
    &&& is_char_boundary(encode_utf8(words), start)
    &&& is_char_boundary(encode_utf8(words), end)
}

/// The tables fit together.
pub open spec fn is_dictionary(
    words: Seq<char>,
    index: Seq<u8>,
    bigram_index: Seq<u8>,
    pair_index: Seq<u8>,
) -> bool {
    &&& index.len() % 9 == 0
    &&& forall|i: int| 0 <= i < index.len() / 9 ==> #[trigger] record_fits(words, index, i)
    &&& is_pair_index(bigram_index, index.len() as int / 9)
    &&& is_pair_index(pair_index, index.len() as int / 9)
}

/// What the tables say: the words, and the words of each pair.
pub struct DictionaryModel {
    pub records: Seq<RecordModel>,
    pub bigram_index: Seq<u8>,
    pub pair_index: Seq<u8>,
}

impl DictionaryModel {
    /// The pair indexes are over the words, and every word is shorter than 256 bytes.
    pub open spec fn wf(self) -> bool {
        &&& is_pair_index(self.bigram_index, self.records.len() as int)
        &&& is_pair_index(self.pair_index, self.records.len() as int)
        &&& forall|i: int|
            0 <= i < self.records.len() ==> utf8::utf8_len((#[trigger] self.records[i]).text) < 256
    }
}

/// The content of the tables.
pub open spec fn dictionary_model(
    words: Seq<char>,
    index: Seq<u8>,
    bigram_index: Seq<u8>,
    pair_index: Seq<u8>,
) -> DictionaryModel {
    DictionaryModel {
        records: Seq::new(index.len() / 9, |i: int| record_model(words, index, i)),
        bigram_index,
        pair_index,
    }
}

/// The little-endian number in the four bytes from `at` on.
fn read_u32_le(bytes: &[u8], at: usize) -> (r: u32)
    requires
        at + 4 <= bytes@.len(),
    ensures
        r == u32_le(bytes@, at as int),
{
    let len = bytes.len();
    assert(at + 4 <= len);
    bytes[at] as u32 + bytes[at + 1] as u32 * 0x100 + bytes[at + 2] as u32 * 0x1_0000 + bytes[at
        + 3] as u32 * 0x100_0000
}

/// The number of the pair of the letters `left` and `right`, each counted from 0.
pub fn pair_key(left: u8, right: u8) -> (k: usize)
    ensures
        k == left * 26 + right,
{
    left as usize * 26 + right as usize
}

/// How many words the posting of pair `key` has.
pub fn dictionary_pair_count(index: &[u8], key: usize) -> (n: usize)
    requires
        key < DICTIONARY_PAIR_COUNT,
        key * 8 + 8 <= index@.len(),
    ensures
        n == posting_count(index@, key as int),
{
    read_u32_le(index, key * DICTIONARY_PAIR_RECORD_BYTES + 4) as usize
}

/// The bytes of the posting of pair `key`.
pub fn dictionary_pair_posting(index: &[u8], key: usize) -> (r: &[u8])
    requires
        posting_fits(index@, key as int),
    ensures
        r@ == index@.subrange(
            posting_offset(index@, key as int),
            posting_offset(index@, key as int) + posting_count(index@, key as int) * 4,
        ),
{
    let len = index.len();
    let header_offset: usize = key * DICTIONARY_PAIR_RECORD_BYTES;
    let offset: usize = read_u32_le(index, header_offset) as usize;
    let count: usize = read_u32_le(index, header_offset + 4) as usize;
    assert(offset + count * 4 <= len);
    slice_subrange(index, offset, offset + count * 4)
}

/// The word numbers in the posting of pair `key`.
pub fn dictionary_pair_word_ids(index: &[u8], key: usize) -> (ids: Vec<usize>)
    requires
        posting_fits(index@, key as int),
    ensures
        ids@ == posting_ids(index@, key as int),
{
    let posting = dictionary_pair_posting(index, key);
    let count = dictionary_pair_count(index, key);
    let ghost offset = posting_offset(index@, key as int);
    let mut ids: Vec<usize> = Vec::new();
    let posting_len = posting.len();
    let mut i: usize = 0;
    while i < count
        invariant
            i <= count,
            count == posting_count(index@, key as int),
            posting_len == posting@.len(),
            offset == posting_offset(index@, key as int),
            0 <= offset,
            offset + count * 4 <= index@.len(),
            posting@ == index@.subrange(offset, offset + count * 4),
            posting@.len() == count * 4,
            ids@ == posting_ids(index@, key as int).take(i as int),
        decreases count - i,
    {
        assert(i * 4 + 4 <= count * 4);
        let id: u32 = read_u32_le(posting, i * 4);
        proof {
            assert forall|d: int| 0 <= d < 4 implies #[trigger] posting@[i * 4 + d]
                == index@[offset + 4 * i + d] by {}
            assert(posting@[i * 4 + 0] == index@[offset + 4 * i + 0]);
            assert(posting@[i * 4 + 1] == index@[offset + 4 * i + 1]);
            assert(posting@[i * 4 + 2] == index@[offset + 4 * i + 2]);
            assert(posting@[i * 4 + 3] == index@[offset + 4 * i + 3]);
            assert(id == u32_le(index@, offset + 4 * i));
            assert(posting_ids(index@, key as int)[i as int] == id as usize);
        }
        ids.push(id as usize);
        assert(ids@ =~= posting_ids(index@, key as int).take(i + 1));
        i += 1;
    }
    assert(ids@ =~= posting_ids(index@, key as int));
    ids
}

proof fn lemma_pair_key_next(s: Seq<char>, n: int, k: int)
    requires
        0 <= n < s.len(),
    ensures
        is_pair_key(s.take(n + 1), k) <==> (is_pair_key(s.take(n), k) || (n > 0 && is_lower(
            s[n - 1],
        ) && is_lower(s[n]) && k == pair_at(s, n - 1))),
{
    let a = s.take(n);
    let b = s.take(n + 1);
    if is_pair_key(a, k) {
        let j = choose|j: int|
            0 <= j < a.len() - 1 && is_lower(a[j]) && is_lower(a[j + 1]) && k == #[trigger] pair_at(
                a,
                j,
            );
        assert(pair_at(b, j) == k);
    }
    if n > 0 && is_lower(s[n - 1]) && is_lower(s[n]) && k == pair_at(s, n - 1) {
        assert(pair_at(b, n - 1) == k);
    }
    if is_pair_key(b, k) {
        let j = choose|j: int|
            0 <= j < b.len() - 1 && is_lower(b[j]) && is_lower(b[j + 1]) && k == #[trigger] pair_at(
                b,
                j,
            );
        if j < n - 1 {
            assert(pair_at(a, j) == k);
        } else {
            assert(pair_at(s, n - 1) == k);
        }
    }
}

/// The numbers of the pairs of neighbouring lowercase letters of the query,
/// ascending and each once.
pub fn query_letter_pair_keys(query_lower: &str) -> (keys: Vec<usize>)
    ensures
        forall|i: int, j: int| 0 <= i < j < keys@.len() ==> keys@[i] < keys@[j],
        forall|k: usize| #[trigger] keys@.contains(k) <==> is_pair_key(query_lower@, k as int),
        forall|i: int| 0 <= i < keys@.len() ==> #[trigger] keys@[i] < DICTIONARY_PAIR_COUNT,
{
    let mut keys: Vec<usize> = Vec::new();
    let mut prev: Option<u8> = None;
    proof {
        assert forall|k: usize| is_pair_key(query_lower@.take(0), k as int) implies false by {}
    }
    for c in it: query_lower.chars()
        invariant
            it.seq() == query_lower@,
            forall|i: int, j: int| 0 <= i < j < keys@.len() ==> keys@[i] < keys@[j],
            forall|k: usize| #[trigger]
                keys@.contains(k) <==> is_pair_key(query_lower@.take(it.index()), k as int),
            match prev {
                Some(p) => it.index() > 0 && is_lower(query_lower@[it.index() - 1]) && p
                    == query_lower@[it.index() - 1] as int - 97,
                None => it.index() > 0 ==> !is_lower(query_lower@[it.index() - 1]),
            },
    {
        let ghost n = it.index();
        let ghost s = query_lower@;
        let ghost before = keys@;
        let code: u32 = c as u32;
        proof {
            assert(c == s[n]);
            vstd::utf8::char_u32_cast(c, code);
        }
        if code < 97 || code > 122 {
            proof {
                assert forall|k: usize| #[trigger] keys@.contains(k) <==> is_pair_key(
                    s.take(n + 1),
                    k as int,
                ) by {
                    lemma_pair_key_next(s, n, k as int);
                }
            }
            prev = None;
        } else {
            let current: u8 = (code - 97) as u8;
            if let Some(previous) = prev {
                insert_ascending(&mut keys, pair_key(previous, current));
                proof {
                    assert forall|k: usize| #[trigger] keys@.contains(k) <==> is_pair_key(
                        s.take(n + 1),
                        k as int,
                    ) by {
                        lemma_pair_key_next(s, n, k as int);
                        assert(before.contains(k) <==> is_pair_key(s.take(n), k as int));
                    }
                }
            } else {
                proof {
                    assert forall|k: usize| #[trigger] keys@.contains(k) <==> is_pair_key(
                        s.take(n + 1),
                        k as int,
                    ) by {
                        lemma_pair_key_next(s, n, k as int);
                    }
                }
            }
            prev = Some(current);
        }
    }
    proof {
        assert(query_lower@.take(query_lower@.len() as int) =~= query_lower@);
        assert forall|i: int| 0 <= i < keys@.len() implies #[trigger] keys@[i]
            < DICTIONARY_PAIR_COUNT by {
            assert(keys@.contains(keys@[i]));
            assert(is_pair_key(query_lower@, keys@[i] as int));
        }
    }
    keys
}

/// `k` is the pair of `s` with the shortest posting that is not empty, the smallest
/// of them where several are equally short.
pub open spec fn is_rarest_pair(s: Seq<char>, index: Seq<u8>, k: int) -> bool {
    &&& is_pair_key(s, k)
    &&& posting_count(index, k) > 0
    &&& forall|o: int| #[trigger]
        is_pair_key(s, o) && posting_count(index, o) > 0 ==> posting_count(index, k)
            < posting_count(index, o) || (posting_count(index, k) == posting_count(index, o) && k
            <= o)
}

/// The pair of the query with the shortest posting that is not empty.
pub fn rarest_query_pair(query_lower: &str, index: &[u8]) -> (r: Option<usize>)
    requires
        index@.len() >= DICTIONARY_PAIR_HEADER_BYTES,
    ensures
        match r {
            Some(k) => k < DICTIONARY_PAIR_COUNT && is_rarest_pair(
                query_lower@,
                index@,
                k as int,
            ),
            None => forall|k: int| #[trigger]
                is_pair_key(query_lower@, k) ==> posting_count(index@, k) == 0,
        },
{
    let keys = query_letter_pair_keys(query_lower);
    let ghost s = query_lower@;
    let mut best: Option<usize> = None;
    let mut best_count: usize = 0;
    let mut i: usize = 0;
    while i < keys.len()
        invariant
            s == query_lower@,
            index@.len() >= DICTIONARY_PAIR_HEADER_BYTES,
            i <= keys@.len(),
            forall|a: int, b: int| 0 <= a < b < keys@.len() ==> keys@[a] < keys@[b],
            forall|a: int| 0 <= a < keys@.len() ==> #[trigger] keys@[a] < DICTIONARY_PAIR_COUNT,
            forall|k: usize| #[trigger] keys@.contains(k) <==> is_pair_key(s, k as int),
            match best {
                Some(k) => {
                    &&& keys@.take(i as int).contains(k)
                    &&& k < DICTIONARY_PAIR_COUNT
                    &&& best_count == posting_count(index@, k as int)
                    &&& best_count > 0
                    &&& forall|a: int|
                        0 <= a < i && posting_count(index@, #[trigger] keys@[a] as int) > 0
                            ==> best_count < posting_count(index@, keys@[a] as int) || (best_count
                            == posting_count(index@, keys@[a] as int) && k <= keys@[a])
                },
                None => forall|a: int|
                    0 <= a < i ==> posting_count(index@, #[trigger] keys@[a] as int) == 0,
            },
        decreases keys@.len() - i,
    {
        let key = keys[i];
        let count = dictionary_pair_count(index, key);
        let ghost before = keys@.take(i as int);
        proof {
            assert(keys@.take(i + 1) =~= before.push(key));
            assert(keys@.take(i + 1)[i as int] == key);
            if let Some(k) = best {
                let a = choose|a: int| 0 <= a < before.len() && before[a] == k;
                assert(keys@.take(i + 1)[a] == k);
                assert(keys@[a] < keys@[i as int]);
            }
        }
        if count > 0 {
            let better = match best {
                Some(_) => count < best_count,
                None => true,
            };
            if better {
                best = Some(key);
                best_count = count;
            }
        }
        i += 1;
    }
    proof {
        assert(keys@.take(keys@.len() as int) =~= keys@);
        assert forall|o: int| #[trigger] is_pair_key(s, o) implies exists|a: int|
            0 <= a < keys@.len() && #[trigger] keys@[a] as int == o by {
            assert(0 <= o < 676);
            assert(keys@.contains(o as usize));
        }
    }
    best
}

/// One word of the list, as it lies in the text.
#[derive(Clone, Copy)]
pub struct DictionaryRecord<'a> {
    pub text: &'a str,
    pub byte_len: usize,
    pub letter_mask: u32,
}

/// The English word list.
pub struct EnglishDictionary {
    words: String,
    index: Vec<u8>,
    bigram_index: Vec<u8>,
    pair_index: Vec<u8>,
}

impl View for EnglishDictionary {
    type V = DictionaryModel;

    closed spec fn view(&self) -> DictionaryModel {
        dictionary_model(self.words@, self.index@, self.bigram_index@, self.pair_index@)
    }
}

/// Whether the posting of pair `key` and its word numbers fit.
fn check_posting(index: &[u8], key: usize, n: usize) -> (ok: bool)
    requires
        key < DICTIONARY_PAIR_COUNT,
        index@.len() >= DICTIONARY_PAIR_HEADER_BYTES,
    ensures
        ok <==> is_posting(index@, key as int, n as int),
{
    let offset: u64 = read_u32_le(index, key * DICTIONARY_PAIR_RECORD_BYTES) as u64;
    let count: u64 = read_u32_le(index, key * DICTIONARY_PAIR_RECORD_BYTES + 4) as u64;
    if offset + count * 4 > index.len() as u64 {
        return false;
    }
    let ids = dictionary_pair_word_ids(index, key);
    let mut i: usize = 0;
    while i < ids.len()
        invariant
            i <= ids@.len(),
            ids@ == posting_ids(index@, key as int),
            posting_fits(index@, key as int),
            forall|j: int| 0 <= j < i ==> #[trigger] posting_ids(index@, key as int)[j] < n,
        decreases ids@.len() - i,
    {
        if ids[i] >= n {
            assert(posting_ids(index@, key as int)[i as int] >= n);
            return false;
        }
        i += 1;
    }
    true
}

/// Whether `index` is a pair index over `n` words.
fn check_pair_index(index: &[u8], n: usize) -> (ok: bool)
    ensures
        ok <==> is_pair_index(index@, n as int),
{
    if index.len() < DICTIONARY_PAIR_HEADER_BYTES {
        return false;
    }
    let mut key: usize = 0;
    while key < DICTIONARY_PAIR_COUNT
        invariant
            key <= DICTIONARY_PAIR_COUNT,
            index@.len() >= DICTIONARY_PAIR_HEADER_BYTES,
            forall|k: int| 0 <= k < key ==> #[trigger] is_posting(index@, k, n as int),
        decreases DICTIONARY_PAIR_COUNT - key,
    {
        if !check_posting(index, key, n) {
            return false;
        }
        key += 1;
    }
    true
}

/// Whether record `i` names a part of `words`.
fn check_record(words: &str, index: &[u8], i: usize) -> (ok: bool)
    requires
        i * 9 + 9 <= index@.len(),
    ensures
        ok <==> record_fits(words@, index@, i as int),
{
    let len = index.len();
    assert(i * 9 + 9 <= len);
    let start: u32 = read_u32_le(index, i * 9);
    let byte_len: u8 = index[i * 9 + 4];
    let end: u64 = start as u64 + byte_len as u64;
    if end > words.as_bytes().len() as u64 {
        return false;
    }
    words.is_char_boundary(start as usize) && words.is_char_boundary(end as usize)
}

/// Tables that fit together have a sound content.
pub proof fn lemma_dictionary_wf(
    words: Seq<char>,
    index: Seq<u8>,
    bigram_index: Seq<u8>,
    pair_index: Seq<u8>,
)
    requires
        is_dictionary(words, index, bigram_index, pair_index),
    ensures
        dictionary_model(words, index, bigram_index, pair_index).wf(),
{
    let d = dictionary_model(words, index, bigram_index, pair_index);
    assert forall|i: int| 0 <= i < d.records.len() implies utf8::utf8_len(
        (#[trigger] d.records[i]).text,
    ) < 256 by {
        assert(record_fits(words, index, i));
        let start = u32_le(index, i * 9);
        let end = start + index[i * 9 + 4];
        let j = utf8::lemma_boundary_is_offset(words, start);
        let k = utf8::lemma_boundary_is_offset(words, end);
        if k < j {
            utf8::lemma_offsets_increase(words, k, j);
        }
        text::lemma_slice_chars(words, j, k);
        assert(words.take(k) =~= words.take(j) + words.subrange(j, k));
        utf8::lemma_encode_concat(words.take(j), words.subrange(j, k));
    }
}

impl EnglishDictionary {
    #[verifier::type_invariant]
    pub(crate) closed spec fn tables_fit(&self) -> bool {
        is_dictionary(self.words@, self.index@, self.bigram_index@, self.pair_index@)
    }

    /// Tables that fit together have a sound content.
    pub(crate) proof fn lemma_wf(&self)
        requires
            self.tables_fit(),
        ensures
            self@.wf(),
    {
        lemma_dictionary_wf(self.words@, self.index@, self.bigram_index@, self.pair_index@);
    }

    /// The word list of the given tables, or nothing if they do not fit together.
    pub fn new(
        words: String,
        index: Vec<u8>,
        bigram_index: Vec<u8>,
        pair_index: Vec<u8>,
    ) -> (r: Option<EnglishDictionary>)
        ensures
            r is Some <==> is_dictionary(words@, index@, bigram_index@, pair_index@),
            r is Some ==> r->0@ == dictionary_model(words@, index@, bigram_index@, pair_index@),
            r is Some ==> r->0@.wf(),
    {
        if index.len() % DICTIONARY_INDEX_RECORD_BYTES != 0 {
            return None;
        }
        let n: usize = index.len() / DICTIONARY_INDEX_RECORD_BYTES;
        let mut i: usize = 0;
        while i < n
            invariant
                i <= n,
                n == index@.len() / 9,
                index@.len() % 9 == 0,
                forall|k: int| 0 <= k < i ==> #[trigger] record_fits(words@, index@, k),
            decreases n - i,
        {
            if !check_record(words.as_str(), index.as_slice(), i) {
                return None;
            }
            i += 1;
        }
        if !check_pair_index(bigram_index.as_slice(), n) {
            return None;
        }
        if !check_pair_index(pair_index.as_slice(), n) {
            return None;
        }
        proof {
            lemma_dictionary_wf(words@, index@, bigram_index@, pair_index@);
        }
        Some(EnglishDictionary { words, index, bigram_index, pair_index })
    }

    /// The word list without words.
    pub fn empty() -> (r: EnglishDictionary)
        ensures
            r@.records.len() == 0,
            r@.wf(),
    {
        let bigram_index = zero_headers();
        let pair_index = zero_headers();
        EnglishDictionary { words: String::new(), index: Vec::new(), bigram_index, pair_index }
    }

    /// The index of the pairs of neighbouring letters.
    pub fn bigram_index(&self) -> (r: &[u8])
        ensures
            r@ == self@.bigram_index,
            self@.wf(),
    {
        proof {
            use_type_invariant(self);
            lemma_dictionary_wf(
                self.words@,
                self.index@,
                self.bigram_index@,
                self.pair_index@,
            );
        }
        self.bigram_index.as_slice()
    }

    /// The index of the pairs of letters at any distance.
    pub fn pair_index(&self) -> (r: &[u8])
        ensures
            r@ == self@.pair_index,
            self@.wf(),
    {
        proof {
            use_type_invariant(self);
            lemma_dictionary_wf(
                self.words@,
                self.index@,
                self.bigram_index@,
                self.pair_index@,
            );
        }
        self.pair_index.as_slice()
    }
}

/// The headers of a pair index without words.
fn zero_headers() -> (r: Vec<u8>)
    ensures
        is_pair_index(r@, 0),
{
    let mut r: Vec<u8> = Vec::new();
    let mut i: usize = 0;
    while i < DICTIONARY_PAIR_HEADER_BYTES
        invariant
            i <= DICTIONARY_PAIR_HEADER_BYTES,
            r@.len() == i,
            forall|k: int| 0 <= k < i ==> #[trigger] r@[k] == 0,
        decreases DICTIONARY_PAIR_HEADER_BYTES - i,
    {
        r.push(0);
        i += 1;
    }
    proof {
        assert forall|key: int| 0 <= key < DICTIONARY_PAIR_COUNT implies posting_offset(r@, key)
            == 0 && posting_count(r@, key) == 0 && #[trigger] is_posting(r@, key, 0) by {
            assert(r@[key * 8] == 0 && r@[key * 8 + 1] == 0 && r@[key * 8 + 2] == 0 && r@[key * 8
                + 3] == 0);
            assert(r@[key * 8 + 4] == 0 && r@[key * 8 + 5] == 0 && r@[key * 8 + 6] == 0 && r@[key
                * 8 + 7] == 0);
        }
    }
    r
}

/// The number of words.
pub fn dictionary_record_count(dictionary: &EnglishDictionary) -> (n: usize)
    ensures
        n == dictionary@.records.len(),
{
    dictionary.index.len() / DICTIONARY_INDEX_RECORD_BYTES
}

/// Word `word_id` of the list.
pub fn dictionary_record_at(dictionary: &EnglishDictionary, word_id: usize) -> (r: DictionaryRecord<
    '_,
>)
    requires
        word_id < dictionary@.records.len(),
    ensures
        r.text@ == dictionary@.records[word_id as int].text,
        r.letter_mask == dictionary@.records[word_id as int].letter_mask,
        r.byte_len == utf8::utf8_len(r.text@),
        r.byte_len < 256,
{
    proof {
        use_type_invariant(dictionary);
        assert(record_fits(dictionary.words@, dictionary.index@, word_id as int));
    }
    let index = dictionary.index.as_slice();
    let len = index.len();
    assert(word_id * 9 + 9 <= len);
    let start: usize = word_id * DICTIONARY_INDEX_RECORD_BYTES;
    let offset: usize = read_u32_le(index, start) as usize;
    let byte_len: usize = index[start + 4] as usize;
    let letter_mask: u32 = read_u32_le(index, start + 5);
    let words = dictionary.words.as_str();
    let words_len = words.as_bytes().len();
    assert(offset + byte_len <= words_len);
    let text = byte_slice(words, offset, offset + byte_len);
    DictionaryRecord { text, byte_len, letter_mask }
}

} // verus!
