use prompt_autocomplete::dictionary::{
    dictionary_pair_count, dictionary_pair_posting, dictionary_pair_word_ids,
    dictionary_record_at, dictionary_record_count, pair_key, query_letter_pair_keys,
    rarest_query_pair, EnglishDictionary,
};

/// A pair index with the given postings.
fn pair_index(postings: &[(usize, &[u32])]) -> Vec<u8> {
    let mut headers: Vec<u8> = Vec::new();
    let mut body: Vec<u8> = Vec::new();
    for key in 0..676 {
        let ids: &[u32] = postings
            .iter()
            .find(|(k, _)| *k == key)
            .map(|(_, ids)| *ids)
            .unwrap_or(&[]);
        headers.extend_from_slice(&((676 * 8 + body.len()) as u32).to_le_bytes());
        headers.extend_from_slice(&(ids.len() as u32).to_le_bytes());
        for id in ids {
            body.extend_from_slice(&id.to_le_bytes());
        }
    }
    headers.extend_from_slice(&body);
    headers
}

fn record(offset: u32, len: u8, mask: u32) -> Vec<u8> {
    let mut r = offset.to_le_bytes().to_vec();
    r.push(len);
    r.extend_from_slice(&mask.to_le_bytes());
    r
}

#[test]
fn pairs_are_numbered_by_their_letters() {
    assert_eq!(pair_key(0, 0), 0);
    assert_eq!(pair_key(1, 2), 28);
    assert_eq!(pair_key(25, 25), 675);
}

#[test]
fn pairs_of_a_query_ascend_without_repetition() {
    assert_eq!(query_letter_pair_keys("abab"), [1, 26]);
    assert_eq!(query_letter_pair_keys("ba1ab"), [1, 26]);
    assert_eq!(query_letter_pair_keys("aBc"), Vec::<usize>::new());
    assert_eq!(query_letter_pair_keys("aéb"), Vec::<usize>::new());
    assert_eq!(query_letter_pair_keys(""), Vec::<usize>::new());
}

#[test]
fn the_rarest_pair_with_words_is_chosen() {
    let index = pair_index(&[(1, &[0, 1, 2]), (28, &[2, 0]), (55, &[1, 2])]);
    // of "ab", "bc" and "cd" the last two are equally rare
    assert_eq!(rarest_query_pair("abcd", &index), Some(28));
    assert_eq!(rarest_query_pair("cdab", &index), Some(55));
    assert_eq!(rarest_query_pair("ab", &index), Some(1));
    assert_eq!(rarest_query_pair("zz", &index), None);
    assert_eq!(rarest_query_pair("a", &index), None);
}

#[test]
fn postings_are_read_in_order() {
    let index = pair_index(&[(1, &[7, 3, 0x01020304])]);
    assert_eq!(dictionary_pair_count(&index, 1), 3);
    assert_eq!(dictionary_pair_count(&index, 2), 0);
    assert_eq!(dictionary_pair_posting(&index, 1)[..4], [7, 0, 0, 0]);
    assert_eq!(dictionary_pair_posting(&index, 2).len(), 0);
    assert_eq!(dictionary_pair_word_ids(&index, 1), [7, 3, 0x01020304]);
}

#[test]
fn records_name_words() {
    let mut index = record(0, 2, 0b11);
    index.extend_from_slice(&record(3, 3, 0x8000_0001));
    let d = EnglishDictionary::new("ab zéx".to_string(), index, pair_index(&[]), pair_index(&[]))
        .unwrap();
    assert_eq!(dictionary_record_count(&d), 2);
    let first = dictionary_record_at(&d, 0);
    assert_eq!(first.text, "ab");
    assert_eq!(first.byte_len, 2);
    assert_eq!(first.letter_mask, 3);
    let second = dictionary_record_at(&d, 1);
    assert_eq!(second.text, "zé");
    assert_eq!(second.byte_len, 3);
    assert_eq!(second.letter_mask, 0x8000_0001);
    assert_eq!(d.bigram_index().len(), 5408);
    assert_eq!(d.pair_index().len(), 5408);
}

#[test]
fn tables_that_do_not_fit_are_refused() {
    let words = || "ab cd".to_string();
    let good = || record(0, 2, 0);
    let none = || pair_index(&[]);
    assert!(EnglishDictionary::new(words(), good(), none(), none()).is_some());
    // an incomplete record
    let mut short = good();
    short.pop();
    assert!(EnglishDictionary::new(words(), short, none(), none()).is_none());
    // a word beyond the text
    assert!(EnglishDictionary::new(words(), record(4, 2, 0), none(), none()).is_none());
    // a word that starts inside a character
    assert!(EnglishDictionary::new("é".to_string(), record(1, 1, 0), none(), none()).is_none());
    // headers that are missing
    let mut cut = none();
    cut.pop();
    assert!(EnglishDictionary::new(words(), good(), cut.clone(), none()).is_none());
    assert!(EnglishDictionary::new(words(), good(), none(), cut).is_none());
    // a posting that names no word
    assert!(EnglishDictionary::new(words(), good(), pair_index(&[(1, &[1])]), none()).is_none());
    assert!(EnglishDictionary::new(words(), good(), pair_index(&[(1, &[0])]), none()).is_some());
    // a posting beyond the index
    let mut far = none();
    far[0] = 0xff;
    far[1] = 0xff;
    far[4] = 1;
    assert!(EnglishDictionary::new(words(), good(), far, none()).is_none());
}

#[test]
fn the_empty_dictionary_has_no_words() {
    let d = EnglishDictionary::empty();
    assert_eq!(dictionary_record_count(&d), 0);
    assert_eq!(rarest_query_pair("abcdefgh", d.bigram_index()), None);
    assert_eq!(rarest_query_pair("abcdefgh", d.pair_index()), None);
}
