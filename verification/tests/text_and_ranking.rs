use std::cmp::Ordering;

use prompt_autocomplete::ascending::ascending_of;
use prompt_autocomplete::extract::is_word_char;
use prompt_autocomplete::dictionary_ranking::{
    compare_dictionary_matches, dictionary_match_to_completion_match, push_top_dictionary_match,
    rank_word, DictionaryMatchIndices, DictionaryRankedMatch,
};
use prompt_autocomplete::masks::{
    ascii_char_mask, ascii_letter_mask, completion_max_typos, dictionary_max_typos,
    missing_ascii_chars, missing_ascii_letters,
};
use prompt_autocomplete::matcher::{alignment_places, frizbee_match_indices};
use prompt_autocomplete::ranking::{
    candidate_view, char_indices_for_byte_range, compare_ranked_matches, count_up,
    dictionary_has_literal_match, has_literal_match, push_top_ranked_match, rank_candidate,
    rank_fuzzy_candidate, ranked_to_completion_match, CompletionCandidate, CompletionKind,
    MatchClass, RankedMatch, RankedMatchIndices,
};
use prompt_autocomplete::text::{
    byte_len, compare_text, contains_char, is_all_digits, is_whitespace, normalize, str_contains, str_eq,
    str_find, str_starts_with, to_chars, trim_text,
};

#[test]
fn texts_are_compared_and_searched_by_their_bytes() {
    assert_eq!(compare_text("a", "b"), Ordering::Less);
    assert_eq!(compare_text("ab", "a"), Ordering::Greater);
    assert_eq!(compare_text("é", "z"), Ordering::Greater);
    assert_eq!(compare_text("", ""), Ordering::Equal);
    assert_eq!(str_find("aéxéx", "éx"), Some(1));
    assert_eq!(str_find("aéxéx", "xé"), Some(3));
    assert_eq!(str_find("abc", ""), Some(0));
    assert_eq!(str_find("abc", "abcd"), None);
    assert!(str_contains("hello", "ell") && !str_contains("hello", "elo"));
    assert!(str_starts_with("über", "ü") && !str_starts_with("u", "ü"));
    assert!(str_eq("é", "é") && !str_eq("é", "e"));
    assert_eq!(byte_len("é€"), 5);
    assert_eq!(to_chars("é€"), ['é', '€']);
    assert!(contains_char("é€", '€') && !contains_char("é€", 'e'));
}

#[test]
fn texts_are_lowered_and_trimmed() {
    assert_eq!(normalize("ÀB ẞ"), "àb ß");
    assert_eq!(normalize("İ").chars().count(), 2);
    assert_eq!(trim_text(" \u{2003}a b\t\n"), "a b");
    assert_eq!(trim_text("  "), "");
    assert!(is_all_digits("0123") && is_all_digits("") && !is_all_digits("1a"));
    assert!(!is_all_digits("٣"));
}

#[test]
fn masks_tell_which_characters_are_missing() {
    let mask = ascii_char_mask("aA0é~");
    assert_eq!(mask, [1u64 << 48, (1 << (97 - 64)) | (1 << (65 - 64)) | (1 << (126 - 64))]);
    assert_eq!(missing_ascii_chars(ascii_char_mask("abc"), ascii_char_mask("cab")), 0);
    assert_eq!(missing_ascii_chars(ascii_char_mask("abc"), ascii_char_mask("abx9")), 2);
    assert_eq!(missing_ascii_chars([0, 0], [u64::MAX, u64::MAX]), 128);
    assert_eq!(ascii_letter_mask("aZ-9é"), 1 | (1 << 25));
    assert_eq!(missing_ascii_letters(ascii_letter_mask("xyz"), ascii_letter_mask("XYQ")), 1);
    assert_eq!(missing_ascii_letters(0, u32::MAX), 32);
}

#[test]
fn typos_are_allowed_from_four_bytes_on() {
    assert_eq!(completion_max_typos("abc"), 0);
    assert_eq!(completion_max_typos("abcd"), 1);
    assert_eq!(completion_max_typos("éé"), 1);
    assert_eq!(dictionary_max_typos("abc"), 0);
    assert_eq!(dictionary_max_typos("abcd"), 1);
}

fn candidate(text: &str, kind: CompletionKind, seq: u64, frequency: u32) -> CompletionCandidate {
    CompletionCandidate {
        text: text.to_string(),
        kind,
        frequency,
        last_seen_seq: seq,
        key_byte_len: text.len(),
        key_ascii_mask: ascii_char_mask(text),
        key_is_ascii: text.is_ascii(),
    }
}

fn no_fuzzy(_text: &str, _query: &str) -> Option<(Vec<usize>, i32)> {
    None
}

fn some_fuzzy(_text: &str, _query: &str) -> Option<(Vec<usize>, i32)> {
    Some((vec![4, 2], 17))
}

#[test]
fn candidates_are_ranked_by_how_they_hold_the_query() {
    let c = candidate("Hello", CompletionKind::Word, 1, 1);
    let view = candidate_view("hello", &c);
    assert!(rank_candidate(view, "Hello", "hello", true, &some_fuzzy).is_none());
    let exact = rank_candidate(view, "hello", "hello", false, &no_fuzzy).unwrap();
    assert_eq!((exact.match_class, exact.fuzzy_score), (MatchClass::Exact, -1000));
    let prefix = rank_candidate(view, "HE", "he", false, &no_fuzzy).unwrap();
    assert_eq!((prefix.match_class, prefix.fuzzy_score), (MatchClass::Prefix, -500));
    assert_eq!(ranked_to_completion_match(prefix, "he").match_indices, [0, 1]);
    let inside = rank_candidate(view, "ll", "ll", false, &no_fuzzy).unwrap();
    assert_eq!((inside.match_class, inside.fuzzy_score), (MatchClass::Substring, 0));
    assert_eq!(ranked_to_completion_match(inside, "ll").match_indices, [2, 3]);
    assert!(rank_candidate(view, "xy", "xy", false, &some_fuzzy).is_none());
    assert!(rank_candidate(view, "xy", "xy", true, &no_fuzzy).is_none());
    let found = rank_candidate(view, "xy", "xy", true, &some_fuzzy).unwrap();
    assert_eq!((found.match_class, found.fuzzy_score), (MatchClass::Fuzzy, 17));
    let completion = ranked_to_completion_match(found, "xy");
    assert_eq!(completion.match_indices, [4, 2]);
    assert_eq!(completion.text, "Hello");
    assert!(rank_fuzzy_candidate(view, None).is_none());
}

#[test]
fn places_in_a_longer_text_follow_the_bytes_of_the_key() {
    // the lowercase of this text is a byte longer than the text
    let c = candidate("İx", CompletionKind::Word, 1, 1);
    let view = candidate_view("i\u{307}x", &c);
    let inside = rank_candidate(view, "x", "x", false, &no_fuzzy).unwrap();
    assert_eq!(inside.match_class, MatchClass::Substring);
    assert_eq!(ranked_to_completion_match(inside, "x").match_indices, Vec::<usize>::new());
}

fn ranked<'a>(c: &'a CompletionCandidate, class: MatchClass, score: i32) -> RankedMatch<'a> {
    RankedMatch {
        candidate: candidate_view(&c.text, c),
        match_class: class,
        fuzzy_score: score,
        match_indices: RankedMatchIndices::All,
    }
}

#[test]
fn session_matches_are_compared_field_by_field() {
    let a = candidate("aa", CompletionKind::Word, 5, 2);
    let b = candidate("b", CompletionKind::Word, 5, 2);
    let c = candidate("c", CompletionKind::Word, 5, 3);
    let d = candidate("d", CompletionKind::Word, 6, 1);
    let e = candidate("e", CompletionKind::Url, 1, 1);
    let order = [
        ranked(&a, MatchClass::Exact, 9),
        ranked(&a, MatchClass::Prefix, -3),
        ranked(&e, MatchClass::Prefix, 0),
        ranked(&d, MatchClass::Prefix, 0),
        ranked(&c, MatchClass::Prefix, 0),
        ranked(&b, MatchClass::Prefix, 0),
        ranked(&a, MatchClass::Prefix, 0),
        ranked(&a, MatchClass::Fuzzy, -9),
    ];
    for i in 0..order.len() {
        for j in 0..order.len() {
            assert_eq!(compare_ranked_matches(&order[i], &order[j]), i.cmp(&j));
        }
    }
    let mut best = Vec::new();
    for i in [5, 2, 7, 0, 3, 6, 1, 4] {
        push_top_ranked_match(
            &mut best,
            ranked(
                match i {
                    2 => &e,
                    3 => &d,
                    4 => &c,
                    5 => &b,
                    _ => &a,
                },
                order[i].match_class,
                order[i].fuzzy_score,
            ),
            3,
        );
    }
    assert_eq!(best.len(), 3);
    for i in 0..3 {
        assert_eq!(compare_ranked_matches(&best[i], &order[i]), Ordering::Equal);
    }
    push_top_ranked_match(&mut best, ranked(&a, MatchClass::Exact, 0), 0);
    assert_eq!(best.len(), 3);
}

#[test]
fn dictionary_matches_are_compared_field_by_field() {
    let word = |text: &'static str, class: MatchClass, score: i32| DictionaryRankedMatch {
        text,
        match_class: class,
        fuzzy_score: score,
        match_indices: DictionaryMatchIndices::All,
    };
    let order = [
        word("zz", MatchClass::Exact, 0),
        word("zz", MatchClass::Prefix, -500),
        word("b", MatchClass::Prefix, 0),
        word("aa", MatchClass::Prefix, 0),
        word("ab", MatchClass::Prefix, 0),
    ];
    for i in 0..order.len() {
        for j in 0..order.len() {
            assert_eq!(compare_dictionary_matches(&order[i], &order[j]), i.cmp(&j));
        }
    }
    let mut best = Vec::new();
    push_top_dictionary_match(&mut best, word("ab", MatchClass::Prefix, 0), 2);
    push_top_dictionary_match(&mut best, word("aa", MatchClass::Prefix, 0), 2);
    push_top_dictionary_match(&mut best, word("b", MatchClass::Prefix, 0), 2);
    assert_eq!(best[0].text, "b");
    assert_eq!(best[1].text, "aa");
    assert_eq!(best.len(), 2);
}

#[test]
fn words_are_ranked_by_how_they_hold_the_query() {
    assert!(rank_word("cover", "cover", "cover").is_none());
    assert!(rank_word("cover", "xy", "xy").is_none());
    assert_eq!(rank_word("cover", "Cover", "cover").unwrap().match_class, MatchClass::Exact);
    let prefix = rank_word("cover", "co", "co").unwrap();
    assert_eq!(prefix.match_class, MatchClass::Prefix);
    let completion = dictionary_match_to_completion_match(prefix, "co");
    assert_eq!(completion.match_indices, [0, 1]);
    assert_eq!(completion.kind, CompletionKind::Dictionary);
    let inside = rank_word("cover", "ver", "ver").unwrap();
    assert_eq!((inside.match_class, inside.fuzzy_score), (MatchClass::Substring, 0));
    assert_eq!(dictionary_match_to_completion_match(inside, "ver").match_indices, [2, 3, 4]);
}

#[test]
fn literal_matches_hold_the_query() {
    assert!(has_literal_match("abc", "abc") && has_literal_match("abc", "b"));
    assert!(!has_literal_match("abc", "ac"));
    assert!(dictionary_has_literal_match("abc", "bc") && !dictionary_has_literal_match("b", "bc"));
}

#[test]
fn characters_are_counted_out_by_their_bytes() {
    assert_eq!(char_indices_for_byte_range("aéb", 1..3), [1]);
    assert_eq!(char_indices_for_byte_range("aéb", 2..4), [2]);
    assert_eq!(char_indices_for_byte_range("aéb", 0..9), [0, 1, 2]);
    assert_eq!(char_indices_for_byte_range("aéb", 3..3), Vec::<usize>::new());
    assert_eq!(count_up(3), [0, 1, 2]);
    assert_eq!(ascending_of(&vec![3, 1, 3, 2, 1]), [1, 2, 3]);
}

#[test]
fn fuzzy_places_ascend() {
    assert_eq!(frizbee_match_indices("fbr", "foo_bar", 0), [0, 4, 6]);
    assert_eq!(frizbee_match_indices("xyz", "foo_bar", 0), Vec::<usize>::new());
    assert_eq!(frizbee_match_indices("foox", "foo_bar", 1), [0, 1, 2]);
    assert_eq!(alignment_places(Some(vec![6, 4, 4, 0])), [0, 4, 6]);
    assert_eq!(alignment_places(None), Vec::<usize>::new());
}

#[test]
fn kinds_have_labels_and_weights() {
    assert_eq!(CompletionKind::Word.label(), "session");
    assert_eq!(CompletionKind::Filename.label(), "file");
    assert_eq!(CompletionKind::Url.label(), "url");
    assert_eq!(CompletionKind::Dictionary.label(), "dict");
    assert_eq!(CompletionKind::Url.rank(), 3);
    assert_eq!(CompletionKind::Filename.rank(), 2);
    assert_eq!(CompletionKind::Word.rank(), 1);
    assert_eq!(CompletionKind::Dictionary.rank(), 0);
}

#[test]
fn whitespace_is_a_fixed_set() {
    let mut set = Vec::new();
    for code in 0..=0x10ffffu32 {
        if char::from_u32(code).is_some_and(is_whitespace) {
            set.push(code);
        }
    }
    let mut expected: Vec<u32> = (0x9..=0xd).collect();
    expected.extend([0x20, 0x85, 0xa0, 0x1680]);
    expected.extend(0x2000..=0x200a);
    expected.extend([0x2028, 0x2029, 0x202f, 0x205f, 0x3000]);
    assert_eq!(set, expected);
}

#[test]
fn ascii_letters_and_digits_make_words() {
    for code in 0..128u8 {
        let c = code as char;
        assert_eq!(is_word_char(c), c.is_ascii_alphanumeric() || c == '_' || c == '-');
        assert_eq!(normalize(&c.to_string()), c.to_ascii_lowercase().to_string());
    }
    assert!(is_word_char('é') && is_word_char('漢') && !is_word_char('—'));
}

#[test]
fn lowering_never_shortens_a_text() {
    for code in 0..=0x10ffffu32 {
        if let Some(c) = char::from_u32(code) {
            assert!(normalize(&c.to_string()).chars().count() >= 1);
        }
    }
}
