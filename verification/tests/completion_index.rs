use std::cell::Cell;

use prompt_autocomplete::asking::should_cancel_scan;
use prompt_autocomplete::dictionary::EnglishDictionary;
use prompt_autocomplete::index::{rank_scored, rank_scored_words, SessionCompletionIndex};
use prompt_autocomplete::ranking::{
    CandidateView, CompletionKind, CompletionMatch, MatchClass, MAX_COMPLETION_RESULTS,
};

/// The tables of a word list: one record per word, and for each pair of letters the words
/// in which they are neighbours, or follow each other at any distance.
fn dictionary(words: &[&str]) -> EnglishDictionary {
    let mut text = String::new();
    let mut records: Vec<u8> = Vec::new();
    let mut bigrams: Vec<Vec<u32>> = vec![Vec::new(); 676];
    let mut pairs: Vec<Vec<u32>> = vec![Vec::new(); 676];
    for (id, word) in words.iter().enumerate() {
        records.extend_from_slice(&(text.len() as u32).to_le_bytes());
        records.push(word.len() as u8);
        let mut mask = 0u32;
        let letters: Vec<u8> = word.bytes().collect();
        for byte in &letters {
            if byte.is_ascii_lowercase() {
                mask |= 1 << (byte - b'a');
            }
        }
        records.extend_from_slice(&mask.to_le_bytes());
        for left in 0..letters.len() {
            for right in left + 1..letters.len() {
                let (a, b) = (letters[left], letters[right]);
                if !a.is_ascii_lowercase() || !b.is_ascii_lowercase() {
                    continue;
                }
                let key = (a - b'a') as usize * 26 + (b - b'a') as usize;
                if right == left + 1 && bigrams[key].last() != Some(&(id as u32)) {
                    bigrams[key].push(id as u32);
                }
                if pairs[key].last() != Some(&(id as u32)) {
                    pairs[key].push(id as u32);
                }
            }
        }
        text.push_str(word);
        text.push('\n');
    }
    let table = |postings: &Vec<Vec<u32>>| {
        let mut headers: Vec<u8> = Vec::new();
        let mut body: Vec<u8> = Vec::new();
        for posting in postings {
            headers.extend_from_slice(&((676 * 8 + body.len()) as u32).to_le_bytes());
            headers.extend_from_slice(&(posting.len() as u32).to_le_bytes());
            for id in posting {
                body.extend_from_slice(&id.to_le_bytes());
            }
        }
        headers.extend_from_slice(&body);
        headers
    };
    EnglishDictionary::new(text, records, table(&bigrams), table(&pairs)).unwrap()
}

fn english() -> EnglishDictionary {
    dictionary(&[
        "acknowledge",
        "acknowledgment",
        "application",
        "apply",
        "candidate",
        "chat",
        "compare",
        "complete",
        "completion",
        "composer",
        "dictate",
        "dictionaries",
        "dictionary",
        "hello",
        "target",
        "visit",
    ])
}

fn session() -> SessionCompletionIndex {
    SessionCompletionIndex::with_dictionary(english())
}

/// Finds the query as a subsequence, without regard to case.
fn fuzzy(text: &str, query: &str) -> Option<(Vec<usize>, i32)> {
    let mut wanted = query.chars().flat_map(|c| c.to_lowercase()).peekable();
    let mut indices = Vec::new();
    for (i, c) in text.chars().enumerate() {
        let Some(next) = wanted.peek() else { break };
        if c.to_lowercase().next() == Some(*next) {
            indices.push(i);
            wanted.next();
        }
    }
    if wanted.peek().is_none() {
        let score = indices.last().copied().unwrap_or(0) as i32;
        Some((indices, score))
    } else {
        None
    }
}

fn texts(results: &[CompletionMatch]) -> Vec<&str> {
    results.iter().map(|result| result.text.as_str()).collect()
}

#[test]
fn indexes_words_paths_filenames_and_urls() {
    let mut index = session();
    index.ingest_text(
        "Open src/bottom_pane/chat_composer.rs and Cargo.toml, then visit https://example.com/docs?q=codex.",
    );

    assert!(index.len() >= 5);

    let file_results = index.search("chat", &fuzzy);
    assert!(file_results
        .iter()
        .any(|result| result.text == "chat_composer.rs" && result.kind == CompletionKind::Filename));

    let url_results = index.search("http", &fuzzy);
    assert_eq!(url_results[0].text, "https://example.com/docs?q=codex");
    assert_eq!(url_results[0].kind, CompletionKind::Url);
}

#[test]
fn does_not_complete_full_paths() {
    let mut index = session();
    index.ingest_text("Open src/bottom_pane/chat_composer.rs");

    assert!(!index
        .search("src/bot", &fuzzy)
        .iter()
        .any(|result| result.text == "src/bottom_pane/chat_composer.rs"));
}

#[test]
fn does_not_treat_common_dotted_tokens_as_filenames() {
    let mut index = session();
    index.ingest_text("github.com v0.1.4 crate.module foo.bar 127.0.0.1 example.local");

    for (query, candidate) in [
        ("gith", "github.com"),
        ("v0", "v0.1.4"),
        ("crate", "crate.module"),
        ("foo", "foo.bar"),
        ("127", "127.0.0.1"),
        ("exam", "example.local"),
    ] {
        assert!(
            !index
                .search_with_dictionary(query, false, &fuzzy)
                .iter()
                .any(|result| result.text == candidate && result.kind == CompletionKind::Filename),
            "{candidate} should not be a file completion"
        );
    }
}

#[test]
fn ranks_prefix_matches_before_fuzzy_matches() {
    let mut index = session();
    index.ingest_text("application a-p-p-l-e");

    let results = index.search("app", &fuzzy);
    assert_eq!(results[0].text, "application");
    assert!(
        results
            .iter()
            .position(|result| result.text == "application")
            .unwrap()
            < results
                .iter()
                .position(|result| result.text == "a-p-p-l-e")
                .unwrap()
    );
}

#[test]
fn fuzzy_matches_non_contiguous_queries() {
    let mut index = session();
    index.ingest_text("bottom_pane_completion_popup");

    let results = index.search("bpcp", &fuzzy);
    assert_eq!(results[0].text, "bottom_pane_completion_popup");
    assert!(!results[0].match_indices.is_empty());
}

#[test]
fn does_not_return_identical_candidate() {
    let mut index = session();
    index.ingest_text("hello");

    assert!(!index
        .search("hello", &fuzzy)
        .iter()
        .any(|result| result.text == "hello"));
}

#[test]
fn returns_dictionary_words_as_fallback() {
    let index = session();

    let results = index.search("dictio", &fuzzy);
    assert!(results
        .iter()
        .any(|result| result.text == "dictionary" && result.kind == CompletionKind::Dictionary));
}

#[test]
fn ranks_session_words_before_dictionary_words() {
    let mut index = session();
    index.ingest_text("dictionary-like");

    let results = index.search("dict", &fuzzy);
    assert_eq!(results[0].text, "dictionary-like");
    assert_eq!(results[0].kind, CompletionKind::Word);
}

#[test]
fn fuzzy_matches_dictionary_words() {
    let index = session();

    let results = index.search("aknwlg", &fuzzy);
    assert!(results.iter().any(|result| result.text == "acknowledgment"
        && result.kind == CompletionKind::Dictionary
        && !result.match_indices.is_empty()));
}

#[test]
fn search_can_be_cancelled_during_candidate_scan() {
    let mut index = session();
    for i in 0..300 {
        index.ingest_text(&format!("asynchronous_candidate_{i}"));
    }
    let cancel_checks = Cell::new(0usize);
    let is_cancelled = |_number: u64| {
        cancel_checks.set(cancel_checks.get().saturating_add(1));
        cancel_checks.get() > 1
    };

    let results = index.search_with_dictionary_cancellable("asyn", true, &is_cancelled, &fuzzy);

    assert_eq!(results, None);
    assert!(cancel_checks.get() > 1);
}

#[test]
fn prefix_matches_do_not_scan_unrelated_candidates() {
    let mut index = session();
    for i in 0..300 {
        index.ingest_text(&format!("unrelated_candidate_{i}"));
    }
    for i in 0..MAX_COMPLETION_RESULTS {
        index.ingest_text(&format!("target_candidate_{i}"));
    }
    let cancel_checks = Cell::new(0usize);
    let is_cancelled = |_number: u64| {
        cancel_checks.set(cancel_checks.get().saturating_add(1));
        cancel_checks.get() > 1
    };

    let results = index
        .search_with_dictionary_cancellable("target", false, &is_cancelled, &fuzzy)
        .unwrap();

    assert_eq!(cancel_checks.get(), 1);
    assert_eq!(results.len(), MAX_COMPLETION_RESULTS);
    assert!(results
        .iter()
        .all(|result| result.text.starts_with("target_candidate_")));
}

#[test]
fn dictionary_does_not_duplicate_session_words() {
    let mut index = session();
    index.ingest_text("completion");

    let results = index.search("comp", &fuzzy);
    assert_eq!(
        results
            .iter()
            .filter(|result| result.text == "completion")
            .count(),
        1
    );
    let completion = results
        .iter()
        .find(|result| result.text == "completion")
        .unwrap();
    assert_eq!(completion.kind, CompletionKind::Word);
}

#[test]
fn the_index_without_dictionary_offers_no_words() {
    let index = SessionCompletionIndex::without_dictionary();
    assert_eq!(index.len(), 0);
    assert_eq!(index.search("dictio", &fuzzy), Vec::new());
}

#[test]
fn short_queries_find_nothing() {
    let mut index = session();
    index.ingest_text("hello");
    assert_eq!(index.search("h", &fuzzy), Vec::new());
    assert_eq!(index.search("", &fuzzy), Vec::new());
    assert!(index.is_searchable("h"));
}

#[test]
fn candidates_are_kept_under_their_lowercase() {
    let mut index = SessionCompletionIndex::without_dictionary();
    index.add_candidate("  HeLLo ".to_string(), CompletionKind::Word);
    index.add_candidate("hello".to_string(), CompletionKind::Word);
    assert_eq!(index.len(), 1);
    let results = index.search("hel", &fuzzy);
    assert_eq!(texts(&results), ["hello"]);
    assert_eq!(results[0].match_indices, [0, 1, 2]);
}

#[test]
fn a_heavier_kind_keeps_its_text() {
    let mut index = SessionCompletionIndex::without_dictionary();
    index.add_candidate("Read.me".to_string(), CompletionKind::Url);
    index.add_candidate("read.ME".to_string(), CompletionKind::Filename);
    let results = index.search("rea", &fuzzy);
    assert_eq!(texts(&results), ["Read.me"]);
    assert_eq!(results[0].kind, CompletionKind::Url);
    index.add_candidate("READ.me".to_string(), CompletionKind::Url);
    assert_eq!(texts(&index.search("rea", &fuzzy)), ["READ.me"]);
}

#[test]
fn texts_that_are_not_fit_are_not_kept() {
    let mut index = SessionCompletionIndex::without_dictionary();
    index.add_candidate("x".to_string(), CompletionKind::Word);
    index.add_candidate("   y   ".to_string(), CompletionKind::Word);
    index.add_candidate("12345".to_string(), CompletionKind::Word);
    index.add_candidate("z".repeat(301), CompletionKind::Word);
    assert_eq!(index.len(), 0);
    index.add_candidate("z".repeat(300), CompletionKind::Word);
    index.add_candidate("1a".to_string(), CompletionKind::Word);
    assert_eq!(index.len(), 2);
}

#[test]
fn an_exact_match_in_other_case_comes_first() {
    let mut index = SessionCompletionIndex::without_dictionary();
    index.ingest_text("Hello helloworld");
    let results = index.search("hello", &fuzzy);
    assert_eq!(texts(&results), ["Hello", "helloworld"]);
    assert_eq!(results[0].match_indices, [0, 1, 2, 3, 4]);
    assert_eq!(results[1].match_indices, [0, 1, 2, 3, 4]);
}

#[test]
fn urls_come_before_files_and_files_before_words() {
    let mut index = SessionCompletionIndex::without_dictionary();
    index.add_candidate("abc-url".to_string(), CompletionKind::Url);
    index.add_candidate("abc-file".to_string(), CompletionKind::Filename);
    index.add_candidate("abc-word".to_string(), CompletionKind::Word);
    assert_eq!(
        texts(&index.search("abc", &fuzzy)),
        ["abc-url", "abc-file", "abc-word"]
    );
}

#[test]
fn what_was_seen_last_comes_first() {
    let mut index = SessionCompletionIndex::without_dictionary();
    index.ingest_text("alpha1 alpha2 alpha3");
    assert_eq!(texts(&index.search("alp", &fuzzy)), ["alpha3", "alpha2", "alpha1"]);
    index.ingest_text("alpha1");
    assert_eq!(texts(&index.search("alp", &fuzzy)), ["alpha1", "alpha3", "alpha2"]);
}

#[test]
fn no_more_than_eight_are_returned_and_none_twice() {
    let mut index = session();
    for i in 0..20 {
        index.ingest_text(&format!("item_{i} Item_{i}"));
    }
    assert_eq!(index.len(), 20);
    let results = index.search("item", &fuzzy);
    assert_eq!(results.len(), 8);
    for i in 0..8 {
        for j in 0..i {
            assert_ne!(results[i].text, results[j].text);
        }
    }
}

#[test]
fn a_substring_is_no_session_match_but_a_dictionary_match() {
    let mut index = SessionCompletionIndex::with_dictionary(dictionary(&["uncover", "zzcoverzz"]));
    index.ingest_text("discover");
    let results = index.search("cover", &fuzzy);
    assert_eq!(texts(&results), ["uncover", "zzcoverzz"]);
    assert_eq!(results[0].match_indices, [2, 3, 4, 5, 6]);
    assert_eq!(results[0].kind, CompletionKind::Dictionary);
}

#[test]
fn dictionary_matches_are_ranked_by_class_length_and_text() {
    let index = SessionCompletionIndex::with_dictionary(dictionary(&[
        "recompile", "compiles", "compiler", "compile", "compilation",
    ]));
    let results = index.search("COMPILE", &fuzzy);
    assert_eq!(
        texts(&results)[..4],
        ["compile", "compiler", "compiles", "recompile"]
    );
    assert_eq!(results[0].match_indices, [0, 1, 2, 3, 4, 5, 6]);
    assert_eq!(results[3].match_indices, [2, 3, 4, 5, 6, 7, 8]);
}

#[test]
fn fuzzy_matches_allow_one_typo_from_four_bytes_on() {
    let mut index = SessionCompletionIndex::without_dictionary();
    index.ingest_text("configuration");
    assert_eq!(texts(&index.search("cxfig", &fuzzy)), ["configuration"]);
    assert_eq!(texts(&index.search("cfg", &fuzzy)), ["configuration"]);
    assert_eq!(index.search("cxg", &fuzzy), Vec::new());
}

#[test]
fn the_fuzzy_matcher_says_which_characters_matched() {
    let mut index = SessionCompletionIndex::without_dictionary();
    index.ingest_text("a-p-p-l-e");
    let results = index.search("apple", &fuzzy);
    assert_eq!(texts(&results), ["a-p-p-l-e"]);
    assert_eq!(results[0].match_indices, [0, 2, 4, 6, 8]);
}

#[test]
fn other_scripts_go_to_the_plain_matcher() {
    let mut index = SessionCompletionIndex::without_dictionary();
    index.ingest_text("Übergröße naïveté");
    let results = index.search("über", &fuzzy);
    assert_eq!(results[0].text, "Übergröße");
    let results = index.search("ügr", &fuzzy);
    assert_eq!(texts(&results), ["Übergröße"]);
    assert_eq!(results[0].match_indices, [0, 4, 5]);
    let results = index.search("nvt", &fuzzy);
    assert_eq!(texts(&results), ["naïveté"]);
    assert_eq!(results[0].match_indices, [0, 3, 5]);
}

#[test]
fn a_query_in_another_script_finds_no_words() {
    let index = session();
    assert_eq!(index.search("dictionäry", &fuzzy), Vec::new());
}

#[test]
fn a_query_that_is_too_long_is_not_searched_for() {
    let mut index = session();
    index.ingest_text("hello");
    let long = "a".repeat(3276);
    assert!(!index.is_searchable(&long));
    assert_eq!(index.try_search(&long, true, &fuzzy), None);
    let longest = "a".repeat(3275);
    assert!(index.is_searchable(&longest));
    assert_eq!(index.try_search(&longest, true, &fuzzy), Some(Vec::new()));
    assert_eq!(index.try_search("hell", false, &fuzzy).unwrap().len(), 1);
    assert_eq!(index.try_search("dictio", true, &fuzzy).unwrap().len(), 2);
}

#[test]
fn a_cancelled_search_returns_nothing() {
    let index = session();
    let always = |_number: u64| true;
    assert_eq!(
        index.search_with_dictionary_cancellable("dict", true, &always, &fuzzy),
        None
    );
    assert_eq!(
        index.search_with_dictionary_cancellable("d", true, &always, &fuzzy),
        Some(Vec::new())
    );
}

#[test]
fn a_scan_asks_at_every_128th_candidate() {
    let mut scanned = 0usize;
    let yes = |_number: u64| true;
    let mut asked = 5u64;
    for _ in 0..127 {
        assert!(!should_cancel_scan(&mut scanned, &yes, &mut asked));
    }
    assert!(should_cancel_scan(&mut scanned, &yes, &mut asked));
    assert_eq!((scanned, asked), (128, 6));
    let no = |_number: u64| false;
    let mut scanned = 127usize;
    assert!(!should_cancel_scan(&mut scanned, &no, &mut asked));
    assert_eq!((scanned, asked), (128, 7));
    let mut last = usize::MAX;
    assert!(!should_cancel_scan(&mut last, &yes, &mut asked));
    assert_eq!((last, asked), (usize::MAX, 7));
}

#[test]
fn parts_of_the_search_can_be_run_alone() {
    let mut index = session();
    index.ingest_text("target tarmac naïve_target");
    let never = |_number: u64| false;
    let asked = &mut 0u64;
    let literal = index
        .session_literal_matches("tar", "tar", 8, &never, asked)
        .unwrap();
    assert_eq!(literal.len(), 2);
    assert_eq!(literal[0].candidate.text, "tarmac");
    assert_eq!(literal[0].match_class, MatchClass::Prefix);
    assert_eq!(literal[0].fuzzy_score, -500);
    let plain = index
        .session_legacy_fuzzy_matches("ntgt", "ntgt", true, 8, &never, asked, &fuzzy)
        .unwrap();
    assert_eq!(plain.len(), 1);
    assert_eq!(plain[0].candidate.text, "naïve_target");
    assert_eq!(plain[0].match_class, MatchClass::Fuzzy);
    let scored = index
        .session_fuzzy_matches("trgt", "trgt", 8, &never, asked, &fuzzy)
        .unwrap();
    assert!(scored.iter().any(|m| m.candidate.text == "target" && m.fuzzy_score < 0));
    assert_eq!(
        index
            .session_fuzzy_matches("trgt", "trgt", 0, &never, asked, &fuzzy)
            .unwrap()
            .len(),
        0
    );
    let words = index
        .dictionary_literal_matches("comp", "comp", 2, &never, asked)
        .unwrap();
    assert_eq!(words.len(), 2);
    assert_eq!(words[0].text, "compare");
    assert_eq!(words[1].text, "complete");
    let words = index.dictionary_fuzzy_matches("cmplt", 8, &never, asked).unwrap();
    assert!(words.iter().any(|m| m.text == "complete"));
    assert_eq!(index.dictionary_fuzzy_matches("cmp", 8, &never, asked).unwrap().len(), 0);
    let results = index.search_dictionary("comp", "comp", 3, &never, asked).unwrap();
    assert_eq!(texts(&results), ["compare", "complete", "composer"]);
}

#[test]
fn questions_are_numbered_in_their_order() {
    let mut index = session();
    for i in 0..300 {
        index.ingest_text(&format!("asynchronous_candidate_{i}"));
    }
    let numbers = std::cell::RefCell::new(Vec::new());
    let note = |number: u64| {
        numbers.borrow_mut().push(number);
        false
    };
    // one at the start, two among the 300 candidates that the query heads
    let found = index.search_with_dictionary_cancellable("asyn", true, &note, &fuzzy);
    assert_eq!(found.unwrap().len(), MAX_COMPLETION_RESULTS);
    assert_eq!(numbers.borrow_mut().drain(..).collect::<Vec<u64>>(), [0, 1, 2]);
    let mut asked = 40u64;
    let found = index.search_asking("asyn", true, &note, &mut asked, &fuzzy);
    assert!(found.is_some());
    assert_eq!(asked, 43);
    assert_eq!(numbers.borrow_mut().drain(..).collect::<Vec<u64>>(), [40, 41, 42]);
    // the first yes ends the search, whichever it is
    for last in 0..3u64 {
        let stop = |number: u64| number == last;
        let mut asked = 0u64;
        assert_eq!(index.search_asking("asyn", true, &stop, &mut asked, &fuzzy), None);
        assert_eq!(asked, last + 1);
    }
    let never = |number: u64| number == 3;
    assert!(index.search_with_dictionary_cancellable("asyn", true, &never, &fuzzy).is_some());
    // a query that heads nothing: the start, and twice the candidates
    let found = index.search_with_dictionary_cancellable("qzxv", false, &note, &fuzzy);
    assert_eq!(found, Some(Vec::new()));
    assert_eq!(numbers.borrow_mut().drain(..).collect::<Vec<u64>>(), [0, 1, 2, 3, 4]);
}

fn view<'a>(text: &'a str) -> CandidateView<'a> {
    CandidateView {
        text,
        key: text,
        kind: CompletionKind::Word,
        frequency: 1,
        last_seen_seq: 0,
        key_byte_len: text.len(),
        key_ascii_mask: [0, 0],
        key_is_ascii: true,
    }
}

#[test]
fn what_the_matcher_reports_is_ranked_by_its_scores() {
    let never = |_number: u64| false;
    let asked = &mut 0u64;
    let sent = vec![view("alpha"), view("beta"), view("gamma"), view("pi")];
    let report = vec![(2, 9u16), (0, 5), (3, 7)];
    let ranked = rank_scored(&sent, &report, 1, 2, &never, asked).unwrap();
    let found: Vec<(&str, i32)> =
        ranked.iter().map(|m| (m.candidate.text, m.fuzzy_score)).collect();
    assert_eq!(found, [("gamma", -9), ("pi", -7)]);
    assert!(ranked.iter().all(|m| m.match_class == MatchClass::Fuzzy));
    let words = vec!["alpha", "beta", "gamma", "pi"];
    let report = vec![(1, 4u16), (0, 4), (3, 4), (2, 65535)];
    let ranked = rank_scored_words(&words, &report, 1, 3, &never, asked).unwrap();
    let found: Vec<(&str, i32)> = ranked.iter().map(|m| (m.text, m.fuzzy_score)).collect();
    assert_eq!(found, [("gamma", -65535), ("pi", -4), ("beta", -4)]);
    assert_eq!(rank_scored_words(&words, &report, 1, 0, &never, asked).unwrap().len(), 0);
    assert_eq!(*asked, 0);
    let report = vec![(0, 1u16); 130];
    let words = vec!["alpha"];
    assert_eq!(rank_scored_words(&words, &report, 1, 200, &never, asked).unwrap().len(), 130);
    assert_eq!(*asked, 1);
    let stop = |number: u64| number == 1;
    assert!(rank_scored_words(&words, &report, 1, 200, &stop, asked).is_none());
    assert_eq!(*asked, 2);
    let stop = |number: u64| number == 2;
    assert!(rank_scored(&vec![view("pi")], &report, 1, 200, &stop, asked).is_none());
}

#[test]
fn a_fuzzy_word_lacks_at_most_one_letter() {
    let index = session();
    let mut seen = 0;
    for query in ["cmplt", "aknwlg", "dictonry", "cmpltx", "applz", "trgt", "xyzw"] {
        for result in index.try_search(query, true, &fuzzy).unwrap() {
            let mut letters: Vec<char> = query.chars().collect();
            letters.sort();
            letters.dedup();
            letters.retain(|letter| !result.text.contains(*letter));
            assert!(letters.len() <= 1, "{query} {}", result.text);
            seen += 1;
        }
    }
    assert!(seen > 0);
}

#[test]
fn the_dictionary_only_fills_the_rest() {
    let mut index = session();
    index.ingest_text("Completion comma complicated Compare compare");
    for query in ["comp", "co", "cmplt", "acknw", "dict", "x", "Comp"] {
        let without = index.search_with_dictionary(query, false, &fuzzy);
        let with = index.search_with_dictionary(query, true, &fuzzy);
        assert_eq!(without[..], with[..without.len()]);
        assert!(with[without.len()..]
            .iter()
            .all(|result| result.kind == CompletionKind::Dictionary));
        let mut lowered: Vec<String> =
            with.iter().map(|result| result.text.to_lowercase()).collect();
        lowered.sort();
        lowered.dedup();
        assert_eq!(lowered.len(), with.len());
    }
    for i in 0..9 {
        index.ingest_text(&format!("compact{i}"));
    }
    let without = index.search_with_dictionary("comp", false, &fuzzy);
    assert_eq!(without.len(), MAX_COMPLETION_RESULTS);
    assert_eq!(without, index.search_with_dictionary("comp", true, &fuzzy));
}

#[test]
fn candidates_have_no_whitespace_around_them() {
    let mut index = SessionCompletionIndex::without_dictionary();
    index.add_candidate("\u{2003}spaced out \n".to_string(), CompletionKind::Word);
    assert_eq!(index.len(), 1);
    assert_eq!(texts(&index.search("spa", &fuzzy)), ["spaced out"]);
}
