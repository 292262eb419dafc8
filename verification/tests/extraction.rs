use prompt_autocomplete::extract::{
    basename, extract_candidates, extract_from_token, extract_words, is_outer_token_punctuation,
    is_trailing_token_punctuation, is_word_char, looks_like_filename, looks_like_path,
    push_word_candidate, trim_token, trim_trailing_token_punctuation,
};
use prompt_autocomplete::ranking::CompletionKind;

fn token(raw: &str) -> Option<(String, CompletionKind)> {
    let mut found = Vec::new();
    extract_from_token(raw, &mut found);
    assert!(found.len() <= 1);
    found.pop()
}

#[test]
fn tokens_are_freed_of_punctuation() {
    assert_eq!(trim_token("\"(foo.rs),\""), "foo.rs");
    assert_eq!(trim_token("`x`."), "x`");
    assert_eq!(trim_token("..."), "");
    assert_eq!(trim_trailing_token_punctuation("a.b.:;"), "a.b");
    assert_eq!(trim_trailing_token_punctuation("(é)"), "(é");
}

#[test]
fn punctuation_is_told_by_its_place() {
    assert!(is_outer_token_punctuation('`'));
    assert!(!is_outer_token_punctuation('.'));
    assert!(is_trailing_token_punctuation('.'));
    assert!(!is_trailing_token_punctuation('('));
    assert!(is_word_char('_') && is_word_char('-') && is_word_char('ß') && is_word_char('7'));
    assert!(!is_word_char('.') && !is_word_char(' '));
}

#[test]
fn addresses_are_found_inside_tokens() {
    assert_eq!(
        token("see:https://example.com/a."),
        Some(("https://example.com/a".to_string(), CompletionKind::Url))
    );
    assert_eq!(
        token("http://x/https://y"),
        Some(("https://y".to_string(), CompletionKind::Url))
    );
    assert_eq!(
        token("xhttp://y"),
        Some(("http://y".to_string(), CompletionKind::Url))
    );
    assert_eq!(
        token("https://"),
        Some(("https://".to_string(), CompletionKind::Url))
    );
}

#[test]
fn paths_are_cut_to_their_filenames() {
    assert_eq!(
        token("src/a/b.rs"),
        Some(("b.rs".to_string(), CompletionKind::Filename))
    );
    assert_eq!(
        token("C:\\x\\y.TOML"),
        Some(("y.TOML".to_string(), CompletionKind::Filename))
    );
    assert_eq!(token("src/a/"), None);
    assert_eq!(token("src/a"), None);
    assert_eq!(token("//"), None);
    assert_eq!(token(""), None);
}

#[test]
fn filenames_have_known_extensions() {
    assert_eq!(
        token("Cargo.toml,"),
        Some(("Cargo.toml".to_string(), CompletionKind::Filename))
    );
    assert!(looks_like_filename("x.tar.md"));
    assert!(looks_like_filename("x.YML"));
    assert!(!looks_like_filename(".bash"));
    assert!(!looks_like_filename("x.exe"));
    assert!(!looks_like_filename("x"));
    assert!(!looks_like_filename("x."));
    assert!(!looks_like_filename("--.rs"));
    assert!(!looks_like_filename("a/b.rs"));
    assert!(!looks_like_filename(""));
}

#[test]
fn paths_have_a_separator_and_something_to_name() {
    assert!(looks_like_path("a/b"));
    assert!(looks_like_path("\\x"));
    assert!(!looks_like_path("/"));
    assert!(!looks_like_path("ab"));
    assert!(!looks_like_path("http://a/b"));
    assert!(looks_like_path("xhttp://a/b"));
    assert_eq!(basename("a/b\\c"), Some("c"));
    assert_eq!(basename("ü/ö"), Some("ö"));
    assert_eq!(basename("abc"), Some("abc"));
    assert_eq!(basename("a/"), None);
    assert_eq!(basename(""), None);
}

#[test]
fn words_are_runs_of_word_characters() {
    let mut found = Vec::new();
    extract_words("a bc, 12 d3-e_f! ünï", &mut found);
    let words: Vec<&str> = found.iter().map(|(word, _)| word.as_str()).collect();
    assert_eq!(words, ["bc", "d3-e_f", "ünï"]);
    assert!(found.iter().all(|(_, kind)| *kind == CompletionKind::Word));
    let mut found = Vec::new();
    push_word_candidate("12", &mut found);
    push_word_candidate("x", &mut found);
    push_word_candidate("x1", &mut found);
    assert_eq!(found, [("x1".to_string(), CompletionKind::Word)]);
}

#[test]
fn tokens_come_before_words() {
    assert_eq!(
        extract_candidates("see a/main.rs now"),
        [
            ("main.rs".to_string(), CompletionKind::Filename),
            ("see".to_string(), CompletionKind::Word),
            ("main".to_string(), CompletionKind::Word),
            ("rs".to_string(), CompletionKind::Word),
            ("now".to_string(), CompletionKind::Word),
        ]
    );
    assert_eq!(extract_candidates(" \t\u{3000} "), Vec::new());
}
