use std::cell::Cell;
use std::ops::Range;

use prompt_autocomplete::autocomplete::{
    CompletionContext, KeyOutcome, PromptAutocomplete, PromptAutocompleteResult,
    PromptAutocompleteSearch, PromptAutocompleteSearchRequest, SearchKey,
};
use prompt_autocomplete::index::SessionCompletionIndex;
use prompt_autocomplete::keys::{
    bound_key, KeyCode, KeyEvent, KeyEventKind, KeyModifiers, PopupKey,
};
use prompt_autocomplete::popup::ScreenRect;
use prompt_autocomplete::ranking::{CompletionKind, CompletionMatch};
use prompt_autocomplete::worker::{
    drain_pending_worker_messages, ingest_lines, report_search, run_prompt_autocomplete_search,
    run_prompt_autocomplete_worker, DrainStep, PromptAutocompleteWorkerMessage, QueueLook,
    WorkerStep,
};

fn context(query: &str, token_range: Range<usize>) -> Option<CompletionContext> {
    Some(CompletionContext { query: query.to_string(), token_range })
}

fn key(code: KeyCode, modifiers: KeyModifiers) -> KeyEvent {
    KeyEvent { code, modifiers, kind: KeyEventKind::Press }
}

fn matches(texts: &[&str]) -> Vec<CompletionMatch> {
    texts
        .iter()
        .map(|text| CompletionMatch {
            text: text.to_string(),
            kind: CompletionKind::Word,
            match_indices: Vec::new(),
        })
        .collect()
}

fn result(request: &PromptAutocompleteSearchRequest, texts: &[&str]) -> PromptAutocompleteResult {
    PromptAutocompleteResult {
        request_id: request.request_id,
        query: request.key.query.clone(),
        token_range: request.key.token_range.clone(),
        dictionary_enabled: request.key.dictionary_enabled,
        matches: matches(texts),
    }
}

/// Completion with a popup for the token "wo" at 0..2.
fn with_popup(texts: &[&str]) -> PromptAutocomplete {
    let mut typing = PromptAutocomplete::new();
    let request = typing.sync(context("wo", 0..2), false).request.unwrap();
    assert!(typing.on_search_result(result(&request, texts), context("wo", 0..2), false));
    assert!(typing.popup_active());
    typing
}

fn no_fuzzy(_text: &str, _query: &str) -> Option<(Vec<usize>, i32)> {
    None
}

#[test]
fn a_token_is_searched_for_once() {
    let mut typing = PromptAutocomplete::new();
    let outcome = typing.sync(context("wo", 0..2), false);
    assert!(!outcome.redraw);
    let request = outcome.request.unwrap();
    assert_eq!(request.request_id, 1);
    assert_eq!(request.key.query, "wo");
    assert_eq!(request.key.token_range, 0..2);
    assert!(request.key.dictionary_enabled);
    assert_eq!(typing.latest_request_id(), 1);
    assert!(typing.sync(context("wo", 0..2), false).request.is_none());
    assert_eq!(typing.latest_request_id(), 1);
    assert_eq!(typing.sync(context("wor", 0..3), false).request.unwrap().request_id, 2);
    assert_eq!(typing.sync(context("wor", 1..4), false).request.unwrap().request_id, 3);
}

#[test]
fn nothing_is_searched_for_without_a_token() {
    let mut typing = with_popup(&["word"]);
    let outcome = typing.sync(None, false);
    assert!(outcome.redraw && outcome.request.is_none());
    assert!(!typing.popup_active());
    assert_eq!(typing.latest_request_id(), 2);
    let mut typing = with_popup(&["word"]);
    let outcome = typing.sync(context("wo", 0..2), true);
    assert!(outcome.redraw && outcome.request.is_none());
    assert!(!typing.sync(context("wo", 0..2), true).redraw);
    assert_eq!(typing.sync(context("wo", 0..2), false).request.unwrap().request_id, 4);
}

#[test]
fn results_that_are_not_awaited_change_nothing() {
    let mut typing = PromptAutocomplete::new();
    let first = typing.sync(context("wo", 0..2), false).request.unwrap();
    let second = typing.sync(context("wor", 0..3), false).request.unwrap();
    assert!(!typing.on_search_result(result(&first, &["word"]), context("wor", 0..3), false));
    assert!(!typing.popup_active());
    // the cursor went on
    assert!(!typing.on_search_result(result(&second, &["word"]), context("word", 0..4), false));
    assert!(!typing.on_search_result(result(&second, &["word"]), None, false));
    // another setting of the dictionary
    let mut other = result(&second, &["word"]);
    other.dictionary_enabled = false;
    assert!(!typing.on_search_result(other, context("wor", 0..3), false));
    assert!(typing.on_search_result(result(&second, &["word"]), context("wor", 0..3), false));
    assert!(typing.popup_active());
    // no completions any more
    assert!(typing.on_search_result(result(&second, &[]), context("wor", 0..3), false));
    assert!(!typing.popup_active());
    assert!(!typing.on_search_result(result(&second, &[]), context("wor", 0..3), false));
}

#[test]
fn a_popup_in_the_way_goes() {
    let mut typing = with_popup(&["word"]);
    let request = PromptAutocompleteSearchRequest {
        request_id: 1,
        key: SearchKey::new(&context("wo", 0..2).unwrap(), true),
    };
    assert!(typing.on_search_result(result(&request, &["word"]), context("wo", 0..2), true));
    assert!(!typing.popup_active());
    let mut typing = with_popup(&["word"]);
    assert!(typing.clear_popup());
    assert!(!typing.clear_popup());
}

#[test]
fn settings_start_the_search_again() {
    let mut typing = with_popup(&["word"]);
    let outcome = typing.set_config(true, true, context("wo", 0..2), false);
    assert!(!outcome.redraw && outcome.request.is_none());
    let outcome = typing.set_config(true, false, context("wo", 0..2), false);
    let request = outcome.request.unwrap();
    assert_eq!((request.request_id, request.key.dictionary_enabled), (2, false));
    let outcome = typing.set_config(false, false, context("wo", 0..2), false);
    assert!(outcome.redraw && outcome.request.is_none());
    assert!(!typing.popup_active());
    assert!(typing.sync(context("wo", 0..2), false).request.is_none());
    assert!(matches!(
        typing.handle_key_event(key(KeyCode::Tab, KeyModifiers::Plain), None),
        KeyOutcome::Ignored
    ));
    assert!(typing.ingest_history_cell(vec![vec!["x".to_string()]]).is_none());
    assert_eq!(typing.set_config(true, false, context("wo", 0..2), false).request.unwrap().request_id, 5);
}

#[test]
fn keys_are_bound_to_the_popup() {
    let bound = |code, modifiers| bound_key(key(code, modifiers));
    assert_eq!(bound(KeyCode::BackTab, KeyModifiers::Other), PopupKey::Previous);
    assert_eq!(bound(KeyCode::Tab, KeyModifiers::Shift), PopupKey::Previous);
    assert_eq!(bound(KeyCode::Tab, KeyModifiers::Plain), PopupKey::Next);
    assert_eq!(bound(KeyCode::Down, KeyModifiers::Other), PopupKey::Next);
    assert_eq!(bound(KeyCode::Up, KeyModifiers::Plain), PopupKey::Previous);
    assert_eq!(bound(KeyCode::Char('n'), KeyModifiers::Control), PopupKey::Next);
    assert_eq!(bound(KeyCode::Char('p'), KeyModifiers::Control), PopupKey::Previous);
    assert_eq!(bound(KeyCode::Char('n'), KeyModifiers::Plain), PopupKey::Unbound);
    assert_eq!(bound(KeyCode::Char('x'), KeyModifiers::Control), PopupKey::Unbound);
    assert_eq!(bound(KeyCode::Enter, KeyModifiers::Plain), PopupKey::Accept);
    assert_eq!(bound(KeyCode::Enter, KeyModifiers::Shift), PopupKey::Unbound);
    assert_eq!(bound(KeyCode::Esc, KeyModifiers::Shift), PopupKey::Dismiss);
    assert_eq!(bound(KeyCode::Other, KeyModifiers::Plain), PopupKey::Unbound);
}

#[test]
fn accepting_replaces_the_token_and_leaves_it_alone() {
    let mut typing = with_popup(&["word", "world"]);
    assert!(matches!(
        typing.handle_key_event(key(KeyCode::Down, KeyModifiers::Plain), context("wo", 0..2)),
        KeyOutcome::Handled
    ));
    match typing.handle_key_event(key(KeyCode::Enter, KeyModifiers::Plain), context("wo", 0..2)) {
        KeyOutcome::Replace { range, replacement } => {
            assert_eq!(range, 0..2);
            assert_eq!(replacement, "world");
        }
        _ => panic!("not accepted"),
    }
    assert!(!typing.popup_active());
    assert_eq!(typing.latest_request_id(), 2);
    assert!(typing.sync(context("world", 0..5), false).request.is_none());
    assert!(typing.sync(context("worl", 0..4), false).request.is_some());
}

#[test]
fn a_popup_for_another_token_accepts_nothing() {
    let mut typing = with_popup(&["word"]);
    let enter = key(KeyCode::Enter, KeyModifiers::Plain);
    assert!(matches!(
        typing.handle_key_event(enter, context("wor", 0..3)),
        KeyOutcome::Handled
    ));
    assert!(typing.popup_active());
    assert!(matches!(typing.handle_key_event(enter, None), KeyOutcome::Handled));
    assert!(typing.popup_active());
}

#[test]
fn a_dismissed_token_stays_away() {
    let mut typing = with_popup(&["word"]);
    let esc = key(KeyCode::Esc, KeyModifiers::Plain);
    assert!(matches!(
        typing.handle_key_event(esc, context("wo", 0..2)),
        KeyOutcome::Handled
    ));
    assert!(!typing.popup_active());
    assert!(typing.sync(context("wo", 0..2), false).request.is_none());
    assert!(typing.sync(context("wor", 0..3), false).request.is_some());
    assert!(typing.sync(context("wo", 0..2), false).request.is_some());
    // without a token at the cursor it is the popup's
    let mut typing = with_popup(&["word"]);
    typing.handle_key_event(esc, None);
    assert!(typing.sync(context("wo", 0..2), false).request.is_none());
}

#[test]
fn other_keys_are_left_to_others() {
    let mut typing = with_popup(&["word"]);
    let x = key(KeyCode::Char('x'), KeyModifiers::Plain);
    assert!(matches!(
        typing.handle_key_event(x, context("wo", 0..2)),
        KeyOutcome::Ignored
    ));
    let mut released = key(KeyCode::Tab, KeyModifiers::Plain);
    released.kind = KeyEventKind::Release;
    assert!(matches!(
        typing.handle_key_event(released, context("wo", 0..2)),
        KeyOutcome::Ignored
    ));
    let mut typing = PromptAutocomplete::new();
    for code in [KeyCode::Tab, KeyCode::Up, KeyCode::Enter, KeyCode::Esc] {
        assert!(matches!(
            typing.handle_key_event(key(code, KeyModifiers::Plain), context("wo", 0..2)),
            KeyOutcome::Ignored
        ));
    }
}

#[test]
fn lines_are_joined_for_the_index() {
    let mut typing = with_popup(&["word"]);
    let lines = typing
        .ingest_history_cell(vec![
            vec!["ab".to_string(), "cd".to_string()],
            Vec::new(),
            vec!["é".to_string()],
        ])
        .unwrap();
    assert_eq!(lines, ["abcd", "", "é"]);
    // what was awaited is searched for again
    assert!(typing.sync(context("wo", 0..2), false).request.is_some());
    assert!(typing.ingest_history_cell(Vec::new()).is_none());
}

#[test]
fn the_popup_is_placed_above_the_cursor() {
    let typing = with_popup(&["word", "world"]);
    // "world", "session", room and border; two rows and border
    let area = |x, y| ScreenRect { x, y, width: 18, height: 4 };
    assert_eq!(typing.overlay_area(false, 5, 20, 80, 24), Some(area(5, 15)));
    assert_eq!(typing.overlay_area(false, 79, 20, 80, 24), Some(area(62, 15)));
    assert_eq!(typing.overlay_area(false, 5, 3, 80, 24), Some(area(5, 0)));
    assert_eq!(typing.overlay_area(false, 5, 200, 80, 24), Some(area(5, 20)));
    assert_eq!(
        typing.overlay_area(false, 5, 5, 10, 3),
        Some(ScreenRect { x: 0, y: 0, width: 10, height: 3 })
    );
    assert_eq!(typing.overlay_area(true, 5, 20, 80, 24), None);
    assert_eq!(typing.overlay_area(false, 5, 20, 0, 24), None);
    assert_eq!(typing.overlay_area(false, 5, 20, 80, 0), None);
    assert_eq!(PromptAutocomplete::new().overlay_area(false, 5, 20, 80, 24), None);
    assert_eq!(typing.popup().unwrap().token_query(), "wo");
    assert!(PromptAutocomplete::new().popup().is_none());
}

#[test]
fn numbers_go_around() {
    let mut search = PromptAutocompleteSearch::new();
    search.latest_request_id = u64::MAX;
    let request = search.search(SearchKey::new(&context("wo", 0..2).unwrap(), true));
    assert_eq!(request.request_id, 0);
    search.invalidate();
    assert_eq!(search.latest_request_id, 1);
}

#[test]
fn keys_of_searches_are_compared_in_all_parts() {
    let of = |query: &str, range, dictionary| SearchKey::new(&context(query, range).unwrap(), dictionary);
    let key = of("wo", 0..2, true);
    assert!(key.is_same(&of("wo", 0..2, true)));
    assert!(key.is_same(&key.duplicate()));
    assert!(!key.is_same(&of("wx", 0..2, true)));
    assert!(!key.is_same(&of("wo", 1..2, true)));
    assert!(!key.is_same(&of("wo", 0..3, true)));
    assert!(!key.is_same(&of("wo", 0..2, false)));
    let r = PromptAutocompleteResult {
        request_id: 9,
        query: "wo".to_string(),
        token_range: 0..2,
        dictionary_enabled: true,
        matches: Vec::new(),
    };
    assert!(key.is_same(&r.key()));
}

fn request(id: u64, query: &str) -> PromptAutocompleteSearchRequest {
    PromptAutocompleteSearchRequest {
        request_id: id,
        key: SearchKey::new(&context(query, 0..query.len()).unwrap(), false),
    }
}

/// What a turn of the worker ends with.
#[derive(Debug, PartialEq)]
enum End {
    Wait,
    Run(u64),
    Stop,
}

/// One turn of the worker: a message that it waited for, and what it finds in the queue.
fn turn(
    index: &mut SessionCompletionIndex,
    message: PromptAutocompleteWorkerMessage,
    pending: Vec<PromptAutocompleteWorkerMessage>,
    end: QueueLook,
) -> End {
    let mut request = match run_prompt_autocomplete_worker(index, message) {
        WorkerStep::Wait => return End::Wait,
        WorkerStep::Drain(request) => request,
    };
    for message in pending {
        match drain_pending_worker_messages(QueueLook::Message(message), index, request) {
            DrainStep::Look(next) => request = next,
            _ => panic!("a message ends no turn"),
        }
    }
    match drain_pending_worker_messages(end, index, request) {
        DrainStep::Look(_) => panic!("nothing was there"),
        DrainStep::Run(last) => End::Run(last.request_id),
        DrainStep::Stop => End::Stop,
    }
}

#[test]
fn the_worker_runs_the_last_search_only() {
    let mut index = SessionCompletionIndex::without_dictionary();
    let lines = |texts: &[&str]| {
        PromptAutocompleteWorkerMessage::Ingest(texts.iter().map(|t| t.to_string()).collect())
    };
    let step = run_prompt_autocomplete_worker(&mut index, lines(&["first line"]));
    assert!(matches!(step, WorkerStep::Wait));
    assert_eq!(index.len(), 2);
    let search = PromptAutocompleteWorkerMessage::Search(request(1, "fi"));
    let WorkerStep::Drain(first) = run_prompt_autocomplete_worker(&mut index, search) else {
        panic!("nothing to run");
    };
    assert_eq!((first.request_id, first.key.query.as_str()), (1, "fi"));
    let look = QueueLook::Message(lines(&["second"]));
    let DrainStep::Look(same) = drain_pending_worker_messages(look, &mut index, first) else {
        panic!("the queue is looked at again");
    };
    assert_eq!((same.request_id, index.len()), (1, 3));
    let look = QueueLook::Message(PromptAutocompleteWorkerMessage::Search(request(2, "sec")));
    let DrainStep::Look(next) = drain_pending_worker_messages(look, &mut index, same) else {
        panic!("the queue is looked at again");
    };
    assert_eq!((next.request_id, next.key.query.as_str()), (2, "sec"));
    let step = drain_pending_worker_messages(QueueLook::Empty, &mut index, next);
    assert!(matches!(step, DrainStep::Run(last) if last.request_id == 2));
    let step = drain_pending_worker_messages(QueueLook::Disconnected, &mut index, request(3, "fi"));
    assert!(matches!(step, DrainStep::Stop));
    let pending = vec![
        lines(&["third", "fourth"]),
        PromptAutocompleteWorkerMessage::Search(request(5, "thi")),
        lines(&["fifth"]),
    ];
    let search = PromptAutocompleteWorkerMessage::Search(request(4, "fi"));
    assert_eq!(turn(&mut index, search, pending, QueueLook::Empty), End::Run(5));
    assert_eq!(index.len(), 6);
    let search = PromptAutocompleteWorkerMessage::Search(request(6, "fi"));
    let pending = vec![lines(&["sixth"])];
    assert_eq!(turn(&mut index, search, pending, QueueLook::Disconnected), End::Stop);
    assert_eq!(index.len(), 7);
}

#[test]
fn a_search_of_interest_is_answered() {
    let mut index = SessionCompletionIndex::without_dictionary();
    ingest_lines(&mut index, vec!["hello help".to_string(), "helium".to_string()]);
    let latest = Cell::new(7u64);
    let read = |_number: u64| latest.get();
    let answer = run_prompt_autocomplete_search(&index, request(7, "hel"), &read, &no_fuzzy).unwrap();
    assert_eq!(answer.request_id, 7);
    assert_eq!(answer.query, "hel");
    assert_eq!(answer.token_range, 0..3);
    assert!(!answer.dictionary_enabled);
    let found: Vec<&str> = answer.matches.iter().map(|m| m.text.as_str()).collect();
    assert_eq!(found, ["helium", "help", "hello"]);
    // nothing found
    assert!(run_prompt_autocomplete_search(&index, request(7, "zzz"), &read, &no_fuzzy).is_none());
    // no longer of interest, before and after
    latest.set(8);
    assert!(run_prompt_autocomplete_search(&index, request(7, "hel"), &read, &no_fuzzy).is_none());
    for last in 0..3u64 {
        let moving = |number: u64| if number < last { 7 } else { 8 };
        let answer = run_prompt_autocomplete_search(&index, request(7, "hel"), &moving, &no_fuzzy);
        assert!(answer.is_none());
    }
    // it is read before the search, at its start and behind it, and no more
    let numbers = std::cell::RefCell::new(Vec::new());
    let moving = |number: u64| {
        numbers.borrow_mut().push(number);
        if number < 3 { 7 } else { 8 }
    };
    let answer = run_prompt_autocomplete_search(&index, request(7, "hel"), &moving, &no_fuzzy);
    assert_eq!(answer.unwrap().matches.len(), 3);
    assert_eq!(numbers.into_inner(), [0, 1, 2]);
    // too long to be searched for
    latest.set(7);
    let long = "x".repeat(4000);
    assert!(run_prompt_autocomplete_search(&index, request(7, &long), &read, &no_fuzzy).is_none());
}

#[test]
fn lines_may_come_apart() {
    let line = |text: &str| text.to_string();
    let mut once = SessionCompletionIndex::without_dictionary();
    ingest_lines(&mut once, vec![line("alpha beta"), line("alphabet beta"), line("alpine")]);
    let mut apart = SessionCompletionIndex::without_dictionary();
    ingest_lines(&mut apart, vec![line("alpha beta")]);
    ingest_lines(&mut apart, Vec::new());
    ingest_lines(&mut apart, vec![line("alphabet beta"), line("alpine")]);
    assert_eq!(once.len(), 4);
    assert_eq!(apart.len(), 4);
    for query in ["al", "be", "alphb", "x"] {
        assert_eq!(
            once.try_search(query, true, &no_fuzzy),
            apart.try_search(query, true, &no_fuzzy)
        );
    }
}

#[test]
fn a_search_is_reported_while_its_number_is_the_last() {
    let answer = report_search(request(7, "wo"), matches(&["word", "world"]), 7).unwrap();
    assert_eq!(answer.request_id, 7);
    assert_eq!(answer.query, "wo");
    assert_eq!(answer.token_range, 0..2);
    assert!(!answer.dictionary_enabled);
    assert_eq!(answer.matches, matches(&["word", "world"]));
    assert!(report_search(request(7, "wo"), matches(&["word"]), 8).is_none());
    assert!(report_search(request(7, "wo"), matches(&["word"]), 6).is_none());
    assert!(report_search(request(7, "wo"), Vec::new(), 7).is_none());
}

#[test]
fn a_run_of_turns_takes_in_all_and_runs_the_last_of_each() {
    let ingest = |text: &str| PromptAutocompleteWorkerMessage::Ingest(vec![text.to_string()]);
    let search = |id, query| PromptAutocompleteWorkerMessage::Search(request(id, query));
    let mut index = SessionCompletionIndex::without_dictionary();
    let turns = vec![
        (search(1, "al"), vec![ingest("alpha"), search(2, "be")], QueueLook::Empty),
        (ingest("alpine"), Vec::new(), QueueLook::Empty),
        (search(3, "al"), vec![search(4, "alp"), ingest("beta")], QueueLook::Empty),
        (search(5, "al"), vec![ingest("gamma")], QueueLook::Disconnected),
    ];
    let mut run = Vec::new();
    for (message, pending, end) in turns {
        match turn(&mut index, message, pending, end) {
            End::Wait => {}
            End::Run(id) => run.push((id, index.len())),
            End::Stop => run.push((0, index.len())),
        }
    }
    assert_eq!(run, [(2, 1), (4, 3), (0, 4)]);
    let mut at_once = SessionCompletionIndex::without_dictionary();
    let lines = ["alpha", "alpine", "beta", "gamma"];
    ingest_lines(&mut at_once, lines.iter().map(|line| line.to_string()).collect());
    for query in ["al", "be", "ga", "alph"] {
        assert_eq!(
            index.try_search(query, true, &no_fuzzy),
            at_once.try_search(query, true, &no_fuzzy)
        );
    }
}
