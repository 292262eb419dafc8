use prompt_autocomplete::autocomplete::CompletionContext;
use prompt_autocomplete::popup::{
    completion_name_line, CompletionPopup, NameLine, RenderedRow, RenderedRows, ScreenRect,
};
use prompt_autocomplete::ranking::{CompletionKind, CompletionMatch};
use prompt_autocomplete::scroll::ScrollState;

fn completion(text: &str, kind: CompletionKind, match_indices: &[usize]) -> CompletionMatch {
    CompletionMatch {
        text: text.to_string(),
        kind,
        match_indices: match_indices.to_vec(),
    }
}

fn words(n: usize) -> Vec<CompletionMatch> {
    (0..n)
        .map(|i| completion(&format!("word{i}"), CompletionKind::Word, &[0]))
        .collect()
}

fn selected(popup: &CompletionPopup) -> Option<String> {
    popup.selected().map(|(_, text)| text)
}

fn rows(popup: &CompletionPopup, area: ScreenRect) -> Vec<RenderedRow> {
    match popup.render_rows(area) {
        RenderedRows::Rows(rows) => rows,
        RenderedRows::NoMatches { .. } => panic!("no matches"),
    }
}

fn name(line: &NameLine) -> String {
    line.cells.iter().map(|cell| cell.ch).collect()
}

#[test]
fn the_first_completion_is_selected() {
    let popup = CompletionPopup::new("wo".to_string(), 3..5, words(3));
    assert_eq!(popup.selected(), Some((3..5, "word0".to_string())));
    assert_eq!(popup.token_query(), "wo");
    let empty = CompletionPopup::new("wo".to_string(), 3..5, Vec::new());
    assert_eq!(empty.selected(), None);
}

#[test]
fn the_selection_moves_around_the_ends() {
    let mut popup = CompletionPopup::new("wo".to_string(), 0..2, words(3));
    popup.move_previous();
    assert_eq!(selected(&popup).unwrap(), "word2");
    popup.move_next();
    assert_eq!(selected(&popup).unwrap(), "word0");
    popup.move_next();
    assert_eq!(selected(&popup).unwrap(), "word1");
    popup.move_previous();
    assert_eq!(selected(&popup).unwrap(), "word0");
    let mut empty = CompletionPopup::new("wo".to_string(), 0..2, Vec::new());
    empty.move_next();
    empty.move_previous();
    assert_eq!(selected(&empty), None);
}

#[test]
fn the_selection_stays_for_the_same_query() {
    let mut popup = CompletionPopup::new("wo".to_string(), 0..2, words(5));
    popup.move_previous();
    popup.set_results("wo".to_string(), 1..3, words(3));
    assert_eq!(popup.selected(), Some((1..3, "word2".to_string())));
    popup.set_results("wor".to_string(), 1..4, words(3));
    assert_eq!(popup.selected(), Some((1..4, "word0".to_string())));
    popup.set_results("wor".to_string(), 1..4, Vec::new());
    assert_eq!(popup.selected(), None);
}

#[test]
fn the_popup_knows_its_token() {
    let popup = CompletionPopup::new("wo".to_string(), 2..4, words(1));
    let at = |query: &str, token_range| CompletionContext {
        query: query.to_string(),
        token_range,
    };
    assert!(popup.matches_context(&at("wo", 2..4)));
    assert!(!popup.matches_context(&at("wo", 2..5)));
    assert!(!popup.matches_context(&at("wo", 1..4)));
    assert!(!popup.matches_context(&at("w", 2..4)));
}

#[test]
fn the_popup_is_as_large_as_its_content() {
    let popup = CompletionPopup::new("wo".to_string(), 0..2, words(3));
    assert_eq!(popup.calculate_required_height(), 5);
    // "word0", "session", room and border
    assert_eq!(popup.preferred_width(), 5 + 7 + 4 + 2);
    let wide = CompletionPopup::new(
        "x".to_string(),
        0..1,
        vec![
            completion("漢字", CompletionKind::Url, &[]),
            completion("ab", CompletionKind::Dictionary, &[]),
        ],
    );
    assert_eq!(wide.preferred_width(), 4 + 3 + 4 + 2);
    let empty = CompletionPopup::new("wo".to_string(), 0..2, Vec::new());
    assert_eq!(empty.calculate_required_height(), 3);
    assert_eq!(empty.preferred_width(), 12);
    let many = CompletionPopup::new("wo".to_string(), 0..2, words(20));
    assert_eq!(many.calculate_required_height(), 10);
    let huge = completion(&"x".repeat(70_000), CompletionKind::Word, &[]);
    let huge = CompletionPopup::new("x".to_string(), 0..1, vec![huge]);
    assert_eq!(huge.preferred_width(), u16::MAX);
}

#[test]
fn names_are_cut_to_the_columns_there_are() {
    let m = completion("a漢b", CompletionKind::Word, &[1, 2]);
    let line = completion_name_line(&m, 4);
    assert_eq!((name(&line).as_str(), line.truncated), ("a漢b", false));
    let marks: Vec<bool> = line.cells.iter().map(|cell| cell.highlighted).collect();
    assert_eq!(marks, [false, true, true]);
    let line = completion_name_line(&m, 2);
    assert_eq!((name(&line).as_str(), line.truncated), ("a", true));
    let line = completion_name_line(&m, 3);
    assert_eq!((name(&line).as_str(), line.truncated), ("a漢", true));
    let line = completion_name_line(&m, 0);
    assert_eq!((name(&line).as_str(), line.truncated), ("", false));
    // a combining mark and a control character take no column
    let m = completion("e\u{301}\u{7}x", CompletionKind::Word, &[]);
    let line = completion_name_line(&m, 2);
    assert_eq!((name(&line).as_str(), line.truncated), ("e\u{301}\u{7}x", false));
}

#[test]
fn places_out_of_order_wait_for_each_other() {
    let m = completion("abcd", CompletionKind::Word, &[2, 1, 3]);
    let line = completion_name_line(&m, 10);
    let marks: Vec<bool> = line.cells.iter().map(|cell| cell.highlighted).collect();
    assert_eq!(marks, [false, false, true, false]);
}

#[test]
fn rows_have_the_name_at_the_left_and_the_label_at_the_right() {
    let popup = CompletionPopup::new("wo".to_string(), 0..2, words(2));
    let area = ScreenRect { x: 10, y: 4, width: 20, height: 5 };
    let rows = rows(&popup, area);
    assert_eq!(rows.len(), 2);
    assert_eq!((rows[0].x, rows[0].y, rows[1].y), (10, 4, 5));
    assert_eq!(name(&rows[0].name), "word0");
    assert_eq!(rows[0].tag, "session");
    assert_eq!((rows[0].tag_width, rows[0].tag_x, rows[0].name_width), (7, 23, 11));
    assert!(rows[0].show_tag && rows[0].selected && !rows[1].selected);
}

#[test]
fn narrow_rows_drop_the_label_and_cut_the_name() {
    let popup = CompletionPopup::new("wo".to_string(), 0..2, words(1));
    let m = completion("word0", CompletionKind::Word, &[]);
    let row = popup.render_row(0, 0, 6, 1, &m).unwrap();
    assert!(!row.show_tag && !row.selected);
    assert_eq!((row.name_width, row.tag_x), (0, 0));
    assert_eq!(row.name.cells.len(), 0);
    let row = popup.render_row(0, 0, 12, 0, &m).unwrap();
    assert!(row.show_tag && row.selected);
    assert_eq!((row.name_width, row.tag_x), (3, 5));
    assert_eq!((name(&row.name).as_str(), row.name.truncated), ("wor", true));
    assert!(popup.render_row(0, 0, 0, 0, &m).is_none());
}

#[test]
fn the_selected_row_is_always_shown() {
    let mut popup = CompletionPopup::new("wo".to_string(), 0..2, words(12));
    let area = ScreenRect { x: 0, y: 0, width: 30, height: 3 };
    for _ in 0..30 {
        let rows = rows(&popup, area);
        assert_eq!(rows.len(), 3);
        let shown: Vec<&RenderedRow> = rows.iter().filter(|row| row.selected).collect();
        assert_eq!(shown.len(), 1);
        assert_eq!(Some(name(&shown[0].name)), selected(&popup));
        popup.move_next();
    }
}

#[test]
fn rows_stop_at_the_end_of_the_area() {
    let popup = CompletionPopup::new("wo".to_string(), 0..2, words(4));
    let none = ScreenRect { x: 0, y: 3, width: 30, height: 0 };
    assert_eq!(rows(&popup, none).len(), 0);
    let flat = ScreenRect { x: 0, y: 3, width: 0, height: 4 };
    assert_eq!(rows(&popup, flat).len(), 0);
    let last = ScreenRect { x: 0, y: u16::MAX - 2, width: 30, height: 8 };
    assert_eq!(last.bottom(), u16::MAX);
    assert_eq!(rows(&popup, last).len(), 2);
}

#[test]
fn a_popup_without_completions_says_so() {
    let popup = CompletionPopup::new("wo".to_string(), 0..2, Vec::new());
    let area = |height| ScreenRect { x: 0, y: 0, width: 9, height };
    assert!(matches!(
        popup.render_rows(area(1)),
        RenderedRows::NoMatches { placeholder: true }
    ));
    assert!(matches!(
        popup.render_rows(area(0)),
        RenderedRows::NoMatches { placeholder: false }
    ));
}

#[test]
fn a_list_scrolls_as_little_as_needed() {
    let mut state = ScrollState::new();
    state.clamp_selection(20);
    assert_eq!((state.selected_idx, state.scroll_top), (Some(0), 0));
    state.move_up_wrap(20);
    state.ensure_visible(20, 8);
    assert_eq!((state.selected_idx, state.scroll_top), (Some(19), 12));
    state.move_up_wrap(20);
    state.ensure_visible(20, 8);
    assert_eq!((state.selected_idx, state.scroll_top), (Some(18), 12));
    state.clamp_selection(5);
    state.ensure_visible(5, 8);
    assert_eq!((state.selected_idx, state.scroll_top), (Some(4), 4));
    state.move_down_wrap(5);
    state.ensure_visible(5, 8);
    assert_eq!((state.selected_idx, state.scroll_top), (Some(0), 0));
    state.clamp_selection(0);
    assert_eq!((state.selected_idx, state.scroll_top), (None, 0));
    state.move_down_wrap(0);
    assert_eq!(state.selected_idx, None);
    state.move_down_wrap(3);
    assert_eq!(state.selected_idx, Some(0));
    state.reset();
    state.move_up_wrap(3);
    assert_eq!(state.selected_idx, Some(0));
}
