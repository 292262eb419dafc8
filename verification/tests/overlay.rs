use prompt_autocomplete::overlay::{
    restore_completion_overlay_rows, restored_history_rows,
    transcript_tail_lines_for_completion_overlay, visible_history_rows_for_completion_overlay, App,
    RestoredRows,
};
use prompt_autocomplete::popup::ScreenRect;

fn rect(y: u16, height: u16) -> ScreenRect {
    ScreenRect { x: 1, y, width: 10, height }
}

#[test]
fn a_popup_in_the_viewport_is_drawn_anew() {
    let mut app = App::new();
    let viewport = rect(10, 5);
    assert_eq!(app.invalidate_completion_overlay_viewport_rows(viewport), None);
    app.completion_overlay_drawn(Some(rect(8, 3)));
    assert_eq!(app.invalidate_completion_overlay_viewport_rows(viewport), Some(rect(8, 3)));
    app.completion_overlay_drawn(Some(rect(8, 2)));
    assert_eq!(app.invalidate_completion_overlay_viewport_rows(viewport), None);
    app.completion_overlay_drawn(Some(rect(15, 2)));
    assert_eq!(app.invalidate_completion_overlay_viewport_rows(viewport), None);
}

#[test]
fn what_the_popup_leaves_is_restored() {
    let mut app = App::new();
    assert_eq!(app.completion_overlay_to_restore(Some(rect(1, 2))), None);
    app.completion_overlay_drawn(Some(rect(1, 2)));
    assert_eq!(app.completion_overlay_to_restore(Some(rect(1, 2))), None);
    assert_eq!(app.completion_overlay_to_restore(Some(rect(1, 3))), Some(rect(1, 2)));
    assert_eq!(app.completion_overlay_to_restore(None), Some(rect(1, 2)));
    app.completion_overlay_drawn(None);
    assert_eq!(app.completion_overlay_to_restore(None), None);
}

#[test]
fn only_rows_above_the_viewport_are_restored() {
    assert_eq!(
        restore_completion_overlay_rows(rect(3, 4), 10, 80),
        Some(RestoredRows { start_y: 3, end_y: 7, width: 80 })
    );
    assert_eq!(
        restore_completion_overlay_rows(rect(8, 4), 10, 80),
        Some(RestoredRows { start_y: 8, end_y: 10, width: 80 })
    );
    assert_eq!(restore_completion_overlay_rows(rect(10, 4), 10, 80), None);
    assert_eq!(restore_completion_overlay_rows(rect(3, 0), 10, 80), None);
    assert_eq!(restore_completion_overlay_rows(rect(3, 4), 10, 0), None);
}

#[test]
fn rows_end_at_the_bottom() {
    assert_eq!(
        visible_history_rows_for_completion_overlay(vec!['a', 'b'], 4),
        [None, None, Some('a'), Some('b')]
    );
    assert_eq!(
        visible_history_rows_for_completion_overlay(vec!['a', 'b', 'c'], 2),
        [Some('b'), Some('c')]
    );
    assert_eq!(visible_history_rows_for_completion_overlay(vec!['a'], 0), Vec::new());
}

/// Cells by their lines; a leading `+` says that the cell continues the one before it.
fn tail(cells: &[&str], row_cap: usize) -> String {
    let display = |i: usize| {
        let continues = cells[i].starts_with('+');
        let lines: Vec<char> = cells[i].chars().filter(|c| *c != '+').collect();
        (lines, continues)
    };
    transcript_tail_lines_for_completion_overlay(cells.len(), &display, row_cap)
        .into_iter()
        .map(|row| row.unwrap_or('_'))
        .collect()
}

#[test]
fn blank_rows_stand_between_cells() {
    assert_eq!(tail(&["ab", "c", "de"], 100), "ab_c_de");
    assert_eq!(tail(&["ab", "+c", "de"], 100), "abc_de");
    assert_eq!(tail(&["", "a", "", "b"], 100), "a_b");
    assert_eq!(tail(&["+a", "b", "c"], 100), "ab_c");
    assert_eq!(tail(&[], 5), "");
}

#[test]
fn only_the_last_rows_are_kept() {
    assert_eq!(tail(&["ab", "c", "de"], 4), "c_de");
    assert_eq!(tail(&["ab", "c", "de"], 3), "_de");
    assert_eq!(tail(&["ab", "c", "de"], 1), "e");
    assert_eq!(tail(&["ab", "c", "de"], 0), "");
    assert_eq!(tail(&["ab", "+cd", "+ef"], 3), "def");
}

#[test]
fn no_more_cells_are_asked_for_than_needed() {
    use_cells(&["ab", "cd", "ef", "gh"], 3, &[3, 2]);
    use_cells(&["ab", "cd", "+ef", "gh"], 3, &[3, 2, 1]);
    use_cells(&["ab", "cd", "ef", "gh"], 4, &[3, 2, 1]);
}

fn use_cells(cells: &[&str], row_cap: usize, expected: &[usize]) {
    let asked = std::cell::RefCell::new(Vec::new());
    let display = |i: usize| {
        asked.borrow_mut().push(i);
        let continues = cells[i].starts_with('+');
        let lines: Vec<char> = cells[i].chars().filter(|c| *c != '+').collect();
        (lines, continues)
    };
    transcript_tail_lines_for_completion_overlay(cells.len(), &display, row_cap);
    assert_eq!(asked.into_inner(), expected);
}

#[test]
fn the_tail_ends_the_transcript() {
    let cells = ["ab", "c", "+de", "", "f", "ghi", "+j", "k"];
    let whole = tail(&cells, 1000);
    for cap in 0..whole.len() {
        assert_eq!(tail(&cells, cap), whole[whole.len() - cap..]);
    }
}

#[test]
fn a_blank_row_is_missing_behind_a_cell_without_lines() {
    let cells = ["ab", "", "+cde", "f"];
    assert_eq!(tail(&cells, 100), "abcde_f");
    assert_eq!(tail(&cells, 3), "def");
    assert_eq!(tail(&cells, 1), "f");
}

#[test]
fn rows_are_restored_from_their_place_in_the_history() {
    let history = || vec![None, Some('a'), Some('b'), None, Some('c')];
    let rows = |start_y, end_y| RestoredRows { start_y, end_y, width: 80 };
    assert_eq!(restored_history_rows(history(), rows(1, 3)), [Some('a'), Some('b')]);
    assert_eq!(restored_history_rows(history(), rows(0, 5)), history());
    assert_eq!(restored_history_rows(history(), rows(4, 7)), [Some('c'), None, None]);
    assert_eq!(restored_history_rows(history(), rows(9, 11)), [None, None]);
    assert_eq!(restored_history_rows(history(), rows(2, 2)), []);
    // the history fills the rows from the bottom
    let visible = visible_history_rows_for_completion_overlay(vec!['x', 'y'], 4);
    assert_eq!(restored_history_rows(visible, rows(1, 4)), [None, Some('x'), Some('y')]);
}
