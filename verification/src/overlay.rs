//! Drawing the popup over the conversation, and putting the conversation back.
use vstd::prelude::*;

use crate::popup::ScreenRect;

verus! {

/// What is drawn over the screen.
#[derive(Debug)]
pub struct App {
    pub completion_overlay_rect: Option<ScreenRect>,
}

/// The two share a row.
pub open spec fn share_rows(a: ScreenRect, b: ScreenRect) -> bool {
    a.y < b.spec_bottom() && a.spec_bottom() > b.y
}

/// The part of the screen to be drawn anew with the viewport: the popup, where the two share
/// a row.
pub open spec fn drawn_with(popup: Option<ScreenRect>, viewport: ScreenRect) -> Option<ScreenRect> {
    match popup {
        Some(rect) => if share_rows(rect, viewport) {
            Some(rect)
        } else {
            None
        },
        None => None,
    }
}

/// What the popup no longer covers once it is at its next place: its place before, unless it
/// stays there.
pub open spec fn to_restore(previous: Option<ScreenRect>, next: Option<ScreenRect>) -> Option<
    ScreenRect,
> {
    if previous != next {
        previous
    } else {
        None
    }
}

/// The rows of `rect` above the viewport, from the first up to but not including the
/// second; none where the second is not greater.
pub open spec fn rows_above(rect: ScreenRect, viewport_top: u16) -> (u16, u16) {
    (
        if rect.y < viewport_top {
            rect.y
        } else {
            viewport_top
        },
        if rect.spec_bottom() < viewport_top {
            rect.spec_bottom()
        } else {
            viewport_top
        },
    )
}

/// Rows of the history to be drawn again.
#[derive(Clone, Copy, Debug, PartialEq, Eq, Structural)]
pub struct RestoredRows {
    pub start_y: u16,
    pub end_y: u16,
    pub width: u16,
}

impl App {
    /// Nothing is drawn over the screen.
    pub fn new() -> (r: App)
        ensures
            r.completion_overlay_rect is None,
    {
        App { completion_overlay_rect: None }
    }

    /// The part of the screen to be drawn anew with the viewport: the popup, where it
    /// reaches into the viewport.
    pub fn invalidate_completion_overlay_viewport_rows(&self, viewport: ScreenRect) -> (r: Option<
        ScreenRect,
    >)
        ensures
            r == drawn_with(self.completion_overlay_rect, viewport),
    {
        let rect = match self.completion_overlay_rect {
            Some(rect) => rect,
            None => {
                return None;
            },
        };
        if rect.y < viewport.bottom() && rect.bottom() > viewport.y {
            Some(rect)
        } else {
            None
        }
    }

    /// What the popup covered and no longer does, before the popup is drawn at its new
    /// place: its old place, unless it stays there.
    pub fn completion_overlay_to_restore(&self, overlay_rect: Option<ScreenRect>) -> (r: Option<
        ScreenRect,
    >)
        ensures
            r == to_restore(self.completion_overlay_rect, overlay_rect),
    {
        match (self.completion_overlay_rect, overlay_rect) {
            (Some(previous), Some(next)) => if previous == next {
                None
            } else {
                Some(previous)
            },
            (previous, None) => previous,
            (None, Some(_)) => None,
        }
    }

    /// Notes where the popup was drawn.
    pub fn completion_overlay_drawn(&mut self, overlay_rect: Option<ScreenRect>)
        ensures
            final(self).completion_overlay_rect == overlay_rect,
    {
        self.completion_overlay_rect = overlay_rect;
    }
}

/// The rows of the history that `rect` covered, if any: those above the viewport.
pub fn restore_completion_overlay_rows(
    rect: ScreenRect,
    viewport_top: u16,
    terminal_width: u16,
) -> (r: Option<RestoredRows>)
    ensures
        match r {
            Some(rows) => {
                &&& (rows.start_y, rows.end_y) == rows_above(rect, viewport_top)
                &&& rows.start_y < rows.end_y
                &&& rows.width == terminal_width
                &&& terminal_width > 0
            },
            None => terminal_width == 0 || rows_above(rect, viewport_top).0 >= rows_above(
                rect,
                viewport_top,
            ).1,
        },
{
    let start_y: u16 = if rect.y < viewport_top {
        rect.y
    } else {
        viewport_top
    };
    let end_y: u16 = if rect.bottom() < viewport_top {
        rect.bottom()
    } else {
        viewport_top
    };
    if start_y >= end_y || terminal_width == 0 {
        None
    } else {
        Some(RestoredRows { start_y, end_y, width: terminal_width })
    }
}

/// `rows` are the last lines on a screen of `visible_rows` rows: they end at the bottom,
/// and blank rows come first where there are not enough.
pub open spec fn are_visible_rows<T>(lines: Seq<T>, visible_rows: nat, rows: Seq<Option<T>>) -> bool {
    &&& rows.len() == visible_rows
    &&& forall|i: int|
        0 <= i < rows.len() ==> #[trigger] rows[i] == if i + lines.len() < visible_rows {
            None
        } else {
            Some(lines[i + lines.len() - visible_rows])
        }
}

/// The last lines on a screen of `visible_rows` rows.
pub fn visible_history_rows_for_completion_overlay<T>(rendered: Vec<T>, visible_rows: usize) -> (r: Vec<
    Option<T>,
>)
    ensures
        are_visible_rows(rendered@, visible_rows as nat, r@),
{
    let mut rows: Vec<Option<T>> = Vec::new();
    let ghost lines = rendered@;
    let len = rendered.len();
    let mut rest = rendered;
    let blank: usize = visible_rows.saturating_sub(len);
    let tail_start: usize = len.saturating_sub(visible_rows);
    let mut tail = rest.split_off(tail_start);
    while rows.len() < blank
        invariant
            rows@.len() <= blank,
            forall|i: int| 0 <= i < rows@.len() ==> (#[trigger] rows@[i]) is None,
        decreases blank - rows@.len(),
    {
        rows.push(None);
    }
    let ghost mut done: int = 0;
    proof {
        assert(tail@ =~= lines.skip(tail_start as int));
    }
    while tail.len() > 0
        invariant
            0 <= done <= lines.len() - tail_start,
            tail@ == lines.skip(tail_start + done),
            len == lines.len(),
            blank == if visible_rows > len {
                visible_rows - len
            } else {
                0
            },
            tail_start == if len > visible_rows {
                len - visible_rows
            } else {
                0
            },
            rows@.len() == blank + done,
            forall|i: int| 0 <= i < blank ==> (#[trigger] rows@[i]) is None,
            forall|i: int|
                blank <= i < rows@.len() ==> #[trigger] rows@[i] == Some(
                    lines[tail_start + i - blank],
                ),
        decreases tail@.len(),
    {
        let line = tail.remove(0);
        proof {
            assert(line == lines[tail_start + done]);
            assert(tail@ =~= lines.skip(tail_start + done + 1));
            done = done + 1;
        }
        rows.push(Some(line));
    }
    rows
}

/// `r` are the rows of the history at the given rows of the screen, from top to bottom;
/// nothing where there is none.
pub open spec fn are_restored<T>(
    history: Seq<Option<T>>,
    rows: RestoredRows,
    r: Seq<Option<T>>,
) -> bool {
    &&& r.len() == rows.end_y - rows.start_y
    &&& forall|i: int|
        0 <= i < r.len() ==> #[trigger] r[i] == if rows.start_y + i < history.len() {
            history[rows.start_y + i]
        } else {
            None
        }
}

/// The rows to be drawn again, from top to bottom: for each row of the screen the one of the
/// history at that place; nothing where there is none.
pub fn restored_history_rows<T>(history: Vec<Option<T>>, rows: RestoredRows) -> (r: Vec<Option<T>>)
    requires
        rows.start_y <= rows.end_y,
    ensures
        are_restored(history@, rows, r@),
{
    let ghost all = history@;
    let count: usize = (rows.end_y - rows.start_y) as usize;
    let start: usize = rows.start_y as usize;
    let mut r: Vec<Option<T>> = Vec::new();
    let mut rest = history;
    let mut left: Vec<Option<T>> = if start < rest.len() {
        rest.split_off(start)
    } else {
        Vec::new()
    };
    let ghost at: int = if start < all.len() {
        start as int
    } else {
        all.len() as int
    };
    assert(left@ =~= all.skip(at));
    while r.len() < count
        invariant
            r@.len() <= count,
            start <= all.len() ==> at == start,
            start > all.len() ==> at == all.len(),
            left@ == all.skip(if at + r@.len() < all.len() {
                at + r@.len()
            } else {
                all.len() as int
            }),
            forall|i: int|
                0 <= i < r@.len() ==> #[trigger] r@[i] == if start + i < all.len() {
                    all[start + i]
                } else {
                    None
                },
        decreases count - r@.len(),
    {
        let ghost n = r@.len();
        if left.len() > 0 {
            let row = left.remove(0);
            assert(row == all[start + n]);
            assert(left@ =~= all.skip(at + n + 1));
            r.push(row);
        } else {
            r.push(None);
        }
    }
    r
}

/// A cell of the transcript: its lines, and whether it continues the cell before it.
#[verifier::ext_equal]
pub struct CellModel<T> {
    pub lines: Seq<T>,
    pub is_stream_continuation: bool,
}

/// The rows of cells, from top to bottom: a blank row goes before each cell with lines that
/// does not continue the one before it, except before the first such one. `emitted` says
/// whether there was one already.
pub open spec fn rows_of<T>(cells: Seq<CellModel<T>>, emitted: bool) -> Seq<Option<T>>
    decreases cells.len(),
{
    if cells.len() == 0 {
        Seq::empty()
    } else {
        let head = cells[0];
        let lines = head.lines.map_values(|line: T| Some(line));
        if head.lines.len() > 0 && !head.is_stream_continuation {
            (if emitted {
                seq![None] + lines
            } else {
                lines
            }) + rows_of(cells.drop_first(), true)
        } else {
            lines + rows_of(cells.drop_first(), emitted)
        }
    }
}

/// A cell of `cells` with lines starts something new.
pub open spec fn starts_something<T>(cells: Seq<CellModel<T>>) -> bool {
    exists|i: int|
        0 <= i < cells.len() && (#[trigger] cells[i]).lines.len() > 0
            && !cells[i].is_stream_continuation
}

/// The lines of the cells, without blank rows.
pub open spec fn line_count<T>(cells: Seq<CellModel<T>>) -> nat
    decreases cells.len(),
{
    if cells.len() == 0 {
        0
    } else {
        cells[0].lines.len() + line_count(cells.drop_first())
    }
}

/// The last `n` of `s`, or all where there are not as many.
pub open spec fn last_of<V>(s: Seq<V>, n: nat) -> Seq<V> {
    if s.len() > n {
        s.skip(s.len() - n)
    } else {
        s
    }
}

/// `cell` is how the transcript shows cell `i`.
pub open spec fn is_display<T, D: Fn(usize) -> (Vec<T>, bool)>(
    display: D,
    i: int,
    cell: CellModel<T>,
) -> bool {
    exists|shown: (Vec<T>, bool)| #[trigger]
        call_ensures(display, (i as usize,), shown) && shown.0@ == cell.lines && shown.1
            == cell.is_stream_continuation
}

/// `cells` are as many of the last cells as `row_cap` rows need: those with more lines than
/// rows, one more than would do, and before them those that they continue.
pub open spec fn is_tail<T>(cells: Seq<CellModel<T>>, cell_count: nat, row_cap: nat) -> bool {
    let start = cell_count - cells.len();
    &&& cells.len() <= cell_count
    &&& cell_count > 0 ==> cells.len() > 0
    &&& start > 0 ==> !cells[0].is_stream_continuation && line_count(cells) > row_cap
    &&& cells.len() > 0 ==> exists|needed: int|
        {
            &&& 0 <= needed < cells.len()
            &&& #[trigger] line_count(cells.skip(needed + 1)) <= row_cap
            &&& start > 0 || needed > 0 ==> line_count(cells.skip(needed)) > row_cap
            &&& forall|i: int| 0 < i <= needed ==> (#[trigger] cells[i]).is_stream_continuation
        }
}

proof fn lemma_line_count_front<T>(cell: CellModel<T>, cells: Seq<CellModel<T>>)
    ensures
        line_count(seq![cell] + cells) == cell.lines.len() + line_count(cells),
{
    assert((seq![cell] + cells).drop_first() =~= cells);
}

/// The last rows of a transcript of `cell_count` cells, at most `row_cap`; a blank row is
/// nothing. Cells are asked for from the last one back, and no more of them than needed.
pub fn transcript_tail_lines_for_completion_overlay<T, D: Fn(usize) -> (Vec<T>, bool)>(
    cell_count: usize,
    display: &D,
    row_cap: usize,
) -> (r: Vec<Option<T>>)
    requires
        forall|i: usize| i < cell_count ==> #[trigger] call_requires(*display, (i,)),
    ensures
        row_cap == 0 ==> r@.len() == 0,
        row_cap > 0 ==> exists|cells: Seq<CellModel<T>>|
            {
                &&& #[trigger] is_tail(cells, cell_count as nat, row_cap as nat)
                &&& forall|k: int|
                    0 <= k < cells.len() ==> is_display(
                        *display,
                        cell_count - cells.len() + k,
                        #[trigger] cells[k],
                    )
                &&& r@ == last_of(rows_of(cells, false), row_cap as nat)
            },
{
    if row_cap == 0 {
        return Vec::new();
    }
    // the cells that were asked for, the last one first
    let mut shown: Vec<(Vec<T>, bool)> = Vec::new();
    let ghost mut cells: Seq<CellModel<T>> = Seq::empty();
    let mut rendered_rows: usize = 0;
    let mut start: usize = cell_count;
    let mut enough = false;
    while start > 0 && !enough
        invariant
            forall|i: usize| i < cell_count ==> #[trigger] call_requires(*display, (i,)),
            start <= cell_count,
            cells.len() == cell_count - start,
            are_shown(shown@, cells),
            forall|k: int|
                0 <= k < cells.len() ==> is_display(*display, start + k, #[trigger] cells[k]),
            !enough ==> rendered_rows == line_count(cells) && rendered_rows <= row_cap,
            enough ==> cells.len() > 0 && line_count(cells) > row_cap && line_count(
                cells.skip(1),
            ) <= row_cap,
            cells.len() > 0 ==> line_count(cells.skip(1)) <= row_cap,
        decreases start, !enough as int,
    {
        start -= 1;
        let one = display(start);
        let count = one.0.len();
        proof {
            let cell = CellModel { lines: one.0@, is_stream_continuation: one.1 };
            lemma_shown_front(shown@, cells, one, cell);
            lemma_line_count_front(cell, cells);
            assert((seq![cell] + cells).skip(1) =~= cells);
            assert(is_display(*display, start as int, cell));
            lemma_displays_front(*display, cells, cell, start as int);
            cells = seq![cell] + cells;
        }
        shown.push(one);
        if count > row_cap - rendered_rows {
            enough = true;
        } else {
            rendered_rows += count;
        }
    }
    let ghost needed_cells = cells;
    let ghost mut before: int = 0;
    assert(cells.skip(0) =~= cells);
    while start > 0 && shown.len() > 0 && shown[shown.len() - 1].1
        invariant
            forall|i: usize| i < cell_count ==> #[trigger] call_requires(*display, (i,)),
            start <= cell_count,
            cells.len() == cell_count - start,
            are_shown(shown@, cells),
            forall|k: int|
                0 <= k < cells.len() ==> is_display(*display, start + k, #[trigger] cells[k]),
            0 <= before <= cells.len(),
            cells.skip(before) == needed_cells,
            needed_cells.len() > 0 ==> line_count(needed_cells.skip(1)) <= row_cap,
            needed_cells.len() == 0 ==> start == 0,
            start > 0 ==> line_count(cells) > row_cap,
            start > 0 || before > 0 ==> line_count(needed_cells) > row_cap,
            forall|i: int|
                0 < i <= before && i < cells.len() ==> (#[trigger] cells[i]).is_stream_continuation,
        decreases start,
    {
        proof {
            assert(shown@[shown@.len() - 1].1 == cells[0].is_stream_continuation);
        }
        start -= 1;
        let one = display(start);
        proof {
            let cell = CellModel { lines: one.0@, is_stream_continuation: one.1 };
            let longer = seq![cell] + cells;
            lemma_shown_front(shown@, cells, one, cell);
            lemma_line_count_front(cell, cells);
            assert(is_display(*display, start as int, cell));
            lemma_displays_front(*display, cells, cell, start as int);
            assert(longer.skip(before + 1) =~= cells.skip(before));
            assert forall|i: int| 0 < i <= before + 1 && i < longer.len() implies (
            #[trigger] longer[i]).is_stream_continuation by {
                assert(longer[i] == cells[i - 1]);
            }
            cells = longer;
            before = before + 1;
        }
        shown.push(one);
    }
    proof {
        if shown@.len() > 0 {
            assert(shown@[shown@.len() - 1].1 == cells[0].is_stream_continuation);
        }
        if needed_cells.len() > 0 {
            assert(cells.skip(before).skip(1) =~= cells.skip(before + 1));
            assert(line_count(cells.skip(before + 1)) <= row_cap);
        }
        assert(is_tail(cells, cell_count as nat, row_cap as nat));
    }
    let mut rows = collect_rows(shown, Ghost(cells));
    if rows.len() > row_cap {
        let at: usize = rows.len() - row_cap;
        let ghost all = rows@;
        let tail = rows.split_off(at);
        assert(tail@ =~= all.skip(at as int));
        tail
    } else {
        rows
    }
}

/// `shown` are the cells, the last one first.
spec fn are_shown<T>(shown: Seq<(Vec<T>, bool)>, cells: Seq<CellModel<T>>) -> bool {
    &&& shown.len() == cells.len()
    &&& forall|k: int|
        0 <= k < shown.len() ==> (#[trigger] shown[k]).0@ == cells[cells.len() - 1 - k].lines
            && shown[k].1 == cells[cells.len() - 1 - k].is_stream_continuation
}

proof fn lemma_shown_front<T>(
    shown: Seq<(Vec<T>, bool)>,
    cells: Seq<CellModel<T>>,
    one: (Vec<T>, bool),
    cell: CellModel<T>,
)
    requires
        are_shown(shown, cells),
        one.0@ == cell.lines,
        one.1 == cell.is_stream_continuation,
    ensures
        are_shown(shown.push(one), seq![cell] + cells),
{
    let s = shown.push(one);
    let c = seq![cell] + cells;
    assert forall|k: int| 0 <= k < s.len() implies (#[trigger] s[k]).0@ == c[c.len() - 1 - k].lines
        && s[k].1 == c[c.len() - 1 - k].is_stream_continuation by {
        if k < shown.len() {
            assert(s[k] == shown[k]);
            assert(c[c.len() - 1 - k] == cells[cells.len() - 1 - k]);
        }
    }
}

proof fn lemma_displays_front<T, D: Fn(usize) -> (Vec<T>, bool)>(
    display: D,
    cells: Seq<CellModel<T>>,
    cell: CellModel<T>,
    start: int,
)
    requires
        is_display(display, start, cell),
        forall|k: int|
            0 <= k < cells.len() ==> is_display(display, start + 1 + k, #[trigger] cells[k]),
    ensures
        forall|k: int|
            0 <= k < (seq![cell] + cells).len() ==> is_display(
                display,
                start + k,
                #[trigger] (seq![cell] + cells)[k],
            ),
{
    let longer = seq![cell] + cells;
    assert forall|k: int| 0 <= k < longer.len() implies is_display(
        display,
        start + k,
        #[trigger] longer[k],
    ) by {
        if k > 0 {
            assert(longer[k] == cells[k - 1]);
            assert(is_display(display, start + 1 + (k - 1), cells[k - 1]));
        }
    }
}

/// The lines as rows.
proof fn lemma_rows_step<T>(cells: Seq<CellModel<T>>, emitted: bool)
    requires
        cells.len() > 0,
    ensures
        rows_of(cells, emitted) == (if emitted && cells[0].lines.len() > 0
            && !cells[0].is_stream_continuation {
            seq![None::<T>]
        } else {
            Seq::<Option<T>>::empty()
        }) + cells[0].lines.map_values(|line: T| Some(line)) + rows_of(
            cells.drop_first(),
            emitted || (cells[0].lines.len() > 0 && !cells[0].is_stream_continuation),
        ),
{
    let lines = cells[0].lines.map_values(|line: T| Some(line));
    assert(Seq::<Option<T>>::empty() + lines =~= lines);
}

/// Puts the lines behind the rows.
fn push_lines<T>(rows: &mut Vec<Option<T>>, lines: Vec<T>)
    ensures
        final(rows)@ == old(rows)@ + lines@.map_values(|line: T| Some(line)),
{
    let ghost all = lines@;
    let ghost f = |line: T| Some(line);
    let ghost before = rows@;
    let ghost mut done: int = 0;
    let mut rest = lines;
    assert(before + all.take(0).map_values(f) =~= before);
    while rest.len() > 0
        invariant
            0 <= done <= all.len(),
            rest@ == all.skip(done),
            f == (|line: T| Some(line)),
            rows@ == before + all.take(done).map_values(f),
        decreases rest@.len(),
    {
        let line = rest.remove(0);
        proof {
            assert(line == all[done]);
            assert(rest@ =~= all.skip(done + 1));
            assert(all.take(done + 1).map_values(f) =~= all.take(done).map_values(f).push(
                Some(line),
            ));
            assert((before + all.take(done).map_values(f)).push(Some(line)) =~= before + all.take(
                done + 1,
            ).map_values(f));
            done = done + 1;
        }
        rows.push(Some(line));
    }
    assert(all.take(done) =~= all);
}

/// The rows of the cells, which are given the last one first.
fn collect_rows<T>(shown: Vec<(Vec<T>, bool)>, Ghost(cells): Ghost<Seq<CellModel<T>>>) -> (r: Vec<
    Option<T>,
>)
    requires
        are_shown(shown@, cells),
    ensures
        r@ == rows_of(cells, false),
{
    let mut has_emitted_history_lines = false;
    let mut rows: Vec<Option<T>> = Vec::new();
    let mut rest = shown;
    let ghost mut done: int = 0;
    proof {
        assert(cells.skip(0) =~= cells);
        assert(rows@ + rows_of(cells, false) =~= rows_of(cells, false));
    }
    while rest.len() > 0
        invariant
            0 <= done <= cells.len(),
            are_shown(rest@, cells.skip(done)),
            rows@ + rows_of(cells.skip(done), has_emitted_history_lines) == rows_of(
                cells,
                false,
            ),
        decreases rest@.len(),
    {
        let ghost left = cells.skip(done);
        let ghost rest0 = rest@;
        let ghost before = rows@;
        let ghost emitted = has_emitted_history_lines;
        let (display, is_stream_continuation) = rest.pop().unwrap();
        proof {
            assert(rest0[rest0.len() - 1] == (display, is_stream_continuation));
            assert(display@ == left[0].lines);
            assert(is_stream_continuation == left[0].is_stream_continuation);
            lemma_rows_step(left, emitted);
            assert(left.drop_first() =~= cells.skip(done + 1));
            assert(are_shown(rest@, cells.skip(done + 1))) by {
                let c = cells.skip(done + 1);
                assert forall|k: int| 0 <= k < rest@.len() implies (#[trigger] rest@[k]).0@ == c[
                c.len() - 1 - k].lines && rest@[k].1 == c[c.len() - 1
                    - k].is_stream_continuation by {
                    assert(rest@[k] == rest0[k]);
                    assert(c[c.len() - 1 - k] == left[left.len() - 1 - k]);
                }
            }
        }
        let ghost blank = if emitted && display@.len() > 0 && !is_stream_continuation {
            seq![None::<T>]
        } else {
            Seq::<Option<T>>::empty()
        };
        let ghost lines = display@.map_values(|line: T| Some(line));
        if display.len() > 0 && !is_stream_continuation {
            if has_emitted_history_lines {
                rows.push(None);
            } else {
                has_emitted_history_lines = true;
            }
        }
        assert(rows@ =~= before + blank);
        push_lines(&mut rows, display);
        proof {
            let after = rows_of(cells.skip(done + 1), has_emitted_history_lines);
            assert(before + (blank + lines + after) =~= before + blank + lines + after);
            done = done + 1;
        }
    }
    proof {
        assert(cells.skip(done) =~= Seq::<CellModel<T>>::empty());
        assert(rows@ + Seq::<Option<T>>::empty() =~= rows@);
    }
    rows
}

/// What was covered above the viewport is put back, row by row: each row that `rect` covers
/// above the viewport lies between the two ends, and no other.
pub proof fn law_covered_rows_are_restored(rect: ScreenRect, viewport_top: u16, y: u16)
    ensures
        (rect.y <= y < rect.spec_bottom() && y < viewport_top) <==> rows_above(
            rect,
            viewport_top,
        ).0 <= y < rows_above(rect, viewport_top).1,
{
}

/// The rows of cells put together are the rows of the first and those of the others.
proof fn lemma_rows_split<T>(a: Seq<CellModel<T>>, b: Seq<CellModel<T>>, emitted: bool)
    ensures
        rows_of(a + b, emitted) == rows_of(a, emitted) + rows_of(b, emitted || starts_something(a)),
    decreases a.len(),
{
    if a.len() == 0 {
        assert(a + b =~= b);
        assert(rows_of(a, emitted) + rows_of(b, emitted) =~= rows_of(b, emitted));
    } else {
        let rest = a.drop_first();
        let starts = a[0].lines.len() > 0 && !a[0].is_stream_continuation;
        assert((a + b)[0] == a[0]);
        assert((a + b).drop_first() =~= rest + b);
        lemma_rows_step(a + b, emitted);
        lemma_rows_step(a, emitted);
        lemma_rows_split(rest, b, emitted || starts);
        assert(starts_something(a) == (starts || starts_something(rest))) by {
            if starts_something(rest) {
                let i = choose|i: int|
                    0 <= i < rest.len() && (#[trigger] rest[i]).lines.len() > 0
                        && !rest[i].is_stream_continuation;
                assert(a[i + 1] == rest[i]);
            }
            if starts_something(a) && !starts {
                let i = choose|i: int|
                    0 <= i < a.len() && (#[trigger] a[i]).lines.len() > 0
                        && !a[i].is_stream_continuation;
                assert(rest[i - 1] == a[i]);
            }
        }
        let blank = if emitted && starts {
            seq![None::<T>]
        } else {
            Seq::<Option<T>>::empty()
        };
        let lines = a[0].lines.map_values(|line: T| Some(line));
        let x = rows_of(rest, emitted || starts);
        let y = rows_of(b, emitted || starts_something(a));
        assert(blank + lines + (x + y) =~= blank + lines + x + y);
    }
}

/// There are at least as many rows as lines.
proof fn lemma_rows_at_least_lines<T>(cells: Seq<CellModel<T>>, emitted: bool)
    ensures
        rows_of(cells, emitted).len() >= line_count(cells),
    decreases cells.len(),
{
    if cells.len() > 0 {
        lemma_rows_step(cells, emitted);
        lemma_rows_at_least_lines(
            cells.drop_first(),
            emitted || (cells[0].lines.len() > 0 && !cells[0].is_stream_continuation),
        );
    }
}

/// Cells among which none starts something new have no blank rows.
proof fn lemma_rows_without_start<T>(cells: Seq<CellModel<T>>, emitted: bool)
    requires
        !starts_something(cells),
    ensures
        rows_of(cells, emitted) == rows_of(cells, false),
        forall|i: int|
            0 <= i < rows_of(cells, emitted).len() ==> (#[trigger] rows_of(
                cells,
                emitted,
            )[i]) is Some,
    decreases cells.len(),
{
    if cells.len() > 0 {
        let rest = cells.drop_first();
        assert(cells[0].lines.len() == 0 || cells[0].is_stream_continuation);
        assert(!starts_something(rest)) by {
            if starts_something(rest) {
                let i = choose|i: int|
                    0 <= i < rest.len() && (#[trigger] rest[i]).lines.len() > 0
                        && !rest[i].is_stream_continuation;
                assert(cells[i + 1] == rest[i]);
            }
        }
        lemma_rows_without_start(rest, emitted);
        lemma_rows_step(cells, emitted);
        lemma_rows_step(cells, false);
    }
}

/// Cell `c` of `cells` is the first that starts something new.
pub open spec fn is_first_start<T>(cells: Seq<CellModel<T>>, c: int) -> bool {
    &&& 0 <= c < cells.len()
    &&& cells[c].lines.len() > 0
    &&& !cells[c].is_stream_continuation
    &&& !starts_something(cells.take(c))
}

/// A blank row is missing from the last `row_cap` rows when only the cells from `tail` on
/// are known: something was started before them, they do not begin with something new, and
/// the first of them that starts something new does not fill the rows.
pub open spec fn lacks_blank_row<T>(
    head: Seq<CellModel<T>>,
    tail: Seq<CellModel<T>>,
    row_cap: nat,
) -> bool {
    &&& starts_something(head)
    &&& exists|c: int|
        0 < c && #[trigger] is_first_start(tail, c) && rows_of(tail.skip(c), false).len() < row_cap
}

/// The rows of cells before and after the first of `tail` that starts something new: when
/// something was started before, a blank row comes between them.
proof fn lemma_rows_around_start<T>(head: Seq<CellModel<T>>, tail: Seq<CellModel<T>>, c: int)
    requires
        is_first_start(tail, c),
    ensures
        rows_of(tail, false) == rows_of(tail.take(c), false) + rows_of(tail.skip(c), false),
        rows_of(head + tail, false) == rows_of(head, false) + rows_of(tail.take(c), false) + (
        if starts_something(head) {
            seq![None::<T>]
        } else {
            Seq::<Option<T>>::empty()
        }) + rows_of(tail.skip(c), false),
        forall|i: int|
            0 <= i < rows_of(tail.take(c), false).len() ==> (#[trigger] rows_of(
                tail.take(c),
                false,
            )[i]) is Some,
{
    let emitted = starts_something(head);
    let first = tail.take(c);
    let rest = tail.skip(c);
    assert(tail =~= first + rest);
    assert(rest[0] == tail[c]);
    lemma_rows_split(head, tail, false);
    lemma_rows_split(first, rest, false);
    lemma_rows_split(first, rest, emitted);
    lemma_rows_without_start(first, emitted);
    lemma_rows_without_start(first, false);
    lemma_rows_step(rest, false);
    lemma_rows_step(rest, emitted);
    let blank = if emitted {
        seq![None::<T>]
    } else {
        Seq::<Option<T>>::empty()
    };
    assert(rows_of(rest, emitted) =~= blank + rows_of(rest, false));
    assert(rows_of(head + tail, false) =~= rows_of(head, false) + rows_of(first, false) + blank
        + rows_of(rest, false));
}

/// The last rows of the tail are the last rows of the whole transcript, except where a
/// blank row is missing.
pub proof fn law_tail_ends_the_transcript<T>(
    all: Seq<CellModel<T>>,
    tail: Seq<CellModel<T>>,
    row_cap: nat,
)
    requires
        is_tail(tail, all.len(), row_cap),
        tail == all.skip(all.len() - tail.len()),
    ensures
        last_of(rows_of(tail, false), row_cap) == last_of(rows_of(all, false), row_cap)
            <==> !lacks_blank_row(all.take(all.len() - tail.len()), tail, row_cap),
{
    let n = all.len() - tail.len();
    let head = all.take(n);
    let emitted = starts_something(head);
    let rows = rows_of(tail, false);
    let whole = rows_of(all, false);
    assert(all =~= head + tail);
    lemma_rows_split(head, tail, false);
    lemma_rows_at_least_lines(tail, false);
    if n == 0 {
        assert(tail =~= all);
        assert(!emitted);
    } else if !starts_something(tail) {
        lemma_rows_without_start(tail, emitted);
        assert(whole.skip(whole.len() - row_cap) =~= rows.skip(rows.len() - row_cap));
        assert(!lacks_blank_row(head, tail, row_cap)) by {
            assert forall|c: int| !#[trigger] is_first_start(tail, c) by {}
        }
    } else {
        let c = lemma_first_start(tail);
        lemma_rows_around_start(head, tail, c);
        let front = rows_of(tail.take(c), false);
        let back = rows_of(tail.skip(c), false);
        let blank = if emitted {
            seq![None::<T>]
        } else {
            Seq::<Option<T>>::empty()
        };
        if c == 0 {
            assert(tail.take(c) =~= Seq::<CellModel<T>>::empty());
        }
        if !emitted || back.len() >= row_cap {
            assert(whole.skip(whole.len() - row_cap) =~= rows.skip(rows.len() - row_cap));
            assert(!lacks_blank_row(head, tail, row_cap)) by {
                assert forall|d: int| 0 < d && #[trigger] is_first_start(tail, d) implies d == c by {
                    lemma_first_start_unique(tail, c, d);
                }
            }
        } else {
            let at = row_cap - back.len() - 1;
            assert(last_of(whole, row_cap)[at] == whole[whole.len() - back.len() - 1]);
            assert(last_of(whole, row_cap)[at] is None);
            assert(last_of(rows, row_cap)[at] == rows[rows.len() - back.len() - 1]);
            assert(rows[rows.len() - back.len() - 1] == front[front.len() - 1]);
            assert(is_first_start(tail, c));
        }
    }
}

/// Where something is started there is a first that is.
proof fn lemma_first_start<T>(cells: Seq<CellModel<T>>) -> (c: int)
    requires
        starts_something(cells),
    ensures
        is_first_start(cells, c),
    decreases cells.len(),
{
    let i = choose|i: int|
        0 <= i < cells.len() && (#[trigger] cells[i]).lines.len() > 0
            && !cells[i].is_stream_continuation;
    let front = cells.take(i);
    if starts_something(front) {
        let c = lemma_first_start(front);
        assert(front.take(c) =~= cells.take(c));
        c
    } else {
        i
    }
}

/// There is only one first.
proof fn lemma_first_start_unique<T>(cells: Seq<CellModel<T>>, c: int, d: int)
    requires
        is_first_start(cells, c),
        is_first_start(cells, d),
    ensures
        c == d,
{
    if c < d {
        assert(cells.take(d)[c] == cells[c]);
    } else if d < c {
        assert(cells.take(c)[d] == cells[d]);
    }
}

/// The popup is drawn anew with the viewport exactly if a row of the screen belongs to both.
pub proof fn law_popup_in_the_viewport_is_drawn_anew(a: ScreenRect, b: ScreenRect)
    requires
        a.height > 0,
        b.height > 0,
        a.y + a.height <= u16::MAX,
        b.y + b.height <= u16::MAX,
    ensures
        share_rows(a, b) <==> exists|y: u16|
            a.y <= y < a.y + a.height && #[trigger] is_row_of(b, y),
{
    if share_rows(a, b) {
        let y = if a.y < b.y {
            b.y
        } else {
            a.y
        };
        assert(is_row_of(b, y));
    }
}

/// What is drawn anew with the viewport is the popup where it reaches into the viewport, as a
/// whole, and nothing otherwise.
pub proof fn law_popup_is_drawn_anew_as_a_whole(
    popup: Option<ScreenRect>,
    viewport: ScreenRect,
    y: u16,
)
    requires
        popup is Some ==> popup->0.height > 0 && popup->0.y + popup->0.height <= u16::MAX,
        viewport.height > 0,
        viewport.y + viewport.height <= u16::MAX,
    ensures
        popup is None ==> drawn_with(popup, viewport) is None,
        popup is Some && is_row_of(popup->0, y) && is_row_of(viewport, y) ==> drawn_with(
            popup,
            viewport,
        ) == popup,
        popup is Some && (popup->0.y + popup->0.height <= viewport.y || viewport.y + viewport.height
            <= popup->0.y) ==> drawn_with(popup, viewport) is None,
{
}

/// Where the popup was and no longer is, is put back: when it goes, and when it is drawn at
/// another place or in another size. Where it stays, and where it was not, there is nothing to
/// put back.
pub proof fn law_place_that_the_popup_leaves_is_put_back(
    previous: Option<ScreenRect>,
    next: Option<ScreenRect>,
)
    ensures
        previous is None ==> to_restore(previous, next) is None,
        previous is Some && next is None ==> to_restore(previous, next) == previous,
        previous is Some && next is Some && previous->0.x == next->0.x && previous->0.y == next->0.y
            && previous->0.width == next->0.width && previous->0.height == next->0.height
            ==> to_restore(previous, next) is None,
        previous is Some && next is Some && (previous->0.x != next->0.x || previous->0.y
            != next->0.y || previous->0.width != next->0.width || previous->0.height
            != next->0.height) ==> to_restore(previous, next) == previous,
{
}

/// What is put back at a row of the screen is the line of the history that stands there: the
/// last line in the row above the viewport, the one before it in the row above that, and so on.
pub proof fn law_lines_are_put_back_at_their_rows<T>(
    lines: Seq<T>,
    viewport_top: u16,
    history: Seq<Option<T>>,
    rows: RestoredRows,
    r: Seq<Option<T>>,
    y: u16,
)
    requires
        are_visible_rows(lines, viewport_top as nat, history),
        are_restored(history, rows, r),
        rows.start_y <= y < rows.end_y <= viewport_top,
    ensures
        r.len() == rows.end_y - rows.start_y,
        viewport_top - y <= lines.len() ==> r[y - rows.start_y] == Some(
            lines[lines.len() - (viewport_top - y)],
        ),
        viewport_top - y > lines.len() ==> r[y - rows.start_y] is None,
{
    law_history_ends_at_the_bottom(lines, viewport_top as nat, history, viewport_top - y - 1);
    assert(r[y - rows.start_y] == history[y as int]);
}

/// Row `y` of the screen belongs to the part.
pub open spec fn is_row_of(rect: ScreenRect, y: u16) -> bool {
    rect.y <= y < rect.y + rect.height
}

/// The rows of the history that are drawn again are those that the popup covered above the
/// viewport.
pub proof fn law_covered_history_is_drawn_again(rect: ScreenRect, viewport_top: u16, y: u16)
    requires
        rect.y + rect.height <= u16::MAX,
    ensures
        rows_above(rect, viewport_top).0 <= y < rows_above(rect, viewport_top).1 <==> is_row_of(
            rect,
            y,
        ) && y < viewport_top,
{
}

/// The history ends at the bottom of what is visible: the last line in the last row, the one
/// before it in the row above, and so on; where the lines end the rows are blank.
pub proof fn law_history_ends_at_the_bottom<T>(
    lines: Seq<T>,
    visible_rows: nat,
    rows: Seq<Option<T>>,
    k: int,
)
    requires
        are_visible_rows(lines, visible_rows, rows),
        0 <= k < visible_rows,
    ensures
        rows.len() == visible_rows,
        k < lines.len() ==> rows[visible_rows - 1 - k] == Some(lines[lines.len() - 1 - k]),
        k >= lines.len() ==> rows[visible_rows - 1 - k] is None,
{
}

/// Another cell adds its lines below the rows of those before it. A blank row goes between
/// exactly if it has lines, does not continue the cell before it, and is not the first of
/// that kind.
pub proof fn law_next_cell_adds_its_lines<T>(cells: Seq<CellModel<T>>, cell: CellModel<T>)
    ensures
        ({
            let follows = exists|i: int|
                0 <= i < cells.len() && (#[trigger] cells[i]).lines.len() > 0
                    && !cells[i].is_stream_continuation;
            let blank = if cell.lines.len() > 0 && !cell.is_stream_continuation && follows {
                seq![None::<T>]
            } else {
                Seq::<Option<T>>::empty()
            };
            rows_of(cells.push(cell), false) == rows_of(cells, false) + blank
                + cell.lines.map_values(|line: T| Some(line))
        }),
{
    let one = seq![cell];
    let emitted = starts_something(cells);
    let lines = cell.lines.map_values(|line: T| Some(line));
    assert(cells.push(cell) =~= cells + one);
    lemma_rows_split(cells, one, false);
    lemma_rows_step(one, emitted);
    assert(one.drop_first() =~= Seq::<CellModel<T>>::empty());
    assert(one[0] == cell);
    let blank = if emitted && cell.lines.len() > 0 && !cell.is_stream_continuation {
        seq![None::<T>]
    } else {
        Seq::<Option<T>>::empty()
    };
    assert(rows_of(one, emitted) =~= blank + lines);
    assert(rows_of(cells, false) + (blank + lines) =~= rows_of(cells, false) + blank + lines);
}

/// The last of a row of things are as many as are asked for, or all of them, and end where all
/// end.
pub proof fn law_last_are_at_the_end<V>(s: Seq<V>, n: nat, k: int)
    ensures
        n <= s.len() ==> last_of(s, n).len() == n,
        n > s.len() ==> last_of(s, n).len() == s.len(),
        0 <= k < last_of(s, n).len() ==> last_of(s, n)[last_of(s, n).len() - 1 - k] == s[s.len() - 1
            - k],
{
}

} // verus!
