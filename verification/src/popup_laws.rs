//! Laws of what the popup shows.
use std::ops::Range;
use vstd::prelude::*;
use vstd::string::*;

use crate::popup;
use crate::popup::{NameLine, PopupModel, RenderedRow, RenderedRows, ScreenRect};
use crate::ranking;
use crate::ranking::{CompletionKind, CompletionMatch};
use crate::scroll;
use crate::scroll::ScrollState;
use crate::width;

verus! {

/// The label of a kind.
pub open spec fn label(kind: CompletionKind) -> Seq<char> {
    match kind {
        CompletionKind::Word => "session"@,
        CompletionKind::Filename => "file"@,
        CompletionKind::Url => "url"@,
        CompletionKind::Dictionary => "dict"@,
    }
}

/// The row shows the completion: as much of its text as fits in front of the label and two
/// columns, and the label at the right end, if it fits.
pub open spec fn shows(row: RenderedRow, m: CompletionMatch, area: ScreenRect) -> bool {
    let n = label(m.kind).len();
    &&& row.x == area.x
    &&& row.tag@ == label(m.kind)
    &&& row.tag_width == n
    &&& row.show_tag == (n <= area.width)
    &&& n <= area.width && area.x + area.width <= u16::MAX ==> row.tag_x + n == area.x + area.width
    &&& n + 2 <= area.width ==> row.name_width + n + 2 == area.width
    &&& n + 2 > area.width ==> row.name_width == 0
    &&& popup::is_name_line(m, row.name_width, row.name)
}

/// The rows show completions one below the other, from one of them on, and each row is drawn as
/// selected exactly if its completion is the selected one. There are no more than eight rows,
/// nor than the area has, and the selected completion is among them. Where all completions fit
/// and the list is at its top, all of them are shown.
pub proof fn law_rows_show_the_completions(p: PopupModel, area: ScreenRect, rows: Vec<RenderedRow>)
    requires
        p.wf(),
        p.matches.len() > 0,
        popup::are_rows(p, area, RenderedRows::Rows(rows)),
        area.width > 0,
        area.height > 0,
        area.y + area.height <= u16::MAX,
    ensures
        rows@.len() <= 8,
        rows@.len() <= area.height,
        exists|start: int| #[trigger]
            are_shown_from(p, area, rows@, start) && start <= p.state.selected_idx->0 < start
                + rows@.len() && (p.state.scroll_top == 0 && p.matches.len() <= 8 && p.matches.len()
                <= area.height ==> start == 0 && rows@.len() == p.matches.len()),
{
    let start = popup::first_row(p, popup::rows_in(p.matches.len(), area.height));
    popup::law_selected_row_is_drawn(p, area);
    assert forall|k: int| 0 <= k < rows@.len() implies {
        let row = #[trigger] rows@[k];
        &&& row.y == area.y + k
        &&& row.selected == (start + k == p.state.selected_idx->0)
        &&& shows(row, p.matches[start + k], area)
    } by {
        popup::lemma_label(p.matches[start + k].kind);
        assert(popup::is_row(
            p,
            area.x,
            (area.y + k) as u16,
            area.width,
            start + k,
            p.matches[start + k],
            rows@[k],
        ));
    }
    assert(are_shown_from(p, area, rows@, start));
}

/// The rows show the completions from `start` on.
pub open spec fn are_shown_from(
    p: PopupModel,
    area: ScreenRect,
    rows: Seq<RenderedRow>,
    start: int,
) -> bool {
    &&& 0 <= start
    &&& start + rows.len() <= p.matches.len()
    &&& forall|k: int|
        0 <= k < rows.len() ==> {
            let row = #[trigger] rows[k];
            &&& row.y == area.y + k
            &&& row.selected == (start + k == p.state.selected_idx->0)
            &&& shows(row, p.matches[start + k], area)
        }
}

/// Without completions the popup says so, where there is room for a row; with them it shows
/// rows.
pub proof fn law_popup_without_completions_says_so(
    p: PopupModel,
    area: ScreenRect,
    r: RenderedRows,
)
    requires
        popup::are_rows(p, area, r),
    ensures
        p.matches.len() == 0 <==> r is NoMatches,
        r matches RenderedRows::NoMatches { placeholder } ==> placeholder == (area.height > 0),
{
}

/// A name is shown from its first character on, as far as it fits: the next character would
/// not. It is marked as cut exactly if something is missing. The characters that the query
/// matched are highlighted, and no others.
pub proof fn law_name_is_shown_as_far_as_it_fits(m: CompletionMatch, columns: u16, line: NameLine)
    requires
        popup::is_name_line(m, columns, line),
        forall|a: int, b: int|
            0 <= a < b < m.match_indices@.len() ==> m.match_indices@[a] < m.match_indices@[b],
        m.text@.len() <= usize::MAX,
    ensures
        ({
            let n = line.cells@.len() as int;
            let s = m.text@;
            &&& columns == 0 ==> n == 0 && !line.truncated
            &&& columns > 0 ==> {
                &&& n <= s.len()
                &&& line.truncated <==> n < s.len()
                &&& popup::columns_before(s, n) <= columns
                &&& n < s.len() ==> popup::columns_before(s, n + 1) > columns
                &&& forall|i: int|
                    0 <= i < n ==> {
                        &&& (#[trigger] line.cells@[i]).ch == s[i]
                        &&& line.cells@[i].highlighted <==> m.match_indices@.contains(i as usize)
                    }
            }
        }),
{
    if columns > 0 {
        assert forall|i: int| 0 <= i < line.cells@.len() implies {
            &&& (#[trigger] line.cells@[i]).ch == m.text@[i]
            &&& line.cells@[i].highlighted <==> m.match_indices@.contains(i as usize)
        } by {
            popup::law_matched_characters_are_highlighted(m.match_indices@, i);
        }
    }
}

/// The columns of a text are those of its characters together; a character without columns
/// takes none.
pub proof fn law_columns_add_up(s: Seq<char>, n: int)
    requires
        0 <= n < s.len(),
    ensures
        popup::columns_before(s, 0) == 0,
        width::char_columns(s[n]) is None ==> popup::columns_before(s, n + 1)
            == popup::columns_before(s, n),
        width::char_columns(s[n]) is Some ==> popup::columns_before(s, n + 1)
            == popup::columns_before(s, n) + width::char_columns(s[n])->0,
{
}

/// A new popup is for its token, shows its completions from the top and has the first of them
/// selected.
pub proof fn law_new_popup_selects_the_first(
    query: Seq<char>,
    token_range: Range<usize>,
    matches: Seq<CompletionMatch>,
)
    ensures
        ({
            let p = popup::new_popup(query, token_range, matches);
            &&& p.query == query
            &&& p.token_range == token_range
            &&& p.matches == matches
            &&& p.state.scroll_top == 0
            &&& matches.len() > 0 ==> p.state.selected_idx == Some(0usize)
            &&& matches.len() == 0 ==> p.state.selected_idx is None
        }),
{
}

/// Other completions take the place of those that are shown. For the same query the selection
/// stays where it is, on the last where there are not as many; for another it starts again.
pub proof fn law_results_take_the_place_of_others(
    p: PopupModel,
    query: Seq<char>,
    token_range: Range<usize>,
    matches: Seq<CompletionMatch>,
)
    requires
        p.wf(),
        0 < matches.len() <= usize::MAX,
    ensures
        ({
            let r = popup::with_results(p, query, token_range, matches);
            &&& r.query == query
            &&& r.token_range == token_range
            &&& r.matches == matches
            &&& r.state.selected_idx is Some
            &&& p.query != query || p.matches.len() == 0 ==> r.state.selected_idx->0 == 0
                && r.state.scroll_top == 0
            &&& p.query == query && p.matches.len() > 0 ==> r.state.selected_idx->0 == if (
            p.state.selected_idx->0 < matches.len()) {
                p.state.selected_idx->0 as int
            } else {
                matches.len() - 1
            }
        }),
{
}

/// The list is moved only if the selected row is not shown, and then as little as needed: it
/// becomes the first row or the last.
pub proof fn law_list_moves_as_little_as_needed(s: ScrollState, len: usize, visible_rows: usize)
    requires
        len > 0,
        visible_rows > 0,
        s.selected_idx is Some,
    ensures
        ({
            let r = scroll::made_visible(s, len, visible_rows);
            let i = s.selected_idx->0;
            &&& r.selected_idx == s.selected_idx
            &&& s.scroll_top <= i < s.scroll_top + visible_rows ==> r.scroll_top == s.scroll_top
            &&& i < s.scroll_top ==> r.scroll_top == i
            &&& i >= s.scroll_top + visible_rows ==> r.scroll_top + visible_rows == i + 1
        }),
{
}

/// One row further down is the next, and below the last the first; one row further up is the
/// one before, and above the first the last. Where none is selected it is the first.
pub proof fn law_moves_go_one_row(s: ScrollState, len: usize)
    requires
        len > 0,
    ensures
        ({
            let down = scroll::moved_down(s, len);
            let up = scroll::moved_up(s, len);
            &&& down.selected_idx is Some && up.selected_idx is Some
            &&& down.scroll_top == s.scroll_top && up.scroll_top == s.scroll_top
            &&& s.selected_idx is None ==> down.selected_idx->0 == 0 && up.selected_idx->0 == 0
            &&& s.selected_idx is Some && s.selected_idx->0 < len - 1 ==> down.selected_idx->0
                == s.selected_idx->0 + 1
            &&& s.selected_idx is Some && s.selected_idx->0 == len - 1 ==> down.selected_idx->0 == 0
            &&& s.selected_idx is Some && s.selected_idx->0 > 0 ==> up.selected_idx->0
                == s.selected_idx->0 - 1
            &&& s.selected_idx == Some(0usize) ==> up.selected_idx->0 == len - 1
        }),
{
}

/// The selection stays within the list: on its row, on the last where that is gone, and on the
/// first where there was none.
pub proof fn law_selection_stays_in_the_list(s: ScrollState, len: usize)
    ensures
        ({
            let r = scroll::clamped(s, len);
            &&& len == 0 ==> r.selected_idx is None && r.scroll_top == 0
            &&& len > 0 ==> r.selected_idx is Some && r.scroll_top == s.scroll_top
            &&& len > 0 && s.selected_idx is None ==> r.selected_idx->0 == 0
            &&& len > 0 && s.selected_idx is Some && s.selected_idx->0 < len ==> r.selected_idx
                == s.selected_idx
            &&& len > 0 && s.selected_idx is Some && s.selected_idx->0 >= len ==> r.selected_idx->0
                == len - 1
        }),
{
}

/// The labels are those that are shown.
pub proof fn law_labels(kind: CompletionKind)
    ensures
        ranking::kind_label(kind) == label(kind),
{
}

/// The list is shown from where it was scrolled to, if the selected completion is then among
/// the rows that there is room for, and otherwise so that it is the last of them; as many rows
/// are drawn as there is room for and completions are left.
pub proof fn law_rows_start_where_the_list_is(p: PopupModel, area: ScreenRect, rows: Vec<RenderedRow>)
    requires
        p.wf(),
        p.matches.len() > 0,
        popup::are_rows(p, area, RenderedRows::Rows(rows)),
        area.width > 0,
        area.height > 0,
        area.y + area.height <= u16::MAX,
    ensures
        exists|start: int, room: int|
            #![trigger are_shown_from(p, area, rows@, start), is_room(p, area, room)]
            {
                &&& are_shown_from(p, area, rows@, start)
                &&& is_room(p, area, room)
                &&& p.state.selected_idx->0 < p.state.scroll_top + room ==> start
                    == p.state.scroll_top
                &&& p.state.selected_idx->0 >= p.state.scroll_top + room ==> start + room
                    == p.state.selected_idx->0 + 1
                &&& p.matches.len() - start >= room ==> rows@.len() == room
                &&& p.matches.len() - start < room ==> rows@.len() == p.matches.len() - start
            },
{
    let room = popup::rows_in(p.matches.len(), area.height);
    let start = popup::first_row(p, room);
    assert forall|k: int| 0 <= k < rows@.len() implies {
        let row = #[trigger] rows@[k];
        &&& row.y == area.y + k
        &&& row.selected == (start + k == p.state.selected_idx->0)
        &&& shows(row, p.matches[start + k], area)
    } by {
        popup::lemma_label(p.matches[start + k].kind);
        assert(popup::is_row(
            p,
            area.x,
            (area.y + k) as u16,
            area.width,
            start + k,
            p.matches[start + k],
            rows@[k],
        ));
    }
    assert(are_shown_from(p, area, rows@, start));
    assert(is_room(p, area, room));
}

/// There is room for so many completions: the least of eight, the rows of the area and how many
/// there are.
pub open spec fn is_room(p: PopupModel, area: ScreenRect, room: int) -> bool {
    &&& room <= 8 && room <= area.height && room <= p.matches.len()
    &&& room == 8 || room == area.height || room == p.matches.len()
}

/// Without a column or a row nothing is drawn.
pub proof fn law_nothing_is_drawn_without_room(
    p: PopupModel,
    area: ScreenRect,
    rows: Vec<RenderedRow>,
)
    requires
        p.wf(),
        popup::are_rows(p, area, RenderedRows::Rows(rows)),
        area.width == 0 || area.height == 0,
    ensures
        rows@.len() == 0,
{
}

} // verus!
