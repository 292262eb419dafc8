//! The popup with the completions of a token.
use std::ops::Range;
use vstd::prelude::*;
use vstd::string::*;

use crate::autocomplete::CompletionContext;
use crate::ranking;
use crate::ranking::{CompletionMatch, MAX_COMPLETION_RESULTS};
use crate::scroll;
use crate::scroll::ScrollState;
use crate::text::{byte_len, str_eq};
use crate::utf8;
use crate::width;
use crate::width::{char_width, str_width};

verus! {

/// A part of the screen.
#[derive(Clone, Copy, Debug, PartialEq, Eq, Structural)]
pub struct ScreenRect {
    pub x: u16,
    pub y: u16,
    pub width: u16,
    pub height: u16,
}

/// `a + b`, or the greatest number of its type where that is less.
pub open spec fn saturating_sum(a: u16, b: u16) -> u16 {
    if a + b <= u16::MAX {
        (a + b) as u16
    } else {
        u16::MAX
    }
}

/// `a - b`, or 0 where that is less.
pub open spec fn saturating_difference(a: u16, b: u16) -> u16 {
    if a >= b {
        (a - b) as u16
    } else {
        0
    }
}

impl ScreenRect {
    /// The row below the last one.
    pub open spec fn spec_bottom(self) -> u16 {
        saturating_sum(self.y, self.height)
    }

    /// The row below the last one.
    pub fn bottom(self) -> (r: u16)
        ensures
            r == self.spec_bottom(),
    {
        self.y.saturating_add(self.height)
    }
}

/// The popup: the query and the token it is for, the completions, the selected one and
/// the first that is shown.
#[verifier::ext_equal]
pub struct PopupModel {
    pub query: Seq<char>,
    pub token_range: Range<usize>,
    pub matches: Seq<CompletionMatch>,
    pub state: ScrollState,
}

impl PopupModel {
    /// A completion is selected, and shown, where there is one.
    pub open spec fn wf(self) -> bool {
        if self.matches.len() == 0 {
            self.state == (ScrollState { selected_idx: None, scroll_top: 0 })
        } else {
            &&& self.matches.len() <= usize::MAX
            &&& self.state.selected_idx is Some
            &&& self.state.selected_idx->0 < self.matches.len()
            &&& self.state.scroll_top <= self.state.selected_idx->0 < self.state.scroll_top
                + MAX_COMPLETION_RESULTS
        }
    }
}

/// The popup with the completions of a token.
#[derive(Debug)]
pub struct CompletionPopup {
    query: String,
    token_range: Range<usize>,
    matches: Vec<CompletionMatch>,
    state: ScrollState,
}

impl View for CompletionPopup {
    type V = PopupModel;

    closed spec fn view(&self) -> PopupModel {
        PopupModel {
            query: self.query@,
            token_range: self.token_range,
            matches: self.matches@,
            state: self.state,
        }
    }
}

/// A new popup: the first completion is selected, if there is one.
pub open spec fn new_popup(
    query: Seq<char>,
    token_range: Range<usize>,
    matches: Seq<CompletionMatch>,
) -> PopupModel {
    PopupModel {
        query,
        token_range,
        matches,
        state: ScrollState {
            selected_idx: if matches.len() == 0 {
                None
            } else {
                Some(0)
            },
            scroll_top: 0,
        },
    }
}

/// The popup with other completions. For another query the selection starts again; for
/// the same it stays, as far as there are as many completions.
pub open spec fn with_results(
    p: PopupModel,
    query: Seq<char>,
    token_range: Range<usize>,
    matches: Seq<CompletionMatch>,
) -> PopupModel {
    let start = if p.query == query {
        p.state
    } else {
        ScrollState { selected_idx: None, scroll_top: 0 }
    };
    let len = matches.len() as usize;
    PopupModel {
        query,
        token_range,
        matches,
        state: scroll::made_visible(
            scroll::clamped(start, len),
            len,
            MAX_COMPLETION_RESULTS,
        ),
    }
}

/// The popup with the next completion selected.
pub open spec fn with_next(p: PopupModel) -> PopupModel {
    let len = p.matches.len() as usize;
    PopupModel {
        state: scroll::made_visible(
            scroll::moved_down(p.state, len),
            len,
            MAX_COMPLETION_RESULTS,
        ),
        ..p
    }
}

/// The popup with the previous completion selected.
pub open spec fn with_previous(p: PopupModel) -> PopupModel {
    let len = p.matches.len() as usize;
    PopupModel {
        state: scroll::made_visible(
            scroll::moved_up(p.state, len),
            len,
            MAX_COMPLETION_RESULTS,
        ),
        ..p
    }
}

/// The popup is for the token of the context.
pub open spec fn is_for(p: PopupModel, context: CompletionContext) -> bool {
    p.query == context.query@ && p.token_range == context.token_range
}

/// The columns that a completion takes: its text, its label and some room.
pub open spec fn entry_columns(m: CompletionMatch) -> int {
    width::text_columns(m.text@) + utf8::utf8_len(ranking::kind_label(m.kind)) + 4
}

/// The columns of the widest completion.
pub open spec fn widest(s: Seq<CompletionMatch>) -> int
    decreases s.len(),
{
    if s.len() == 0 {
        0
    } else {
        let rest = widest(s.drop_last());
        let last = entry_columns(s.last());
        if rest >= last {
            rest
        } else {
            last
        }
    }
}

/// The width of the popup: that of the widest completion, or ten without any, and the
/// border, as far as the screen can have it.
pub open spec fn popup_width(s: Seq<CompletionMatch>) -> int {
    let content = if s.len() == 0 {
        10
    } else {
        widest(s)
    };
    if content + 2 <= u16::MAX {
        content + 2
    } else {
        u16::MAX as int
    }
}

/// The height of the popup: a row for each completion, at least one and not more than
/// are ever returned, and the border.
pub open spec fn popup_height(len: nat) -> int {
    if len == 0 {
        3
    } else if len <= MAX_COMPLETION_RESULTS {
        len as int + 2
    } else {
        MAX_COMPLETION_RESULTS + 2
    }
}

impl CompletionPopup {
    #[verifier::type_invariant]
    spec fn selection_fits(&self) -> bool {
        self@.wf()
    }

    /// A popup with the first completion selected.
    pub fn new(query: String, token_range: Range<usize>, matches: Vec<CompletionMatch>) -> (r: Self)
        ensures
            r@ == new_popup(query@, token_range, matches@),
            r@.wf(),
    {
        let mut state = ScrollState::new();
        state.clamp_selection(matches.len());
        CompletionPopup { query, token_range, matches, state }
    }

    /// Shows other completions.
    pub fn set_results(
        &mut self,
        query: String,
        token_range: Range<usize>,
        matches: Vec<CompletionMatch>,
    )
        ensures
            final(self)@ == with_results(old(self)@, query@, token_range, matches@),
            final(self)@.wf(),
    {
        let query_changed = !str_eq(self.query.as_str(), query.as_str());
        let mut state = self.state;
        if query_changed {
            state.reset();
        }
        state.clamp_selection(matches.len());
        state.ensure_visible(matches.len(), MAX_COMPLETION_RESULTS);
        *self = CompletionPopup { query, token_range, matches, state };
    }

    /// Selects the next completion.
    pub fn move_next(&mut self)
        ensures
            final(self)@ == with_next(old(self)@),
            final(self)@.wf(),
    {
        proof {
            use_type_invariant(&*self);
        }
        let mut state = self.state;
        state.move_down_wrap(self.matches.len());
        state.ensure_visible(self.matches.len(), MAX_COMPLETION_RESULTS);
        self.state = state;
    }

    /// Selects the previous completion.
    pub fn move_previous(&mut self)
        ensures
            final(self)@ == with_previous(old(self)@),
            final(self)@.wf(),
    {
        proof {
            use_type_invariant(&*self);
        }
        let mut state = self.state;
        state.move_up_wrap(self.matches.len());
        state.ensure_visible(self.matches.len(), MAX_COMPLETION_RESULTS);
        self.state = state;
    }

    /// The token to replace and the text to replace it with, if a completion is selected.
    pub fn selected(&self) -> (r: Option<(Range<usize>, String)>)
        ensures
            self@.wf(),
            match r {
                Some((range, text)) => {
                    &&& self@.matches.len() > 0
                    &&& range == self@.token_range
                    &&& text@ == self@.matches[self@.state.selected_idx->0 as int].text@
                },
                None => self@.matches.len() == 0,
            },
    {
        proof {
            use_type_invariant(self);
        }
        match self.state.selected_idx {
            Some(idx) => Some(
                (self.token_range.start..self.token_range.end, self.matches[idx].text.clone()),
            ),
            None => None,
        }
    }

    /// The query that the completions are for.
    pub fn token_query(&self) -> (r: &str)
        ensures
            r@ == self@.query,
    {
        self.query.as_str()
    }

    /// Whether the popup is for the token of the context.
    pub fn matches_context(&self, context: &CompletionContext) -> (r: bool)
        ensures
            r == is_for(self@, *context),
    {
        str_eq(self.query.as_str(), context.query.as_str()) && self.token_range.start
            == context.token_range.start && self.token_range.end == context.token_range.end
    }

    /// The height that the popup needs, with its border.
    pub fn calculate_required_height(&self) -> (r: u16)
        ensures
            r == popup_height(self@.matches.len()),
    {
        let len = self.matches.len();
        let rows: u16 = if len == 0 {
            1
        } else if len > MAX_COMPLETION_RESULTS {
            MAX_COMPLETION_RESULTS as u16
        } else {
            len as u16
        };
        rows.saturating_add(2)
    }

    /// The width that the popup would like, with its border.
    pub fn preferred_width(&self) -> (r: u16)
        ensures
            r == popup_width(self@.matches),
    {
        let mut content_width: usize = 0;
        let mut i: usize = 0;
        assert(self.matches@.take(0) =~= Seq::<CompletionMatch>::empty());
        while i < self.matches.len()
            invariant
                i <= self.matches@.len(),
                0 <= widest(self.matches@.take(i as int)),
                content_width == widest(self.matches@.take(i as int)) || (content_width
                    == usize::MAX && widest(self.matches@.take(i as int)) >= usize::MAX),
            decreases self.matches@.len() - i,
        {
            let m = &self.matches[i];
            let label_len = byte_len(m.kind.label());
            let entry: usize = str_width(m.text.as_str()).saturating_add(label_len).saturating_add(
                4,
            );
            proof {
                let t = self.matches@.take(i + 1);
                assert(t.last() == self.matches@[i as int]);
                assert(t.drop_last() =~= self.matches@.take(i as int));
            }
            if entry > content_width {
                content_width = entry;
            }
            i += 1;
        }
        assert(self.matches@.take(i as int) =~= self.matches@);
        if self.matches.len() == 0 {
            content_width = 10;
        }
        let width: usize = content_width.saturating_add(2);
        if width > u16::MAX as usize {
            u16::MAX
        } else {
            width as u16
        }
    }
}

/// A selected completion moved on and back is selected again.
pub proof fn law_previous_undoes_next(p: PopupModel)
    requires
        p.wf(),
        p.matches.len() > 0,
    ensures
        with_previous(with_next(p)).state.selected_idx == p.state.selected_idx,
        with_next(with_previous(p)).state.selected_idx == p.state.selected_idx,
        with_next(p).matches == p.matches,
        with_previous(p).matches == p.matches,
{
}

/// Whatever is done to a popup, a completion that exists is selected and shown.
pub proof fn law_selection_is_shown(
    p: PopupModel,
    query: Seq<char>,
    token_range: Range<usize>,
    matches: Seq<CompletionMatch>,
)
    requires
        p.wf(),
        matches.len() <= usize::MAX,
    ensures
        new_popup(query, token_range, matches).wf(),
        with_results(p, query, token_range, matches).wf(),
        with_next(p).wf(),
        with_previous(p).wf(),
{
}

/// A character of a completion's name, and whether the query matched it.
#[derive(Clone, Copy, Debug, PartialEq, Eq, Structural)]
pub struct NameCell {
    pub ch: char,
    pub highlighted: bool,
}

/// As much of a completion's name as fits, and whether something was cut off.
#[derive(Debug)]
pub struct NameLine {
    pub cells: Vec<NameCell>,
    pub truncated: bool,
}

/// One row of the popup: the name, and the label of its kind at the right.
#[derive(Debug)]
pub struct RenderedRow {
    pub x: u16,
    pub y: u16,
    pub name: NameLine,
    pub name_width: u16,
    pub tag: &'static str,
    pub tag_x: u16,
    pub tag_width: u16,
    pub show_tag: bool,
    pub selected: bool,
}

/// The content of the popup.
#[derive(Debug)]
pub enum RenderedRows {
    /// There are no completions; where there is room it says so.
    NoMatches { placeholder: bool },
    /// The completions that are shown, from top to bottom.
    Rows(Vec<RenderedRow>),
}

/// The columns of a character; a control character takes none.
pub open spec fn cell_columns(c: char) -> nat {
    match width::char_columns(c) {
        Some(n) => n as nat,
        None => 0,
    }
}

/// The columns of the first `n` characters.
pub open spec fn columns_before(s: Seq<char>, n: int) -> nat
    decreases n,
{
    if n <= 0 {
        0
    } else {
        columns_before(s, n - 1) + cell_columns(s[n - 1])
    }
}

/// How many of the places in `indices` were met before character `i`, each waiting for
/// the one before it.
pub open spec fn places_met(indices: Seq<usize>, i: int) -> nat
    decreases i,
{
    if i <= 0 {
        0
    } else {
        let k = places_met(indices, i - 1);
        if k < indices.len() && indices[k as int] == i - 1 {
            k + 1
        } else {
            k
        }
    }
}

/// Character `i` is the next of the places.
pub open spec fn is_highlighted(indices: Seq<usize>, i: int) -> bool {
    places_met(indices, i) < indices.len() && indices[places_met(indices, i) as int] == i
}

/// `line` shows the completion's name in `columns` columns: its first characters, as many
/// as fit, the matched ones highlighted. Without room it shows nothing.
pub open spec fn is_name_line(m: CompletionMatch, columns: u16, line: NameLine) -> bool {
    let s = m.text@;
    let n = line.cells@.len();
    if columns == 0 {
        n == 0 && !line.truncated
    } else {
        &&& n <= s.len()
        &&& columns_before(s, n as int) <= columns
        &&& n < s.len() ==> columns_before(s, n as int + 1) > columns
        &&& line.truncated == (n < s.len())
        &&& forall|i: int|
            0 <= i < n ==> (#[trigger] line.cells@[i]).ch == s[i] && line.cells@[i].highlighted
                == is_highlighted(m.match_indices@, i)
    }
}

/// Adds a character to a name.
fn push_cell(cells: &mut Vec<NameCell>, ch: char, highlighted: bool)
    ensures
        final(cells)@.len() == old(cells)@.len() + 1,
        final(cells)@.last() == (NameCell { ch, highlighted }),
        forall|i: int| 0 <= i < old(cells)@.len() ==> final(cells)@[i] == old(cells)@[i],
{
    cells.push(NameCell { ch, highlighted });
}

/// The completion's name, cut to `width` columns.
pub fn completion_name_line(completion_match: &CompletionMatch, width: u16) -> (r: NameLine)
    ensures
        is_name_line(*completion_match, width, r),
{
    let mut cells: Vec<NameCell> = Vec::new();
    if width == 0 {
        return NameLine { cells, truncated: false };
    }
    let ghost s = completion_match.text@;
    let ghost indices = completion_match.match_indices@;
    let limit: usize = width as usize;
    let mut used_width: usize = 0;
    let mut truncated = false;
    let mut met: usize = 0;
    let mut char_idx: usize = 0;
    let text_len = byte_len(completion_match.text.as_str());
    proof {
        utf8::lemma_len_le_bytes(s);
    }
    for ch in it: completion_match.text.chars()
        invariant_except_break
            !truncated,
            cells@.len() == it.index(),
        invariant
            it.seq() == s,
            s == completion_match.text@,
            indices == completion_match.match_indices@,
            limit == width,
            s.len() <= text_len,
            char_idx == cells@.len(),
            cells@.len() <= s.len(),
            used_width == columns_before(s, cells@.len() as int),
            used_width <= limit,
            met == places_met(indices, cells@.len() as int),
            met <= indices.len(),
            forall|i: int|
                0 <= i < cells@.len() ==> (#[trigger] cells@[i]).ch == s[i] && cells@[i].highlighted
                    == is_highlighted(indices, i),
        ensures
            truncated == (cells@.len() < s.len()),
            truncated ==> columns_before(s, cells@.len() as int + 1) > limit,
    {
        let ghost n = it.index();
        assert(ch == s[n]);
        let columns: usize = match char_width(ch) {
            Some(columns) => columns,
            None => 0,
        };
        let next_width: usize = used_width.saturating_add(columns);
        if next_width > limit {
            truncated = true;
            break;
        }
        used_width = next_width;
        let highlighted = met < completion_match.match_indices.len()
            && completion_match.match_indices[met] == char_idx;
        if highlighted {
            met += 1;
        }
        push_cell(&mut cells, ch, highlighted);
        char_idx += 1;
    }
    NameLine { cells, truncated }
}

/// The columns of the label of a kind: one for each of its characters.
pub open spec fn tag_columns(m: CompletionMatch) -> u16 {
    ranking::kind_label(m.kind).len() as u16
}

/// The labels are short and of printable ASCII characters.
pub(crate) proof fn lemma_label(kind: ranking::CompletionKind)
    ensures
        ranking::kind_label(kind).len() <= 7,
        width::is_printable_ascii(ranking::kind_label(kind)),
{
    reveal_strlit("session");
    reveal_strlit("file");
    reveal_strlit("url");
    reveal_strlit("dict");
}

/// `row` shows completion `idx` of the popup at `y`: the name from `x` on, and the label at
/// the right if it fits.
pub open spec fn is_row(
    p: PopupModel,
    x: u16,
    y: u16,
    columns: u16,
    idx: int,
    m: CompletionMatch,
    row: RenderedRow,
) -> bool {
    let tag_width = tag_columns(m);
    &&& row.x == x
    &&& row.y == y
    &&& row.name_width == saturating_difference(columns, saturating_sum(tag_width, 2))
    &&& is_name_line(m, row.name_width, row.name)
    &&& row.tag@ == ranking::kind_label(m.kind)
    &&& row.tag_width == tag_width
    &&& row.tag_x == saturating_sum(x, saturating_difference(columns, tag_width))
    &&& row.show_tag == (tag_width <= columns)
    &&& row.selected == (p.state.selected_idx is Some && p.state.selected_idx->0 == idx)
}

/// How many completions an area of the given height can show at once: at least one.
pub open spec fn rows_in(len: nat, height: u16) -> int {
    let by_height = if height == 0 {
        1
    } else {
        height as int
    };
    let most = if len < MAX_COMPLETION_RESULTS {
        len as int
    } else {
        MAX_COMPLETION_RESULTS as int
    };
    if most < by_height {
        most
    } else {
        by_height
    }
}

/// The first completion that is shown in `visible` rows: where the list was scrolled to,
/// moved as little as needed for the selected one to be shown.
pub open spec fn first_row(p: PopupModel, visible: int) -> int {
    let top = if p.state.scroll_top < p.matches.len() {
        p.state.scroll_top as int
    } else {
        p.matches.len() - 1
    };
    match p.state.selected_idx {
        Some(i) if i < top => i as int,
        Some(i) if visible > 0 && i > top + visible - 1 => i + 1 - visible,
        _ => top,
    }
}

/// How many rows are drawn: what is shown, as far as there are completions and the area
/// reaches.
pub open spec fn drawn_rows(p: PopupModel, area: ScreenRect) -> int {
    let visible = rows_in(p.matches.len(), area.height);
    let left = p.matches.len() - first_row(p, visible);
    let room = area.spec_bottom() - area.y;
    let n = if visible < left {
        visible
    } else {
        left
    };
    if n < room {
        n
    } else {
        room
    }
}

/// `r` is the content of the popup in the area.
pub open spec fn are_rows(p: PopupModel, area: ScreenRect, r: RenderedRows) -> bool {
    match r {
        RenderedRows::NoMatches { placeholder } => p.matches.len() == 0 && placeholder == (
        area.height > 0),
        RenderedRows::Rows(rows) => {
            let start = first_row(p, rows_in(p.matches.len(), area.height));
            &&& p.matches.len() > 0
            &&& area.width == 0 ==> rows@.len() == 0
            &&& area.width > 0 ==> {
                &&& rows@.len() == drawn_rows(p, area)
                &&& forall|k: int|
                    0 <= k < rows@.len() ==> is_row(
                        p,
                        area.x,
                        (area.y + k) as u16,
                        area.width,
                        start + k,
                        p.matches[start + k],
                        #[trigger] rows@[k],
                    )
            }
        },
    }
}

impl CompletionPopup {
    /// Completion `idx` as a row at `y`; nothing without room.
    pub fn render_row(
        &self,
        x: u16,
        y: u16,
        width: u16,
        idx: usize,
        completion_match: &CompletionMatch,
    ) -> (r: Option<RenderedRow>)
        ensures
            match r {
                Some(row) => width > 0 && is_row(
                    self@,
                    x,
                    y,
                    width,
                    idx as int,
                    *completion_match,
                    row,
                ),
                None => width == 0,
            },
    {
        if width == 0 {
            return None;
        }
        let selected = match self.state.selected_idx {
            Some(selected_idx) => selected_idx == idx,
            None => false,
        };
        let tag = completion_match.kind.label();
        proof {
            lemma_label(completion_match.kind);
        }
        let tag_width: u16 = str_width(tag) as u16;
        let name_width: u16 = width.saturating_sub(tag_width.saturating_add(2));
        let name = completion_name_line(completion_match, name_width);
        let tag_x: u16 = x.saturating_add(width.saturating_sub(tag_width));
        Some(
            RenderedRow {
                x,
                y,
                name,
                name_width,
                tag,
                tag_x,
                tag_width,
                show_tag: tag_width <= width,
                selected,
            },
        )
    }

    /// The content of the popup in the area.
    pub fn render_rows(&self, area: ScreenRect) -> (r: RenderedRows)
        ensures
            are_rows(self@, area, r),
    {
        let len = self.matches.len();
        if len == 0 {
            return RenderedRows::NoMatches { placeholder: area.height > 0 };
        }
        proof {
            use_type_invariant(self);
        }
        let by_height: usize = if area.height == 0 {
            1
        } else {
            area.height as usize
        };
        let most: usize = if len < MAX_COMPLETION_RESULTS {
            len
        } else {
            MAX_COMPLETION_RESULTS
        };
        let visible_items: usize = if most < by_height {
            most
        } else {
            by_height
        };
        let mut start_idx: usize = if self.state.scroll_top < len {
            self.state.scroll_top
        } else {
            len - 1
        };
        if let Some(selected_idx) = self.state.selected_idx {
            if selected_idx < start_idx {
                start_idx = selected_idx;
            } else if selected_idx - start_idx >= visible_items {
                start_idx = selected_idx + 1 - visible_items;
            }
        }
        let ghost p = self@;
        assert(start_idx == first_row(p, visible_items as int));
        let bottom = area.bottom();
        let mut rows: Vec<RenderedRow> = Vec::new();
        if area.width == 0 {
            return RenderedRows::Rows(rows);
        }
        let mut row_offset: usize = 0;
        while row_offset < visible_items && row_offset < len - start_idx && area.y.saturating_add(
            row_offset as u16,
        ) < bottom
            invariant
                p == self@,
                len == self.matches@.len(),
                start_idx < len,
                row_offset <= visible_items <= MAX_COMPLETION_RESULTS,
                row_offset <= len - start_idx,
                row_offset <= bottom - area.y,
                bottom == area.spec_bottom(),
                area.width > 0,
                rows@.len() == row_offset,
                forall|k: int|
                    0 <= k < rows@.len() ==> is_row(
                        p,
                        area.x,
                        (area.y + k) as u16,
                        area.width,
                        start_idx + k,
                        p.matches[start_idx + k],
                        #[trigger] rows@[k],
                    ),
            decreases visible_items - row_offset,
        {
            let y: u16 = area.y.saturating_add(row_offset as u16);
            let idx: usize = start_idx + row_offset;
            let row = self.render_row(area.x, y, area.width, idx, &self.matches[idx]);
            if let Some(row) = row {
                rows.push(row);
            }
            row_offset += 1;
        }
        RenderedRows::Rows(rows)
    }
}

/// Where the places ascend, exactly these are highlighted.
pub proof fn law_matched_characters_are_highlighted(indices: Seq<usize>, i: int)
    requires
        forall|a: int, b: int| 0 <= a < b < indices.len() ==> indices[a] < indices[b],
        0 <= i <= usize::MAX,
    ensures
        is_highlighted(indices, i) <==> indices.contains(i as usize),
{
    lemma_places_met(indices, i);
    let k = places_met(indices, i) as int;
    if indices.contains(i as usize) {
        let a = choose|a: int| 0 <= a < indices.len() && indices[a] == i as usize;
        if a < k {
            assert(indices[a] < i);
        } else if k < a {
            assert(indices[k] < indices[a]);
        }
    }
}

/// Of ascending places those below `i` were met before character `i`.
proof fn lemma_places_met(indices: Seq<usize>, i: int)
    requires
        forall|a: int, b: int| 0 <= a < b < indices.len() ==> indices[a] < indices[b],
    ensures
        places_met(indices, i) <= indices.len(),
        forall|a: int| 0 <= a < places_met(indices, i) ==> #[trigger] indices[a] < i,
        forall|a: int| places_met(indices, i) <= a < indices.len() ==> #[trigger] indices[a] >= i,
    decreases i,
{
    if i > 0 {
        lemma_places_met(indices, i - 1);
        let k = places_met(indices, i - 1) as int;
        if k < indices.len() && indices[k] != i - 1 {
            assert forall|a: int| k <= a < indices.len() implies #[trigger] indices[a] >= i by {
                if a > k {
                    assert(indices[k] < indices[a]);
                }
            }
        } else if k < indices.len() {
            assert forall|a: int| k + 1 <= a < indices.len() implies #[trigger] indices[a] >= i by {
                assert(indices[k] < indices[a]);
            }
        }
    }
}

/// The selected completion is among the rows that are drawn, in an area that has room.
pub proof fn law_selected_row_is_drawn(p: PopupModel, area: ScreenRect)
    requires
        p.wf(),
        p.matches.len() > 0,
        area.height > 0,
        area.y + area.height <= u16::MAX,
    ensures
        ({
            let start = first_row(p, rows_in(p.matches.len(), area.height));
            start <= p.state.selected_idx->0 < start + drawn_rows(p, area)
        }),
{
}

} // verus!
