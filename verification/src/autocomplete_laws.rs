//! Laws of completion while typing.
use vstd::prelude::*;

use crate::autocomplete;
use crate::autocomplete::{
    AutocompleteModel, CompletionContext, KeyOutcome, PromptAutocompleteResult,
};
use crate::keys;
use crate::keys::{KeyCode, KeyEvent, KeyEventKind, KeyModifiers, PopupKey};
use crate::popup;
use crate::ranking;
use crate::ranking::CompletionKind;
use crate::utf8;
use crate::width;

verus! {

/// Whatever happens, only the search with the last number is waited for, the popup has a
/// selection that exists, and nothing is kept while completion is off.
pub proof fn law_state_stays_sound(
    m: AutocompleteModel,
    context: Option<CompletionContext>,
    blocked: bool,
    enabled: bool,
    dictionary_enabled: bool,
    result: PromptAutocompleteResult,
    e: KeyEvent,
)
    requires
        m.wf(),
        result.matches@.len() <= usize::MAX,
    ensures
        autocomplete::synced(m, context, blocked).wf(),
        autocomplete::configured(m, enabled, dictionary_enabled, context, blocked).wf(),
        autocomplete::received(m, result, context, blocked).wf(),
        autocomplete::pressed(m, e, context).wf(),
        (AutocompleteModel { popup: None, ..m }).wf(),
        (AutocompleteModel { requested: None, ..m }).wf(),
{
    if m.popup is Some {
        popup::law_selection_is_shown(
            m.popup->0,
            result.query@,
            result.token_range,
            result.matches@,
        );
    }
}

/// What came of an earlier search changes nothing.
pub proof fn law_stale_result_changes_nothing(
    m: AutocompleteModel,
    result: PromptAutocompleteResult,
    context: Option<CompletionContext>,
)
    requires
        m.wf(),
        m.enabled,
        result.request_id != m.latest_request_id,
    ensures
        autocomplete::received(m, result, context, false) == m,
        !autocomplete::received_redraws(m, result, context, false),
{
}

/// Nor does what came of a search for another token than the one at the cursor.
pub proof fn law_result_for_another_token_changes_nothing(
    m: AutocompleteModel,
    result: PromptAutocompleteResult,
    context: CompletionContext,
)
    requires
        m.enabled,
        result.query@ != context.query@ || result.token_range != context.token_range,
    ensures
        autocomplete::received(m, result, Some(context), false) == m,
        !autocomplete::received_redraws(m, result, Some(context), false),
{
}

/// A token that is being searched for is not searched for again, and the number stays the
/// one that is waited for.
pub proof fn law_search_is_asked_for_once(
    m: AutocompleteModel,
    context: Option<CompletionContext>,
    blocked: bool,
)
    ensures
        ({
            let once = autocomplete::synced(m, context, blocked);
            &&& !autocomplete::wants_search(once, context, blocked)
            &&& autocomplete::wants_search(m, context, blocked) ==> autocomplete::synced(
                once,
                context,
                blocked,
            ) == once
        }),
{
}

/// A search gets another number than the one before, so that the search before is no
/// longer of interest; so it is when the popup is taken away.
pub proof fn law_earlier_search_is_of_no_interest(
    m: AutocompleteModel,
    context: Option<CompletionContext>,
    blocked: bool,
)
    ensures
        autocomplete::wants_search(m, context, blocked) ==> {
            let after = autocomplete::synced(m, context, blocked);
            &&& after.latest_request_id != m.latest_request_id
            &&& after.requested is Some
            &&& after.requested->0.request_id == after.latest_request_id
        },
        !m.enabled || blocked || context is None ==> {
            let after = autocomplete::synced(m, context, blocked);
            &&& after.latest_request_id != m.latest_request_id
            &&& after.popup is None
            &&& after.requested is None
        },
{
}

/// A dismissed token stays dismissed: as long as it is at the cursor nothing is searched
/// for, and no popup comes.
pub proof fn law_dismissed_token_stays_away(
    m: AutocompleteModel,
    e: KeyEvent,
    context: CompletionContext,
    result: PromptAutocompleteResult,
)
    requires
        autocomplete::takes_key(m, e),
        keys::popup_key(e) == PopupKey::Dismiss,
    ensures
        ({
            let dismissed = autocomplete::pressed(m, e, Some(context));
            let after = autocomplete::synced(dismissed, Some(context), false);
            &&& dismissed.popup is None
            &&& !autocomplete::wants_search(dismissed, Some(context), false)
            &&& after.popup is None
            &&& after.requested is None
            &&& autocomplete::received(after, result, Some(context), false).popup is None
        }),
{
}

/// A completion that was accepted is not offered for completion itself: with its text at
/// the cursor nothing is searched for.
pub proof fn law_accepted_completion_is_left_alone(
    m: AutocompleteModel,
    e: KeyEvent,
    context: CompletionContext,
    after_context: CompletionContext,
)
    requires
        autocomplete::takes_key(m, e),
        keys::popup_key(e) == PopupKey::Accept,
        popup::is_for(m.popup->0, context),
        autocomplete::selected_text(m.popup->0) == Some(after_context.query@),
    ensures
        ({
            let accepted = autocomplete::pressed(m, e, Some(context));
            &&& accepted.popup is None
            &&& accepted.requested is None
            &&& !autocomplete::wants_search(accepted, Some(after_context), false)
        }),
{
}

/// With completion off nothing is shown and nothing searched for, whatever comes.
pub proof fn law_nothing_happens_while_off(
    m: AutocompleteModel,
    dictionary_enabled: bool,
    context: Option<CompletionContext>,
    blocked: bool,
    result: PromptAutocompleteResult,
    e: KeyEvent,
)
    ensures
        ({
            let off = autocomplete::configured(m, false, dictionary_enabled, context, blocked);
            &&& off.popup is None
            &&& off.requested is None
            &&& off.dismissed_token is None
            &&& !autocomplete::wants_search(off, context, blocked)
            &&& autocomplete::received(off, result, context, blocked).popup is None
            &&& autocomplete::pressed(off, e, context) == off
        }),
{
}

/// The popup lies on the screen, and is not empty.
pub proof fn law_popup_lies_on_screen(
    m: AutocompleteModel,
    cursor_x: u16,
    cursor_y: u16,
    screen_width: u16,
    screen_height: u16,
)
    requires
        m.enabled,
        m.popup is Some,
        screen_width > 0,
        screen_height > 0,
    ensures
        match autocomplete::popup_area(m, false, cursor_x, cursor_y, screen_width, screen_height) {
            Some(area) => {
                &&& area.width > 0
                &&& area.height > 0
                &&& area.x + area.width <= screen_width
                &&& area.y + area.height <= screen_height
            },
            None => false,
        },
{
    lemma_widest(m.popup->0.matches);
}

/// A popup that fits above the cursor does not cover its row.
pub proof fn law_popup_leaves_cursor_free(
    m: AutocompleteModel,
    cursor_x: u16,
    cursor_y: u16,
    screen_width: u16,
    screen_height: u16,
)
    requires
        m.enabled,
        m.popup is Some,
        screen_width > 0,
        cursor_y < screen_height,
        popup::popup_height(m.popup->0.matches.len()) < cursor_y,
    ensures
        match autocomplete::popup_area(m, false, cursor_x, cursor_y, screen_width, screen_height) {
            Some(area) => area.y + area.height < cursor_y,
            None => false,
        },
{
}

proof fn lemma_widest(s: Seq<ranking::CompletionMatch>)
    ensures
        popup::widest(s) >= 0,
    decreases s.len(),
{
    if s.len() > 0 {
        lemma_widest(s.drop_last());
    }
}

/// Enter, pressed alone with the popup still for the token at the cursor, inserts the
/// selected completion in place of the token. The popup goes, no search is waited for, and
/// what was inserted is not completed again.
pub proof fn law_enter_inserts_the_selected_completion(
    m: AutocompleteModel,
    e: KeyEvent,
    context: CompletionContext,
    r: KeyOutcome,
)
    requires
        m.wf(),
        m.enabled,
        m.popup is Some,
        m.popup->0.matches.len() > 0,
        m.popup->0.query == context.query@,
        m.popup->0.token_range == context.token_range,
        e.code == KeyCode::Enter,
        e.modifiers == KeyModifiers::Plain,
        e.kind != KeyEventKind::Release,
        autocomplete::is_key_outcome(m, e, Some(context), r),
    ensures
        ({
            let p = m.popup->0;
            let shown = p.matches[p.state.selected_idx->0 as int].text@;
            let after = autocomplete::pressed(m, e, Some(context));
            &&& r matches KeyOutcome::Replace { range, replacement } && range
                == context.token_range && replacement@ == shown
            &&& after.popup is None
            &&& after.requested is None
            &&& after.latest_request_id != m.latest_request_id
            &&& after.dismissed_token == Some(shown)
            &&& after.enabled == m.enabled
            &&& after.dictionary_enabled == m.dictionary_enabled
        }),
{
}

/// Enter inserts nothing while the popup is for another token than the one at the cursor, or
/// there is none at the cursor; nothing changes.
pub proof fn law_enter_waits_for_the_token(
    m: AutocompleteModel,
    e: KeyEvent,
    context: Option<CompletionContext>,
    r: KeyOutcome,
)
    requires
        m.enabled,
        m.popup is Some,
        context is Some ==> m.popup->0.query != context->0.query@ || m.popup->0.token_range
            != context->0.token_range,
        e.code == KeyCode::Enter,
        e.modifiers == KeyModifiers::Plain,
        e.kind != KeyEventKind::Release,
        autocomplete::is_key_outcome(m, e, context, r),
    ensures
        r is Handled,
        autocomplete::pressed(m, e, context) == m,
{
}

/// The key moves the selection down: Tab without Shift, Down, or Ctrl-N.
pub open spec fn goes_down(e: KeyEvent) -> bool {
    ||| e.code == KeyCode::Tab && e.modifiers != KeyModifiers::Shift
    ||| e.code == KeyCode::Down
    ||| e.code == KeyCode::Char('n') && e.modifiers == KeyModifiers::Control
}

/// The key moves the selection up: Shift-Tab, Up, or Ctrl-P.
pub open spec fn goes_up(e: KeyEvent) -> bool {
    ||| e.code == KeyCode::BackTab
    ||| e.code == KeyCode::Tab && e.modifiers == KeyModifiers::Shift
    ||| e.code == KeyCode::Up
    ||| e.code == KeyCode::Char('p') && e.modifiers == KeyModifiers::Control
}

/// The two differ in nothing but which completion is selected.
pub open spec fn differ_in_selection(m: AutocompleteModel, after: AutocompleteModel) -> bool {
    &&& after.popup is Some
    &&& after.popup->0.matches == m.popup->0.matches
    &&& after.popup->0.query == m.popup->0.query
    &&& after.popup->0.token_range == m.popup->0.token_range
    &&& after.latest_request_id == m.latest_request_id
    &&& after.dismissed_token == m.dismissed_token
    &&& after.requested == m.requested
    &&& after.enabled == m.enabled
    &&& after.dictionary_enabled == m.dictionary_enabled
}

/// The keys for down and up move the selection by one, and around the ends of the list;
/// nothing else changes.
pub proof fn law_keys_move_the_selection(
    m: AutocompleteModel,
    e: KeyEvent,
    context: Option<CompletionContext>,
    r: KeyOutcome,
)
    requires
        m.wf(),
        m.enabled,
        m.popup is Some,
        m.popup->0.matches.len() > 0,
        goes_down(e) || goes_up(e),
        e.kind != KeyEventKind::Release,
        autocomplete::is_key_outcome(m, e, context, r),
    ensures
        ({
            let n = m.popup->0.matches.len() as int;
            let i = m.popup->0.state.selected_idx->0 as int;
            let after = autocomplete::pressed(m, e, context);
            let j = after.popup->0.state.selected_idx->0 as int;
            &&& r is Handled
            &&& differ_in_selection(m, after)
            &&& after.popup->0.state.selected_idx is Some
            &&& goes_down(e) ==> if i + 1 == n {
                j == 0
            } else {
                j == i + 1
            }
            &&& goes_up(e) ==> if i == 0 {
                j == n - 1
            } else {
                j == i - 1
            }
        }),
{
}

/// Esc takes the popup away and remembers the token at the cursor, or the one of the popup
/// where there is none, so that it is not completed again.
pub proof fn law_esc_dismisses_the_token(
    m: AutocompleteModel,
    e: KeyEvent,
    context: Option<CompletionContext>,
    r: KeyOutcome,
)
    requires
        m.enabled,
        m.popup is Some,
        e.code == KeyCode::Esc,
        e.kind != KeyEventKind::Release,
        autocomplete::is_key_outcome(m, e, context, r),
    ensures
        ({
            let after = autocomplete::pressed(m, e, context);
            &&& r is Handled
            &&& after.popup is None
            &&& after.requested is None
            &&& after.latest_request_id != m.latest_request_id
            &&& context is Some ==> after.dismissed_token == Some(context->0.query@)
            &&& context is None ==> after.dismissed_token == Some(m.popup->0.query)
            &&& after.enabled == m.enabled
            &&& after.dictionary_enabled == m.dictionary_enabled
        }),
{
}

/// Any other key is left to the prompt: one that moves no selection, an Enter that is not
/// pressed alone, a key that is let go, and every key without a popup or with completion
/// off.
pub proof fn law_other_keys_are_left_alone(
    m: AutocompleteModel,
    e: KeyEvent,
    context: Option<CompletionContext>,
    r: KeyOutcome,
)
    requires
        ({
            ||| !m.enabled
            ||| m.popup is None
            ||| e.kind == KeyEventKind::Release
            ||| !goes_down(e) && !goes_up(e) && e.code != KeyCode::Esc && !(e.code
                == KeyCode::Enter && e.modifiers == KeyModifiers::Plain)
        }),
        autocomplete::is_key_outcome(m, e, context, r),
    ensures
        r is Ignored,
        autocomplete::pressed(m, e, context) == m,
{
}

/// How many columns the label of a kind takes.
pub open spec fn label_columns(kind: CompletionKind) -> int {
    match kind {
        CompletionKind::Word => 7,
        CompletionKind::Filename => 4,
        CompletionKind::Url => 3,
        CompletionKind::Dictionary => 4,
    }
}

/// The popup stands at the cursor. Where it fits above the cursor's row it ends one row above
/// it, whatever its height, and otherwise starts at the top of the screen; where it fits to
/// the right of the cursor it starts at the cursor, and otherwise ends at the right of the
/// screen.
pub proof fn law_popup_stands_at_the_cursor(
    m: AutocompleteModel,
    cursor_x: u16,
    cursor_y: u16,
    screen_width: u16,
    screen_height: u16,
)
    requires
        m.enabled,
        m.popup is Some,
        screen_width > 0,
        screen_height > 0,
    ensures
        match autocomplete::popup_area(m, false, cursor_x, cursor_y, screen_width, screen_height) {
            Some(area) => {
                &&& area.height + 1 <= cursor_y <= screen_height ==> area.y + area.height + 1
                    == cursor_y
                &&& area.height + 1 > cursor_y ==> area.y == 0
                &&& cursor_y > screen_height ==> area.y + area.height == screen_height
                &&& cursor_x + area.width <= screen_width ==> area.x == cursor_x
                &&& cursor_x + area.width > screen_width ==> area.x + area.width == screen_width
            },
            None => false,
        },
{
    lemma_widest(m.popup->0.matches);
}

/// The popup has a row for each completion, eight at most and one where there is none, and
/// a border; a smaller screen cuts it.
pub proof fn law_popup_has_a_row_for_each_completion(
    m: AutocompleteModel,
    cursor_x: u16,
    cursor_y: u16,
    screen_width: u16,
    screen_height: u16,
)
    requires
        m.enabled,
        m.popup is Some,
        screen_width > 0,
        screen_height > 0,
    ensures
        match autocomplete::popup_area(m, false, cursor_x, cursor_y, screen_width, screen_height) {
            Some(area) => {
                let n = m.popup->0.matches.len();
                &&& area.height <= screen_height
                &&& 1 <= n <= 8 && n + 2 <= screen_height ==> area.height == n + 2
                &&& n == 0 && 3 <= screen_height ==> area.height == 3
                &&& n > 8 && 10 <= screen_height ==> area.height == 10
                &&& area.height < screen_height ==> area.height >= 3
                &&& n + 2 > screen_height && screen_height <= 10 ==> area.height == screen_height
            },
            None => false,
        },
{
    lemma_widest(m.popup->0.matches);
}

/// The popup is as wide as its widest completion needs: the columns of the text and of the
/// label, four more, and a border of one on each side. A screen that is not as wide cuts it.
pub proof fn law_popup_is_as_wide_as_its_completions(
    m: AutocompleteModel,
    cursor_x: u16,
    cursor_y: u16,
    screen_width: u16,
    screen_height: u16,
)
    requires
        m.enabled,
        m.popup is Some,
        screen_width > 0,
        screen_height > 0,
    ensures
        match autocomplete::popup_area(m, false, cursor_x, cursor_y, screen_width, screen_height) {
            Some(area) => {
                let s = m.popup->0.matches;
                &&& area.width <= screen_width
                &&& forall|i: int|
                    #![trigger s[i]]
                    0 <= i < s.len() && area.width < screen_width ==> width::text_columns(
                        s[i].text@,
                    ) + label_columns(s[i].kind) + 6 <= area.width
                &&& s.len() > 0 && area.width < screen_width ==> exists|i: int|
                    #![trigger s[i]]
                    0 <= i < s.len() && width::text_columns(s[i].text@) + label_columns(s[i].kind)
                        + 6 == area.width
                &&& s.len() == 0 && 12 <= screen_width ==> area.width == 12
                &&& s.len() == 0 && 12 > screen_width ==> area.width == screen_width
                &&& (forall|i: int|
                    #![trigger s[i]]
                    0 <= i < s.len() ==> width::text_columns(s[i].text@) + label_columns(s[i].kind)
                        + 6 < screen_width) && 12 < screen_width ==> area.width < screen_width
            },
            None => false,
        },
{
    let s = m.popup->0.matches;
    lemma_widest(s);
    lemma_widest_is_one(s);
}

/// The widest takes as many columns as one of them, and no fewer than any.
proof fn lemma_widest_is_one(s: Seq<ranking::CompletionMatch>)
    ensures
        forall|i: int|
            #![trigger s[i]]
            0 <= i < s.len() ==> width::text_columns(s[i].text@) + label_columns(s[i].kind) + 4
                <= popup::widest(s),
        s.len() > 0 ==> exists|i: int|
            #![trigger s[i]]
            0 <= i < s.len() && width::text_columns(s[i].text@) + label_columns(s[i].kind) + 4
                == popup::widest(s),
    decreases s.len(),
{
    if s.len() > 0 {
        let t = s.drop_last();
        let last = s.len() - 1;
        lemma_widest_is_one(t);
        lemma_widest(t);
        lemma_label_bytes(s[last].kind);
        assert(s.last() == s[last]);
        assert forall|i: int|
            #![trigger s[i]]
            0 <= i < s.len() implies width::text_columns(s[i].text@) + label_columns(s[i].kind) + 4
            <= popup::widest(s) by {
            if i < last {
                assert(t[i] == s[i]);
            }
        }
        if popup::widest(t) >= popup::entry_columns(s.last()) {
            if t.len() > 0 {
                let i = choose|i: int|
                    #![trigger t[i]]
                    0 <= i < t.len() && width::text_columns(t[i].text@) + label_columns(t[i].kind)
                        + 4 == popup::widest(t);
                assert(s[i] == t[i]);
            }
        }
    }
}

/// The labels take as many bytes as they have columns.
proof fn lemma_label_bytes(kind: CompletionKind)
    ensures
        utf8::utf8_len(ranking::kind_label(kind)) == label_columns(kind),
{
    reveal_strlit("session");
    reveal_strlit("file");
    reveal_strlit("url");
    reveal_strlit("dict");
    let s = ranking::kind_label(kind);
    vstd::utf8::is_ascii_chars_encode_utf8(s);
}

/// The token of the context is being searched for, with the present setting.
pub open spec fn is_searched_for(m: AutocompleteModel, context: CompletionContext) -> bool {
    &&& m.requested is Some
    &&& m.requested->0.key.query == context.query@
    &&& m.requested->0.key.token_range == context.token_range
    &&& m.requested->0.key.dictionary_enabled == m.dictionary_enabled
}

/// A token at the cursor that is neither dismissed nor searched for already is searched for,
/// under the next number. A popup stays until the result comes.
pub proof fn law_new_token_is_searched_for(m: AutocompleteModel, context: CompletionContext)
    requires
        m.enabled,
        m.dismissed_token != Some(context.query@),
        !is_searched_for(m, context),
    ensures
        ({
            let after = autocomplete::synced(m, Some(context), false);
            &&& autocomplete::wants_search(m, Some(context), false)
            &&& is_searched_for(after, context)
            &&& after.requested->0.request_id == after.latest_request_id
            &&& m.latest_request_id < u64::MAX ==> after.latest_request_id == m.latest_request_id
                + 1
            &&& m.latest_request_id == u64::MAX ==> after.latest_request_id == 0
            &&& after.popup == m.popup
            &&& after.dismissed_token is None
            &&& after.enabled == m.enabled
            &&& after.dictionary_enabled == m.dictionary_enabled
        }),
{
}

/// A token that is searched for already is left to that search.
pub proof fn law_search_in_hand_is_kept(m: AutocompleteModel, context: CompletionContext)
    requires
        m.enabled,
        m.dismissed_token != Some(context.query@),
        is_searched_for(m, context),
    ensures
        autocomplete::synced(m, Some(context), false) == m,
        !autocomplete::wants_search(m, Some(context), false),
{
}

/// Where nothing is to be completed the popup goes and no search is waited for. What was
/// dismissed stays so while the popup is in the way, and for the token itself; it is
/// forgotten once there is no token at the cursor, and with completion off.
pub proof fn law_nothing_to_complete_clears_all(
    m: AutocompleteModel,
    context: Option<CompletionContext>,
    blocked: bool,
)
    requires
        !m.enabled || blocked || context is None || m.dismissed_token == Some(
            context->0.query@,
        ),
    ensures
        ({
            let after = autocomplete::synced(m, context, blocked);
            &&& !autocomplete::wants_search(m, context, blocked)
            &&& after.popup is None
            &&& after.requested is None
            &&& after.latest_request_id != m.latest_request_id
            &&& after.enabled == m.enabled
            &&& after.dictionary_enabled == m.dictionary_enabled
            &&& !m.enabled ==> after.dismissed_token is None
            &&& m.enabled && blocked ==> after.dismissed_token == m.dismissed_token
            &&& m.enabled && !blocked && context is None ==> after.dismissed_token is None
            &&& m.enabled && !blocked && context is Some ==> after.dismissed_token
                == m.dismissed_token
        }),
{
}

/// The result is that of the search that is waited for, and the token is still at the cursor.
pub open spec fn answers(
    m: AutocompleteModel,
    result: PromptAutocompleteResult,
    context: CompletionContext,
) -> bool {
    &&& is_searched_for(m, context)
    &&& m.requested->0.request_id == result.request_id
    &&& result.query@ == context.query@
    &&& result.token_range == context.token_range
    &&& result.dictionary_enabled == m.dictionary_enabled
}

/// The completions that are waited for are shown. In a popup for the same query the selection
/// stays where it is, on the last completion where there are not as many; otherwise the first
/// is selected. Without completions the popup goes.
pub proof fn law_awaited_result_is_shown(
    m: AutocompleteModel,
    result: PromptAutocompleteResult,
    context: CompletionContext,
)
    requires
        m.wf(),
        m.enabled,
        m.dismissed_token != Some(context.query@),
        answers(m, result, context),
        result.matches@.len() <= usize::MAX,
    ensures
        ({
            let after = autocomplete::received(m, result, Some(context), false);
            let n = result.matches@.len();
            &&& after.requested == m.requested
            &&& after.latest_request_id == m.latest_request_id
            &&& after.enabled == m.enabled
            &&& after.dictionary_enabled == m.dictionary_enabled
            &&& n == 0 ==> after.popup is None && after.dismissed_token == m.dismissed_token
            &&& n == 0 ==> autocomplete::received_redraws(m, result, Some(context), false) == (
            m.popup is Some)
            &&& n > 0 ==> {
                &&& autocomplete::received_redraws(m, result, Some(context), false)
                &&& after.dismissed_token is None
                &&& after.popup is Some
                &&& after.popup->0.query == context.query@
                &&& after.popup->0.token_range == context.token_range
                &&& after.popup->0.matches == result.matches@
                &&& after.popup->0.state.selected_idx is Some
                &&& {
                    let j = after.popup->0.state.selected_idx->0 as int;
                    if m.popup is Some && m.popup->0.query == context.query@
                        && m.popup->0.matches.len() > 0 {
                        let i = m.popup->0.state.selected_idx->0 as int;
                        j == if i < n {
                            i
                        } else {
                            n - 1
                        }
                    } else {
                        j == 0
                    }
                }
            }
        }),
{
}

/// Any other result changes nothing. While completion is off or in the way the popup goes.
pub proof fn law_other_results_are_dropped(
    m: AutocompleteModel,
    result: PromptAutocompleteResult,
    context: Option<CompletionContext>,
    blocked: bool,
)
    requires
        !m.enabled || blocked || context is None || !answers(m, result, context->0)
            || m.dismissed_token == Some(context->0.query@),
    ensures
        ({
            let after = autocomplete::received(m, result, context, blocked);
            let redraws = autocomplete::received_redraws(m, result, context, blocked);
            &&& after.requested == m.requested
            &&& after.latest_request_id == m.latest_request_id
            &&& after.dismissed_token == m.dismissed_token
            &&& after.enabled == m.enabled
            &&& after.dictionary_enabled == m.dictionary_enabled
            &&& if !m.enabled || blocked {
                after.popup is None && redraws == (m.popup is Some)
            } else {
                after.popup == m.popup && !redraws
            }
        }),
{
}

/// The settings take effect at once: with completion off all goes; with another setting of the
/// dictionary the token is searched for anew, even if it is searched for already; and the
/// settings as they are change no more than a look at the cursor does.
pub proof fn law_settings_take_effect(
    m: AutocompleteModel,
    enabled: bool,
    dictionary_enabled: bool,
    context: Option<CompletionContext>,
    blocked: bool,
)
    ensures
        ({
            let after = autocomplete::configured(m, enabled, dictionary_enabled, context, blocked);
            &&& after.enabled == enabled
            &&& after.dictionary_enabled == dictionary_enabled
            &&& !enabled ==> after.popup is None && after.requested is None
                && after.dismissed_token is None
            &&& enabled && dictionary_enabled != m.dictionary_enabled && !blocked && context is Some
                && m.dismissed_token != Some(context->0.query@) ==> {
                &&& is_searched_for(after, context->0)
                &&& after.requested->0.request_id == after.latest_request_id
                &&& after.latest_request_id != m.latest_request_id
                &&& after.popup == m.popup
            }
            &&& enabled == m.enabled && dictionary_enabled == m.dictionary_enabled ==> after
                == autocomplete::synced(m, context, blocked)
        }),
{
}

/// A line is its spans one behind the other, none left out.
pub proof fn law_line_is_its_spans(spans: Seq<String>, more: Seq<String>, span: String)
    ensures
        autocomplete::joined(Seq::<String>::empty()) == Seq::<char>::empty(),
        autocomplete::joined(seq![span]) == span@,
        autocomplete::joined(spans + more) == autocomplete::joined(spans) + autocomplete::joined(
            more,
        ),
    decreases more.len(),
{
    let one = seq![span];
    assert(one.drop_last() =~= Seq::<String>::empty());
    assert(autocomplete::joined(Seq::<String>::empty()) =~= Seq::<char>::empty());
    assert(one.last() == span);
    assert(autocomplete::joined(one) =~= span@);
    if more.len() == 0 {
        assert(spans + more =~= spans);
        assert(autocomplete::joined(spans) + Seq::<char>::empty() =~= autocomplete::joined(spans));
    } else {
        law_line_is_its_spans(spans, more.drop_last(), span);
        assert((spans + more).last() == more.last());
        assert((spans + more).drop_last() =~= spans + more.drop_last());
        assert(autocomplete::joined(spans + more) =~= autocomplete::joined(spans)
            + autocomplete::joined(more));
    }
}

/// A search is run exactly for a new token at the cursor, under the number that is then waited
/// for; and there is something to draw exactly where a popup goes.
pub proof fn law_search_is_run_for_a_new_token(
    m: AutocompleteModel,
    context: Option<CompletionContext>,
    blocked: bool,
)
    ensures
        ({
            let after = autocomplete::synced(m, context, blocked);
            let request = autocomplete::request_to_run(m, context, blocked);
            let wanted = m.enabled && !blocked && context is Some && m.dismissed_token != Some(
                context->0.query@,
            ) && !is_searched_for(m, context->0);
            &&& request is Some <==> wanted
            &&& request is Some ==> {
                &&& request->0.request_id == after.latest_request_id
                &&& request->0.key.query == context->0.query@
                &&& request->0.key.token_range == context->0.token_range
                &&& request->0.key.dictionary_enabled == m.dictionary_enabled
            }
            &&& autocomplete::synced_redraws(m, context, blocked) <==> m.popup is Some && (
            !m.enabled || blocked || context is None || m.dismissed_token == Some(
                context->0.query@,
            ))
        }),
{
}

/// With other settings the state is the same but for them; the search that is waited for is
/// kept exactly where the dictionary stays as it was. What follows is a look at the cursor.
pub proof fn law_settings_keep_the_rest(
    m: AutocompleteModel,
    enabled: bool,
    dictionary_enabled: bool,
    context: Option<CompletionContext>,
    blocked: bool,
)
    ensures
        ({
            let set = autocomplete::with_settings(m, enabled, dictionary_enabled);
            &&& set.enabled == enabled
            &&& set.dictionary_enabled == dictionary_enabled
            &&& set.popup == m.popup
            &&& set.dismissed_token == m.dismissed_token
            &&& set.latest_request_id == m.latest_request_id
            &&& dictionary_enabled == m.dictionary_enabled ==> set.requested == m.requested
            &&& dictionary_enabled != m.dictionary_enabled ==> set.requested is None
        }),
        autocomplete::configured(m, enabled, dictionary_enabled, context, blocked)
            == autocomplete::synced(
            autocomplete::with_settings(m, enabled, dictionary_enabled),
            context,
            blocked,
        ),
{
}

/// While completion is on, every part of the conversation that has lines is taken into the
/// index, line by line. The token is then searched for anew, even if it is searched for
/// already; nothing else changes. While completion is off nothing is taken in.
pub proof fn law_conversation_is_taken_in(
    m: AutocompleteModel,
    raw: Seq<Vec<String>>,
    lines: Seq<String>,
    context: CompletionContext,
    i: int,
)
    requires
        autocomplete::are_joined(raw, lines),
        0 <= i < raw.len(),
    ensures
        autocomplete::takes_lines(m, raw) <==> m.enabled,
        !autocomplete::takes_lines(m, Seq::empty()),
        lines.len() == raw.len(),
        lines[i]@ == autocomplete::joined(raw[i]@),
        !m.enabled ==> autocomplete::after_lines(m, raw) == m,
        m.enabled ==> {
            let after = autocomplete::after_lines(m, raw);
            &&& after.popup == m.popup
            &&& after.dismissed_token == m.dismissed_token
            &&& after.latest_request_id == m.latest_request_id
            &&& after.enabled == m.enabled
            &&& after.dictionary_enabled == m.dictionary_enabled
            &&& m.dismissed_token != Some(context.query@) ==> autocomplete::wants_search(
                after,
                Some(context),
                false,
            )
        },
{
}

/// There is no place for a popup where none is shown: without one, with completion off, with
/// another view in front, and on a screen without rows or columns.
pub proof fn law_no_popup_has_no_place(
    m: AutocompleteModel,
    active_view: bool,
    cursor_x: u16,
    cursor_y: u16,
    screen_width: u16,
    screen_height: u16,
)
    ensures
        autocomplete::popup_area(
            m,
            active_view,
            cursor_x,
            cursor_y,
            screen_width,
            screen_height,
        ) is None <==> !m.enabled || m.popup is None || active_view || screen_width == 0
            || screen_height == 0,
{
}

} // verus!
