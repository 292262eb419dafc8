//! Completion while typing: when to search, what to show, and what the keys do.
use std::ops::Range;
use vstd::prelude::*;
use vstd::string::*;

use crate::keys;
use crate::keys::{bound_key, KeyEvent, KeyEventKind, PopupKey};
use crate::model;
use crate::popup;
use crate::popup::{CompletionPopup, PopupModel, ScreenRect};
use crate::ranking::CompletionMatch;
use crate::text::str_eq;

verus! {

/// The token at the cursor: its text and where it stands.
#[derive(Debug)]
pub struct CompletionContext {
    pub query: String,
    pub token_range: Range<usize>,
}

/// What a search is for: the token, where it stands, and whether the dictionary is asked.
#[derive(Debug)]
pub struct SearchKey {
    pub query: String,
    pub token_range: Range<usize>,
    pub dictionary_enabled: bool,
}

/// What a search is for, as plain values.
pub struct KeyModel {
    pub query: Seq<char>,
    pub token_range: Range<usize>,
    pub dictionary_enabled: bool,
}

impl View for SearchKey {
    type V = KeyModel;

    open spec fn view(&self) -> KeyModel {
        KeyModel {
            query: self.query@,
            token_range: self.token_range,
            dictionary_enabled: self.dictionary_enabled,
        }
    }
}

/// A range with the same ends.
fn copy_range(r: &Range<usize>) -> (c: Range<usize>)
    ensures
        c == *r,
{
    r.start..r.end
}

/// What a search for the token of the context is for.
pub open spec fn key_of(context: CompletionContext, dictionary_enabled: bool) -> KeyModel {
    KeyModel { query: context.query@, token_range: context.token_range, dictionary_enabled }
}

impl SearchKey {
    /// What a search for the token of the context is for.
    pub fn new(context: &CompletionContext, dictionary_enabled: bool) -> (r: Self)
        ensures
            r@ == key_of(*context, dictionary_enabled),
    {
        SearchKey {
            query: context.query.clone(),
            token_range: copy_range(&context.token_range),
            dictionary_enabled,
        }
    }

    /// Whether both are for the same.
    pub fn is_same(&self, other: &SearchKey) -> (r: bool)
        ensures
            r == (self@ == other@),
    {
        str_eq(self.query.as_str(), other.query.as_str()) && self.token_range.start
            == other.token_range.start && self.token_range.end == other.token_range.end
            && self.dictionary_enabled == other.dictionary_enabled
    }

    /// The same once more.
    pub fn duplicate(&self) -> (r: SearchKey)
        ensures
            r@ == self@,
    {
        SearchKey {
            query: self.query.clone(),
            token_range: copy_range(&self.token_range),
            dictionary_enabled: self.dictionary_enabled,
        }
    }
}

/// What came of a search.
#[derive(Debug)]
pub struct PromptAutocompleteResult {
    pub request_id: u64,
    pub query: String,
    pub token_range: Range<usize>,
    pub dictionary_enabled: bool,
    pub matches: Vec<CompletionMatch>,
}

/// What the search was for.
pub open spec fn key_of_result(r: PromptAutocompleteResult) -> KeyModel {
    KeyModel {
        query: r.query@,
        token_range: r.token_range,
        dictionary_enabled: r.dictionary_enabled,
    }
}

impl PromptAutocompleteResult {
    /// What the search was for.
    pub fn key(&self) -> (r: SearchKey)
        ensures
            r@ == key_of_result(*self),
    {
        SearchKey {
            query: self.query.clone(),
            token_range: copy_range(&self.token_range),
            dictionary_enabled: self.dictionary_enabled,
        }
    }
}

/// A search to be run.
#[derive(Debug)]
pub struct PromptAutocompleteSearchRequest {
    pub request_id: u64,
    pub key: SearchKey,
}

/// A search that was asked for.
pub struct RequestModel {
    pub request_id: u64,
    pub key: KeyModel,
}

impl View for PromptAutocompleteSearchRequest {
    type V = RequestModel;

    open spec fn view(&self) -> RequestModel {
        RequestModel { request_id: self.request_id, key: self.key@ }
    }
}

/// The search that is being waited for.
#[derive(Debug)]
pub struct RequestedSearch {
    pub request_id: u64,
    pub key: SearchKey,
}

impl View for RequestedSearch {
    type V = RequestModel;

    open spec fn view(&self) -> RequestModel {
        RequestModel { request_id: self.request_id, key: self.key@ }
    }
}

/// The numbers of searches. A search is of interest as long as its number is the last one
/// given.
#[derive(Debug)]
pub struct PromptAutocompleteSearch {
    pub latest_request_id: u64,
}

impl PromptAutocompleteSearch {
    /// No number was given yet.
    pub fn new() -> (r: Self)
        ensures
            r.latest_request_id == 0,
    {
        PromptAutocompleteSearch { latest_request_id: 0 }
    }

    /// A search with the next number.
    pub fn search(&mut self, key: SearchKey) -> (r: PromptAutocompleteSearchRequest)
        ensures
            final(self).latest_request_id == model::next_number(old(self).latest_request_id),
            r@ == (RequestModel { request_id: final(self).latest_request_id, key: key@ }),
    {
        self.latest_request_id = self.latest_request_id.wrapping_add(1);
        PromptAutocompleteSearchRequest { request_id: self.latest_request_id, key }
    }

    /// Makes every search so far one of no interest.
    pub fn invalidate(&mut self)
        ensures
            final(self).latest_request_id == model::next_number(old(self).latest_request_id),
    {
        self.latest_request_id = self.latest_request_id.wrapping_add(1);
    }
}

/// The state of completion.
#[verifier::ext_equal]
pub struct AutocompleteModel {
    /// The last number given to a search.
    pub latest_request_id: u64,
    /// The popup, if one is shown.
    pub popup: Option<PopupModel>,
    /// The token for which the popup is not to come back.
    pub dismissed_token: Option<Seq<char>>,
    /// The search that is being waited for.
    pub requested: Option<RequestModel>,
    pub enabled: bool,
    pub dictionary_enabled: bool,
}

impl AutocompleteModel {
    /// Only the search with the last number is waited for; the popup has a selection that
    /// exists; and nothing is shown, waited for or remembered while completion is off.
    pub open spec fn wf(self) -> bool {
        &&& self.requested is Some ==> self.requested->0.request_id == self.latest_request_id
        &&& self.popup is Some ==> self.popup->0.wf()
        &&& !self.enabled ==> self.popup is None && self.requested is None && self.dismissed_token
            is None
    }
}

/// Completion while typing.
#[derive(Debug)]
pub struct PromptAutocomplete {
    search: PromptAutocompleteSearch,
    popup: Option<CompletionPopup>,
    dismissed_token: Option<String>,
    requested: Option<RequestedSearch>,
    enabled: bool,
    dictionary_enabled: bool,
}

/// The popup as plain values.
pub open spec fn popup_view(p: Option<CompletionPopup>) -> Option<PopupModel> {
    match p {
        Some(popup) => Some(popup@),
        None => None,
    }
}

/// The token as plain values.
pub open spec fn token_view(t: Option<String>) -> Option<Seq<char>> {
    match t {
        Some(token) => Some(token@),
        None => None,
    }
}

/// The search as plain values.
pub open spec fn requested_view(r: Option<RequestedSearch>) -> Option<RequestModel> {
    match r {
        Some(requested) => Some(requested@),
        None => None,
    }
}

/// The search to be run as plain values.
pub open spec fn request_view(r: Option<PromptAutocompleteSearchRequest>) -> Option<RequestModel> {
    match r {
        Some(request) => Some(request@),
        None => None,
    }
}

impl View for PromptAutocomplete {
    type V = AutocompleteModel;

    closed spec fn view(&self) -> AutocompleteModel {
        AutocompleteModel {
            latest_request_id: self.search.latest_request_id,
            popup: popup_view(self.popup),
            dismissed_token: token_view(self.dismissed_token),
            requested: requested_view(self.requested),
            enabled: self.enabled,
            dictionary_enabled: self.dictionary_enabled,
        }
    }
}

/// The state without a popup and without a search of interest.
pub open spec fn quiet(m: AutocompleteModel) -> AutocompleteModel {
    AutocompleteModel {
        latest_request_id: model::next_number(m.latest_request_id),
        popup: None,
        requested: None,
        ..m
    }
}

/// The state without a popup, without a search of interest and with nothing dismissed.
pub open spec fn cleared(m: AutocompleteModel) -> AutocompleteModel {
    AutocompleteModel { dismissed_token: None, ..quiet(m) }
}

/// The state once `key` is searched for.
pub open spec fn searching(m: AutocompleteModel, key: KeyModel) -> AutocompleteModel {
    let id = model::next_number(m.latest_request_id);
    AutocompleteModel {
        latest_request_id: id,
        requested: Some(RequestModel { request_id: id, key }),
        dismissed_token: None,
        ..m
    }
}

/// The token is dismissed.
pub open spec fn is_dismissed(m: AutocompleteModel, context: CompletionContext) -> bool {
    m.dismissed_token == Some(context.query@)
}

/// What is searched for is being waited for.
pub open spec fn is_requested(m: AutocompleteModel, key: KeyModel) -> bool {
    m.requested is Some && m.requested->0.key == key
}

/// What there is to do after the text or the cursor changed: redraw because the popup
/// went, and a search to run.
pub struct SyncOutcome {
    pub redraw: bool,
    pub request: Option<PromptAutocompleteSearchRequest>,
}

/// The state after the text or the cursor changed. Without a token, and while completion
/// is off or the popup would be in the way, everything goes; a dismissed token brings
/// nothing; any other is searched for unless that search is waited for.
pub open spec fn synced(
    m: AutocompleteModel,
    context: Option<CompletionContext>,
    blocked: bool,
) -> AutocompleteModel {
    if !m.enabled {
        cleared(m)
    } else if blocked {
        quiet(m)
    } else {
        match context {
            None => cleared(m),
            Some(context) => {
                let key = key_of(context, m.dictionary_enabled);
                if is_dismissed(m, context) {
                    quiet(m)
                } else if is_requested(m, key) {
                    m
                } else {
                    searching(m, key)
                }
            },
        }
    }
}

/// A token is to be searched for.
pub open spec fn wants_search(
    m: AutocompleteModel,
    context: Option<CompletionContext>,
    blocked: bool,
) -> bool {
    &&& m.enabled
    &&& !blocked
    &&& context is Some
    &&& !is_dismissed(m, context->0)
    &&& !is_requested(m, key_of(context->0, m.dictionary_enabled))
}

/// Whether there is something to draw after the text or the cursor changed: the popup went.
pub open spec fn synced_redraws(
    m: AutocompleteModel,
    context: Option<CompletionContext>,
    blocked: bool,
) -> bool {
    m.popup is Some && synced(m, context, blocked).popup is None
}

/// The search to be run after the text or the cursor changed, if any.
pub open spec fn request_to_run(
    m: AutocompleteModel,
    context: Option<CompletionContext>,
    blocked: bool,
) -> Option<RequestModel> {
    if wants_search(m, context, blocked) {
        synced(m, context, blocked).requested
    } else {
        None
    }
}

/// The state with other settings. Another setting of the dictionary makes the search that is
/// waited for no longer the right one.
pub open spec fn with_settings(
    m: AutocompleteModel,
    enabled: bool,
    dictionary_enabled: bool,
) -> AutocompleteModel {
    AutocompleteModel {
        enabled,
        dictionary_enabled,
        requested: if m.dictionary_enabled != dictionary_enabled {
            None
        } else {
            m.requested
        },
        ..m
    }
}

/// The state after the settings changed.
pub open spec fn configured(
    m: AutocompleteModel,
    enabled: bool,
    dictionary_enabled: bool,
    context: Option<CompletionContext>,
    blocked: bool,
) -> AutocompleteModel {
    synced(with_settings(m, enabled, dictionary_enabled), context, blocked)
}

/// The result is the one that is waited for, and still for the token at the cursor.
pub open spec fn is_awaited(
    m: AutocompleteModel,
    result: PromptAutocompleteResult,
    context: Option<CompletionContext>,
) -> bool {
    let key = key_of_result(result);
    &&& m.requested is Some
    &&& m.requested->0.request_id == result.request_id
    &&& m.requested->0.key == key
    &&& context is Some
    &&& key_of(context->0, m.dictionary_enabled) == key
    &&& !is_dismissed(m, context->0)
}

/// The state after a result came. While completion is off or in the way the popup goes; a
/// result that is not waited for changes nothing; one without completions takes the popup
/// away; any other is shown.
pub open spec fn received(
    m: AutocompleteModel,
    result: PromptAutocompleteResult,
    context: Option<CompletionContext>,
    blocked: bool,
) -> AutocompleteModel {
    if !m.enabled || blocked {
        AutocompleteModel { popup: None, ..m }
    } else if !is_awaited(m, result, context) {
        m
    } else if result.matches@.len() == 0 {
        AutocompleteModel { popup: None, ..m }
    } else {
        AutocompleteModel {
            popup: Some(
                match m.popup {
                    Some(p) => popup::with_results(
                        p,
                        result.query@,
                        result.token_range,
                        result.matches@,
                    ),
                    None => popup::new_popup(result.query@, result.token_range, result.matches@),
                },
            ),
            dismissed_token: None,
            ..m
        }
    }
}

/// Whether there is something to draw after a result came.
pub open spec fn received_redraws(
    m: AutocompleteModel,
    result: PromptAutocompleteResult,
    context: Option<CompletionContext>,
    blocked: bool,
) -> bool {
    if !m.enabled || blocked {
        m.popup is Some
    } else if !is_awaited(m, result, context) {
        false
    } else if result.matches@.len() == 0 {
        m.popup is Some
    } else {
        true
    }
}

/// What a key did.
#[derive(Debug)]
pub enum KeyOutcome {
    /// The key is not for the popup.
    Ignored,
    /// The key was for the popup.
    Handled,
    /// A completion was accepted: the range of the text is to be replaced.
    Replace { range: Range<usize>, replacement: String },
}

/// The popup answers to the key.
pub open spec fn takes_key(m: AutocompleteModel, e: KeyEvent) -> bool {
    &&& m.enabled
    &&& e.kind != KeyEventKind::Release
    &&& m.popup is Some
    &&& keys::popup_key(e) != PopupKey::Unbound
}

/// The text that accepting the selected completion inserts.
pub open spec fn selected_text(p: PopupModel) -> Option<Seq<char>> {
    if p.matches.len() == 0 {
        None
    } else {
        Some(p.matches[p.state.selected_idx->0 as int].text@)
    }
}

/// The popup is still for the token at the cursor.
pub open spec fn popup_is_current(m: AutocompleteModel, context: Option<CompletionContext>) -> bool {
    context is Some && popup::is_for(m.popup->0, context->0)
}

/// The state after a key.
pub open spec fn pressed(
    m: AutocompleteModel,
    e: KeyEvent,
    context: Option<CompletionContext>,
) -> AutocompleteModel {
    if !takes_key(m, e) {
        m
    } else {
        let p = m.popup->0;
        match keys::popup_key(e) {
            PopupKey::Previous => AutocompleteModel { popup: Some(popup::with_previous(p)), ..m },
            PopupKey::Next => AutocompleteModel { popup: Some(popup::with_next(p)), ..m },
            PopupKey::Accept => if !popup_is_current(m, context) {
                m
            } else {
                match selected_text(p) {
                    Some(text) => AutocompleteModel { dismissed_token: Some(text), ..quiet(m) },
                    None => quiet(m),
                }
            },
            PopupKey::Dismiss => AutocompleteModel {
                dismissed_token: Some(
                    match context {
                        Some(context) => context.query@,
                        None => p.query,
                    },
                ),
                ..quiet(m)
            },
            PopupKey::Unbound => m,
        }
    }
}

/// `r` is what the key did.
pub open spec fn is_key_outcome(
    m: AutocompleteModel,
    e: KeyEvent,
    context: Option<CompletionContext>,
    r: KeyOutcome,
) -> bool {
    let accepted = takes_key(m, e) && keys::popup_key(e) == PopupKey::Accept && popup_is_current(
        m,
        context,
    ) && m.popup->0.matches.len() > 0;
    match r {
        KeyOutcome::Ignored => !takes_key(m, e),
        KeyOutcome::Handled => takes_key(m, e) && !accepted,
        KeyOutcome::Replace { range, replacement } => accepted && range == m.popup->0.token_range
            && selected_text(m.popup->0) == Some(replacement@),
    }
}

/// The spans of a line put together.
pub open spec fn joined(spans: Seq<String>) -> Seq<char>
    decreases spans.len(),
{
    if spans.len() == 0 {
        Seq::empty()
    } else {
        joined(spans.drop_last()) + spans.last()@
    }
}

/// `lines` are the lines whose spans are put together.
pub open spec fn are_joined(raw: Seq<Vec<String>>, lines: Seq<String>) -> bool {
    &&& lines.len() == raw.len()
    &&& forall|i: int| 0 <= i < lines.len() ==> (#[trigger] lines[i])@ == joined(raw[i]@)
}

/// The lines are to be taken into the index.
pub open spec fn takes_lines(m: AutocompleteModel, raw: Seq<Vec<String>>) -> bool {
    m.enabled && raw.len() > 0
}

/// The state after lines were handed on to the index: the search that is waited for is no
/// longer the right one.
pub open spec fn after_lines(m: AutocompleteModel, raw: Seq<Vec<String>>) -> AutocompleteModel {
    if takes_lines(m, raw) {
        AutocompleteModel { requested: None, ..m }
    } else {
        m
    }
}

/// The spans of a line put together.
fn join_spans(spans: &Vec<String>) -> (r: String)
    ensures
        r@ == joined(spans@),
{
    let mut r = String::new();
    let mut i: usize = 0;
    assert(spans@.take(0) =~= Seq::<String>::empty());
    assert(r@ =~= joined(spans@.take(0)));
    while i < spans.len()
        invariant
            i <= spans@.len(),
            r@ == joined(spans@.take(i as int)),
        decreases spans@.len() - i,
    {
        proof {
            let t = spans@.take(i + 1);
            assert(t.last() == spans@[i as int]);
            assert(t.drop_last() =~= spans@.take(i as int));
        }
        r.append(spans[i].as_str());
        i += 1;
    }
    assert(spans@.take(i as int) =~= spans@);
    r
}

/// Where the popup goes on the screen, if one is to be shown: above the cursor with a row
/// between, its left edge at the cursor, and moved as far as needed to lie on the screen.
pub open spec fn popup_area(
    m: AutocompleteModel,
    active_view: bool,
    cursor_x: u16,
    cursor_y: u16,
    screen_width: u16,
    screen_height: u16,
) -> Option<ScreenRect> {
    if !m.enabled || active_view || screen_width == 0 || screen_height == 0 || m.popup is None {
        None
    } else {
        let p = m.popup->0;
        let width = if popup::popup_width(p.matches) < screen_width {
            popup::popup_width(p.matches)
        } else {
            screen_width as int
        };
        let height = if popup::popup_height(p.matches.len()) < screen_height {
            popup::popup_height(p.matches.len())
        } else {
            screen_height as int
        };
        let max_x = screen_width - width;
        let max_y = screen_height - height;
        let above = cursor_y - height - 1;
        Some(
            ScreenRect {
                x: if cursor_x <= max_x {
                    cursor_x
                } else {
                    max_x as u16
                },
                y: if above < 0 {
                    0
                } else if above <= max_y {
                    above as u16
                } else {
                    max_y as u16
                },
                width: width as u16,
                height: height as u16,
            },
        )
    }
}

impl PromptAutocomplete {
    /// Completion that is on, with the dictionary.
    pub fn new() -> (r: Self)
        ensures
            r@ == (AutocompleteModel {
                latest_request_id: 0,
                popup: None,
                dismissed_token: None,
                requested: None,
                enabled: true,
                dictionary_enabled: true,
            }),
            r@.wf(),
    {
        PromptAutocomplete {
            search: PromptAutocompleteSearch::new(),
            popup: None,
            dismissed_token: None,
            requested: None,
            enabled: true,
            dictionary_enabled: true,
        }
    }

    /// The last number given to a search.
    pub fn latest_request_id(&self) -> (r: u64)
        ensures
            r == self@.latest_request_id,
    {
        self.search.latest_request_id
    }

    /// Changes the settings.
    pub fn set_config(
        &mut self,
        enabled: bool,
        dictionary_enabled: bool,
        context: Option<CompletionContext>,
        blocked: bool,
    ) -> (r: SyncOutcome)
        ensures
            final(self)@ == configured(
                old(self)@,
                enabled,
                dictionary_enabled,
                context,
                blocked,
            ),
            r.redraw == synced_redraws(
                with_settings(old(self)@, enabled, dictionary_enabled),
                context,
                blocked,
            ),
            request_view(r.request) == request_to_run(
                with_settings(old(self)@, enabled, dictionary_enabled),
                context,
                blocked,
            ),
    {
        let dictionary_changed = self.dictionary_enabled != dictionary_enabled;
        self.enabled = enabled;
        self.dictionary_enabled = dictionary_enabled;
        if dictionary_changed {
            self.requested = None;
        }
        self.sync(context, blocked)
    }

    /// Whether a popup is shown.
    pub fn popup_active(&self) -> (r: bool)
        ensures
            r == (self@.popup is Some),
    {
        self.popup.is_some()
    }

    /// Takes the popup away; says whether there was one.
    pub fn clear_popup(&mut self) -> (r: bool)
        ensures
            final(self)@ == (AutocompleteModel { popup: None, ..old(self)@ }),
            r == (old(self)@.popup is Some),
    {
        let active = self.popup.is_some();
        self.popup = None;
        active
    }

    /// Follows a change of the text or the cursor.
    pub fn sync(&mut self, context: Option<CompletionContext>, blocked: bool) -> (r: SyncOutcome)
        ensures
            final(self)@ == synced(old(self)@, context, blocked),
            r.redraw == synced_redraws(old(self)@, context, blocked),
            request_view(r.request) == request_to_run(old(self)@, context, blocked),
    {
        if !self.enabled {
            self.dismissed_token = None;
            self.requested = None;
            self.search.invalidate();
            return SyncOutcome { redraw: self.clear_popup(), request: None };
        }
        if blocked {
            self.requested = None;
            self.search.invalidate();
            return SyncOutcome { redraw: self.clear_popup(), request: None };
        }
        let context = match context {
            Some(context) => context,
            None => {
                self.dismissed_token = None;
                self.requested = None;
                self.search.invalidate();
                return SyncOutcome { redraw: self.clear_popup(), request: None };
            },
        };
        if self.is_dismissed_query(context.query.as_str()) {
            self.requested = None;
            self.search.invalidate();
            return SyncOutcome { redraw: self.clear_popup(), request: None };
        }
        let key = SearchKey::new(&context, self.dictionary_enabled);
        let waiting = match &self.requested {
            Some(requested) => requested.key.is_same(&key),
            None => false,
        };
        if waiting {
            return SyncOutcome { redraw: false, request: None };
        }
        let request = self.search.search(key);
        self.requested = Some(
            RequestedSearch { request_id: request.request_id, key: request.key.duplicate() },
        );
        self.dismissed_token = None;
        SyncOutcome { redraw: false, request: Some(request) }
    }

    /// Whether the token is dismissed.
    fn is_dismissed_query(&self, query: &str) -> (r: bool)
        ensures
            r == (self@.dismissed_token == Some(query@)),
    {
        match &self.dismissed_token {
            Some(token) => str_eq(token.as_str(), query),
            None => false,
        }
    }

    /// Takes in what came of a search; says whether there is something to draw.
    pub fn on_search_result(
        &mut self,
        result: PromptAutocompleteResult,
        context: Option<CompletionContext>,
        blocked: bool,
    ) -> (r: bool)
        ensures
            final(self)@ == received(old(self)@, result, context, blocked),
            r == received_redraws(old(self)@, result, context, blocked),
    {
        if !self.enabled || blocked {
            return self.clear_popup();
        }
        let key = result.key();
        let expected = match &self.requested {
            Some(requested) => requested.request_id == result.request_id && requested.key.is_same(
                &key,
            ),
            None => false,
        };
        if !expected {
            return false;
        }
        let context = match context {
            Some(context) => context,
            None => {
                return false;
            },
        };
        if !SearchKey::new(&context, self.dictionary_enabled).is_same(&key)
            || self.is_dismissed_query(context.query.as_str()) {
            return false;
        }
        if result.matches.len() == 0 {
            return self.clear_popup();
        }
        match &mut self.popup {
            Some(popup) => {
                popup.set_results(result.query, result.token_range, result.matches);
            },
            None => {
                self.popup = Some(
                    CompletionPopup::new(result.query, result.token_range, result.matches),
                );
            },
        }
        self.dismissed_token = None;
        true
    }

    /// Takes in a key event.
    pub fn handle_key_event(
        &mut self,
        key_event: KeyEvent,
        context: Option<CompletionContext>,
    ) -> (r: KeyOutcome)
        ensures
            final(self)@ == pressed(old(self)@, key_event, context),
            is_key_outcome(old(self)@, key_event, context, r),
    {
        if !self.enabled || key_event.kind == KeyEventKind::Release {
            return KeyOutcome::Ignored;
        }
        match bound_key(key_event) {
            PopupKey::Unbound => KeyOutcome::Ignored,
            PopupKey::Previous => {
                match &mut self.popup {
                    Some(popup) => {
                        popup.move_previous();
                        KeyOutcome::Handled
                    },
                    None => KeyOutcome::Ignored,
                }
            },
            PopupKey::Next => {
                match &mut self.popup {
                    Some(popup) => {
                        popup.move_next();
                        KeyOutcome::Handled
                    },
                    None => KeyOutcome::Ignored,
                }
            },
            PopupKey::Accept => self.accept_selected(context),
            PopupKey::Dismiss => {
                let query = match &self.popup {
                    Some(popup) => popup.token_query().to_owned(),
                    None => {
                        return KeyOutcome::Ignored;
                    },
                };
                self.dismissed_token = Some(
                    match context {
                        Some(context) => context.query,
                        None => query,
                    },
                );
                self.popup = None;
                self.requested = None;
                self.search.invalidate();
                KeyOutcome::Handled
            },
        }
    }

    /// Accepts the selected completion, if the popup is still for the token at the cursor.
    fn accept_selected(&mut self, context: Option<CompletionContext>) -> (r: KeyOutcome)
        ensures
            old(self)@.popup is None ==> final(self)@ == old(self)@ && r is Ignored,
            old(self)@.popup is Some && !popup_is_current(old(self)@, context) ==> final(self)@
                == old(self)@ && r is Handled,
            old(self)@.popup is Some && popup_is_current(old(self)@, context) ==> match r {
                KeyOutcome::Ignored => false,
                KeyOutcome::Handled => {
                    &&& selected_text(old(self)@.popup->0) is None
                    &&& final(self)@ == quiet(old(self)@)
                },
                KeyOutcome::Replace { range, replacement } => {
                    &&& range == old(self)@.popup->0.token_range
                    &&& selected_text(old(self)@.popup->0) == Some(replacement@)
                    &&& final(self)@ == (AutocompleteModel {
                        dismissed_token: Some(replacement@),
                        ..quiet(old(self)@)
                    })
                },
            },
    {
        let current = match (&self.popup, &context) {
            (Some(popup), Some(context)) => popup.matches_context(context),
            (Some(_), None) => false,
            (None, _) => {
                return KeyOutcome::Ignored;
            },
        };
        if !current {
            return KeyOutcome::Handled;
        }
        let selected = match &self.popup {
            Some(popup) => popup.selected(),
            None => None,
        };
        self.popup = None;
        self.requested = None;
        self.search.invalidate();
        match selected {
            Some((range, replacement)) => {
                self.dismissed_token = Some(replacement.clone());
                KeyOutcome::Replace { range, replacement }
            },
            None => KeyOutcome::Handled,
        }
    }

    /// The lines of a part of the conversation to be taken into the index, if any. The
    /// search that is waited for is then no longer the right one.
    pub fn ingest_history_cell(&mut self, raw_lines: Vec<Vec<String>>) -> (r: Option<Vec<String>>)
        ensures
            r is Some <==> takes_lines(old(self)@, raw_lines@),
            r is Some ==> are_joined(raw_lines@, r->0@),
            final(self)@ == after_lines(old(self)@, raw_lines@),
    {
        if !self.enabled || raw_lines.len() == 0 {
            return None;
        }
        let mut lines: Vec<String> = Vec::new();
        let mut i: usize = 0;
        while i < raw_lines.len()
            invariant
                i <= raw_lines@.len(),
                lines@.len() == i,
                forall|j: int| 0 <= j < i ==> (#[trigger] lines@[j])@ == joined(raw_lines@[j]@),
            decreases raw_lines@.len() - i,
        {
            lines.push(join_spans(&raw_lines[i]));
            i += 1;
        }
        self.requested = None;
        Some(lines)
    }

    /// The popup, if one is shown.
    pub fn popup(&self) -> (r: Option<&CompletionPopup>)
        ensures
            match r {
                Some(popup) => self@.popup == Some(popup@),
                None => self@.popup is None,
            },
    {
        match &self.popup {
            Some(popup) => Some(popup),
            None => None,
        }
    }

    /// Where the popup goes on the screen, if one is to be shown.
    pub fn overlay_area(
        &self,
        active_view: bool,
        cursor_x: u16,
        cursor_y: u16,
        screen_width: u16,
        screen_height: u16,
    ) -> (r: Option<ScreenRect>)
        ensures
            r == popup_area(
                self@,
                active_view,
                cursor_x,
                cursor_y,
                screen_width,
                screen_height,
            ),
    {
        if !self.enabled || active_view || screen_width == 0 || screen_height == 0 {
            return None;
        }
        let popup = match &self.popup {
            Some(popup) => popup,
            None => {
                return None;
            },
        };
        let preferred = popup.preferred_width();
        let width: u16 = if preferred < screen_width {
            preferred
        } else {
            screen_width
        };
        let required = popup.calculate_required_height();
        let height: u16 = if required < screen_height {
            required
        } else {
            screen_height
        };
        let max_x: u16 = screen_width - width;
        let x: u16 = if cursor_x <= max_x {
            cursor_x
        } else {
            max_x
        };
        let max_y: u16 = screen_height - height;
        let above: u16 = cursor_y.saturating_sub(height).saturating_sub(1);
        let y: u16 = if above <= max_y {
            above
        } else {
            max_y
        };
        Some(ScreenRect { x, y, width, height })
    }
}

} // verus!
