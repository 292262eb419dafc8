//! The worker that keeps the index and runs the searches.
use vstd::prelude::*;

use crate::autocomplete;
use crate::autocomplete::{
    KeyModel, PromptAutocompleteResult, PromptAutocompleteSearchRequest, RequestModel,
};
use crate::dictionary::DictionaryModel;
use crate::extract;
use crate::index::SessionCompletionIndex;
use crate::laws;
use crate::model;
use crate::model::IndexModel;
use crate::ranking::CompletionMatch;

verus! {

/// What the worker is told.
#[derive(Debug)]
pub enum PromptAutocompleteWorkerMessage {
    /// To take lines into the index.
    Ingest(Vec<String>),
    /// To run a search.
    Search(PromptAutocompleteSearchRequest),
}

/// The index after lines were taken in.
pub open spec fn with_lines(m: IndexModel, lines: Seq<String>) -> IndexModel
    decreases lines.len(),
{
    if lines.len() == 0 {
        m
    } else {
        model::with_candidates(
            with_lines(m, lines.drop_last()),
            extract::text_candidates(lines.last()@),
        )
    }
}

/// The index after a message.
pub open spec fn after_message(
    m: IndexModel,
    message: PromptAutocompleteWorkerMessage,
) -> IndexModel {
    match message {
        PromptAutocompleteWorkerMessage::Ingest(lines) => with_lines(m, lines@),
        PromptAutocompleteWorkerMessage::Search(_) => m,
    }
}

/// The search to be run after a message, where `request` was to be run.
pub open spec fn next_request(
    request: RequestModel,
    message: PromptAutocompleteWorkerMessage,
) -> RequestModel {
    match message {
        PromptAutocompleteWorkerMessage::Ingest(_) => request,
        PromptAutocompleteWorkerMessage::Search(next) => next@,
    }
}

/// The index after the messages.
pub open spec fn with_messages(
    m: IndexModel,
    messages: Seq<PromptAutocompleteWorkerMessage>,
) -> IndexModel
    decreases messages.len(),
{
    if messages.len() == 0 {
        m
    } else {
        after_message(with_messages(m, messages.drop_last()), messages.last())
    }
}

/// The last search among the messages, or `request` where there is none.
pub open spec fn last_request(
    request: RequestModel,
    messages: Seq<PromptAutocompleteWorkerMessage>,
) -> RequestModel
    decreases messages.len(),
{
    if messages.len() == 0 {
        request
    } else {
        next_request(last_request(request, messages.drop_last()), messages.last())
    }
}

/// Takes lines into the index.
pub fn ingest_lines(index: &mut SessionCompletionIndex, lines: Vec<String>)
    ensures
        final(index)@ == with_lines(old(index)@, lines@),
{
    let ghost before = index@;
    let mut i: usize = 0;
    assert(lines@.take(0) =~= Seq::<String>::empty());
    while i < lines.len()
        invariant
            i <= lines@.len(),
            index@ == with_lines(before, lines@.take(i as int)),
        decreases lines@.len() - i,
    {
        proof {
            let t = lines@.take(i + 1);
            assert(t.last() == lines@[i as int]);
            assert(t.drop_last() =~= lines@.take(i as int));
        }
        index.ingest_text(lines[i].as_str());
        i += 1;
    }
    assert(lines@.take(i as int) =~= lines@);
}

/// What a look into the queue gave.
#[derive(Debug)]
pub enum QueueLook {
    /// The next message.
    Message(PromptAutocompleteWorkerMessage),
    /// Nothing is there.
    Empty,
    /// Nothing is there, and nothing more can come.
    Disconnected,
}

/// What the worker does after a look into the queue.
#[derive(Debug)]
pub enum DrainStep {
    /// To look again; the search is to be run then.
    Look(PromptAutocompleteSearchRequest),
    /// To run the search.
    Run(PromptAutocompleteSearchRequest),
    /// To stop.
    Stop,
}

/// The index after a look into the queue.
pub open spec fn after_look(m: IndexModel, look: QueueLook) -> IndexModel {
    match look {
        QueueLook::Message(message) => after_message(m, message),
        QueueLook::Empty => m,
        QueueLook::Disconnected => m,
    }
}

/// `r` is what is done after a look into the queue, where `request` was to be run.
pub open spec fn is_drain_step(look: QueueLook, request: RequestModel, r: DrainStep) -> bool {
    match look {
        QueueLook::Message(message) => r matches DrainStep::Look(next) && next@ == next_request(
            request,
            message,
        ),
        QueueLook::Empty => r matches DrainStep::Run(next) && next@ == request,
        QueueLook::Disconnected => r is Stop,
    }
}

/// Takes in what else has come when a search is about to be run, one look at a time: lines
/// go into the index, and a later search takes the place of the earlier. Without a sender
/// left there is nothing to run.
pub fn drain_pending_worker_messages(
    look: QueueLook,
    index: &mut SessionCompletionIndex,
    request: PromptAutocompleteSearchRequest,
) -> (r: DrainStep)
    ensures
        final(index)@ == after_look(old(index)@, look),
        is_drain_step(look, request@, r),
{
    match look {
        QueueLook::Message(PromptAutocompleteWorkerMessage::Ingest(lines)) => {
            ingest_lines(index, lines);
            DrainStep::Look(request)
        },
        QueueLook::Message(PromptAutocompleteWorkerMessage::Search(next_request)) => {
            DrainStep::Look(next_request)
        },
        QueueLook::Empty => DrainStep::Run(request),
        QueueLook::Disconnected => DrainStep::Stop,
    }
}

/// What the worker does after a message.
#[derive(Debug)]
pub enum WorkerStep {
    /// To wait for the next message.
    Wait,
    /// To look into the queue before the search is run.
    Drain(PromptAutocompleteSearchRequest),
}

/// `r` is what is done after a message that was waited for.
pub open spec fn is_worker_step(message: PromptAutocompleteWorkerMessage, r: WorkerStep) -> bool {
    match message {
        PromptAutocompleteWorkerMessage::Ingest(_) => r is Wait,
        PromptAutocompleteWorkerMessage::Search(request) => r matches WorkerStep::Drain(next)
            && next@ == request@,
    }
}

/// What the worker does with a message that it waited for: it takes in lines, and prepares
/// to run a search.
pub fn run_prompt_autocomplete_worker(
    index: &mut SessionCompletionIndex,
    message: PromptAutocompleteWorkerMessage,
) -> (r: WorkerStep)
    ensures
        final(index)@ == after_message(old(index)@, message),
        is_worker_step(message, r),
{
    match message {
        PromptAutocompleteWorkerMessage::Ingest(lines) => {
            ingest_lines(index, lines);
            WorkerStep::Wait
        },
        PromptAutocompleteWorkerMessage::Search(request) => WorkerStep::Drain(request),
    }
}

/// What a turn of the worker ends with.
pub enum StepModel {
    Wait,
    Run(RequestModel),
    Stop,
}

/// A turn of the worker: the message that it received, the messages that it then found in
/// the queue, one at each look, and whether the last look said that nothing more can come.
pub struct Turn {
    pub message: PromptAutocompleteWorkerMessage,
    pub pending: Seq<PromptAutocompleteWorkerMessage>,
    pub disconnected: bool,
}

impl Turn {
    /// The queue is looked at only when a search was received.
    pub open spec fn wf(self) -> bool {
        self.message is Ingest ==> self.pending.len() == 0
    }

    /// All that was taken from the queue.
    pub open spec fn taken(self) -> Seq<PromptAutocompleteWorkerMessage> {
        seq![self.message] + self.pending
    }

    /// What is done after the turn: a search is followed by the last of those that were
    /// taken, unless nothing more can come.
    pub open spec fn step(self) -> StepModel {
        match self.message {
            PromptAutocompleteWorkerMessage::Ingest(_) => StepModel::Wait,
            PromptAutocompleteWorkerMessage::Search(request) => if self.disconnected {
                StepModel::Stop
            } else {
                StepModel::Run(last_request(request@, self.pending))
            },
        }
    }
}

/// The number can be read, any number of times.
pub open spec fn can_read<L: Fn(u64) -> u64>(latest: &L) -> bool {
    forall|n: u64| #[trigger] call_requires(*latest, (n,))
}

/// Read number `n` gives `v`.
pub open spec fn reads<L: Fn(u64) -> u64>(latest: &L, n: u64, v: u64) -> bool {
    call_ensures(*latest, (n,), v)
}

/// Read number `n` gives another number than `id`.
pub open spec fn reads_other<L: Fn(u64) -> u64>(latest: &L, n: u64, id: u64) -> bool {
    exists|v: u64| v != id && #[trigger] reads(latest, n, v)
}

/// The reads up to but not including number `b` all give `id`.
pub open spec fn keeps<L: Fn(u64) -> u64>(latest: &L, id: u64, b: int) -> bool {
    forall|n: u64| n < b ==> #[trigger] reads(latest, n, id)
}

/// The reads give `id` until the last before number `b` gives another number.
pub open spec fn changes_before<L: Fn(u64) -> u64>(latest: &L, id: u64, b: int) -> bool {
    &&& 0 < b
    &&& keeps(latest, id, b - 1)
    &&& reads_other(latest, (b - 1) as u64, id)
}

/// A search finds something after `n` questions.
pub open spec fn finds_after<M: Fn(&str, &str) -> Option<(Vec<usize>, i32)>>(
    m: IndexModel,
    f: M,
    key: KeyModel,
    n: int,
) -> bool {
    exists|matches: Seq<CompletionMatch>| #[trigger]
        model::are_results_after(m, f, key.query, key.dictionary_enabled, n, matches)
            && matches.len() > 0
}

/// The number is read `b` times, as far as a search is of interest: once before it, once for
/// each question that it comes to ask, and once when it has found something.
pub open spec fn comes_to_read<M: Fn(&str, &str) -> Option<(Vec<usize>, i32)>>(
    m: IndexModel,
    f: M,
    key: KeyModel,
    b: int,
) -> bool {
    ||| b == 1
    ||| model::comes_to_ask(m, f, key.query, key.dictionary_enabled, b - 1)
    ||| finds_after(m, f, key, b - 2)
}

/// `r` is what is reported of a search that found `matches`, by the number that was read when
/// it was done.
pub open spec fn is_report(
    request: PromptAutocompleteSearchRequest,
    matches: Seq<CompletionMatch>,
    latest: u64,
    r: Option<PromptAutocompleteResult>,
) -> bool {
    &&& r is Some <==> latest == request.request_id && matches.len() > 0
    &&& r is Some ==> {
        &&& r->0.request_id == request.request_id
        &&& autocomplete::key_of_result(r->0) == request.key@
        &&& r->0.matches@ == matches
    }
}

/// What is reported of a search that found `matches`, by the number that was read when it
/// was done: nothing where that is another number, and where nothing was found.
pub fn report_search(
    request: PromptAutocompleteSearchRequest,
    matches: Vec<CompletionMatch>,
    latest: u64,
) -> (r: Option<PromptAutocompleteResult>)
    ensures
        is_report(request, matches@, latest, r),
{
    if matches.len() == 0 || latest != request.request_id {
        return None;
    }
    Some(
        PromptAutocompleteResult {
            request_id: request.request_id,
            query: request.key.query,
            token_range: request.key.token_range,
            dictionary_enabled: request.key.dictionary_enabled,
            matches,
        },
    )
}

/// `r` is what came of a search, by the reads of the last number while it was run.
pub open spec fn is_search_outcome<
    L: Fn(u64) -> u64,
    M: Fn(&str, &str) -> Option<(Vec<usize>, i32)>,
>(
    m: IndexModel,
    f: M,
    request: PromptAutocompleteSearchRequest,
    latest: &L,
    r: Option<PromptAutocompleteResult>,
) -> bool {
    match r {
        Some(result) => {
            &&& result.request_id == request.request_id
            &&& autocomplete::key_of_result(result) == request.key@
            &&& result.matches@.len() > 0
            &&& exists|n: int| #[trigger]
                model::are_results_after(
                    m,
                    f,
                    request.key.query@,
                    request.key.dictionary_enabled,
                    n,
                    result.matches@,
                ) && keeps(latest, request.request_id, n + 2)
        },
        None => {
            ||| exists|b: int| #[trigger]
                changes_before(latest, request.request_id, b) && comes_to_read(
                    m,
                    f,
                    request.key@,
                    b,
                )
            ||| keeps(latest, request.request_id, 1) && !model::can_search(
                m,
                request.key.query@,
            )
            ||| exists|n: int| #[trigger]
                model::are_results_after(
                    m,
                    f,
                    request.key.query@,
                    request.key.dictionary_enabled,
                    n,
                    Seq::<CompletionMatch>::empty(),
                ) && keeps(latest, request.request_id, n + 1)
        },
    }
}

/// Runs a search and says what came of it: nothing where it is no longer of interest,
/// before, while or after it is run, where the query cannot be searched for, and where
/// nothing is found. The reads of the last number are numbered in their order.
pub fn run_prompt_autocomplete_search<
    L: Fn(u64) -> u64,
    M: Fn(&str, &str) -> Option<(Vec<usize>, i32)>,
>(
    index: &SessionCompletionIndex,
    request: PromptAutocompleteSearchRequest,
    latest_request_id: &L,
    fuzzy_match: &M,
) -> (r: Option<PromptAutocompleteResult>)
    requires
        can_read(latest_request_id),
        forall|t: &str, q: &str| #[trigger] call_requires(*fuzzy_match, (t, q)),
    ensures
        is_search_outcome(index@, *fuzzy_match, request, latest_request_id, r),
{
    let id = request.request_id;
    let first = latest_request_id(0);
    assert(reads(latest_request_id, 0, first));
    if first != id {
        assert(changes_before(latest_request_id, id, 1));
        return None;
    }
    if !index.is_searchable(request.key.query.as_str()) {
        return None;
    }
    let is_cancelled = |number: u64| -> (b: bool)
        requires
            can_read(latest_request_id),
        ensures
            b ==> reads_other(latest_request_id, number, id),
            !b ==> reads(latest_request_id, number, id),
        {
            let latest = latest_request_id(number);
            assert(reads(latest_request_id, number, latest));
            latest != id
        };
    let mut asked: u64 = 1;
    let found = index.search_asking(
        request.key.query.as_str(),
        request.key.dictionary_enabled,
        &is_cancelled,
        &mut asked,
        fuzzy_match,
    );
    let matches = match found {
        Some(matches) => matches,
        None => {
            proof {
                assert forall|n: u64| n < asked - 1 implies #[trigger] reads(
                    latest_request_id,
                    n,
                    id,
                ) by {
                    assert(n > 0 ==> call_ensures(is_cancelled, (n,), false));
                }
                assert(changes_before(latest_request_id, id, asked as int));
            }
            return None;
        },
    };
    proof {
        assert forall|n: u64| n < asked implies #[trigger] reads(latest_request_id, n, id) by {
            assert(n > 0 ==> call_ensures(is_cancelled, (n,), false));
        }
    }
    if matches.len() == 0 {
        assert(matches@ =~= Seq::<CompletionMatch>::empty());
        return None;
    }
    let latest = latest_request_id(asked);
    proof {
        assert(reads(latest_request_id, asked, latest));
        assert(model::are_results_after(
            index@,
            *fuzzy_match,
            request.key@.query,
            request.key@.dictionary_enabled,
            asked - 1,
            matches@,
        ));
        if latest != id {
            assert(changes_before(latest_request_id, id, asked + 1));
        }
    }
    report_search(request, matches, latest)
}

/// What is taken in, in one message or line by line in several, gives the same index.
pub proof fn law_lines_may_come_apart(m: IndexModel, a: Seq<String>, b: Seq<String>)
    ensures
        with_lines(with_lines(m, a), b) == with_lines(m, a + b),
    decreases b.len(),
{
    if b.len() == 0 {
        assert(a + b =~= a);
    } else {
        law_lines_may_come_apart(m, a, b.drop_last());
        assert((a + b).last() == b.last());
        assert((a + b).drop_last() =~= a + b.drop_last());
    }
}

/// Messages that are taken from the queue in two goes do what they do in one, and the last
/// search among them is the same.
pub proof fn law_queues_may_come_apart(
    m: IndexModel,
    request: RequestModel,
    a: Seq<PromptAutocompleteWorkerMessage>,
    b: Seq<PromptAutocompleteWorkerMessage>,
)
    ensures
        with_messages(with_messages(m, a), b) == with_messages(m, a + b),
        last_request(last_request(request, a), b) == last_request(request, a + b),
    decreases b.len(),
{
    lemma_queues_apart(m, a, b);
    if b.len() == 0 {
        assert(a + b =~= a);
    } else {
        law_queues_may_come_apart(m, request, a, b.drop_last());
        assert((a + b).last() == b.last());
        assert((a + b).drop_last() =~= a + b.drop_last());
    }
}

/// Messages that are taken in two goes leave the same index.
proof fn lemma_queues_apart(
    m: IndexModel,
    a: Seq<PromptAutocompleteWorkerMessage>,
    b: Seq<PromptAutocompleteWorkerMessage>,
)
    ensures
        with_messages(with_messages(m, a), b) == with_messages(m, a + b),
    decreases b.len(),
{
    if b.len() == 0 {
        assert(a + b =~= a);
    } else {
        lemma_queues_apart(m, a, b.drop_last());
        assert((a + b).last() == b.last());
        assert((a + b).drop_last() =~= a + b.drop_last());
    }
}

/// All that was taken from the queue in the turns.
pub open spec fn taken_in(turns: Seq<Turn>) -> Seq<PromptAutocompleteWorkerMessage>
    decreases turns.len(),
{
    if turns.len() == 0 {
        Seq::empty()
    } else {
        taken_in(turns.drop_last()) + turns.last().taken()
    }
}

/// The index after the turns, each of which takes in what it took from the queue.
pub open spec fn after_turns(m: IndexModel, turns: Seq<Turn>) -> IndexModel
    decreases turns.len(),
{
    if turns.len() == 0 {
        m
    } else {
        with_messages(after_turns(m, turns.drop_last()), turns.last().taken())
    }
}

/// The searches that are run in the turns, in their order, each with the index on which it
/// is run.
pub open spec fn searches_run(m: IndexModel, turns: Seq<Turn>) -> Seq<(RequestModel, IndexModel)>
    decreases turns.len(),
{
    if turns.len() == 0 {
        Seq::empty()
    } else {
        let before = searches_run(m, turns.drop_last());
        match turns.last().step() {
            StepModel::Run(request) => before.push((request, after_turns(m, turns))),
            _ => before,
        }
    }
}

/// However the queue falls into turns, the index holds the lines of every message taken so
/// far, in their order.
pub proof fn law_turns_take_in_all(m: IndexModel, turns: Seq<Turn>)
    ensures
        after_turns(m, turns) == with_messages(m, taken_in(turns)),
    decreases turns.len(),
{
    if turns.len() > 0 {
        law_turns_take_in_all(m, turns.drop_last());
        lemma_queues_apart(m, taken_in(turns.drop_last()), turns.last().taken());
    }
}

/// Of the searches taken in one turn at most one is run: the last of them, on the index of
/// all lines taken so far. None is run in a turn that received lines, nor in one after
/// which nothing more can come.
pub proof fn law_turn_runs_its_last_search(m: IndexModel, turns: Seq<Turn>, turn: Turn)
    requires
        turn.wf(),
    ensures
        ({
            let before = searches_run(m, turns);
            let after = searches_run(m, turns.push(turn));
            match turn.message {
                PromptAutocompleteWorkerMessage::Search(request) => if turn.disconnected {
                    after == before
                } else {
                    after == before.push(
                        (
                            last_request(request@, turn.taken()),
                            with_messages(m, taken_in(turns) + turn.taken()),
                        ),
                    )
                },
                PromptAutocompleteWorkerMessage::Ingest(_) => after == before,
            }
        }),
{
    let all = turns.push(turn);
    assert(all.drop_last() =~= turns);
    assert(all.last() == turn);
    law_turns_take_in_all(m, all);
    match turn.message {
        PromptAutocompleteWorkerMessage::Search(request) => {
            let first = seq![turn.message];
            law_queues_may_come_apart(m, request@, first, turn.pending);
            assert(first.last() == turn.message);
        },
        PromptAutocompleteWorkerMessage::Ingest(_) => {},
    }
}

/// An index that only took in lines holds sound candidates, none of them of the
/// dictionary's kind.
pub proof fn law_index_of_lines(dictionary: DictionaryModel, lines: Seq<String>)
    requires
        dictionary.wf(),
    ensures
        with_lines(model::empty_index(dictionary), lines).wf(),
        with_lines(model::empty_index(dictionary), lines).has_no_words(),
    decreases lines.len(),
{
    if lines.len() > 0 {
        law_index_of_lines(dictionary, lines.drop_last());
        let m = with_lines(model::empty_index(dictionary), lines.drop_last());
        let found = extract::text_candidates(lines.last()@);
        laws::law_sightings_keep_index_sound(m, found);
        laws::law_texts_bring_no_words(m, lines.last()@);
    }
}

/// Each look that finds a message adds it to what was taken: what is found one by one does
/// what it does when taken at once.
pub proof fn law_each_look_takes_one(
    m: IndexModel,
    request: RequestModel,
    taken: Seq<PromptAutocompleteWorkerMessage>,
    message: PromptAutocompleteWorkerMessage,
)
    ensures
        with_messages(m, taken.push(message)) == after_message(with_messages(m, taken), message),
        last_request(request, taken.push(message)) == next_request(
            last_request(request, taken),
            message,
        ),
{
    let all = taken.push(message);
    assert(all.drop_last() =~= taken);
}

/// A search that comes behind others is the one that is run, and no line is lost on the
/// way.
pub proof fn law_last_search_is_run(
    m: IndexModel,
    request: RequestModel,
    before: Seq<PromptAutocompleteWorkerMessage>,
    last: PromptAutocompleteSearchRequest,
)
    ensures
        last_request(request, before.push(PromptAutocompleteWorkerMessage::Search(last)))
            == last@,
        with_messages(m, before.push(PromptAutocompleteWorkerMessage::Search(last)))
            == with_messages(m, before),
{
    let all = before.push(PromptAutocompleteWorkerMessage::Search(last));
    assert(all.drop_last() =~= before);
}

/// What a message does: lines go into the index, each by what is found in it, and leave the
/// search to be run as it is; a search leaves the index as it is and is the one to be run.
pub proof fn law_messages_do_what_they_say(
    m: IndexModel,
    before: RequestModel,
    line: String,
    lines: Vec<String>,
    request: PromptAutocompleteSearchRequest,
)
    ensures
        with_lines(m, Seq::empty()) == m,
        with_lines(m, seq![line]) == model::with_candidates(m, extract::text_candidates(line@)),
        after_message(m, PromptAutocompleteWorkerMessage::Ingest(lines)) == with_lines(m, lines@),
        next_request(before, PromptAutocompleteWorkerMessage::Ingest(lines)) == before,
        after_message(m, PromptAutocompleteWorkerMessage::Search(request)) == m,
        next_request(before, PromptAutocompleteWorkerMessage::Search(request)).request_id
            == request.request_id,
        next_request(before, PromptAutocompleteWorkerMessage::Search(request)).key.query
            == request.key.query@,
        next_request(before, PromptAutocompleteWorkerMessage::Search(request)).key.token_range
            == request.key.token_range,
        next_request(
            before,
            PromptAutocompleteWorkerMessage::Search(request),
        ).key.dictionary_enabled == request.key.dictionary_enabled,
{
    let one = seq![line];
    assert(one.drop_last() =~= Seq::<String>::empty());
    assert(one.last() == line);
    assert(with_lines(m, Seq::<String>::empty()) == m);
}

/// A search that found something and is still the last is reported with its number, its token
/// and all that it found; any other is not.
pub proof fn law_search_of_interest_is_reported(
    request: PromptAutocompleteSearchRequest,
    matches: Seq<CompletionMatch>,
    latest: u64,
    r: Option<PromptAutocompleteResult>,
)
    requires
        is_report(request, matches, latest, r),
    ensures
        matches.len() == 0 || latest != request.request_id ==> r is None,
        matches.len() > 0 && latest == request.request_id ==> {
            &&& r is Some
            &&& r->0.request_id == request.request_id
            &&& r->0.query@ == request.key.query@
            &&& r->0.token_range == request.key.token_range
            &&& r->0.dictionary_enabled == request.key.dictionary_enabled
            &&& r->0.matches@ == matches
        },
{
}

/// A search is not run before the queue was looked at and found empty; what is run then is the
/// last search that came, as it was asked for. Once nothing more can come none is run.
pub proof fn law_search_is_run_when_the_queue_is_empty(
    m: IndexModel,
    message: PromptAutocompleteWorkerMessage,
    first: WorkerStep,
    look: QueueLook,
    request: RequestModel,
    r: DrainStep,
)
    requires
        is_worker_step(message, first),
        is_drain_step(look, request, r),
    ensures
        first is Wait <==> message is Ingest,
        first is Drain ==> first->Drain_0@ == message->Search_0@,
        r is Run <==> look is Empty,
        r is Run ==> r->Run_0@ == request,
        r is Stop <==> look is Disconnected,
        r is Look <==> look is Message,
        look is Message && look->Message_0 is Ingest ==> r->Look_0@ == request,
        look is Message && look->Message_0 is Search ==> r->Look_0@ == look->Message_0->Search_0@,
        look is Message ==> after_look(m, look) == after_message(m, look->Message_0),
        look !is Message ==> after_look(m, look) == m,
{
}

/// What a search reports is what the index has for its token, with the setting that it was
/// asked with. It is reported where the search stays the last, its query can be searched for
/// and something is found; nothing is reported of a search that is not the last at its start.
pub proof fn law_search_reports_what_the_index_has<
    L: Fn(u64) -> u64,
    M: Fn(&str, &str) -> Option<(Vec<usize>, i32)>,
>(
    m: IndexModel,
    f: M,
    request: PromptAutocompleteSearchRequest,
    latest: &L,
    r: Option<PromptAutocompleteResult>,
)
    requires
        is_search_outcome(m, f, request, latest, r),
    ensures
        r matches Some(result) ==> {
            &&& result.request_id == request.request_id
            &&& result.query@ == request.key.query@
            &&& result.token_range == request.key.token_range
            &&& result.dictionary_enabled == request.key.dictionary_enabled
            &&& result.matches@.len() > 0
            &&& model::are_results(
                m,
                f,
                request.key.query@,
                request.key.dictionary_enabled,
                result.matches@,
            )
        },
        (forall|n: u64, v: u64| #[trigger] reads(latest, n, v) ==> v == request.request_id)
            && model::can_search(m, request.key.query@) && (forall|results: Seq<CompletionMatch>|
            #[trigger]
            model::are_results(
                m,
                f,
                request.key.query@,
                request.key.dictionary_enabled,
                results,
            ) ==> results.len() > 0) ==> r is Some,
        (forall|v: u64| #[trigger] reads(latest, 0, v) ==> v != request.request_id) ==> r is None,
{
    let query = request.key.query@;
    let with_words = request.key.dictionary_enabled;
    if r is Some {
        let n = choose|n: int| #[trigger]
            model::are_results_after(m, f, query, with_words, n, r->0.matches@) && keeps(
                latest,
                request.request_id,
                n + 2,
            );
        model::lemma_results_after(m, f, query, with_words, n, r->0.matches@);
        assert(n >= 0) by {
            lemma_question_count(m, f, query, with_words, n, r->0.matches@);
        }
        assert(reads(latest, 0, request.request_id));
    } else if exists|n: int| #[trigger]
        model::are_results_after(
            m,
            f,
            query,
            with_words,
            n,
            Seq::<CompletionMatch>::empty(),
        ) && keeps(latest, request.request_id, n + 1) {
        let n = choose|n: int| #[trigger]
            model::are_results_after(
                m,
                f,
                query,
                with_words,
                n,
                Seq::<CompletionMatch>::empty(),
            ) && keeps(latest, request.request_id, n + 1);
        model::lemma_results_after(
            m,
            f,
            query,
            with_words,
            n,
            Seq::<CompletionMatch>::empty(),
        );
    }
}

/// A search asks no fewer questions than none.
proof fn lemma_question_count<M: Fn(&str, &str) -> Option<(Vec<usize>, i32)>>(
    m: IndexModel,
    f: M,
    query: Seq<char>,
    include_dictionary: bool,
    n: int,
    results: Seq<CompletionMatch>,
)
    requires
        model::are_results_after(m, f, query, include_dictionary, n, results),
    ensures
        n >= 0,
{
}

} // verus!
