//! A conversation as the app runs it: the state the app keeps of it, and
//! the state machine that takes it from one event (of the model server,
//! the session log, a tool, the repository or the user) to the next, with
//! the work each event asks for. The app performs that work, and hands
//! what came of it back as the next event.
//!
//! Starting work is a step of its own, [`Chat::work`], as it needs the
//! tokens a compaction keeps, which the app rounds from the context's
//! tokens; so is the start of a tool call, [`Chat::run`], as whether its
//! arguments parse is the tool's to say.

use vstd::prelude::*;

use crate::conversation::{
    chunks_text, extended,
    abort_targets, choose_model, chosen_model, compaction_cut, compaction_due, context_tokens,
    cut_of, kept_tokens, last_run_below, latest_tokens, reply_of, reply_target, settled_count,
    settled_run, start_of, tool_run, unfinished_below, Chunks, Entry, RunStatus,
};
use crate::output::Output;
use crate::session::Status;
use crate::text::{chars_of, same_chars};

verus! {

/// How the app stands with the model server.
#[derive(Debug, Clone, Copy, PartialEq, Eq, Structural)]
pub enum Connection {
    Disconnected,
    Connecting,
    Connected,
}

/// What the app shows: the conversation, or the review of the change.
#[derive(Debug, Clone, Copy, PartialEq, Eq, Structural)]
pub enum Mode {
    Chat,
    Review,
}

/// Work under way: the completion of a reply, a compaction, or the run
/// of the tool call with the id.
#[derive(Debug, Clone)]
pub enum Work {
    Completion,
    Compaction,
    Tool(String),
}

/// A piece of work, its id by its characters.
pub enum WorkView {
    Completion,
    Compaction,
    Tool(Seq<char>),
}

impl View for Work {
    type V = WorkView;

    open spec fn view(&self) -> WorkView {
        match self {
            Work::Completion => WorkView::Completion,
            Work::Compaction => WorkView::Compaction,
            Work::Tool(id) => WorkView::Tool(id@),
        }
    }
}

/// A model the server serves: its id, and the size of its context where
/// the server tells it.
#[derive(Debug, Clone)]
pub struct Model {
    pub id: String,
    pub context_size: Option<u64>,
}

/// A change to the tool calls of the reply being streamed: a call begun,
/// with its id, or more of the arguments of the last one.
#[derive(Debug, Clone)]
pub enum CallChange {
    Added(String),
    Arguments,
}

/// What happens to the conversation.
#[derive(Debug)]
pub enum Event {
    /// The server took the connection, with the models it serves, or
    /// refused it.
    Connected(Option<Vec<Model>>),
    /// The server listed its models, or failed to.
    ModelsListed(Option<Vec<Model>>),
    /// Time passed.
    Heartbeat,
    /// The session log was read, or could not be.
    SessionLoaded(Option<Vec<Entry>>),
    /// The items up to the index were saved to the log, or were not.
    SessionSaved(Option<usize>),
    /// The user sent a message.
    Send,
    /// The reply being streamed reported the tokens of its context, and
    /// the changes to its tool calls.
    ReplyProgressed {
        tokens: Option<u64>,
        content: String,
        reasoning: String,
        calls: Vec<CallChange>,
    },
    /// The reply ended, or failed.
    ReplyReceived(bool),
    /// The summary of the compaction under way reported the tokens of its
    /// context.
    CompactionProgressed { tokens: Option<u64> },
    /// The compaction ended, or failed.
    CompactionReceived(bool),
    /// The run of the tool call with the id ended, with its output, or
    /// the text of its error.
    ToolFinished(String, Result<Output, String>),
    /// The user stopped the work under way.
    Abort,
    /// The user finished a review of the change.
    Reviewed,
    /// The user switched between the conversation and the review.
    ToggleReview,
}

/// The work an event asks of the app.
#[derive(Debug, Clone)]
pub enum Action {
    /// Connect to the server.
    Connect,
    /// List the server's models.
    ListModels,
    /// Append the `count` items from `from` on to the session log.
    Save { from: usize, count: usize },
    /// Start work, if there is work to start: see [`Chat::work`].
    Work,
    /// Let the server settle, and then start work.
    WorkAfterPause,
    /// Run the tool call with the id: see [`Chat::run`].
    Run(String),
    /// Focus the input.
    Focus,
    /// Scroll to the end of the conversation.
    SnapToEnd,
    /// Refresh the status of the repository.
    RepositoryStatus,
    /// Compute the diff of the change for the review.
    RepositoryDiff,
}

/// An action, ids by their characters.
pub enum ActionView {
    Connect,
    ListModels,
    Save { from: nat, count: nat },
    Work,
    WorkAfterPause,
    Run(Seq<char>),
    Focus,
    SnapToEnd,
    RepositoryStatus,
    RepositoryDiff,
}

impl View for Action {
    type V = ActionView;

    open spec fn view(&self) -> ActionView {
        match self {
            Action::Connect => ActionView::Connect,
            Action::ListModels => ActionView::ListModels,
            Action::Save { from, count } => ActionView::Save { from: *from as nat, count: *count as nat },
            Action::Work => ActionView::Work,
            Action::WorkAfterPause => ActionView::WorkAfterPause,
            Action::Run(id) => ActionView::Run(id@),
            Action::Focus => ActionView::Focus,
            Action::SnapToEnd => ActionView::SnapToEnd,
            Action::RepositoryStatus => ActionView::RepositoryStatus,
            Action::RepositoryDiff => ActionView::RepositoryDiff,
        }
    }
}

/// The work [`Chat::work`] starts: a reply, or a compaction of the items
/// up to `to`.
#[derive(Debug, Clone, Copy, PartialEq, Eq, Structural)]
pub enum Start {
    Reply,
    Compaction { to: usize },
}

/// The state the app keeps of a conversation: its items, the work under
/// way, the server, its models and the one in use, how many items the
/// log holds, and what is shown.
#[derive(Debug)]
pub struct Chat {
    pub entries: Vec<Entry>,
    pub tasks: Vec<Work>,
    pub connection: Connection,
    pub models: Vec<Model>,
    pub model: Option<String>,
    pub last_saved: usize,
    pub mode: Mode,
}

/// The state of a conversation, the work under way in the order it began,
/// ids by their characters.
pub struct ChatView {
    pub entries: Seq<Entry>,
    pub tasks: Seq<WorkView>,
    pub connection: Connection,
    pub models: Seq<Model>,
    pub model: Option<Seq<char>>,
    pub last_saved: nat,
    pub mode: Mode,
}

/// The views of a sequence of pieces of work.
pub open spec fn works(ts: Seq<Work>) -> Seq<WorkView> {
    ts.map_values(|w: Work| w@)
}

/// The views of a sequence of actions.
pub open spec fn actions(acts: Seq<Action>) -> Seq<ActionView> {
    acts.map_values(|a: Action| a@)
}

impl View for Chat {
    type V = ChatView;

    open spec fn view(&self) -> ChatView {
        ChatView {
            entries: self.entries@,
            tasks: works(self.tasks@),
            connection: self.connection,
            models: self.models@,
            model: crate::git::text_view(self.model),
            last_saved: self.last_saved as nat,
            mode: self.mode,
        }
    }
}

/// The work under way `ts` with `w` begun: as it is where `w` is under way
/// already.
pub open spec fn with_task(ts: Seq<WorkView>, w: WorkView) -> Seq<WorkView> {
    if ts.contains(w) {
        ts
    } else {
        ts.push(w)
    }
}

/// The work under way `ts` with `w` ended.
pub open spec fn without_task(ts: Seq<WorkView>, w: WorkView) -> Seq<WorkView>
    decreases ts.len(),
{
    if ts.len() == 0 {
        ts
    } else if ts.last() == w {
        without_task(ts.drop_last(), w)
    } else {
        without_task(ts.drop_last(), w).push(ts.last())
    }
}

/// The ids of the models `ms`, in order.
pub open spec fn model_ids(ms: Seq<Model>) -> Seq<Seq<char>> {
    ms.map_values(|m: Model| m.id@)
}

/// The state once the server lists the models `ms`: the current model
/// kept while listed, the least listed otherwise.
pub open spec fn listed(c: ChatView, ms: Seq<Model>) -> ChatView {
    ChatView { models: ms, model: chosen_model(c.model, model_ids(ms)), ..c }
}

/// The items `es` with every tool still running stopped.
pub open spec fn stopped(es: Seq<Entry>) -> Seq<Entry> {
    es.map_values(
        |e: Entry|
            match e {
                Entry::Tool { id, status: RunStatus::Running } => Entry::Tool {
                    id,
                    status: RunStatus::Ended(Status::Aborted),
                },
                _ => e,
            },
    )
}

/// The state once the user aborts: no work under way, every tool run
/// stopped, and the last compaction that has not finished dropped.
pub open spec fn aborted(c: ChatView) -> ChatView {
    let es = stopped(c.entries);
    let kept = match unfinished_below(es, es.len() as int) {
        Some(i) => es.remove(i),
        None => es,
    };
    ChatView { entries: kept, tasks: seq![], ..c }
}

/// What a heartbeat saves: the items after those the log holds, up to
/// the first one not settled.
pub open spec fn saved(c: ChatView) -> Seq<ActionView> {
    let n = settled_run(c.entries, c.last_saved as int, c.tasks.len() == 0);
    if n > 0 {
        seq![ActionView::Save { from: c.last_saved, count: n }]
    } else {
        seq![]
    }
}

/// The last call of a reply and the calls to run once `cs` change them,
/// the reply's last call having been `last`: a call runs once the next
/// one begins.
pub open spec fn changed_calls(last: Option<String>, cs: Seq<CallChange>) -> (
    Option<String>,
    Seq<Seq<char>>,
)
    decreases cs.len(),
{
    if cs.len() == 0 {
        (last, seq![])
    } else {
        let (l, runs) = changed_calls(last, cs.drop_last());
        match cs.last() {
            CallChange::Added(id) => (
                Some(id),
                match l {
                    Some(p) => runs.push(p@),
                    None => runs,
                },
            ),
            CallChange::Arguments => (l, runs),
        }
    }
}

/// The runs of the calls `ids`, in order.
pub open spec fn runs_of(ids: Seq<Seq<char>>) -> Seq<ActionView> {
    ids.map_values(|id: Seq<char>| ActionView::Run(id))
}

/// The state after the reply being streamed reported `tokens`, the
/// chunks `content` of its text and `reasoning` of its reasoning, and the
/// changes `cs` to its calls; and the calls to run. Each chunk extends
/// the reply's text.
pub open spec fn progressed(
    c: ChatView,
    tokens: Option<u64>,
    content: String,
    reasoning: String,
    cs: Seq<CallChange>,
) -> (ChatView, Seq<ActionView>) {
    match reply_of(c.entries) {
        Some(i) => match c.entries[i] {
            Entry::Assistant { last_call, content: text, reasoning: thought, .. } => {
                let (l, runs) = changed_calls(last_call, cs);
                (
                    ChatView {
                        entries: c.entries.update(
                            i,
                            Entry::Assistant {
                                tokens,
                                last_call: l,
                                content: extended(text, content),
                                reasoning: extended(thought, reasoning),
                            },
                        ),
                        ..c
                    },
                    runs_of(runs),
                )
            },
            _ => (c, seq![]),
        },
        None => (c, seq![]),
    }
}

/// The state after the reply being streamed ended, and the last of its
/// calls to run.
pub open spec fn replied(c: ChatView) -> (ChatView, Seq<ActionView>) {
    let d = ChatView { tasks: without_task(c.tasks, WorkView::Completion), ..c };
    match reply_of(d.entries) {
        Some(i) => match d.entries[i] {
            Entry::Assistant { last_call: Some(id), .. } => (d, seq![ActionView::Run(id@)]),
            _ => (d, seq![]),
        },
        None => (d, seq![]),
    }
}

/// The state after the summary of the compaction under way reported
/// `tokens`.
pub open spec fn compaction_progressed(c: ChatView, tokens: Option<u64>) -> ChatView {
    if c.entries.len() > 0 {
        match c.entries.last() {
            Entry::Compaction { to, finished, .. } => ChatView {
                entries: c.entries.update(
                    c.entries.len() - 1,
                    Entry::Compaction { to, finished, tokens },
                ),
                ..c
            },
            _ => c,
        }
    } else {
        c
    }
}

/// The state after the compaction under way ended: the compaction shown
/// last finished, its timings reset to report no tokens, and work resumed.
pub open spec fn compacted(c: ChatView) -> (ChatView, Seq<ActionView>) {
    let d = ChatView { tasks: without_task(c.tasks, WorkView::Compaction), ..c };
    if d.entries.len() > 0 {
        match d.entries.last() {
            Entry::Compaction { to, .. } => (
                ChatView {
                    entries: d.entries.update(
                        d.entries.len() - 1,
                        Entry::Compaction { to, finished: true, tokens: Some(0) },
                    ),
                    ..d
                },
                seq![ActionView::Work],
            ),
            _ => (d, seq![]),
        }
    } else {
        (d, seq![])
    }
}

/// How a run that ended with `result` stands: its output, or the text of
/// its error.
pub open spec fn ended_status(result: Result<Output, String>) -> RunStatus {
    match result {
        Ok(output) => RunStatus::Ended(Status::Success { output }),
        Err(error) => RunStatus::Ended(Status::Error { output: error }),
    }
}

/// How a run begins: running where its arguments are valid, ended as
/// invalid otherwise.
pub open spec fn started_status(valid: bool) -> RunStatus {
    if valid {
        RunStatus::Running
    } else {
        RunStatus::Ended(Status::Invalid)
    }
}

/// The state after the run of the call `id` ended with `result`, and
/// whether work resumes: the last run of the call, where it is still
/// running, takes the output or the error; one that ended already stays
/// as it is.
pub open spec fn tool_finished(c: ChatView, id: Seq<char>, result: Result<Output, String>) -> (
    ChatView,
    Seq<ActionView>,
) {
    match last_run_below(c.entries, id, c.entries.len() as int) {
        None => (c, seq![]),
        Some(k) => {
            let d = ChatView { tasks: without_task(c.tasks, WorkView::Tool(id)), ..c };
            match d.entries[k] {
                Entry::Tool { id: run, status: RunStatus::Running } => {
                    let e = ChatView {
                        entries: d.entries.update(k, Entry::Tool { id: run, status: ended_status(result) }),
                        ..d
                    };
                    if e.tasks.len() == 0 {
                        (e, seq![ActionView::Work, ActionView::RepositoryStatus])
                    } else {
                        (e, seq![])
                    }
                },
                _ => (d, seq![]),
            }
        },
    }
}

/// The state after a heartbeat: a lost connection retried, the models of
/// a live one listed again, and the settled items saved.
pub open spec fn beat(c: ChatView) -> (ChatView, Seq<ActionView>) {
    match c.connection {
        Connection::Disconnected => (
            ChatView { connection: Connection::Connecting, ..c },
            seq![ActionView::Connect] + saved(c),
        ),
        Connection::Connected => (c, seq![ActionView::ListModels] + saved(c)),
        Connection::Connecting => (c, saved(c)),
    }
}

/// The state after the event `e`, and the work it asks for.
pub open spec fn next(c: ChatView, e: Event) -> (ChatView, Seq<ActionView>) {
    match e {
        Event::Connected(Some(ms)) => (
            listed(ChatView { connection: Connection::Connected, ..c }, ms@),
            seq![],
        ),
        Event::ModelsListed(Some(ms)) => (listed(c, ms@), seq![]),
        Event::Connected(None) | Event::ModelsListed(None) | Event::ReplyReceived(false)
        | Event::CompactionReceived(false) => (
            aborted(ChatView { connection: Connection::Disconnected, ..c }),
            seq![],
        ),
        Event::Heartbeat => beat(c),
        Event::SessionLoaded(Some(es)) => (
            ChatView { entries: es@, last_saved: es@.len(), ..c },
            seq![ActionView::Focus],
        ),
        Event::SessionLoaded(None) => (c, seq![]),
        Event::SessionSaved(Some(n)) => (ChatView { last_saved: n as nat, ..c }, seq![]),
        Event::SessionSaved(None) => (c, seq![]),
        Event::Send => {
            let d = ChatView { entries: c.entries.push(Entry::User), ..c };
            if c.tasks.len() == 0 {
                (d, seq![ActionView::Work, ActionView::SnapToEnd])
            } else {
                (aborted(d), seq![ActionView::WorkAfterPause, ActionView::SnapToEnd])
            }
        },
        Event::ReplyProgressed { tokens, content, reasoning, calls } => progressed(
            c,
            tokens,
            content,
            reasoning,
            calls@,
        ),
        Event::ReplyReceived(true) => replied(c),
        Event::CompactionProgressed { tokens } => (compaction_progressed(c, tokens), seq![]),
        Event::CompactionReceived(true) => compacted(c),
        Event::ToolFinished(id, result) => tool_finished(c, id@, result),
        Event::Abort => (aborted(c), seq![]),
        Event::Reviewed => (
            aborted(ChatView { entries: c.entries.push(Entry::Review), mode: Mode::Chat, ..c }),
            seq![ActionView::SnapToEnd, ActionView::Work],
        ),
        Event::ToggleReview => match c.mode {
            Mode::Review => (ChatView { mode: Mode::Chat, ..c }, seq![ActionView::SnapToEnd]),
            Mode::Chat => (ChatView { mode: Mode::Review, ..c }, seq![ActionView::RepositoryDiff]),
        },
    }
}

/// The size of the context of the model `id` among `ms`: the last one
/// listed with that id, as the map the app keeps them in keeps it.
pub open spec fn model_context(ms: Seq<Model>, id: Seq<char>) -> Option<u64>
    decreases ms.len(),
{
    if ms.len() == 0 {
        None
    } else if ms.last().id@ == id {
        ms.last().context_size
    } else {
        model_context(ms.drop_last(), id)
    }
}

/// The state once work is started, `fifth` being a fifth of the tokens
/// of the context, rounded, and the work started: nothing while work is
/// under way or no model can be asked; a compaction where one is due,
/// with its cut; a reply otherwise.
pub open spec fn worked(c: ChatView, fifth: u64) -> (ChatView, Option<Start>) {
    if c.tasks.len() > 0 || c.connection != Connection::Connected || c.model is None {
        (c, None)
    } else {
        let size = model_context(c.models, c.model->0);
        let total = context_tokens(c.entries);
        if size is Some && total is Some && compaction_due(size->0, total->0) {
            let to = cut_of(c.entries, total->0, kept_tokens(size->0, fifth));
            (
                ChatView {
                    entries: c.entries.push(
                        Entry::Compaction { to: to as usize, finished: false, tokens: None },
                    ),
                    tasks: seq![WorkView::Compaction],
                    ..c
                },
                Some(Start::Compaction { to: to as usize }),
            )
        } else {
            (
                ChatView {
                    entries: c.entries.push(
                        Entry::Assistant {
                            tokens: None,
                            last_call: None,
                            content: Chunks::Empty,
                            reasoning: Chunks::Empty,
                        },
                    ),
                    tasks: seq![WorkView::Completion],
                    ..c
                },
                Some(Start::Reply),
            )
        }
    }
}

/// The state once the call `id` begins its run: the run is added,
/// running where its arguments are `valid`, and under way then, ended as
/// invalid otherwise.
pub open spec fn ran(c: ChatView, id: String, valid: bool) -> ChatView {
    ChatView {
        entries: c.entries.push(Entry::Tool { id, status: started_status(valid) }),
        tasks: if valid {
            with_task(c.tasks, WorkView::Tool(id@))
        } else {
            c.tasks
        },
        ..c
    }
}

/// Whether two pieces of work are the same.
fn same_work(a: &Work, b: &Work) -> (r: bool)
    ensures
        r == (a@ == b@),
{
    match (a, b) {
        (Work::Completion, Work::Completion) => true,
        (Work::Compaction, Work::Compaction) => true,
        (Work::Tool(x), Work::Tool(y)) => same_chars(&chars_of(x.as_str()), &chars_of(y.as_str())),
        _ => false,
    }
}

/// A copy of `w`.
fn copy_work(w: &Work) -> (r: Work)
    ensures
        r@ == w@,
{
    match w {
        Work::Completion => Work::Completion,
        Work::Compaction => Work::Compaction,
        Work::Tool(id) => Work::Tool(id.clone()),
    }
}

/// `w` begun, unless it is under way already.
fn begin(tasks: &mut Vec<Work>, w: Work)
    ensures
        works(final(tasks)@) == with_task(works(old(tasks)@), w@),
{
    let ghost before = works(tasks@);
    let mut i: usize = 0;
    while i < tasks.len()
        invariant
            i <= tasks.len(),
            before == works(tasks@),
            forall|k: int| 0 <= k < i ==> before[k] != w@,
        decreases tasks.len() - i,
    {
        if same_work(&tasks[i], &w) {
            assert(before[i as int] == w@);
            assert(before.contains(w@));
            return;
        }
        i = i + 1;
    }
    assert(!before.contains(w@)) by {
        if before.contains(w@) {
            let k = choose|k: int| 0 <= k < before.len() && before[k] == w@;
            assert(before[k] != w@);
        }
    }
    let ghost wv = w@;
    tasks.push(w);
    assert(works(tasks@) =~= before.push(wv));
}

/// `w` ended.
fn end(tasks: &mut Vec<Work>, w: &Work)
    ensures
        works(final(tasks)@) == without_task(works(old(tasks)@), w@),
{
    let ghost before = works(tasks@);
    let mut kept: Vec<Work> = Vec::new();
    let mut i: usize = 0;
    while i < tasks.len()
        invariant
            i <= tasks.len(),
            before == works(tasks@),
            works(kept@) == without_task(before.take(i as int), w@),
        decreases tasks.len() - i,
    {
        proof {
            let t = before.take(i + 1);
            assert(t.drop_last() =~= before.take(i as int));
            assert(t.last() == tasks@[i as int]@);
        }
        if !same_work(&tasks[i], w) {
            let ghost k0 = kept@;
            kept.push(copy_work(&tasks[i]));
            assert(works(kept@) =~= works(k0).push(tasks@[i as int]@));
        }
        i = i + 1;
    }
    assert(before.take(i as int) =~= before);
    *tasks = kept;
}

/// A copy of `id`.
fn copy_id(id: &Option<String>) -> (r: Option<String>)
    ensures
        r == *id,
{
    match id {
        Some(s) => Some(s.clone()),
        None => None,
    }
}

impl Chat {
    /// A conversation that has just begun: nothing in it, no work under
    /// way, the conversation shown, while the app connects to the server
    /// and reads the session log.
    pub fn new() -> (c: Chat)
        ensures
            c@ == (ChatView {
                entries: seq![],
                tasks: seq![],
                connection: Connection::Connecting,
                models: seq![],
                model: None,
                last_saved: 0,
                mode: Mode::Chat,
            }),
    {
        let c = Chat {
            entries: Vec::new(),
            tasks: Vec::new(),
            connection: Connection::Connecting,
            models: Vec::new(),
            model: None,
            last_saved: 0,
            mode: Mode::Chat,
        };
        assert(works(c.tasks@) =~= Seq::<WorkView>::empty());
        c
    }

    /// Stops everything: no work is left under way, the tool runs still
    /// running end as aborted, and the last compaction that has not
    /// finished is dropped.
    pub fn abort(&mut self)
        ensures
            final(self)@ == aborted(old(self)@),
    {
        let ghost before = self.entries@;
        self.tasks = Vec::new();
        let ghost rest = self@;
        let mut i: usize = 0;
        while i < self.entries.len()
            invariant
                i <= self.entries.len(),
                self@.tasks == rest.tasks,
                self@.connection == rest.connection,
                self@.models == rest.models,
                self@.model == rest.model,
                self@.last_saved == rest.last_saved,
                self@.mode == rest.mode,
                self.entries.len() == before.len(),
                forall|k: int| 0 <= k < i ==> self.entries@[k] == stopped(before)[k],
                forall|k: int| i <= k < self.entries.len() ==> self.entries@[k] == before[k],
            decreases self.entries.len() - i,
        {
            let stop = match &self.entries[i] {
                Entry::Tool { id, status: RunStatus::Running } => Some(id.clone()),
                _ => None,
            };
            match stop {
                Some(id) => {
                    self.entries.set(i, Entry::Tool { id, status: RunStatus::Ended(Status::Aborted) });
                },
                None => {},
            }
            i = i + 1;
        }
        assert(self.entries@ =~= stopped(before));
        assert(works(self.tasks@) =~= Seq::<WorkView>::empty());
        let (_, unfinished) = abort_targets(&self.entries);
        match unfinished {
            Some(k) => {
                proof {
                    crate::conversation::lemma_unfinished_below(self.entries@, self.entries.len() as int);
                }
                self.entries.remove(k);
            },
            None => {},
        }
    }
}

impl Chat {
    /// Takes the models `ms` the server lists.
    fn list(&mut self, ms: Vec<Model>)
        ensures
            final(self)@ == listed(old(self)@, ms@),
    {
        let mut ids: Vec<String> = Vec::new();
        let mut i: usize = 0;
        while i < ms.len()
            invariant
                i <= ms.len(),
                ids@.map_values(|s: String| s@) == model_ids(ms@).take(i as int),
            decreases ms.len() - i,
        {
            let ghost before = ids@;
            let id = ms[i].id.clone();
            assert(id@ == ms@[i as int].id@);
            ids.push(id);
            assert(ids@.map_values(|s: String| s@) =~= before.map_values(|s: String| s@).push(
                ms@[i as int].id@,
            ));
            assert(model_ids(ms@).take(i + 1) =~= model_ids(ms@).take(i as int).push(
                ms@[i as int].id@,
            ));
            i = i + 1;
        }
        assert(model_ids(ms@).take(i as int) =~= model_ids(ms@));
        let mut current: Option<String> = None;
        std::mem::swap(&mut current, &mut self.model);
        self.model = choose_model(current, &ids);
        self.models = ms;
    }

    /// The state after the reply being streamed reported `tokens`, the
    /// chunks `content` and `reasoning` and the changes `calls` to its tool
    /// calls; and the calls to run.
    fn progress(
        &mut self,
        tokens: Option<u64>,
        content: String,
        reasoning: String,
        calls: Vec<CallChange>,
    ) -> (r: Vec<Action>)
        ensures
            final(self)@ == progressed(old(self)@, tokens, content, reasoning, calls@).0,
            actions(r@) == progressed(old(self)@, tokens, content, reasoning, calls@).1,
    {
        let i = match reply_target(&self.entries) {
            Some(i) => i,
            None => return Vec::new(),
        };
        proof {
            crate::conversation::lemma_reply_of(self.entries@);
        }
        let mut last = match &self.entries[i] {
            Entry::Assistant { last_call, .. } => copy_id(last_call),
            _ => return Vec::new(),
        };
        let ghost first = last;
        let mut runs: Vec<Action> = Vec::new();
        let mut k: usize = 0;
        while k < calls.len()
            invariant
                k <= calls.len(),
                (last, actions(runs@)) == ({
                    let (l, rs) = changed_calls(first, calls@.take(k as int));
                    (l, runs_of(rs))
                }),
            decreases calls.len() - k,
        {
            proof {
                let t = calls@.take(k + 1);
                assert(t.drop_last() =~= calls@.take(k as int));
                assert(t.last() == calls@[k as int]);
            }
            match &calls[k] {
                CallChange::Added(id) => {
                    let ghost rs0 = runs@;
                    match last {
                        Some(p) => {
                            let ghost pv = p@;
                            runs.push(Action::Run(p));
                            assert(actions(runs@) =~= actions(rs0).push(ActionView::Run(pv)));
                        },
                        None => {},
                    }
                    last = Some(id.clone());
                },
                CallChange::Arguments => {},
            }
            proof {
                let (l, rs) = changed_calls(first, calls@.take(k as int));
                let (l2, rs2) = changed_calls(first, calls@.take(k + 1));
                assert(runs_of(rs2) =~= match calls@[k as int] {
                    CallChange::Added(_) => match l {
                        Some(p) => runs_of(rs).push(ActionView::Run(p@)),
                        None => runs_of(rs),
                    },
                    CallChange::Arguments => runs_of(rs),
                });
            }
            k = k + 1;
        }
        assert(calls@.take(k as int) =~= calls@);
        let ghost before = self.entries@;
        let mut taken = Entry::User;
        std::mem::swap(&mut taken, &mut self.entries[i]);
        assert(taken == before[i as int]);
        assert(self.entries@ == before.update(i as int, Entry::User));
        match taken {
            Entry::Assistant { content: text, reasoning: thought, .. } => {
                let text = text.extend(content);
                let thought = thought.extend(reasoning);
                self.entries.set(
                    i,
                    Entry::Assistant { tokens, last_call: last, content: text, reasoning: thought },
                );
                assert(self.entries@ =~= before.update(i as int, self.entries@[i as int]));
            },
            _ => {},
        }
        runs
    }
}

impl Chat {
    /// The state after the reply being streamed ended, and the last of its
    /// calls to run.
    fn reply_ended(&mut self) -> (r: Vec<Action>)
        ensures
            final(self)@ == replied(old(self)@).0,
            actions(r@) == replied(old(self)@).1,
    {
        end(&mut self.tasks, &Work::Completion);
        proof {
            crate::conversation::lemma_reply_of(self.entries@);
        }
        let mut r: Vec<Action> = Vec::new();
        match reply_target(&self.entries) {
            Some(i) => match &self.entries[i] {
                Entry::Assistant { last_call: Some(id), .. } => {
                    r.push(Action::Run(id.clone()));
                },
                _ => {},
            },
            None => {},
        }
        assert(actions(r@) =~= replied(old(self)@).1);
        r
    }

    /// The state after the summary of the compaction under way reported
    /// `tokens`.
    fn compaction_reported(&mut self, tokens: Option<u64>)
        ensures
            final(self)@ == compaction_progressed(old(self)@, tokens),
    {
        let n = self.entries.len();
        if n > 0 {
            let update = match &self.entries[n - 1] {
                Entry::Compaction { to, finished, .. } => Some((*to, *finished)),
                _ => None,
            };
            match update {
                Some((to, finished)) => {
                    self.entries.set(n - 1, Entry::Compaction { to, finished, tokens });
                },
                None => {},
            }
        }
    }

    /// The state after the compaction under way ended, and whether work
    /// resumes.
    fn compaction_ended(&mut self) -> (r: Vec<Action>)
        ensures
            final(self)@ == compacted(old(self)@).0,
            actions(r@) == compacted(old(self)@).1,
    {
        end(&mut self.tasks, &Work::Compaction);
        let mut r: Vec<Action> = Vec::new();
        let n = self.entries.len();
        if n > 0 {
            let update = match &self.entries[n - 1] {
                Entry::Compaction { to, .. } => Some(*to),
                _ => None,
            };
            match update {
                Some(to) => {
                    self.entries.set(n - 1, Entry::Compaction { to, finished: true, tokens: Some(0) });
                    r.push(Action::Work);
                },
                None => {},
            }
        }
        assert(actions(r@) =~= compacted(old(self)@).1);
        r
    }

    /// The state after the run of the call `id` ended, and whether work
    /// resumes.
    fn tool_ended(&mut self, id: String, result: Result<Output, String>) -> (r: Vec<Action>)
        ensures
            final(self)@ == tool_finished(old(self)@, id@, result).0,
            actions(r@) == tool_finished(old(self)@, id@, result).1,
    {
        let mut r: Vec<Action> = Vec::new();
        let k = match tool_run(&self.entries, id.as_str()) {
            Some(k) => k,
            None => {
                assert(actions(r@) =~= Seq::<ActionView>::empty());
                return r;
            },
        };
        proof {
            crate::conversation::lemma_last_run_below(self.entries@, id@, self.entries.len() as int);
        }
        end(&mut self.tasks, &Work::Tool(id));
        let stop = match &self.entries[k] {
            Entry::Tool { id: run, status: RunStatus::Running } => Some(run.clone()),
            _ => None,
        };
        match stop {
            Some(run) => {
                let status = match result {
                    Ok(output) => RunStatus::Ended(Status::Success { output }),
                    Err(error) => RunStatus::Ended(Status::Error { output: error }),
                };
                self.entries.set(k, Entry::Tool { id: run, status });
                if self.tasks.len() == 0 {
                    r.push(Action::Work);
                    r.push(Action::RepositoryStatus);
                }
            },
            None => {},
        }
        assert(actions(r@) =~= tool_finished(old(self)@, id@, result).1);
        r
    }

    /// The state after a heartbeat, and the work it asks for.
    fn heartbeat(&mut self) -> (r: Vec<Action>)
        ensures
            final(self)@ == beat(old(self)@).0,
            actions(r@) == beat(old(self)@).1,
    {
        let mut r: Vec<Action> = Vec::new();
        match self.connection {
            Connection::Disconnected => {
                self.connection = Connection::Connecting;
                r.push(Action::Connect);
            },
            Connection::Connected => {
                r.push(Action::ListModels);
            },
            Connection::Connecting => {},
        }
        let ghost head = r@;
        let n = settled_count(&self.entries, self.last_saved, self.tasks.len() == 0);
        if n > 0 {
            r.push(Action::Save { from: self.last_saved, count: n });
        }
        assert(actions(r@) =~= beat(old(self)@).1);
        r
    }

    /// Takes the conversation through `event`: the state it leaves, and
    /// the work it asks of the app, in order.
    pub fn step(&mut self, event: Event) -> (r: Vec<Action>)
        ensures
            final(self)@ == next(old(self)@, event).0,
            actions(r@) == next(old(self)@, event).1,
    {
        let ghost e = event;
        let none: Vec<Action> = Vec::new();
        assert(actions(none@) =~= Seq::<ActionView>::empty());
        match event {
            Event::Connected(Some(ms)) => {
                self.connection = Connection::Connected;
                self.list(ms);
                none
            },
            Event::ModelsListed(Some(ms)) => {
                self.list(ms);
                none
            },
            Event::Connected(None) | Event::ModelsListed(None) | Event::ReplyReceived(false)
            | Event::CompactionReceived(false) => {
                self.connection = Connection::Disconnected;
                self.abort();
                none
            },
            Event::Heartbeat => self.heartbeat(),
            Event::SessionLoaded(Some(es)) => {
                self.last_saved = es.len();
                self.entries = es;
                let r = vec![Action::Focus];
                assert(actions(r@) =~= seq![ActionView::Focus]);
                r
            },
            Event::SessionLoaded(None) => none,
            Event::SessionSaved(Some(n)) => {
                self.last_saved = n;
                none
            },
            Event::SessionSaved(None) => none,
            Event::Send => {
                let idle = self.tasks.len() == 0;
                self.entries.push(Entry::User);
                if idle {
                    let r = vec![Action::Work, Action::SnapToEnd];
                    assert(actions(r@) =~= seq![ActionView::Work, ActionView::SnapToEnd]);
                    r
                } else {
                    self.abort();
                    let r = vec![Action::WorkAfterPause, Action::SnapToEnd];
                    assert(actions(r@) =~= seq![ActionView::WorkAfterPause, ActionView::SnapToEnd]);
                    r
                }
            },
            Event::ReplyProgressed { tokens, content, reasoning, calls } => self.progress(
                tokens,
                content,
                reasoning,
                calls,
            ),
            Event::ReplyReceived(true) => self.reply_ended(),
            Event::CompactionProgressed { tokens } => {
                self.compaction_reported(tokens);
                none
            },
            Event::CompactionReceived(true) => self.compaction_ended(),
            Event::ToolFinished(id, result) => self.tool_ended(id, result),
            Event::Abort => {
                self.abort();
                none
            },
            Event::Reviewed => {
                self.entries.push(Entry::Review);
                self.mode = Mode::Chat;
                self.abort();
                let r = vec![Action::SnapToEnd, Action::Work];
                assert(actions(r@) =~= seq![ActionView::SnapToEnd, ActionView::Work]);
                r
            },
            Event::ToggleReview => match self.mode {
                Mode::Review => {
                    self.mode = Mode::Chat;
                    let r = vec![Action::SnapToEnd];
                    assert(actions(r@) =~= seq![ActionView::SnapToEnd]);
                    r
                },
                Mode::Chat => {
                    self.mode = Mode::Review;
                    let r = vec![Action::RepositoryDiff];
                    assert(actions(r@) =~= seq![ActionView::RepositoryDiff]);
                    r
                },
            },
        }
    }
}

impl Chat {
    /// The size of the context of the model `id`.
    fn context_size(&self, id: &str) -> (r: Option<u64>)
        ensures
            r == model_context(self.models@, id@),
    {
        let mut k = self.models.len();
        assert(self.models@.take(k as int) =~= self.models@);
        while k > 0
            invariant
                k <= self.models.len(),
                model_context(self.models@, id@) == model_context(self.models@.take(k as int), id@),
            decreases k,
        {
            proof {
                let t = self.models@.take(k as int);
                assert(t.drop_last() =~= self.models@.take(k - 1));
                assert(t.last() == self.models@[k - 1]);
            }
            if same_chars(&chars_of(self.models[k - 1].id.as_str()), &chars_of(id)) {
                return self.models[k - 1].context_size;
            }
            k = k - 1;
        }
        None
    }

    /// Starts work where there is none under way and a model can be
    /// asked: a compaction of the context where one is due, with `fifth`
    /// a fifth of the context's tokens, rounded; a reply otherwise.
    pub fn work(&mut self, fifth: u64) -> (r: Option<Start>)
        requires
            old(self).tasks.len() == 0 && old(self).connection == Connection::Connected
                && old(self).model is Some ==> start_of(old(self).entries@) <= old(
                self,
            ).entries.len(),
        ensures
            final(self)@ == worked(old(self)@, fifth).0,
            r == worked(old(self)@, fifth).1,
    {
        if self.tasks.len() > 0 || self.connection != Connection::Connected {
            return None;
        }
        let size = match &self.model {
            Some(id) => self.context_size(id.as_str()),
            None => return None,
        };
        let total = latest_tokens(&self.entries);
        let cut = match (size, total) {
            (Some(size), Some(total)) => compaction_cut(&self.entries, size, total, fifth),
            _ => None,
        };
        match cut {
            Some(to) => {
                self.entries.push(Entry::Compaction { to, finished: false, tokens: None });
                self.tasks.push(Work::Compaction);
                assert(works(self.tasks@) =~= seq![WorkView::Compaction]);
                Some(Start::Compaction { to })
            },
            None => {
                self.entries.push(
                    Entry::Assistant {
                        tokens: None,
                        last_call: None,
                        content: Chunks::Empty,
                        reasoning: Chunks::Empty,
                    },
                );
                self.tasks.push(Work::Completion);
                assert(works(self.tasks@) =~= seq![WorkView::Completion]);
                Some(Start::Reply)
            },
        }
    }

    /// Begins the run of the call `id`, its arguments `valid` where the
    /// tool parses them; whether it runs.
    pub fn run(&mut self, id: String, valid: bool) -> (r: bool)
        ensures
            final(self)@ == ran(old(self)@, id, valid),
            r == valid,
    {
        if valid {
            begin(&mut self.tasks, Work::Tool(id.clone()));
        }
        self.entries.push(
            Entry::Tool {
                id,
                status: if valid {
                    RunStatus::Running
                } else {
                    RunStatus::Ended(Status::Invalid)
                },
            },
        );
        valid
    }
}

/// The id of the call `e` runs, where `e` is a tool run still running.
pub open spec fn running_id(e: Entry) -> Option<Seq<char>> {
    match e {
        Entry::Tool { id, status: RunStatus::Running } => Some(id@),
        _ => None,
    }
}

/// Whether no item of `es` is a tool run still running.
pub open spec fn none_running(es: Seq<Entry>) -> bool {
    forall|k: int| 0 <= k < es.len() ==> #[trigger] running_id(es[k]) is None
}

/// Whether every tool run shown running has its work under way, and is
/// the last run of its call, the one the end of the call updates.
pub open spec fn runs_under_way(c: ChatView) -> bool {
    forall|k: int|
        0 <= k < c.entries.len() && #[trigger] running_id(c.entries[k]) is Some ==> {
            let id = running_id(c.entries[k])->0;
            &&& c.tasks.contains(WorkView::Tool(id))
            &&& last_run_below(c.entries, id, c.entries.len() as int) == Some(k)
        }
}

/// The id of the call `e` runs, where `e` is a tool run.
pub open spec fn run_id(e: Entry) -> Option<Seq<char>> {
    match e {
        Entry::Tool { id, .. } => Some(id@),
        _ => None,
    }
}

proof fn lemma_push_contains(s: Seq<WorkView>, a: WorkView, x: WorkView)
    ensures
        s.push(a).contains(x) <==> (s.contains(x) || a == x),
{
    if s.push(a).contains(x) {
        let k = choose|k: int| 0 <= k < s.push(a).len() && s.push(a)[k] == x;
        if k < s.len() {
            assert(s[k] == x);
        }
    }
    if s.contains(x) {
        let k = choose|k: int| 0 <= k < s.len() && s[k] == x;
        assert(s.push(a)[k] == x);
    }
    if a == x {
        assert(s.push(a)[s.len() as int] == x);
    }
}

proof fn lemma_without_task(ts: Seq<WorkView>, w: WorkView, x: WorkView)
    ensures
        without_task(ts, w).contains(x) <==> (ts.contains(x) && x != w),
    decreases ts.len(),
{
    if ts.len() > 0 {
        let init = ts.drop_last();
        lemma_without_task(init, w, x);
        assert(ts =~= init.push(ts.last()));
        lemma_push_contains(init, ts.last(), x);
        if ts.last() != w {
            lemma_push_contains(without_task(init, w), ts.last(), x);
        }
    }
}

proof fn lemma_with_task(ts: Seq<WorkView>, w: WorkView, x: WorkView)
    ensures
        with_task(ts, w).contains(x) <==> (ts.contains(x) || x == w),
{
    lemma_push_contains(ts, w, x);
}

/// The last run of a call is found among the same items wherever the
/// items differ only where neither is a run of a call.
proof fn lemma_last_run_same_ids(a: Seq<Entry>, b: Seq<Entry>, id: Seq<char>, n: int)
    requires
        n <= a.len(),
        a.len() == b.len(),
        forall|k: int| 0 <= k < a.len() ==> run_id(#[trigger] a[k]) == run_id(b[k]),
    ensures
        last_run_below(a, id, n) == last_run_below(b, id, n),
    decreases n,
{
    if n > 0 {
        assert(run_id(a[n - 1]) == run_id(b[n - 1]));
        lemma_last_run_same_ids(a, b, id, n - 1);
    }
}

/// A run of another call added last leaves the last run of `id` where it
/// was.
proof fn lemma_last_run_push(es: Seq<Entry>, e: Entry, id: Seq<char>)
    requires
        run_id(e) != Some(id),
    ensures
        last_run_below(es.push(e), id, es.len() + 1 as int) == last_run_below(es, id, es.len() as int),
{
    let t = es.push(e);
    assert(!(t[es.len() as int] matches Entry::Tool { id: run, .. } && run@ == id));
    lemma_last_run_same_ids(t.take(es.len() as int), es, id, es.len() as int);
    lemma_last_run_prefix(t, es.len() as int, id, es.len() as int);
}

/// The last run of `id` below `n` reads only the items below `n`.
proof fn lemma_last_run_prefix(es: Seq<Entry>, m: int, id: Seq<char>, n: int)
    requires
        n <= m <= es.len(),
    ensures
        last_run_below(es, id, n) == last_run_below(es.take(m), id, n),
    decreases n,
{
    if n > 0 {
        assert(es.take(m)[n - 1] == es[n - 1]);
        lemma_last_run_prefix(es, m, id, n - 1);
    }
}

/// After an abort, no item is still running.
proof fn lemma_aborted_none_running(c: ChatView)
    ensures
        none_running(aborted(c).entries),
{
    let es = stopped(c.entries);
    assert forall|k: int| 0 <= k < es.len() implies #[trigger] running_id(es[k]) is None by {
        assert(es[k] == match c.entries[k] {
            Entry::Tool { id, status: RunStatus::Running } => Entry::Tool {
                    id,
                    status: RunStatus::Ended(Status::Aborted),
                },
            _ => c.entries[k],
        });
    }
    crate::conversation::lemma_unfinished_below(es, es.len() as int);
    match unfinished_below(es, es.len() as int) {
        Some(i) => {
            let r = es.remove(i);
            assert forall|k: int| 0 <= k < r.len() implies #[trigger] running_id(r[k]) is None by {
                if k < i {
                    assert(r[k] == es[k]);
                } else {
                    assert(r[k] == es[k + 1]);
                }
            }
        },
        None => {},
    }
}

/// An abort leaves nothing running: no work under way, and no tool run
/// shown running.
pub proof fn law_abort_stops_everything(c: ChatView)
    ensures
        aborted(c).tasks.len() == 0,
        forall|k: int|
            0 <= k < aborted(c).entries.len() ==> !(#[trigger] aborted(c).entries[k] matches Entry::Tool {
                status: RunStatus::Running,
                ..
            }),
{
    lemma_aborted_none_running(c);
    assert forall|k: int| 0 <= k < aborted(c).entries.len() implies !(
    #[trigger] aborted(c).entries[k] matches Entry::Tool { status: RunStatus::Running, .. }) by {
        assert(running_id(aborted(c).entries[k]) is None);
    }
}

/// Replacing an item that runs no call with another that runs none keeps
/// every run under way.
proof fn lemma_update_no_run(c: ChatView, i: int, e: Entry, tasks: Seq<WorkView>)
    requires
        runs_under_way(c),
        0 <= i < c.entries.len(),
        run_id(c.entries[i]) is None,
        run_id(e) is None,
        forall|x: Seq<char>| c.tasks.contains(WorkView::Tool(x)) ==> tasks.contains(WorkView::Tool(x)),
    ensures
        runs_under_way(ChatView { entries: c.entries.update(i, e), tasks, ..c }),
{
    let es = c.entries.update(i, e);
    assert forall|k: int| 0 <= k < es.len() implies run_id(#[trigger] es[k]) == run_id(c.entries[k]) by {}
    let d = ChatView { entries: es, tasks, ..c };
    assert forall|k: int| 0 <= k < d.entries.len() && #[trigger] running_id(d.entries[k]) is Some implies {
        let id = running_id(d.entries[k])->0;
        &&& d.tasks.contains(WorkView::Tool(id))
        &&& last_run_below(d.entries, id, d.entries.len() as int) == Some(k)
    } by {
        assert(k != i);
        assert(es[k] == c.entries[k]);
        let id = running_id(c.entries[k])->0;
        lemma_last_run_same_ids(es, c.entries, id, es.len() as int);
    }
}

/// Every step keeps every tool run shown running under way, where the
/// session log, when read, shows no run running.
pub proof fn law_steps_keep_runs_under_way(c: ChatView, e: Event)
    requires
        runs_under_way(c),
        e matches Event::SessionLoaded(Some(es)) ==> none_running(es@),
    ensures
        runs_under_way(next(c, e).0),
{
    let d = next(c, e).0;
    match e {
        Event::Connected(Some(ms)) => {},
        Event::ModelsListed(Some(ms)) => {},
        Event::Connected(None) | Event::ModelsListed(None) | Event::ReplyReceived(false)
        | Event::CompactionReceived(false) | Event::Abort => {
            lemma_aborted_none_running(ChatView { connection: Connection::Disconnected, ..c });
            lemma_aborted_none_running(c);
        },
        Event::Reviewed => {
            lemma_aborted_none_running(
                ChatView { entries: c.entries.push(Entry::Review), mode: Mode::Chat, ..c },
            );
        },
        Event::Heartbeat => {},
        Event::SessionLoaded(Some(es)) => {},
        Event::SessionLoaded(None) => {},
        Event::SessionSaved(Some(n)) => {},
        Event::SessionSaved(None) => {},
        Event::Send => {
            let pushed = ChatView { entries: c.entries.push(Entry::User), ..c };
            if c.tasks.len() == 0 {
                assert forall|k: int| 0 <= k < pushed.entries.len() implies #[trigger] running_id(
                    pushed.entries[k],
                ) is None by {
                    if k < c.entries.len() {
                        assert(pushed.entries[k] == c.entries[k]);
                        if running_id(c.entries[k]) is Some {
                            assert(c.tasks.contains(WorkView::Tool(running_id(c.entries[k])->0)));
                        }
                    }
                }
            } else {
                lemma_aborted_none_running(pushed);
            }
        },
        Event::ReplyProgressed { tokens, content, reasoning, calls } => {
            crate::conversation::lemma_reply_of(c.entries);
            match reply_of(c.entries) {
                Some(i) => match c.entries[i] {
                    Entry::Assistant { last_call, content: text, reasoning: thought, .. } => {
                        let (l, runs) = changed_calls(last_call, calls@);
                        lemma_update_no_run(
                            c,
                            i,
                            Entry::Assistant {
                                tokens,
                                last_call: l,
                                content: extended(text, content),
                                reasoning: extended(thought, reasoning),
                            },
                            c.tasks,
                        );
                    },
                    _ => {},
                },
                None => {},
            }
        },
        Event::ReplyReceived(true) => {
            let t = without_task(c.tasks, WorkView::Completion);
            assert forall|x: Seq<char>| c.tasks.contains(WorkView::Tool(x)) implies t.contains(
                WorkView::Tool(x),
            ) by {
                lemma_without_task(c.tasks, WorkView::Completion, WorkView::Tool(x));
            }
            assert(d.entries == c.entries && d.tasks == t);
            assert forall|k: int| 0 <= k < d.entries.len() && #[trigger] running_id(d.entries[k]) is Some implies {
                let id = running_id(d.entries[k])->0;
                &&& d.tasks.contains(WorkView::Tool(id))
                &&& last_run_below(d.entries, id, d.entries.len() as int) == Some(k)
            } by {}
        },
        Event::CompactionProgressed { tokens } => {
            if c.entries.len() > 0 {
                match c.entries.last() {
                    Entry::Compaction { to, finished, .. } => {
                        lemma_update_no_run(
                            c,
                            c.entries.len() - 1,
                            Entry::Compaction { to, finished, tokens },
                            c.tasks,
                        );
                    },
                    _ => {},
                }
            }
        },
        Event::CompactionReceived(true) => {
            let t = without_task(c.tasks, WorkView::Compaction);
            assert forall|x: Seq<char>| c.tasks.contains(WorkView::Tool(x)) implies t.contains(
                WorkView::Tool(x),
            ) by {
                lemma_without_task(c.tasks, WorkView::Compaction, WorkView::Tool(x));
            }
            if c.entries.len() > 0 {
                match c.entries.last() {
                    Entry::Compaction { to, .. } => {
                        lemma_update_no_run(
                            c,
                            c.entries.len() - 1,
                            Entry::Compaction { to, finished: true, tokens: Some(0) },
                            t,
                        );
                    },
                    _ => {
                        let d2 = ChatView { tasks: t, ..c };
                        assert forall|k: int| 0 <= k < d2.entries.len() && #[trigger] running_id(d2.entries[k]) is Some implies {
                            let id = running_id(d2.entries[k])->0;
                            &&& d2.tasks.contains(WorkView::Tool(id))
                            &&& last_run_below(d2.entries, id, d2.entries.len() as int) == Some(k)
                        } by {}
                    },
                }
            } else {
                let d2 = ChatView { tasks: t, ..c };
                assert forall|k: int| 0 <= k < d2.entries.len() && #[trigger] running_id(d2.entries[k]) is Some implies {
                    let id = running_id(d2.entries[k])->0;
                    &&& d2.tasks.contains(WorkView::Tool(id))
                    &&& last_run_below(d2.entries, id, d2.entries.len() as int) == Some(k)
                } by {}
            }
        },
        Event::ToolFinished(id, result) => {
            lemma_tool_finished_keeps(c, id@, result);
        },
        Event::ToggleReview => {},
    }
}

proof fn lemma_tool_finished_keeps(c: ChatView, id: Seq<char>, result: Result<Output, String>)
    requires
        runs_under_way(c),
    ensures
        runs_under_way(tool_finished(c, id, result).0),
{
    crate::conversation::lemma_last_run_below(c.entries, id, c.entries.len() as int);
    match last_run_below(c.entries, id, c.entries.len() as int) {
        None => {},
        Some(k) => {
            let t = without_task(c.tasks, WorkView::Tool(id));
            let es = match c.entries[k] {
                Entry::Tool { id: run, status: RunStatus::Running } => c.entries.update(
                    k,
                    Entry::Tool { id: run, status: ended_status(result) },
                ),
                _ => c.entries,
            };
            let d = ChatView { entries: es, tasks: t, ..c };
            assert(tool_finished(c, id, result).0 == d);
            lemma_last_run_found(c.entries, id, c.entries.len() as int);
            assert forall|j: int| 0 <= j < es.len() implies run_id(#[trigger] es[j]) == run_id(
                c.entries[j],
            ) by {}
            assert forall|j: int| 0 <= j < d.entries.len() && #[trigger] running_id(d.entries[j]) is Some implies {
                let x = running_id(d.entries[j])->0;
                &&& d.tasks.contains(WorkView::Tool(x))
                &&& last_run_below(d.entries, x, d.entries.len() as int) == Some(j)
            } by {
                assert(d.entries[j] == c.entries[j]);
                let x = running_id(c.entries[j])->0;
                assert(last_run_below(c.entries, x, c.entries.len() as int) == Some(j));
                if x == id {
                    assert(j == k);
                }
                lemma_without_task(c.tasks, WorkView::Tool(id), WorkView::Tool(x));
                lemma_last_run_same_ids(es, c.entries, x, es.len() as int);
            }
        },
    }
}

proof fn lemma_last_run_found(es: Seq<Entry>, id: Seq<char>, n: int)
    requires
        n <= es.len(),
    ensures
        last_run_below(es, id, n) matches Some(k) ==> run_id(es[k]) == Some(id),
    decreases n,
{
    if n > 0 {
        lemma_last_run_found(es, id, n - 1);
    }
}

/// Starting work keeps every tool run shown running under way: work
/// starts only where none is under way, and nothing is then running.
pub proof fn law_work_keeps_runs_under_way(c: ChatView, fifth: u64)
    requires
        runs_under_way(c),
    ensures
        runs_under_way(worked(c, fifth).0),
{
    if c.tasks.len() == 0 {
        let es = worked(c, fifth).0.entries;
        assert forall|k: int| 0 <= k < es.len() implies #[trigger] running_id(es[k]) is None by {
            if k < c.entries.len() {
                assert(es[k] == c.entries[k]);
                if running_id(c.entries[k]) is Some {
                    assert(c.tasks.contains(WorkView::Tool(running_id(c.entries[k])->0)));
                }
            }
        }
    }
}

/// Each chunk of a reply extends its text and its reasoning: after the
/// reply being streamed reports the chunks `content` and `reasoning`, its
/// text is what it was with `content` after it, and its reasoning what it
/// was with `reasoning` after it; no other item changes.
pub proof fn law_a_chunk_extends_the_reply(
    c: ChatView,
    tokens: Option<u64>,
    content: String,
    reasoning: String,
    calls: Vec<CallChange>,
)
    requires
        reply_of(c.entries) is Some,
    ensures
        ({
            let i = reply_of(c.entries)->0;
            let d = next(c, Event::ReplyProgressed { tokens, content, reasoning, calls }).0;
            &&& d.entries.len() == c.entries.len()
            &&& forall|k: int| 0 <= k < c.entries.len() && k != i ==> d.entries[k] == c.entries[k]
            &&& match (c.entries[i], d.entries[i]) {
                (
                    Entry::Assistant { content: text, reasoning: thought, .. },
                    Entry::Assistant { content: text2, reasoning: thought2, .. },
                ) => chunks_text(text2) == chunks_text(text) + content@ && chunks_text(thought2)
                    == chunks_text(thought) + reasoning@,
                _ => false,
            }
        }),
{
    crate::conversation::lemma_reply_of(c.entries);
    let i = reply_of(c.entries)->0;
    match c.entries[i] {
        Entry::Assistant { content: text, reasoning: thought, .. } => {
            lemma_extended_text(text, content);
            lemma_extended_text(thought, reasoning);
        },
        _ => {},
    }
}

proof fn lemma_extended_text(c: Chunks, d: String)
    ensures
        chunks_text(extended(c, d)) == chunks_text(c) + d@,
{
    if d@.len() == 0 {
        assert(chunks_text(c) + d@ =~= chunks_text(c));
    }
}

/// Beginning the run of a call none of whose runs is running keeps every
/// tool run shown running under way.
pub proof fn law_run_keeps_runs_under_way(c: ChatView, id: String, valid: bool)
    requires
        runs_under_way(c),
        forall|k: int| 0 <= k < c.entries.len() ==> #[trigger] running_id(c.entries[k]) != Some(id@),
    ensures
        runs_under_way(ran(c, id, valid)),
{
    let d = ran(c, id, valid);
    let e = Entry::Tool { id, status: started_status(valid) };
    assert forall|k: int| 0 <= k < d.entries.len() && #[trigger] running_id(d.entries[k]) is Some implies {
        let x = running_id(d.entries[k])->0;
        &&& d.tasks.contains(WorkView::Tool(x))
        &&& last_run_below(d.entries, x, d.entries.len() as int) == Some(k)
    } by {
        let x = running_id(d.entries[k])->0;
        lemma_with_task(c.tasks, WorkView::Tool(id@), WorkView::Tool(x));
        if k == c.entries.len() {
            assert(d.tasks.contains(WorkView::Tool(id@)));
        } else {
            assert(d.entries[k] == c.entries[k]);
            assert(x != id@);
            lemma_last_run_push(c.entries, e, x);
            if valid {
                assert(c.tasks.contains(WorkView::Tool(x)));
                assert(d.tasks.contains(WorkView::Tool(x)));
            }
        }
    }
}

/// A key the input box reads.
#[derive(Debug, Clone, Copy, PartialEq, Eq, Structural)]
pub enum Key {
    Escape,
    Enter,
    Other,
}

/// What a key press in the input box does.
#[derive(Debug, Clone, Copy, PartialEq, Eq, Structural)]
pub enum KeyAction {
    /// Stop the work under way.
    Abort,
    /// Send the message.
    Send,
    /// What the text editor does with the key itself.
    Edit,
    /// Nothing: the box does not have the focus.
    Ignore,
}

/// What pressing `key` does in the input box: Escape stops the work
/// under way, focused or not; in a focused box, Enter without Shift sends
/// the message and every other key edits the text.
pub fn key_action(key: Key, focused: bool, shift: bool) -> (r: KeyAction)
    ensures
        key == Key::Escape ==> r == KeyAction::Abort,
        key != Key::Escape && !focused ==> r == KeyAction::Ignore,
        key != Key::Escape && focused && key == Key::Enter && !shift ==> r == KeyAction::Send,
        key != Key::Escape && focused && !(key == Key::Enter && !shift) ==> r == KeyAction::Edit,
{
    match key {
        Key::Escape => KeyAction::Abort,
        _ if !focused => KeyAction::Ignore,
        Key::Enter if !shift => KeyAction::Send,
        _ => KeyAction::Edit,
    }
}

/// The titles an empty conversation shows, in turn.
pub open spec fn titles() -> Seq<Seq<char>> {
    seq!["Ready when you are."@, "What are we building?"@, "Just say the word."@]
}

/// The title an empty conversation shows after `heartbeats` heartbeats:
/// each title stays for six of them, and they come round in turn.
pub fn empty_title(heartbeats: usize) -> (r: &'static str)
    ensures
        r@ == titles()[((heartbeats / 6) % 3) as int],
{
    let turn = (heartbeats / 6) % 3;
    if turn == 0 {
        "Ready when you are."
    } else if turn == 1 {
        "What are we building?"
    } else {
        "Just say the word."
    }
}

} // verus!
