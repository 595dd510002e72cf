//! The session: the conversation with the model, item by item, kept as
//! a log of frames, each an event at a time.

use vstd::prelude::*;

use crate::output::Output;

verus! {

/// The version of the program, as its package names it.
pub const PACKAGE_VERSION: &'static str = "0.1.0";

/// A span of time: whole seconds and the nanoseconds beyond them.
#[derive(Debug, Clone, Copy, PartialEq, Eq, Structural)]
pub struct Duration {
    pub secs: u64,
    pub nanos: u32,
}

/// A point in time, as the span since the Unix epoch.
#[derive(Debug, Clone, Copy, PartialEq, Eq, Structural)]
pub struct Time {
    pub since_epoch: Duration,
}

/// The version of the program that created a session.
#[derive(Debug, Clone, PartialEq, Eq, PartialOrd, Ord)]
pub struct Version(String);

impl View for Version {
    type V = Seq<char>;

    closed spec fn view(&self) -> Seq<char> {
        self.0@
    }
}

impl Version {
    /// The version of this program.
    pub fn current() -> (v: Version)
        ensures
            v@ == PACKAGE_VERSION@,
    {
        Version(PACKAGE_VERSION.to_owned())
    }

    /// The version named `name`.
    pub fn new(name: String) -> (v: Version)
        ensures
            v@ == name@,
    {
        Version(name)
    }

    /// The version's name.
    pub fn as_str(&self) -> (s: &str)
        ensures
            s@ == self@,
    {
        self.0.as_str()
    }
}

/// How far the model got with a prompt: its tokens, those processed,
/// and those served from the cache.
#[derive(Debug, Clone, Copy, PartialEq, Eq, Default, Structural)]
pub struct Progress {
    pub total: u64,
    pub processed: u64,
    pub cached: u64,
}

/// A call of a tool the model asked for.
#[derive(Debug, Clone, PartialEq, Eq)]
pub struct Call {
    pub id: String,
    pub name: String,
    pub arguments: String,
}

/// A phase of generation: its tokens, how long it took, and how long a
/// token took.
#[derive(Debug, Clone, Copy, PartialEq, Eq, Structural)]
pub struct Generation {
    pub amount: u64,
    pub total: Duration,
    pub token: Duration,
}

/// How long a reply took, phase by phase.
#[derive(Debug, Clone, Copy, PartialEq, Eq, Structural)]
pub struct Timings {
    pub cached: u64,
    pub prompt: Generation,
    pub predicted: Generation,
    pub reasoning: Duration,
}

/// A reply of the model.
#[derive(Debug, Clone)]
pub struct Reply {
    pub prompt: Progress,
    pub reasoning: String,
    pub content: String,
    pub tool_calls: Vec<Call>,
    pub timings: Option<Timings>,
}

/// How a tool call ended.
#[derive(Debug, Clone)]
pub enum Status {
    Success { output: Output },
    Error { output: String },
    /// The call could not be understood.
    Invalid,
    /// The call was cut short before it answered.
    Aborted,
}

/// A tool call and how it ended.
#[derive(Debug, Clone)]
pub struct ToolRun {
    pub call: Call,
    pub status: Status,
}

/// The summary that replaced the items before `to`.
#[derive(Debug, Clone)]
pub struct Compaction {
    pub reply: Reply,
    pub tokens: u64,
    pub reasoning_tokens: u64,
    pub to: usize,
}

/// One item of the conversation.
#[derive(Debug, Clone)]
pub enum Item {
    User(String),
    Assistant(Reply),
    Tool(ToolRun),
    Compaction(Compaction),
}

/// What happened to a session.
#[derive(Debug, Clone)]
pub enum Event {
    Created(Version),
    ItemAdded(Item),
}

/// An event, and when it happened.
#[derive(Debug, Clone)]
pub struct Frame {
    pub event: Event,
    pub at: Time,
}

/// A conversation: the version that created it, when it started, and its
/// items.
#[derive(Debug, Clone)]
pub struct Session {
    pub version: Version,
    pub started_at: Time,
    pub items: Vec<Item>,
}

/// The index of the last reply of the model among `items`.
pub open spec fn last_assistant(items: Seq<Item>) -> Option<int>
    decreases items.len(),
{
    if items.len() == 0 {
        None
    } else if items.last() is Assistant {
        Some(items.len() - 1)
    } else {
        last_assistant(items.drop_last())
    }
}

/// Whether `item` is the answer to the call `id`.
pub open spec fn answers(item: Item, id: Seq<char>) -> bool {
    match item {
        Item::Tool(run) => run.call.id@ == id,
        _ => false,
    }
}

/// Whether an item of `items` from `from` on answers the call `id`.
pub open spec fn answered_after(items: Seq<Item>, from: int, id: Seq<char>) -> bool {
    exists|j: int| from <= j < items.len() && answers(#[trigger] items[j], id)
}

/// The calls among `calls` that no item of `items` from `from` on
/// answers, in order.
pub open spec fn unanswered(calls: Seq<Call>, items: Seq<Item>, from: int) -> Seq<Call>
    decreases calls.len(),
{
    if calls.len() == 0 {
        seq![]
    } else if answered_after(items, from, calls.last().id@) {
        unanswered(calls.drop_last(), items, from)
    } else {
        unanswered(calls.drop_last(), items, from).push(calls.last())
    }
}

/// The answers that cut each of `calls` short.
pub open spec fn aborted_runs(calls: Seq<Call>) -> Seq<Item> {
    calls.map_values(|c: Call| Item::Tool(ToolRun { call: c, status: Status::Aborted }))
}

/// `items` with every call of the last reply that went unanswered
/// answered as aborted, after everything else.
pub open spec fn interrupted_answered(items: Seq<Item>) -> Seq<Item> {
    match last_assistant(items) {
        Some(i) => match items[i] {
            Item::Assistant(reply) => items + aborted_runs(
                unanswered(reply.tool_calls@, items, i + 1),
            ),
            _ => items,
        },
        None => items,
    }
}

/// A copy of `call`.
pub fn copy_call(call: &Call) -> (r: Call)
    ensures
        r == *call,
{
    Call { id: call.id.clone(), name: call.name.clone(), arguments: call.arguments.clone() }
}

proof fn lemma_last_assistant(items: Seq<Item>)
    ensures
        last_assistant(items) matches Some(i) ==> 0 <= i < items.len() && items[i] is Assistant
            && forall|k: int| i < k < items.len() ==> !(items[k] is Assistant),
        last_assistant(items) is None ==> forall|k: int|
            0 <= k < items.len() ==> !(#[trigger] items[k] is Assistant),
    decreases items.len(),
{
    if items.len() > 0 && !(items.last() is Assistant) {
        lemma_last_assistant(items.drop_last());
        assert forall|k: int| 0 <= k < items.len() - 1 implies items[k] == items.drop_last()[k] by {}
    }
}

impl Session {
    /// Whether an item of the session from `from` on answers `call`.
    fn is_answered(&self, from: usize, call: &Call) -> (b: bool)
        ensures
            b == answered_after(self.items@, from as int, call.id@),
    {
        let mut j = from;
        while j < self.items.len()
            invariant
                from <= j,
                forall|k: int| from <= k < j ==> !answers(#[trigger] self.items@[k], call.id@),
            decreases self.items.len() - j,
        {
            match &self.items[j] {
                Item::Tool(run) => {
                    if run.call.id == call.id {
                        assert(answers(self.items@[j as int], call.id@));
                        assert(from <= j < self.items@.len());
                        return true;
                    }
                },
                _ => {},
            }
            j = j + 1;
        }
        false
    }

    /// Answers, as aborted, each call of the last reply that went
    /// unanswered: a session cut short while tools ran would otherwise
    /// hold calls the model waits on forever.
    pub fn abort_interrupted_tools(&mut self)
        ensures
            final(self).items@ == interrupted_answered(old(self).items@),
            final(self).version == old(self).version,
            final(self).started_at == old(self).started_at,
    {
        let mut k = self.items.len();
        assert(self.items@.take(k as int) =~= self.items@);
        while k > 0 && !matches!(self.items[k - 1], Item::Assistant(_))
            invariant
                k <= self.items.len(),
                last_assistant(self.items@) == last_assistant(self.items@.take(k as int)),
            decreases k,
        {
            proof {
                let t = self.items@.take(k as int);
                assert(t.drop_last() =~= self.items@.take(k - 1));
            }
            k = k - 1;
        }
        proof {
            if k == 0 {
                assert(self.items@.take(0) =~= seq![]);
            } else {
                assert(self.items@.take(k as int).last() == self.items@[k - 1]);
            }
        }
        if k == 0 {
            return;
        }
        let i = k - 1;
        let mut missing: Vec<Call> = Vec::new();
        match &self.items[i] {
            Item::Assistant(reply) => {
                let mut m: usize = 0;
                while m < reply.tool_calls.len()
                    invariant
                        m <= reply.tool_calls.len(),
                        self.items@[i as int] == Item::Assistant(*reply),
                        i < self.items.len(),
                        missing@ == unanswered(
                            reply.tool_calls@.take(m as int),
                            self.items@,
                            i + 1,
                        ),
                    decreases reply.tool_calls.len() - m,
                {
                    let call = &reply.tool_calls[m];
                    proof {
                        let t = reply.tool_calls@.take(m + 1);
                        assert(t.drop_last() =~= reply.tool_calls@.take(m as int));
                        assert(t.last() == *call);
                    }
                    if !self.is_answered(i + 1, call) {
                        missing.push(copy_call(call));
                    }
                    m = m + 1;
                }
                assert(reply.tool_calls@.take(m as int) =~= reply.tool_calls@);
            },
            _ => {},
        }
        let ghost start = self.items@;
        let mut n: usize = 0;
        while n < missing.len()
            invariant
                n <= missing.len(),
                self.items@ == start + aborted_runs(missing@.take(n as int)),
                self.version == old(self).version,
                self.started_at == old(self).started_at,
            decreases missing.len() - n,
        {
            let call = copy_call(&missing[n]);
            self.items.push(Item::Tool(ToolRun { call, status: Status::Aborted }));
            assert(aborted_runs(missing@.take(n + 1)) =~= aborted_runs(missing@.take(n as int)).push(
                Item::Tool(ToolRun { call: missing@[n as int], status: Status::Aborted }),
            ));
            n = n + 1;
        }
        assert(missing@.take(n as int) =~= missing@);
    }

    /// The session that the frames `frames` log, each in turn: a
    /// `created` frame gives its version and start, and each item added
    /// joins the items; calls a crash left open are then answered as
    /// aborted. Before any `created` frame the session is of version
    /// `version`, started at `now`.
    pub fn replay(version: Version, now: Time, frames: Vec<Frame>) -> (s: Session)
        ensures
            s.items@ == interrupted_answered(logged_items(frames@)),
            s.started_at == started(frames@, now),
    {
        broadcast use vstd::std_specs::vec::axiom_spec_into_iter;

        let mut session = Session { version, started_at: now, items: Vec::new() };
        let ghost all = frames@;
        for frame in it: frames.into_iter()
            invariant
                it.seq() == all,
                session.items@ == logged_items(all.take(it.index() as int)),
                session.started_at == started(all.take(it.index() as int), now),
        {
            proof {
                let i = it.index() as int;
                let t = all.take(i + 1);
                assert(t.drop_last() =~= all.take(i));
                assert(t.last() == frame);
            }
            match frame.event {
                Event::Created(v) => {
                    session.version = v;
                    session.started_at = frame.at;
                },
                Event::ItemAdded(item) => {
                    session.items.push(item);
                },
            }
        }
        assert(all.take(all.len() as int) =~= all);
        session.abort_interrupted_tools();
        session
    }

    /// The frames to append for `events` at `now`: a `created` frame of
    /// this program's version first, where the session does not exist
    /// yet, then each event.
    pub fn frames(exists: bool, events: Vec<Event>, now: Time) -> (r: Vec<Frame>)
        ensures
            appends(r@, exists, events@, now),
    {
        broadcast use vstd::std_specs::vec::axiom_spec_into_iter;

        let mut r: Vec<Frame> = Vec::new();
        if !exists {
            r.push(Frame { event: Event::Created(Version::current()), at: now });
        }
        let offset: usize = if exists {
            0
        } else {
            1
        };
        let ghost all = events@;
        let ghost base = r.len();
        for event in it: events.into_iter()
            invariant
                it.seq() == all,
                r.len() == it.index() + offset,
                base == offset,
                offset == (if exists {
                    0usize
                } else {
                    1usize
                }),
                !exists ==> (r@[0].event matches Event::Created(v) && v@ == PACKAGE_VERSION@),
                forall|j: int| 0 <= j < r.len() ==> (#[trigger] r@[j]).at == now,
                forall|j: int| 0 <= j < it.index() ==> r@[j + offset].event == #[trigger] all[j],
        {
            proof {
                assert(event == all[it.index() as int]);
            }
            r.push(Frame { event, at: now });
        }
        assert(forall|k: int| 0 <= k < all.len() ==> r@[k + offset].event == #[trigger] all[k]);
        r
    }
}

/// The items that the frames `frames` add, in order.
pub open spec fn logged_items(frames: Seq<Frame>) -> Seq<Item>
    decreases frames.len(),
{
    if frames.len() == 0 {
        seq![]
    } else {
        match frames.last().event {
            Event::ItemAdded(item) => logged_items(frames.drop_last()).push(item),
            Event::Created(_) => logged_items(frames.drop_last()),
        }
    }
}

/// When the session the frames `frames` log started: the time of its
/// last `created` frame, or `now` where there is none.
pub open spec fn started(frames: Seq<Frame>, now: Time) -> Time
    decreases frames.len(),
{
    if frames.len() == 0 {
        now
    } else {
        match frames.last().event {
            Event::Created(_) => frames.last().at,
            Event::ItemAdded(_) => started(frames.drop_last(), now),
        }
    }
}

/// Every call of the last reply is answered once interrupted calls are:
/// nothing the model waits on is left open, the items before are kept as
/// they were, and only answers that abort are added.
pub proof fn law_every_call_answered(items: Seq<Item>)
    ensures
        interrupted_answered(items).len() >= items.len(),
        interrupted_answered(items).take(items.len() as int) == items,
        forall|k: int|
            items.len() <= k < interrupted_answered(items).len() ==> (
            #[trigger] interrupted_answered(items)[k] matches Item::Tool(run)
                && run.status is Aborted),
        last_assistant(items) matches Some(i) ==> (items[i] matches Item::Assistant(reply)
            ==> forall|c: int|
            0 <= c < reply.tool_calls.len() ==> answered_after(
                interrupted_answered(items),
                i + 1,
                (#[trigger] reply.tool_calls@[c]).id@,
            )),
{
    let out = interrupted_answered(items);
    assert(out.take(items.len() as int) =~= items) by {
        match last_assistant(items) {
            Some(i) => match items[i] {
                Item::Assistant(reply) => {},
                _ => {},
            },
            None => {},
        }
    }
    lemma_last_assistant(items);
    match last_assistant(items) {
        Some(i) => match items[i] {
            Item::Assistant(reply) => {
                let calls = reply.tool_calls@;
                let missing = unanswered(calls, items, i + 1);
                assert forall|c: int| 0 <= c < calls.len() implies answered_after(
                    out,
                    i + 1,
                    (#[trigger] calls[c]).id@,
                ) by {
                    lemma_unanswered(calls, items, i + 1, c);
                    if answered_after(items, i + 1, calls[c].id@) {
                        let j = choose|j: int|
                            i + 1 <= j < items.len() && answers(#[trigger] items[j], calls[c].id@);
                        assert(out[j] == items[j]);
                    } else {
                        let m = choose|m: int|
                            0 <= m < missing.len() && #[trigger] missing[m] == calls[c];
                        assert(out[items.len() + m] == Item::Tool(
                            ToolRun { call: missing[m], status: Status::Aborted },
                        ));
                        assert(answers(out[items.len() + m], calls[c].id@));
                    }
                }
            },
            _ => {},
        },
        None => {},
    }
}

proof fn lemma_unanswered(calls: Seq<Call>, items: Seq<Item>, from: int, c: int)
    requires
        0 <= c < calls.len(),
    ensures
        !answered_after(items, from, calls[c].id@) ==> exists|m: int|
            0 <= m < unanswered(calls, items, from).len() && #[trigger] unanswered(
                calls,
                items,
                from,
            )[m] == calls[c],
    decreases calls.len(),
{
    let u = unanswered(calls, items, from);
    if c < calls.len() - 1 {
        lemma_unanswered(calls.drop_last(), items, from, c);
        assert(calls.drop_last()[c] == calls[c]);
        if !answered_after(items, from, calls[c].id@) {
            let rest = unanswered(calls.drop_last(), items, from);
            let m = choose|m: int| 0 <= m < rest.len() && #[trigger] rest[m] == calls[c];
            if answered_after(items, from, calls.last().id@) {
                assert(u == rest);
            } else {
                assert(u == rest.push(calls.last()));
                assert(u[m] == rest[m]);
            }
            assert(0 <= m < u.len() && u[m] == calls[c]);
        }
    } else {
        if !answered_after(items, from, calls[c].id@) {
            assert(calls.last() == calls[c]);
            assert(u == unanswered(calls.drop_last(), items, from).push(calls[c]));
            assert(u[u.len() - 1] == calls[c]);
        }
    }
}

/// What the model is told of how a tool call ended: its output, its
/// error, or a notice.
pub open spec fn status_content(status: Status) -> Seq<char> {
    match status {
        Status::Success { output } => crate::output::rendered(output@),
        Status::Error { output } => output@,
        Status::Invalid => "[invalid tool call]"@,
        Status::Aborted => "[execution aborted]"@,
    }
}

impl Status {
    /// What the model is told of how the call ended.
    pub fn content(&self) -> (s: String)
        requires
            self matches Status::Success { output } ==> crate::output::well_formed(output@),
        ensures
            s@ == status_content(*self),
    {
        match self {
            Status::Success { output } => output.to_string(),
            Status::Error { output } => output.clone(),
            Status::Invalid => "[invalid tool call]".to_owned(),
            Status::Aborted => "[execution aborted]".to_owned(),
        }
    }
}

/// Whether `r` are the frames that append `events` at `now` to a log:
/// a `created` frame of this program's version first where the log does
/// not exist yet, then each event, all at `now`.
pub open spec fn appends(r: Seq<Frame>, exists: bool, events: Seq<Event>, now: Time) -> bool {
    let offset: int = if exists {
        0
    } else {
        1
    };
    &&& r.len() == events.len() + offset
    &&& !exists ==> (r[0].event matches Event::Created(v) && v@ == PACKAGE_VERSION@)
    &&& forall|k: int| 0 <= k < r.len() ==> (#[trigger] r[k]).at == now
    &&& forall|k: int| 0 <= k < events.len() ==> r[k + offset].event == #[trigger] events[k]
}

/// The items that `events` add, in order.
pub open spec fn added_items(events: Seq<Event>) -> Seq<Item>
    decreases events.len(),
{
    if events.len() == 0 {
        seq![]
    } else {
        match events.last() {
            Event::ItemAdded(item) => added_items(events.drop_last()).push(item),
            Event::Created(_) => added_items(events.drop_last()),
        }
    }
}

proof fn lemma_logged_items_concat(a: Seq<Frame>, b: Seq<Frame>)
    ensures
        logged_items(a + b) == logged_items(a) + logged_items(b),
    decreases b.len(),
{
    if b.len() == 0 {
        assert(a + b =~= a);
    } else {
        lemma_logged_items_concat(a, b.drop_last());
        assert((a + b).drop_last() =~= a + b.drop_last());
    }
}

proof fn lemma_started_concat(a: Seq<Frame>, b: Seq<Frame>, x: Time)
    ensures
        started(a + b, x) == started(b, started(a, x)),
    decreases b.len(),
{
    if b.len() == 0 {
        assert(a + b =~= a);
    } else {
        lemma_started_concat(a, b.drop_last(), x);
        assert((a + b).drop_last() =~= a + b.drop_last());
    }
}

proof fn lemma_appended_items(r: Seq<Frame>, exists: bool, events: Seq<Event>, now: Time, k: int)
    requires
        appends(r, exists, events, now),
        0 <= k <= events.len(),
    ensures
        logged_items(r.take(k + if exists {
            0int
        } else {
            1int
        })) == added_items(events.take(k)),
    decreases k,
{
    let offset: int = if exists {
        0
    } else {
        1
    };
    if k == 0 {
        assert(r.take(0) =~= seq![]);
        assert(events.take(0) =~= seq![]);
        assert(logged_items(r.take(0)) == Seq::<Item>::empty());
        if !exists {
            assert(r.take(1).drop_last() =~= r.take(0));
            assert(r.take(1).last() == r[0]);
            assert(r[0].event is Created);
            assert(logged_items(r.take(1)) == logged_items(r.take(0)));
        }
    } else {
        lemma_appended_items(r, exists, events, now, k - 1);
        assert(r.take(k + offset).drop_last() =~= r.take(k - 1 + offset));
        assert(r.take(k + offset).last() == r[k - 1 + offset]);
        assert(events.take(k).drop_last() =~= events.take(k - 1));
        assert(events.take(k).last() == events[k - 1]);
        assert(r[(k - 1) + offset].event == events[k - 1]);
    }
}

proof fn lemma_started_at_creation(r: Seq<Frame>, now: Time, x: Time)
    requires
        r.len() > 0,
        r[0].event is Created,
        forall|k: int| 0 <= k < r.len() ==> (#[trigger] r[k]).at == now,
    ensures
        started(r, x) == now,
    decreases r.len(),
{
    if r.len() > 1 && !(r.last().event is Created) {
        let d = r.drop_last();
        assert(d[0] == r[0]);
        assert forall|k: int| 0 <= k < d.len() implies (#[trigger] d[k]).at == now by {
            assert(d[k] == r[k]);
        }
        lemma_started_at_creation(d, now, x);
    }
}

/// A log gives back what was appended to it: its items are those it
/// held, then those of the events appended, in order; and a log that did
/// not exist yet started when it was first appended to.
pub proof fn law_a_log_gives_back_what_was_appended(
    log: Seq<Frame>,
    r: Seq<Frame>,
    exists: bool,
    events: Seq<Event>,
    now: Time,
    before: Time,
)
    requires
        appends(r, exists, events, now),
    ensures
        logged_items(log + r) == logged_items(log) + added_items(events),
        !exists ==> started(log + r, before) == now,
{
    lemma_logged_items_concat(log, r);
    lemma_appended_items(r, exists, events, now, events.len() as int);
    assert(events.take(events.len() as int) =~= events);
    assert(r.take(r.len() as int) =~= r);
    if !exists {
        lemma_started_concat(log, r, before);
        lemma_started_at_creation(r, now, started(log, before));
    }
}

/// A session loads what was appended to it: a log that did not exist,
/// once appended the events `events` at `now`, replays, whatever time it
/// is read at, to a session started at `now` whose items are those of
/// the events, with the calls a crash left open answered; with no reply
/// among them, just those items.
pub proof fn law_a_session_loads_what_it_appends(
    r: Seq<Frame>,
    events: Seq<Event>,
    now: Time,
    later: Time,
)
    requires
        appends(r, false, events, now),
    ensures
        interrupted_answered(logged_items(r)) == interrupted_answered(added_items(events)),
        started(r, later) == now,
        last_assistant(added_items(events)) is None ==> interrupted_answered(logged_items(r))
            == added_items(events),
{
    let empty = Seq::<Frame>::empty();
    law_a_log_gives_back_what_was_appended(empty, r, false, events, now, later);
    assert(empty + r =~= r);
    assert(logged_items(empty) =~= Seq::<Item>::empty());
    assert(logged_items(empty) + added_items(events) =~= added_items(events));
}

} // verus!
