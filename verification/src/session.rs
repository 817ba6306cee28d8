//! Live sessions: a program that asks and tells while someone follows it.
use crate::json::{
    error_reply, no_fields, optional_text, text_or_null, tool_error, Js, Json, ListBuilder,
    ObjectBuilder,
};
use crate::text::{begins_with, decimal, push_decimal, starts_with};
use crate::worker::{
    demands_js, demands_list, effects_js, effects_list, DemandEntry, EffectEntry, WorkerEvent,
    WorkerRunResult,
};
use vstd::prelude::*;
use vstd::string::*;

verus! {

/// How a session stands.
#[derive(Clone, Copy, Debug, PartialEq, Eq, Structural)]
pub enum LiveStatus {
    Running,
    /// The program waits for an answer.
    Waiting,
    Completed,
    Failed,
    Closed,
}

impl LiveStatus {
    /// How the status is written.
    pub open spec fn text(self) -> &'static str {
        match self {
            LiveStatus::Running => "running",
            LiveStatus::Waiting => "waiting",
            LiveStatus::Completed => "completed",
            LiveStatus::Failed => "failed",
            LiveStatus::Closed => "closed",
        }
    }

    /// How the status is written.
    pub fn as_str(self) -> (r: &'static str)
        ensures
            r == self.text(),
    {
        match self {
            LiveStatus::Running => "running",
            LiveStatus::Waiting => "waiting",
            LiveStatus::Completed => "completed",
            LiveStatus::Failed => "failed",
            LiveStatus::Closed => "closed",
        }
    }

    /// The session has ended.
    pub open spec fn over(self) -> bool {
        self is Completed || self is Failed || self is Closed
    }

    /// Whether the session has ended.
    pub fn is_over(self) -> (r: bool)
        ensures
            r == self.over(),
    {
        matches!(self, LiveStatus::Completed | LiveStatus::Failed | LiveStatus::Closed)
    }
}

/// What happened in a session.
#[derive(Debug)]
pub enum LiveEvent {
    Ask { prompt: String, response: Option<String>, used_default: bool },
    Tell { text: String },
}

/// The outcome of a session's program.
#[derive(Debug)]
pub struct LiveRunResult {
    pub result_i64: i64,
    pub exit_code: i32,
    pub ty: String,
    pub effects: Vec<EffectEntry>,
    pub demanded: Vec<DemandEntry>,
}

/// A live session.
#[derive(Debug)]
pub struct LiveState {
    pub name: String,
    pub status: LiveStatus,
    pub events: Vec<LiveEvent>,
    pub pending_response: Option<String>,
    pub result: Option<LiveRunResult>,
    pub error: Option<String>,
}

impl LiveState {
    /// A completed session has a result, and a failed one an error.
    pub open spec fn accounted(self) -> bool {
        &&& self.status is Completed ==> self.result is Some
        &&& self.status is Failed ==> self.error is Some
    }

    /// The session just started.
    pub fn start(name: String) -> (r: LiveState)
        ensures
            r.name == name,
            r.status is Running,
            r.events.len() == 0,
            r.pending_response is None,
            r.result is None,
            r.error is None,
            r.accounted(),
    {
        LiveState {
            name,
            status: LiveStatus::Running,
            events: Vec::new(),
            pending_response: None,
            result: None,
            error: None,
        }
    }

    /// Fail the session, whatever its state.
    pub fn fail(&mut self, message: String)
        ensures
            *final(self) == (LiveState {
                status: LiveStatus::Failed,
                error: Some(message),
                ..*old(self)
            }),
            final(self).accounted(),
    {
        self.status = LiveStatus::Failed;
        self.error = Some(message);
    }

    /// Fail the session unless it has ended.
    pub fn fail_if_running(&mut self, message: String)
        ensures
            *final(self) == (if old(self).status.over() {
                *old(self)
            } else {
                LiveState {
                    status: LiveStatus::Failed,
                    error: Some(message),
                    ..*old(self)
                }
            }),
            old(self).accounted() ==> final(self).accounted(),
    {
        if !self.status.is_over() {
            self.fail(message);
        }
    }

    /// Close the session unless it has ended.
    pub fn close(&mut self)
        ensures
            *final(self) == (if old(self).status.over() {
                *old(self)
            } else {
                LiveState { status: LiveStatus::Closed, ..*old(self) }
            }),
            old(self).accounted() ==> final(self).accounted(),
    {
        if !self.status.is_over() {
            self.status = LiveStatus::Closed;
        }
    }
}

/// A question that was not answered yet.
pub open spec fn open_ask(e: LiveEvent) -> bool {
    e matches LiveEvent::Ask { response, .. } && response is None
}

/// The last of the first `n` events that is an unanswered question.
pub open spec fn last_open_ask(events: Seq<LiveEvent>, n: nat) -> Option<nat>
    decreases n,
{
    if n == 0 || n > events.len() {
        None
    } else if open_ask(events[n - 1]) {
        Some((n - 1) as nat)
    } else {
        last_open_ask(events, (n - 1) as nat)
    }
}

/// A question with its answer.
pub open spec fn answered(e: LiveEvent, response: String) -> LiveEvent {
    match e {
        LiveEvent::Ask { prompt, used_default, .. } => LiveEvent::Ask {
            prompt,
            response: Some(response),
            used_default,
        },
        other => other,
    }
}

/// The events once the last open question was answered.
pub open spec fn events_answered(events: Seq<LiveEvent>, response: String) -> Seq<LiveEvent> {
    match last_open_ask(events, events.len()) {
        None => events,
        Some(i) => events.update(i as int, answered(events[i as int], response)),
    }
}

fn find_open_ask(events: &Vec<LiveEvent>) -> (r: Option<usize>)
    ensures
        match r {
            Some(i) => i < events.len() && open_ask(events[i as int]) && last_open_ask(
                events@,
                events@.len(),
            ) == Some(i as nat),
            None => last_open_ask(events@, events@.len()) is None,
        },
{
    let mut i: usize = events.len();
    while i > 0
        invariant
            i <= events.len(),
            last_open_ask(events@, i as nat) == last_open_ask(events@, events@.len()),
        decreases i,
    {
        if let LiveEvent::Ask { response: None, .. } = &events[i - 1] {
            return Some(i - 1);
        }
        i = i - 1;
    }
    None
}

fn answer(e: &LiveEvent, text: &String) -> (r: LiveEvent)
    requires
        e is Ask,
    ensures
        r == answered(*e, *text),
{
    match e {
        LiveEvent::Ask { prompt, used_default, .. } => LiveEvent::Ask {
            prompt: prompt.clone(),
            response: Some(text.clone()),
            used_default: *used_default,
        },
        LiveEvent::Tell { text } => LiveEvent::Tell { text: text.clone() },
    }
}

/// What is said of a session that does not wait.
pub open spec fn not_waiting_text(id: Seq<char>, status: LiveStatus) -> Seq<char> {
    "session `"@ + id + "` is `"@ + status.text()@ + "`; no agent_ask_text is waiting"@
}

/// What is said of a session that is not known.
pub open spec fn unknown_session_text(id: Seq<char>) -> Seq<char> {
    "unknown live agent session `"@ + id + "`"@
}

/// The reply to a request about a session that is not known.
pub fn unknown_session(id: &str) -> (r: Json)
    ensures
        r@ == error_reply("unknown_agent_session"@, unknown_session_text(id@)),
{
    tool_error(
        "unknown_agent_session",
        &"unknown live agent session `".to_owned().concat(id).concat("`"),
    )
}

impl LiveState {
    /// Answer the question that the program waits on; the program then runs on.
    /// Only a session that waits takes an answer: else the error is the reply to
    /// the request.
    pub fn reply(&mut self, id: &str, response: String) -> (r: Result<(), Json>)
        ensures
            if old(self).status is Waiting {
                &&& r is Ok
                &&& final(self).events@ == events_answered(old(self).events@, response)
                &&& final(self).status is Running
                &&& final(self).pending_response == Some(response)
                &&& final(self).name == old(self).name
                &&& final(self).result == old(self).result
                &&& final(self).error == old(self).error
            } else {
                &&& r matches Err(e)
                &&& e@ == error_reply(
                    "agent_session_not_waiting"@,
                    not_waiting_text(id@, old(self).status),
                )
                &&& *final(self) == *old(self)
            },
            old(self).accounted() ==> final(self).accounted(),
    {
        match self.status {
            LiveStatus::Waiting => {},
            status => {
                let message = "session `".to_owned().concat(id).concat("` is `").concat(
                    status.as_str(),
                ).concat("`; no agent_ask_text is waiting");
                return Err(tool_error("agent_session_not_waiting", &message));
            },
        }
        if let Some(i) = find_open_ask(&self.events) {
            let e = answer(&self.events[i], &response);
            self.events.set(i, e);
        }
        self.pending_response = Some(response);
        self.status = LiveStatus::Running;
        Ok(())
    }

    /// What a worker's event makes of the session.
    pub open spec fn after(self, event: WorkerEvent) -> LiveState {
        match event {
            WorkerEvent::Completed { result, .. } => if self.status is Closed {
                self
            } else {
                LiveState {
                    status: LiveStatus::Completed,
                    result: Some(
                        LiveRunResult {
                            result_i64: result.result_i64,
                            exit_code: result.exit_code,
                            ty: result.ty,
                            effects: result.effects,
                            demanded: result.demanded,
                        },
                    ),
                    ..self
                }
            },
            WorkerEvent::Failed { message, .. } => if self.status.over() {
                self
            } else {
                LiveState { status: LiveStatus::Failed, error: Some(message), ..self }
            },
            _ => self,
        }
    }
}

pub const TOOL_FOR_SESSION: &'static str = "live worker returned a tool completion for a live session";

/// What one event adds to those of a session.
pub open spec fn added_event(event: WorkerEvent) -> Seq<LiveEvent> {
    match event {
        WorkerEvent::Tell { text } => seq![LiveEvent::Tell { text }],
        WorkerEvent::Ask { prompt } => seq![
            LiveEvent::Ask { prompt, response: None, used_default: false },
        ],
        _ => Seq::empty(),
    }
}

/// The status behind an event.
pub open spec fn next_status(status: LiveStatus, event: WorkerEvent) -> LiveStatus {
    match event {
        WorkerEvent::Ask { .. } => if status is Closed {
            status
        } else {
            LiveStatus::Waiting
        },
        WorkerEvent::Completed { .. } => if status is Closed {
            status
        } else {
            LiveStatus::Completed
        },
        WorkerEvent::Failed { .. } | WorkerEvent::ToolCompleted { .. } => if status.over() {
            status
        } else {
            LiveStatus::Failed
        },
        _ => status,
    }
}

/// The event is the last that a session's worker is heard for.
pub open spec fn stops(event: WorkerEvent) -> bool {
    event is Completed || event is Failed || event is ToolCompleted
}

fn run_result(result: WorkerRunResult) -> (r: LiveRunResult)
    ensures
        r == (LiveRunResult {
            result_i64: result.result_i64,
            exit_code: result.exit_code,
            ty: result.ty,
            effects: result.effects,
            demanded: result.demanded,
        }),
{
    LiveRunResult {
        result_i64: result.result_i64,
        exit_code: result.exit_code,
        ty: result.ty,
        effects: result.effects,
        demanded: result.demanded,
    }
}

impl LiveState {
    /// Take an event of the session's worker in, and say whether to listen on. A
    /// closed session takes nothing in.
    pub fn on_event(&mut self, event: WorkerEvent) -> (r: bool)
        ensures
            r == !stops(event),
            final(self).status == next_status(old(self).status, event),
            final(self).events@ == (if old(self).status is Closed {
                old(self).events@
            } else {
                old(self).events@ + added_event(event)
            }),
            final(self).name == old(self).name,
            final(self).pending_response == old(self).pending_response,
            match event {
                WorkerEvent::ToolCompleted { .. } => final(self).result == old(self).result && (
                if old(self).status.over() {
                    final(self).error == old(self).error
                } else {
                    final(self).error matches Some(e) && e@ == TOOL_FOR_SESSION@
                }),
                _ => final(self).result == old(self).after(event).result && final(self).error
                    == old(self).after(event).error,
            },
            old(self).accounted() ==> final(self).accounted(),
    {
        let ghost before = self.events@;
        let closed: bool = matches!(self.status, LiveStatus::Closed);
        match event {
            WorkerEvent::Tell { text } => {
                if !closed {
                    self.events.push(LiveEvent::Tell { text });
                    assert(self.events@ =~= before + added_event(event));
                }
                true
            },
            WorkerEvent::Ask { prompt } => {
                if !closed {
                    self.events.push(
                        LiveEvent::Ask { prompt, response: None, used_default: false },
                    );
                    self.status = LiveStatus::Waiting;
                    assert(self.events@ =~= before + added_event(event));
                }
                true
            },
            WorkerEvent::Completed { result, .. } => {
                if !closed {
                    self.status = LiveStatus::Completed;
                    self.result = Some(run_result(result));
                }
                assert(before + added_event(event) =~= before);
                false
            },
            WorkerEvent::ToolCompleted { .. } => {
                self.fail_if_running(TOOL_FOR_SESSION.to_owned());
                assert(before + added_event(event) =~= before);
                false
            },
            WorkerEvent::Failed { message, .. } => {
                self.fail_if_running(message);
                assert(before + added_event(event) =~= before);
                false
            },
            _ => {
                assert(before + added_event(event) =~= before);
                true
            },
        }
    }
}

/// Whether to go on waiting for a session: it runs, and the time is not up.
pub fn waits_on(status: LiveStatus, now_ms: u64, deadline_ms: u64) -> (r: bool)
    ensures
        r == (status is Running && now_ms < deadline_ms),
{
    matches!(status, LiveStatus::Running) && now_ms < deadline_ms
}

/// How long a request waits, unless it says otherwise.
pub const DEFAULT_WAIT_MS: u64 = 10_000;

/// How long a request to start or reply waits.
pub fn wait_or_default(wait_ms: Option<u64>) -> (r: u64)
    ensures
        r == match wait_ms {
            Some(n) => n,
            None => DEFAULT_WAIT_MS,
        },
{
    match wait_ms {
        Some(n) => n,
        None => DEFAULT_WAIT_MS,
    }
}

/// The name of a session.
pub open spec fn session_text(n: u64) -> Seq<char> {
    "agent-"@ + decimal(n as nat)
}

/// The name of a session, by its number.
pub fn live_session_id(n: u64) -> (r: String)
    ensures
        r@ == session_text(n),
{
    let mut s = "agent-".to_owned();
    push_decimal(&mut s, n);
    s
}

/// Two sessions have two names.
pub proof fn session_names_differ(a: u64, b: u64)
    ensures
        session_text(a) == session_text(b) ==> a == b,
{
    if session_text(a) == session_text(b) {
        let head = "agent-"@;
        assert(session_text(a).skip(head.len() as int) =~= decimal(a as nat));
        assert(session_text(b).skip(head.len() as int) =~= decimal(b as nat));
        lemma_decimal_injective(a as nat, b as nat);
    }
}

proof fn lemma_decimal_injective(a: nat, b: nat)
    requires
        decimal(a) == decimal(b),
    ensures
        a == b,
    decreases a,
{
    let da = decimal(a);
    let db = decimal(b);
    lemma_decimal_len(a);
    lemma_decimal_len(b);
    assert(da.last() == crate::text::digit(a % 10));
    assert(db.last() == crate::text::digit(b % 10));
    assert(a % 10 == b % 10);
    if a >= 10 {
        assert(da.len() >= 2);
        assert(b >= 10);
        assert(da.drop_last() =~= decimal(a / 10));
        assert(db.drop_last() =~= decimal(b / 10));
        lemma_decimal_injective(a / 10, b / 10);
    } else {
        assert(da.len() == 1);
        if b >= 10 {
            assert(db.len() >= 2);
        }
    }
}

proof fn lemma_decimal_len(n: nat)
    ensures
        decimal(n).len() >= 1,
        decimal(n).last() == crate::text::digit(n % 10),
        n < 10 <==> decimal(n).len() == 1,
    decreases n,
{
    if n >= 10 {
        lemma_decimal_len(n / 10);
    }
}

// ── laws ─────────────────────────────────────────────────────────────────
/// A closed session stays closed, whatever its worker reports.
pub proof fn a_closed_session_stays_closed(event: WorkerEvent)
    ensures
        next_status(LiveStatus::Closed, event) is Closed,
{
}

/// A session that has ended is not failed any more.
pub proof fn an_ended_session_is_not_failed(status: LiveStatus, event: WorkerEvent)
    requires
        status.over(),
        event is Failed || event is ToolCompleted,
    ensures
        next_status(status, event) == status,
{
}

/// Nothing that is not a question or its answer makes a session wait or run.
pub proof fn only_a_question_makes_a_session_wait(status: LiveStatus, event: WorkerEvent)
    ensures
        next_status(status, event) is Waiting ==> status is Waiting || event is Ask,
        next_status(status, event) is Running ==> status is Running,
{
}

// ── snapshots ────────────────────────────────────────────────────────────
/// A question as a JSON value, by its position.
pub open spec fn ask_js(i: int, prompt: String, response: Option<String>, used_default: bool) -> Js {
    Js::Object(
        no_fields().push(("event_index"@, Js::Num(i))).push(("prompt"@, Js::Text(prompt@))).push(
            ("response"@, text_or_null(response)),
        ).push(("used_default"@, Js::Bool(used_default))),
    )
}

/// A statement as a JSON value, by its position.
pub open spec fn tell_js(i: int, text: String) -> Js {
    Js::Object(
        no_fields().push(("event_index"@, Js::Num(i))).push(("text"@, Js::Text(text@))),
    )
}

/// An event as a JSON value, by its kind.
pub open spec fn event_js(e: LiveEvent) -> Js {
    match e {
        LiveEvent::Ask { prompt, response, used_default } => Js::Object(
            no_fields().push(("kind"@, Js::Text("ask"@))).push(("prompt"@, Js::Text(prompt@))).push(
                ("response"@, text_or_null(response)),
            ).push(("used_default"@, Js::Bool(used_default))),
        ),
        LiveEvent::Tell { text } => Js::Object(
            no_fields().push(("kind"@, Js::Text("tell"@))).push(("text"@, Js::Text(text@))),
        ),
    }
}

/// The event by its position.
pub open spec fn indexed_js(events: Seq<LiveEvent>, i: int) -> Js {
    match events[i] {
        LiveEvent::Ask { prompt, response, used_default } => ask_js(
            i,
            prompt,
            response,
            used_default,
        ),
        LiveEvent::Tell { text } => tell_js(i, text),
    }
}

/// What an event of a transcript is searched for.
#[derive(Clone, Copy, Debug, PartialEq, Eq, Structural)]
pub enum Sought {
    Ask,
    OpenAsk,
    Tell,
    Score,
    Move,
}

/// A statement of the score.
pub open spec fn is_score(text: Seq<char>) -> bool {
    begins_with(text, "score "@)
}

/// A statement of how a move went.
pub open spec fn is_move(text: Seq<char>) -> bool {
    begins_with(text, "accepted "@) || begins_with(text, "illegal or missing "@) || begins_with(
        text,
        "Black plays "@,
    ) || begins_with(text, "Black passes"@)
}

/// The event is of the kind sought.
pub open spec fn is_sought(e: LiveEvent, sought: Sought) -> bool {
    match (e, sought) {
        (LiveEvent::Ask { .. }, Sought::Ask) => true,
        (LiveEvent::Ask { response, .. }, Sought::OpenAsk) => response is None,
        (LiveEvent::Tell { .. }, Sought::Tell) => true,
        (LiveEvent::Tell { text }, Sought::Score) => is_score(text@),
        (LiveEvent::Tell { text }, Sought::Move) => is_move(text@),
        _ => false,
    }
}

/// The last of the first `n` events of the kind sought, or null.
pub open spec fn latest(events: Seq<LiveEvent>, sought: Sought, n: nat) -> Js
    decreases n,
{
    if n == 0 || n > events.len() {
        Js::Null
    } else if is_sought(events[n - 1], sought) {
        indexed_js(events, n - 1)
    } else {
        latest(events, sought, (n - 1) as nat)
    }
}

/// The events of a window, by their kind.
pub open spec fn window(events: Seq<LiveEvent>, from: nat, n: nat) -> Seq<Js>
    decreases n,
{
    if n <= from || n > events.len() {
        Seq::empty()
    } else {
        window(events, from, (n - 1) as nat).push(event_js(events[n - 1]))
    }
}

/// The events of a window that are of the kind sought, by their position.
pub open spec fn window_of(events: Seq<LiveEvent>, sought: Sought, from: nat, n: nat) -> Seq<Js>
    decreases n,
{
    if n <= from || n > events.len() {
        Seq::empty()
    } else if is_sought(events[n - 1], sought) {
        window_of(events, sought, from, (n - 1) as nat).push(indexed_js(events, n - 1))
    } else {
        window_of(events, sought, from, (n - 1) as nat)
    }
}

/// Where the window begins: where it is asked to, but not behind the last event.
pub open spec fn window_start(total: nat, since: Option<usize>) -> nat {
    match since {
        Some(n) => if n <= total {
            n as nat
        } else {
            total
        },
        None => 0,
    }
}

fn sought_here(e: &LiveEvent, sought: Sought) -> (r: bool)
    ensures
        r == is_sought(*e, sought),
{
    match (e, sought) {
        (LiveEvent::Ask { .. }, Sought::Ask) => true,
        (LiveEvent::Ask { response, .. }, Sought::OpenAsk) => response.is_none(),
        (LiveEvent::Tell { .. }, Sought::Tell) => true,
        (LiveEvent::Tell { text }, Sought::Score) => starts_with(text, "score "),
        (LiveEvent::Tell { text }, Sought::Move) => starts_with(text, "accepted ") || starts_with(
            text,
            "illegal or missing ",
        ) || starts_with(text, "Black plays ") || starts_with(text, "Black passes"),
        _ => false,
    }
}

fn indexed(events: &Vec<LiveEvent>, i: usize) -> (r: Json)
    requires
        i < events.len(),
    ensures
        r@ == indexed_js(events@, i as int),
{
    match &events[i] {
        LiveEvent::Ask { prompt, response, used_default } => ObjectBuilder::new().count(
            "event_index",
            i,
        ).text("prompt", prompt).with("response", optional_text(response)).flag(
            "used_default",
            *used_default,
        ).finish(),
        LiveEvent::Tell { text } => ObjectBuilder::new().count("event_index", i).text(
            "text",
            text,
        ).finish(),
    }
}

fn by_kind(e: &LiveEvent) -> (r: Json)
    ensures
        r@ == event_js(*e),
{
    match e {
        LiveEvent::Ask { prompt, response, used_default } => ObjectBuilder::new().text(
            "kind",
            "ask",
        ).text("prompt", prompt).with("response", optional_text(response)).flag(
            "used_default",
            *used_default,
        ).finish(),
        LiveEvent::Tell { text } => ObjectBuilder::new().text("kind", "tell").text(
            "text",
            text,
        ).finish(),
    }
}

fn find_latest(events: &Vec<LiveEvent>, sought: Sought) -> (r: Json)
    ensures
        r@ == latest(events@, sought, events@.len()),
{
    let mut i: usize = events.len();
    while i > 0
        invariant
            i <= events.len(),
            latest(events@, sought, i as nat) == latest(events@, sought, events@.len()),
        decreases i,
    {
        if sought_here(&events[i - 1], sought) {
            return indexed(events, i - 1);
        }
        i = i - 1;
    }
    Json::Null
}

fn window_list(events: &Vec<LiveEvent>, from: usize) -> (r: Json)
    requires
        from <= events.len(),
    ensures
        r@ == Js::List(window(events@, from as nat, events@.len())),
{
    let mut out = ListBuilder::new();
    let mut i: usize = from;
    while i < events.len()
        invariant
            from <= i <= events.len(),
            out@ == window(events@, from as nat, i as nat),
        decreases events.len() - i,
    {
        out.push(by_kind(&events[i]));
        i = i + 1;
    }
    out.finish()
}

fn window_list_of(events: &Vec<LiveEvent>, sought: Sought, from: usize) -> (r: Json)
    requires
        from <= events.len(),
    ensures
        r@ == Js::List(window_of(events@, sought, from as nat, events@.len())),
{
    let mut out = ListBuilder::new();
    let mut i: usize = from;
    while i < events.len()
        invariant
            from <= i <= events.len(),
            out@ == window_of(events@, sought, from as nat, i as nat),
        decreases events.len() - i,
    {
        if sought_here(&events[i], sought) {
            out.push(indexed(events, i));
        }
        i = i + 1;
    }
    out.finish()
}

/// The outcome of a session's program as a JSON value.
pub open spec fn result_js(r: Option<LiveRunResult>) -> Js {
    match r {
        None => Js::Null,
        Some(r) => Js::Object(
            no_fields().push(("result_i64"@, Js::Num(r.result_i64 as int))).push(
                ("exit_code"@, Js::Num(r.exit_code as int)),
            ).push(("type"@, Js::Text(r.ty@))).push(
                ("effects"@, Js::List(effects_js(r.effects@))),
            ).push(("demanded_apis"@, Js::List(demands_js(r.demanded@)))),
        ),
    }
}

fn result_value(r: &Option<LiveRunResult>) -> (v: Json)
    ensures
        v@ == result_js(*r),
{
    match r {
        None => Json::Null,
        Some(r) => ObjectBuilder::new().with("result_i64", Json::Int(r.result_i64)).with(
            "exit_code",
            Json::Int(r.exit_code as i64),
        ).text("type", &r.ty).with("effects", effects_list(&r.effects)).with(
            "demanded_apis",
            demands_list(&r.demanded),
        ).finish(),
    }
}

pub const SESSION_HINT: &'static str = "If status is waiting, call agent_session_reply with the current_ask response. Pass since_event_index = latest_event_index + 1 to receive only new transcript events. Relative file paths resolve from workspace_cwd.";

/// The position of the last event, if there is one.
pub open spec fn last_index(total: nat) -> Js {
    if total == 0 {
        Js::Null
    } else {
        Js::Num(total - 1)
    }
}

/// A session as a JSON value: what is latest of all its events, and those of the
/// window in full.
pub open spec fn session_js(id: Seq<char>, state: LiveState, cwd: Seq<char>, since: Option<usize>) -> Js {
    let events = state.events@;
    let total = events.len();
    let from = window_start(total, since);
    Js::Object(
        no_fields().push(("session_id"@, Js::Text(id))).push(("name"@, Js::Text(state.name@))).push(
            ("status"@, Js::Text(state.status.text()@)),
        ).push(("agent_io_model"@, Js::Text("live_session"@))).push(
            ("agent_io_hint"@, Js::Text(SESSION_HINT@)),
        ).push(("workspace_cwd"@, Js::Text(cwd))).push(
            ("current_ask"@, latest(events, Sought::OpenAsk, total)),
        ).push(("latest_ask"@, latest(events, Sought::Ask, total))).push(
            ("latest_tell"@, latest(events, Sought::Tell, total)),
        ).push(("latest_score"@, latest(events, Sought::Score, total))).push(
            ("latest_move_result"@, latest(events, Sought::Move, total)),
        ).push(("events"@, Js::List(window(events, from, total)))).push(
            ("event_count"@, Js::Num(total - from)),
        ).push(("event_window_start"@, Js::Num(from as int))).push(
            ("total_event_count"@, Js::Num(total as int)),
        ).push(("latest_event_index"@, last_index(total))).push(
            ("asks"@, Js::List(window_of(events, Sought::Ask, from, total))),
        ).push(("tells"@, Js::List(window_of(events, Sought::Tell, from, total)))).push(
            ("result"@, result_js(state.result)),
        ).push(("error"@, text_or_null(state.error))),
    )
}

/// A session as a JSON value.
pub fn live_session_json_from_state(id: &str, state: &LiveState, cwd: &str, since: Option<usize>) -> (r: Json)
    ensures
        r@ == session_js(id@, *state, cwd@, since),
{
    let total: usize = state.events.len();
    let from: usize = match since {
        Some(n) => if n <= total {
            n
        } else {
            total
        },
        None => 0,
    };
    let last_event = if total == 0 {
        Json::Null
    } else {
        Json::Count((total - 1) as u64)
    };
    let head = ObjectBuilder::new().text("session_id", id).text("name", &state.name).text(
        "status",
        state.status.as_str(),
    ).text("agent_io_model", "live_session").text("agent_io_hint", SESSION_HINT).text(
        "workspace_cwd",
        cwd,
    );
    let latest_part = head.with("current_ask", find_latest(&state.events, Sought::OpenAsk)).with(
        "latest_ask",
        find_latest(&state.events, Sought::Ask),
    ).with("latest_tell", find_latest(&state.events, Sought::Tell)).with(
        "latest_score",
        find_latest(&state.events, Sought::Score),
    ).with("latest_move_result", find_latest(&state.events, Sought::Move));
    let window_part = latest_part.with("events", window_list(&state.events, from)).count(
        "event_count",
        total - from,
    ).count("event_window_start", from).count("total_event_count", total).with(
        "latest_event_index",
        last_event,
    );
    window_part.with("asks", window_list_of(&state.events, Sought::Ask, from)).with(
        "tells",
        window_list_of(&state.events, Sought::Tell, from),
    ).with("result", result_value(&state.result)).with("error", optional_text(&state.error)).finish()
}

/// The window has as many events as it says, and together with what came before
/// it the session has no others.
pub proof fn a_window_counts_its_events(events: Seq<LiveEvent>, since: Option<usize>)
    ensures
        window_start(events.len(), since) <= events.len(),
        window(events, window_start(events.len(), since), events.len()).len() == events.len()
            - window_start(events.len(), since),
{
    lemma_window_len(events, window_start(events.len(), since), events.len());
}

proof fn lemma_window_len(events: Seq<LiveEvent>, from: nat, n: nat)
    requires
        from <= n <= events.len(),
    ensures
        window(events, from, n).len() == n - from,
    decreases n,
{
    if n > from {
        lemma_window_len(events, from, (n - 1) as nat);
    }
}

/// A client that asks for the events behind the last one it saw misses none and
/// gets none twice.
pub proof fn windows_join(events: Seq<LiveEvent>, from: nat, mid: nat)
    requires
        from <= mid <= events.len(),
    ensures
        window(events, from, events.len()) == window(events, from, mid) + window(
            events,
            mid,
            events.len(),
        ),
{
    lemma_windows_join(events, from, mid, events.len());
}

proof fn lemma_windows_join(events: Seq<LiveEvent>, from: nat, mid: nat, n: nat)
    requires
        from <= mid <= n <= events.len(),
    ensures
        window(events, from, n) == window(events, from, mid) + window(events, mid, n),
    decreases n,
{
    if n > mid {
        lemma_windows_join(events, from, mid, (n - 1) as nat);
        assert(window(events, from, n) =~= window(events, from, mid) + window(events, mid, n));
    } else {
        assert(window(events, from, mid) + window(events, mid, n) =~= window(events, from, mid));
    }
}

// ── transcripts ──────────────────────────────────────────────────────────
/// The transcript of a run on queued responses.
#[derive(Debug)]
pub struct AgentTranscript {
    pub events: Vec<LiveEvent>,
    pub remaining_responses: usize,
}

/// The transcript of a run on queued responses as a JSON value.
pub fn agent_transcript_json(t: &AgentTranscript) -> (r: Json)
    ensures
        r@ == Js::Object(
            no_fields().push(("mode"@, Js::Text("queued_replay"@))).push(
                ("events"@, Js::List(window(t.events@, 0, t.events@.len()))),
            ).push(("event_count"@, Js::Num(t.events@.len() as int))).push(
                ("asks"@, Js::List(window_of(t.events@, Sought::Ask, 0, t.events@.len()))),
            ).push(
                ("tells"@, Js::List(window_of(t.events@, Sought::Tell, 0, t.events@.len()))),
            ).push(("remaining_responses"@, Js::Num(t.remaining_responses as int))),
        ),
{
    ObjectBuilder::new().text("mode", "queued_replay").with(
        "events",
        window_list(&t.events, 0),
    ).count("event_count", t.events.len()).with(
        "asks",
        window_list_of(&t.events, Sought::Ask, 0),
    ).with("tells", window_list_of(&t.events, Sought::Tell, 0)).count(
        "remaining_responses",
        t.remaining_responses,
    ).finish()
}

} // verus!
