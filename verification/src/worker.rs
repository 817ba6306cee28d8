//! The worker that compiles and runs programs: its jobs, its events, and how the
//! supervisor reads them.
use crate::json::{list_of_texts, no_fields, text_list, Js, Json, ListBuilder, ObjectBuilder};
use crate::requests::SourceUnit;
use crate::text::{trim, trimmed};
use vstd::prelude::*;
use vstd::string::*;

verus! {

/// An effect of a program.
#[derive(Debug)]
pub struct EffectEntry {
    pub label: String,
    pub category: String,
    pub description: String,
}

/// A function of the operating system that a program needs.
#[derive(Debug)]
pub struct DemandEntry {
    pub symbol: String,
    pub dll: String,
}

/// What the front end reports of a program.
#[derive(Debug)]
pub struct PipelineReport {
    pub ty: String,
    pub effects: Vec<EffectEntry>,
    pub demanded: Vec<DemandEntry>,
}

/// What a worker is asked to do.
#[derive(Debug)]
pub enum WorkerJob {
    Hello,
    HelpOverview,
    HelpSearch { query: String, limit: Option<usize> },
    HelpTopic { id: String },
    HelpService { name: String },
    HelpRemind { topic: String },
    ListStdlibServices,
    Check { source: SourceUnit },
    EmitIr { source: SourceUnit },
    EmitAsm { source: SourceUnit, optimize: bool },
    Build { source: SourceUnit, output: String, always_gc: bool },
    Effects { source: SourceUnit },
    Run { source: SourceUnit },
    RunAgentText { source: SourceUnit, responses: Vec<String>, default_response: String },
    LiveAgent { source: SourceUnit },
}

/// The outcome of a run.
#[derive(Debug)]
pub struct WorkerRunResult {
    pub name: String,
    pub result_i64: i64,
    pub exit_code: i32,
    pub ty: String,
    pub effects: Vec<EffectEntry>,
    pub demanded: Vec<DemandEntry>,
}

/// What a worker reports.
#[derive(Debug)]
pub enum WorkerEvent {
    Started { name: String },
    ToolCompleted { value: Json },
    CompileStarted,
    CompileFinished { ty: String, effects: Vec<EffectEntry>, demanded: Vec<DemandEntry> },
    RunStarted,
    Ask { prompt: String },
    Tell { text: String },
    Completed { result: WorkerRunResult, agent_transcript: Option<Json> },
    Failed { code: String, message: String },
}

/// What a running program is told.
#[derive(Debug)]
pub enum WorkerCommand {
    Reply { response: String },
    Cancel,
}

/// Why a worker did not do its job.
#[derive(Debug)]
pub struct WorkerFailure {
    pub code: String,
    pub message: String,
}

/// A run that was completed.
#[derive(Debug)]
pub struct WorkerCompleted {
    pub result: WorkerRunResult,
    pub agent_transcript: Option<Json>,
}

/// The failure has this code and message.
pub open spec fn failed_with(f: WorkerFailure, code: Seq<char>, message: Seq<char>) -> bool {
    f.code@ == code && f.message@ == message
}

fn failure(code: &str, message: String) -> (r: WorkerFailure)
    ensures
        failed_with(r, code@, message@),
{
    WorkerFailure { code: code.to_owned(), message }
}

// ── lists ────────────────────────────────────────────────────────────────
/// An effect as a JSON value.
pub open spec fn effect_js(e: EffectEntry) -> Js {
    Js::Object(
        no_fields().push(("label"@, Js::Text(e.label@))).push(
            ("category"@, Js::Text(e.category@)),
        ).push(("description"@, Js::Text(e.description@))),
    )
}

/// Effects as JSON values.
pub open spec fn effects_js(list: Seq<EffectEntry>) -> Seq<Js> {
    Seq::new(list.len(), |i: int| effect_js(list[i]))
}

/// A needed function as a JSON value.
pub open spec fn demand_js(d: DemandEntry) -> Js {
    Js::Object(
        no_fields().push(("symbol"@, Js::Text(d.symbol@))).push(("dll"@, Js::Text(d.dll@))),
    )
}

/// Needed functions as JSON values.
pub open spec fn demands_js(list: Seq<DemandEntry>) -> Seq<Js> {
    Seq::new(list.len(), |i: int| demand_js(list[i]))
}

/// The effects as a JSON list.
pub fn effects_list(list: &Vec<EffectEntry>) -> (r: Json)
    ensures
        r@ == Js::List(effects_js(list@)),
{
    let mut out = ListBuilder::new();
    let mut i: usize = 0;
    while i < list.len()
        invariant
            i <= list.len(),
            out@ == effects_js(list@).take(i as int),
        decreases list.len() - i,
    {
        let e = &list[i];
        let entry = ObjectBuilder::new().text("label", &e.label).text(
            "category",
            &e.category,
        ).text("description", &e.description).finish();
        out.push(entry);
        i = i + 1;
        assert(out@ =~= effects_js(list@).take(i as int));
    }
    assert(effects_js(list@).take(list@.len() as int) =~= effects_js(list@));
    out.finish()
}

/// The needed functions as a JSON list.
pub fn demands_list(list: &Vec<DemandEntry>) -> (r: Json)
    ensures
        r@ == Js::List(demands_js(list@)),
{
    let mut out = ListBuilder::new();
    let mut i: usize = 0;
    while i < list.len()
        invariant
            i <= list.len(),
            out@ == demands_js(list@).take(i as int),
        decreases list.len() - i,
    {
        let d = &list[i];
        let entry = ObjectBuilder::new().text("symbol", &d.symbol).text("dll", &d.dll).finish();
        out.push(entry);
        i = i + 1;
        assert(out@ =~= demands_js(list@).take(i as int));
    }
    assert(demands_js(list@).take(list@.len() as int) =~= demands_js(list@));
    out.finish()
}

/// The effects are the same, text by text.
pub open spec fn same_effects(a: Seq<EffectEntry>, b: Seq<EffectEntry>) -> bool {
    a.len() == b.len() && forall|i: int|
        0 <= i < a.len() ==> effect_js(#[trigger] a[i]) == effect_js(b[i])
}

/// The needed functions are the same, text by text.
pub open spec fn same_demands(a: Seq<DemandEntry>, b: Seq<DemandEntry>) -> bool {
    a.len() == b.len() && forall|i: int|
        0 <= i < a.len() ==> demand_js(#[trigger] a[i]) == demand_js(b[i])
}

fn copy_effects(list: &Vec<EffectEntry>) -> (r: Vec<EffectEntry>)
    ensures
        same_effects(r@, list@),
{
    let mut out: Vec<EffectEntry> = Vec::new();
    let mut i: usize = 0;
    while i < list.len()
        invariant
            i <= list.len(),
            out.len() == i,
            forall|j: int| 0 <= j < i ==> effect_js(#[trigger] out@[j]) == effect_js(list@[j]),
        decreases list.len() - i,
    {
        let e = EffectEntry {
            label: list[i].label.clone(),
            category: list[i].category.clone(),
            description: list[i].description.clone(),
        };
        out.push(e);
        i = i + 1;
    }
    out
}

fn copy_demands(list: &Vec<DemandEntry>) -> (r: Vec<DemandEntry>)
    ensures
        same_demands(r@, list@),
{
    let mut out: Vec<DemandEntry> = Vec::new();
    let mut i: usize = 0;
    while i < list.len()
        invariant
            i <= list.len(),
            out.len() == i,
            forall|j: int| 0 <= j < i ==> demand_js(#[trigger] out@[j]) == demand_js(list@[j]),
        decreases list.len() - i,
    {
        let d = DemandEntry { symbol: list[i].symbol.clone(), dll: list[i].dll.clone() };
        out.push(d);
        i = i + 1;
    }
    out
}

// ── tools ────────────────────────────────────────────────────────────────
/// What a compiled program is wanted for.
#[derive(Debug)]
pub enum Want {
    Check,
    Ir,
    Assembly { optimize: bool },
    Executable { output: String, always_gc: bool },
}

/// What a tool job leads to.
#[derive(Debug)]
pub enum ToolStep {
    Hello,
    Overview,
    Search { query: String, limit: usize },
    Topic { id: String },
    Service { name: String },
    Remind { topic: String },
    Stdlib,
    Compile { source: SourceUnit, want: Want },
    Effects { source: SourceUnit },
    Refused(WorkerFailure),
}

/// How many hits a search gives unless it says otherwise.
pub const SEARCH_LIMIT: usize = 8;

pub const NOT_A_TOOL: &'static str = "this worker tool path does not run programs";

/// A job that runs a program.
pub open spec fn runs(job: WorkerJob) -> bool {
    job is Run || job is RunAgentText || job is LiveAgent
}

/// What a tool job leads to. A job that runs a program is none.
pub fn worker_tool_step(job: WorkerJob) -> (r: ToolStep)
    ensures
        match job {
            WorkerJob::Hello => r is Hello,
            WorkerJob::HelpOverview => r is Overview,
            WorkerJob::HelpSearch { query, limit } => r == (ToolStep::Search {
                query,
                limit: match limit {
                    Some(n) => n,
                    None => SEARCH_LIMIT,
                },
            }),
            WorkerJob::HelpTopic { id } => r == (ToolStep::Topic { id }),
            WorkerJob::HelpService { name } => r == (ToolStep::Service { name }),
            WorkerJob::HelpRemind { topic } => r == (ToolStep::Remind { topic }),
            WorkerJob::ListStdlibServices => r is Stdlib,
            WorkerJob::Check { source } => r == (ToolStep::Compile { source, want: Want::Check }),
            WorkerJob::EmitIr { source } => r == (ToolStep::Compile { source, want: Want::Ir }),
            WorkerJob::EmitAsm { source, optimize } => r == (ToolStep::Compile {
                source,
                want: Want::Assembly { optimize },
            }),
            WorkerJob::Build { source, output, always_gc } => r == (ToolStep::Compile {
                source,
                want: Want::Executable { output, always_gc },
            }),
            WorkerJob::Effects { source } => r == (ToolStep::Effects { source }),
            _ => r matches ToolStep::Refused(f) && failed_with(
                f,
                "worker_mode_unsupported"@,
                NOT_A_TOOL@,
            ),
        },
{
    match job {
        WorkerJob::Hello => ToolStep::Hello,
        WorkerJob::HelpOverview => ToolStep::Overview,
        WorkerJob::HelpSearch { query, limit } => {
            let limit: usize = match limit {
                Some(n) => n,
                None => SEARCH_LIMIT,
            };
            ToolStep::Search { query, limit }
        },
        WorkerJob::HelpTopic { id } => ToolStep::Topic { id },
        WorkerJob::HelpService { name } => ToolStep::Service { name },
        WorkerJob::HelpRemind { topic } => ToolStep::Remind { topic },
        WorkerJob::ListStdlibServices => ToolStep::Stdlib,
        WorkerJob::Check { source } => ToolStep::Compile { source, want: Want::Check },
        WorkerJob::EmitIr { source } => ToolStep::Compile { source, want: Want::Ir },
        WorkerJob::EmitAsm { source, optimize } => ToolStep::Compile {
            source,
            want: Want::Assembly { optimize },
        },
        WorkerJob::Build { source, output, always_gc } => ToolStep::Compile {
            source,
            want: Want::Executable { output, always_gc },
        },
        WorkerJob::Effects { source } => ToolStep::Effects { source },
        _ => ToolStep::Refused(failure("worker_mode_unsupported", NOT_A_TOOL.to_owned())),
    }
}

/// What a failed compilation leads to.
pub fn compile_failure(message: String) -> (r: WorkerFailure)
    ensures
        failed_with(r, "compile_failed"@, message@),
{
    failure("compile_failed", message)
}

/// The fields that every reply about a compiled program begins with.
pub open spec fn report_head(name: Seq<char>, report: PipelineReport) -> Seq<(Seq<char>, Js)> {
    no_fields().push(("name"@, Js::Text(name))).push(("type"@, Js::Text(report.ty@))).push(
        ("pure"@, Js::Bool(report.effects@.len() == 0)),
    )
}

/// The effects and needed functions of a report.
pub open spec fn report_lists(head: Seq<(Seq<char>, Js)>, report: PipelineReport) -> Seq<
    (Seq<char>, Js),
> {
    head.push(("effects"@, Js::List(effects_js(report.effects@)))).push(
        ("demanded_apis"@, Js::List(demands_js(report.demanded@))),
    )
}

fn head_of(name: &str, report: &PipelineReport) -> (r: ObjectBuilder)
    ensures
        r@ == report_head(name@, *report),
{
    ObjectBuilder::new().text("name", name).text("type", &report.ty).flag(
        "pure",
        report.effects.len() == 0,
    )
}

fn lists_of(head: ObjectBuilder, report: &PipelineReport) -> (r: ObjectBuilder)
    ensures
        r@ == report_lists(head@, *report),
{
    head.with("effects", effects_list(&report.effects)).with(
        "demanded_apis",
        demands_list(&report.demanded),
    )
}

/// The reply about a program that was checked.
pub fn check_value(name: &str, report: &PipelineReport) -> (r: Json)
    ensures
        r@ == Js::Object(
            report_lists(
                report_head(name@, *report).push(
                    ("effect_count"@, Js::Num(report.effects@.len() as int)),
                ),
                *report,
            ),
        ),
{
    let head = head_of(name, report).count("effect_count", report.effects.len());
    lists_of(head, report).finish()
}

/// The reply with a program's intermediate form.
pub fn ir_value(name: &str, report: &PipelineReport, ir: &str) -> (r: Json)
    ensures
        r@ == Js::Object(
            report_lists(report_head(name@, *report), *report).push(("ir"@, Js::Text(ir@))),
        ),
{
    let head = head_of(name, report);
    lists_of(head, report).text("ir", ir).finish()
}

/// The reply with a program's assembly.
pub fn asm_value(name: &str, report: &PipelineReport, optimize: bool, text: Result<String, String>) -> (r: Result<
    Json,
    WorkerFailure,
>)
    ensures
        match text {
            Err(message) => r matches Err(f) && failed_with(f, "asm_failed"@, message@),
            Ok(s) => r matches Ok(v) && v@ == Js::Object(
                report_lists(report_head(name@, *report), *report).push(
                    ("optimized"@, Js::Bool(optimize)),
                ).push(("asm"@, Js::Text(s@))),
            ),
        },
{
    match text {
        Err(message) => Err(failure("asm_failed", message)),
        Ok(s) => {
            let head = head_of(name, report);
            Ok(lists_of(head, report).flag("optimized", optimize).text("asm", &s).finish())
        },
    }
}

/// The reply about an executable that was built.
pub fn build_value(
    name: &str,
    report: &PipelineReport,
    output: &str,
    import_libs: &Vec<String>,
    always_gc: bool,
    built: Result<(), String>,
) -> (r: Result<Json, WorkerFailure>)
    ensures
        match built {
            Err(message) => r matches Err(f) && failed_with(f, "build_failed"@, message@),
            Ok(_) => r matches Ok(v) && v@ == Js::Object(
                report_lists(
                    no_fields().push(("name"@, Js::Text(name@))).push(
                        ("output"@, Js::Text(output@)),
                    ).push(("type"@, Js::Text(report.ty@))).push(
                        ("pure"@, Js::Bool(report.effects@.len() == 0)),
                    ),
                    *report,
                ).push(("import_libs"@, Js::List(text_list(import_libs@)))).push(
                    ("always_gc"@, Js::Bool(always_gc)),
                ),
            ),
        },
{
    match built {
        Err(message) => Err(failure("build_failed", message)),
        Ok(_) => {
            let head = ObjectBuilder::new().text("name", name).text("output", output).text(
                "type",
                &report.ty,
            ).flag("pure", report.effects.len() == 0);
            Ok(
                lists_of(head, report).with("import_libs", list_of_texts(import_libs)).flag(
                    "always_gc",
                    always_gc,
                ).finish(),
            )
        },
    }
}

/// The type and the effects of a program.
#[derive(Debug)]
pub struct EffectReport {
    pub ty: String,
    pub effects: Vec<EffectEntry>,
}

/// The reply with a program's effects.
pub fn effects_value(name: &str, found: Result<EffectReport, String>) -> (r: Result<
    Json,
    WorkerFailure,
>)
    ensures
        match found {
            Err(message) => r matches Err(f) && failed_with(f, "effects_failed"@, message@),
            Ok(e) => r matches Ok(v) && v@ == Js::Object(
                no_fields().push(("name"@, Js::Text(name@))).push(("type"@, Js::Text(e.ty@))).push(
                    ("pure"@, Js::Bool(e.effects@.len() == 0)),
                ).push(("effect_count"@, Js::Num(e.effects@.len() as int))).push(
                    ("effects"@, Js::List(effects_js(e.effects@))),
                ),
            ),
        },
{
    match found {
        Err(message) => Err(failure("effects_failed", message)),
        Ok(e) => Ok(
            ObjectBuilder::new().text("name", name).text("type", &e.ty).flag(
                "pure",
                e.effects.len() == 0,
            ).count("effect_count", e.effects.len()).with(
                "effects",
                effects_list(&e.effects),
            ).finish(),
        ),
    }
}

// ── the course of a job ──────────────────────────────────────────────────
/// How a program is run.
#[derive(Debug)]
pub enum RunMode {
    Plain,
    /// On queued responses.
    Queued { responses: Vec<String>, default_response: String },
    /// With someone who answers.
    Live,
}

/// What a worker does first.
#[derive(Debug)]
pub enum FirstStep {
    Tool(WorkerJob),
    /// Report that the job was started, then that it is compiled, and compile it.
    Compile { source: SourceUnit, mode: RunMode },
}

/// What a worker does first: a job that runs a program is compiled.
pub fn worker_first_step(job: WorkerJob) -> (r: FirstStep)
    ensures
        match job {
            WorkerJob::Run { source } => r == (FirstStep::Compile { source, mode: RunMode::Plain }),
            WorkerJob::RunAgentText { source, responses, default_response } => r
                == (FirstStep::Compile {
                source,
                mode: RunMode::Queued { responses, default_response },
            }),
            WorkerJob::LiveAgent { source } => r == (FirstStep::Compile {
                source,
                mode: RunMode::Live,
            }),
            _ => r == FirstStep::Tool(job),
        },
{
    match job {
        WorkerJob::Run { source } => FirstStep::Compile { source, mode: RunMode::Plain },
        WorkerJob::RunAgentText { source, responses, default_response } => FirstStep::Compile {
            source,
            mode: RunMode::Queued { responses, default_response },
        },
        WorkerJob::LiveAgent { source } => FirstStep::Compile { source, mode: RunMode::Live },
        other => FirstStep::Tool(other),
    }
}

/// The event is the last of its job.
pub open spec fn ends_job(event: WorkerEvent) -> bool {
    event is ToolCompleted || event is Completed || event is Failed
}

/// The event that ends a tool job: what it found, or why it found nothing.
pub fn tool_event(value: Result<Json, WorkerFailure>) -> (r: WorkerEvent)
    ensures
        match value {
            Ok(v) => r == (WorkerEvent::ToolCompleted { value: v }),
            Err(f) => r == (WorkerEvent::Failed { code: f.code, message: f.message }),
        },
        ends_job(r),
{
    match value {
        Ok(value) => WorkerEvent::ToolCompleted { value },
        Err(f) => WorkerEvent::Failed { code: f.code, message: f.message },
    }
}

/// The events in front of a compilation.
pub fn events_before_compile(name: &str) -> (r: Vec<WorkerEvent>)
    ensures
        r.len() == 2,
        r[0] matches WorkerEvent::Started { name: n } && n@ == name@,
        r[1] is CompileStarted,
        !ends_job(r[0]) && !ends_job(r[1]),
{
    let mut out: Vec<WorkerEvent> = Vec::new();
    out.push(WorkerEvent::Started { name: name.to_owned() });
    out.push(WorkerEvent::CompileStarted);
    out
}

/// A compilation failed, and that ends the job.
pub open spec fn ends_with_failure(events: Seq<WorkerEvent>, code: Seq<char>, message: Seq<char>) -> bool {
    events.len() == 1 && (events[0] matches WorkerEvent::Failed { code: c, message: m } && c@ == code
        && m@ == message)
}

/// The events behind a compilation: a program that compiled is run, one that did
/// not ends the job.
pub fn events_after_compile(compiled: &Result<PipelineReport, String>) -> (r: Vec<WorkerEvent>)
    ensures
        match *compiled {
            Err(message) => ends_with_failure(r@, "compile_failed"@, message@),
            Ok(report) => {
                &&& r.len() == 2
                &&& r[0] matches WorkerEvent::CompileFinished { ty, effects, demanded }
                &&& ty@ == report.ty@
                &&& same_effects(effects@, report.effects@)
                &&& same_demands(demanded@, report.demanded@)
                &&& r[1] is RunStarted
            },
        },
        ends_job(r@.last()) == (compiled is Err),
        forall|i: int| 0 <= i < r.len() - 1 ==> !ends_job(#[trigger] r[i]),
{
    let mut out: Vec<WorkerEvent> = Vec::new();
    match compiled {
        Err(message) => {
            out.push(
                WorkerEvent::Failed {
                    code: "compile_failed".to_owned(),
                    message: message.clone(),
                },
            );
        },
        Ok(report) => {
            out.push(
                WorkerEvent::CompileFinished {
                    ty: report.ty.clone(),
                    effects: copy_effects(&report.effects),
                    demanded: copy_demands(&report.demanded),
                },
            );
            out.push(WorkerEvent::RunStarted);
        },
    }
    out
}

/// The outcome of a run: its result, and the part of it that is the exit code.
pub fn worker_run_result(name: String, report: PipelineReport, value: i64) -> (r: WorkerRunResult)
    ensures
        r == (WorkerRunResult {
            name,
            result_i64: value,
            exit_code: value as i32,
            ty: report.ty,
            effects: report.effects,
            demanded: report.demanded,
        }),
{
    WorkerRunResult {
        name,
        result_i64: value,
        exit_code: value as i32,
        ty: report.ty,
        effects: report.effects,
        demanded: report.demanded,
    }
}

/// The event behind a run, which ends the job.
pub fn event_after_run(
    name: String,
    report: PipelineReport,
    value: Result<i64, String>,
    transcript: Option<Json>,
) -> (r: WorkerEvent)
    ensures
        match value {
            Err(message) => r matches WorkerEvent::Failed { code, message: m } && code@
                == "run_failed"@ && m == message,
            Ok(v) => r == (WorkerEvent::Completed {
                result: WorkerRunResult {
                    name,
                    result_i64: v,
                    exit_code: v as i32,
                    ty: report.ty,
                    effects: report.effects,
                    demanded: report.demanded,
                },
                agent_transcript: transcript,
            }),
        },
        ends_job(r),
{
    match value {
        Err(message) => WorkerEvent::Failed { code: "run_failed".to_owned(), message },
        Ok(v) => WorkerEvent::Completed {
            result: worker_run_result(name, report, v),
            agent_transcript: transcript,
        },
    }
}

/// What came of asking for a command.
#[derive(Debug)]
pub enum CommandRead {
    /// The line could not be read.
    Broken,
    /// There are no more lines.
    Ended,
    Command(WorkerCommand),
    /// The line was no command.
    Garbled,
}

/// The answer that a program gets to its question: that of the command, or an
/// empty one; none where the line could not be read.
pub fn live_answer(read: CommandRead) -> (r: Option<String>)
    ensures
        match read {
            CommandRead::Broken => r is None,
            CommandRead::Command(WorkerCommand::Reply { response }) => r == Some(response),
            _ => r matches Some(s) && s@.len() == 0,
        },
{
    match read {
        CommandRead::Broken => None,
        CommandRead::Command(WorkerCommand::Reply { response }) => Some(response),
        _ => Some(String::new()),
    }
}

// ── replies about runs ───────────────────────────────────────────────────
pub const REPLAY_HINT: &'static str = "agent_ask_text consumes `responses` in order. If an ask has used_default=true, rerun with a longer response queue.";

/// A run as a JSON object.
pub open spec fn run_fields(result: WorkerRunResult) -> Seq<(Seq<char>, Js)> {
    no_fields().push(("name"@, Js::Text(result.name@))).push(
        ("result_i64"@, Js::Num(result.result_i64 as int)),
    ).push(("exit_code"@, Js::Num(result.exit_code as int))).push(
        ("type"@, Js::Text(result.ty@)),
    ).push(("effects"@, Js::List(effects_js(result.effects@)))).push(
        ("demanded_apis"@, Js::List(demands_js(result.demanded@))),
    )
}

/// The reply about a run that was completed, with its transcript where it had
/// queued responses.
pub fn worker_completed_json(done: WorkerCompleted) -> (r: Json)
    ensures
        match done.agent_transcript {
            None => r@ == Js::Object(run_fields(done.result)),
            Some(t) => r@ == Js::Object(
                run_fields(done.result).push(("agent_io_model"@, Js::Text("queued_replay"@))).push(
                    ("agent_io_hint"@, Js::Text(REPLAY_HINT@)),
                ).push(("agent_transcript"@, t@)),
            ),
        },
{
    let result = done.result;
    let head = ObjectBuilder::new().text("name", &result.name).with(
        "result_i64",
        Json::Int(result.result_i64),
    ).with("exit_code", Json::Int(result.exit_code as i64)).text("type", &result.ty).with(
        "effects",
        effects_list(&result.effects),
    ).with("demanded_apis", demands_list(&result.demanded));
    match done.agent_transcript {
        None => head.finish(),
        Some(t) => head.text("agent_io_model", "queued_replay").text(
            "agent_io_hint",
            REPLAY_HINT,
        ).with("agent_transcript", t).finish(),
    }
}

// ── the supervisor ───────────────────────────────────────────────────────
/// What an event means to whoever waits for a tool.
#[derive(Debug)]
pub enum Waiting<T> {
    /// Nothing yet.
    Go,
    Done(T),
    Failed(WorkerFailure),
}

pub const RUN_FOR_TOOL: &'static str = "worker returned a run completion for a tool request";

pub const TOOL_FOR_RUN: &'static str = "worker returned a tool completion for a run request";

/// What an event means to whoever waits for a tool's value.
pub fn tool_waits(event: WorkerEvent) -> (r: Waiting<Json>)
    ensures
        match event {
            WorkerEvent::ToolCompleted { value } => r == Waiting::Done(value),
            WorkerEvent::Failed { code, message } => r == Waiting::<Json>::Failed(
                WorkerFailure { code, message },
            ),
            WorkerEvent::Completed { .. } => r matches Waiting::Failed(f) && failed_with(
                f,
                "worker_protocol_failed"@,
                RUN_FOR_TOOL@,
            ),
            _ => r is Go,
        },
        r is Go <==> !ends_job(event),
{
    match event {
        WorkerEvent::ToolCompleted { value } => Waiting::Done(value),
        WorkerEvent::Failed { code, message } => Waiting::Failed(WorkerFailure { code, message }),
        WorkerEvent::Completed { .. } => Waiting::Failed(
            failure("worker_protocol_failed", RUN_FOR_TOOL.to_owned()),
        ),
        _ => Waiting::Go,
    }
}

/// What an event means to whoever waits for a run.
pub fn run_waits(event: WorkerEvent) -> (r: Waiting<WorkerCompleted>)
    ensures
        match event {
            WorkerEvent::Completed { result, agent_transcript } => r == Waiting::Done(
                WorkerCompleted { result, agent_transcript },
            ),
            WorkerEvent::Failed { code, message } => r == Waiting::<WorkerCompleted>::Failed(
                WorkerFailure { code, message },
            ),
            WorkerEvent::ToolCompleted { .. } => r matches Waiting::Failed(f) && failed_with(
                f,
                "worker_protocol_failed"@,
                TOOL_FOR_RUN@,
            ),
            _ => r is Go,
        },
        r is Go <==> !ends_job(event),
{
    match event {
        WorkerEvent::Completed { result, agent_transcript } => Waiting::Done(
            WorkerCompleted { result, agent_transcript },
        ),
        WorkerEvent::Failed { code, message } => Waiting::Failed(WorkerFailure { code, message }),
        WorkerEvent::ToolCompleted { .. } => Waiting::Failed(
            failure("worker_protocol_failed", TOOL_FOR_RUN.to_owned()),
        ),
        _ => Waiting::Go,
    }
}

/// What is said of a worker that went away.
pub open spec fn crash_text(
    message: Seq<char>,
    status: Option<Seq<char>>,
    stderr: Seq<char>,
    last_event: Seq<char>,
) -> Seq<char> {
    let head = message + "; worker exit status: "@ + (match status {
        Some(s) => s,
        None => "<unknown>"@,
    });
    let with_event = if last_event.len() == 0 {
        head
    } else {
        head + "; last worker event: "@ + last_event
    };
    if trimmed(stderr).len() == 0 {
        with_event
    } else {
        with_event + "; stderr tail: "@ + trimmed(stderr)
    }
}

/// The failure of a worker that went away: how it ended, the last event it
/// reported, and the end of what it wrote to its error stream.
pub fn worker_crashed(message: &str, status: &Option<String>, stderr: &str, last_event: &str) -> (r: WorkerFailure)
    ensures
        failed_with(
            r,
            "worker_crashed"@,
            crash_text(
                message@,
                match *status {
                    Some(s) => Some(s@),
                    None => None,
                },
                stderr@,
                last_event@,
            ),
        ),
{
    let mut full = message.to_owned().concat("; worker exit status: ");
    match status {
        Some(s) => {
            full.append(s);
        },
        None => {
            full.append("<unknown>");
        },
    }
    if !last_event.is_empty() {
        full.append("; last worker event: ");
        full.append(last_event);
    }
    let tail = trim(stderr);
    if !tail.as_str().is_empty() {
        full.append("; stderr tail: ");
        full.append(&tail);
    }
    failure("worker_crashed", full)
}

// ── the end of the error stream ──────────────────────────────────────────
/// How many bytes of a worker's error stream are kept.
pub const MAX_TAIL_BYTES: usize = 8192;

/// The end of a text, cut at a byte.
pub open spec fn tail_of(bytes: Seq<u8>) -> Seq<u8> {
    if bytes.len() > MAX_TAIL_BYTES {
        bytes.skip(bytes.len() - MAX_TAIL_BYTES)
    } else {
        bytes
    }
}

/// The cut does not fall inside a character.
pub open spec fn cuts_cleanly(bytes: Seq<u8>) -> bool {
    bytes.len() > MAX_TAIL_BYTES ==> vstd::utf8::is_char_boundary(
        bytes,
        bytes.len() - MAX_TAIL_BYTES,
    )
}

/// Whether more text can be kept without cutting inside a character.
pub fn tail_fits(tail: &String, text: &str) -> (r: bool)
    ensures
        r == cuts_cleanly(vstd::utf8::encode_utf8(tail@ + text@)),
{
    let full = tail.clone().concat(text);
    let n: usize = full.as_str().as_bytes().len();
    n <= MAX_TAIL_BYTES || full.as_str().is_char_boundary(n - MAX_TAIL_BYTES)
}

/// Keep the end of what a worker wrote to its error stream.
pub fn push_text_tail(tail: &mut String, text: &str)
    requires
        cuts_cleanly(vstd::utf8::encode_utf8(old(tail)@ + text@)),
    ensures
        vstd::utf8::encode_utf8(final(tail)@) == tail_of(
            vstd::utf8::encode_utf8(old(tail)@ + text@),
        ),
{
    tail.append(text);
    let n: usize = tail.as_str().as_bytes().len();
    if n > MAX_TAIL_BYTES {
        let (_, end) = tail.as_str().split_at(n - MAX_TAIL_BYTES);
        let kept = end.to_owned();
        *tail = kept;
    }
}

} // verus!
