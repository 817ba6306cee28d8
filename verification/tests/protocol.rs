//! What is said between the supervisor, its workers and those who ask.
use locus_llvm::catalog::{label_kind, parse_catalog};
use locus_llvm::diagnostics::explain_diagnostic;
use locus_llvm::help::{
    card_or_best, hello_value, help_overview_value, help_remind_value, help_search_value, help_service_value,
    help_topic_value, list_stdlib_services_value, page_or_search, path_display, supervisor_info_value, worker_exe_path,
    worker_info, HelpCard, Hit, WorkerSite,
};
use locus_llvm::ir::Label;
use locus_llvm::json::{
    insert_object_field, list_of_texts, optional_count, optional_text, tool_error, tool_ok, Json,
    ListBuilder, ObjectBuilder,
};
use locus_llvm::manifest::stdlib_entries;
use locus_llvm::requests::{
    file_unit, exe_beside, materialize_target, output_exe, source_unit, Materialize, MaterializeRequest,
    SourcePlan, SourceUnit, BOTH_SOURCES, NO_SOURCE, OUT_REQUIRED,
};
use locus_llvm::rpc::{
    answer_step, call_exit_code, call_message, child_step, initialize_message, initialized_message,
    line_step, list_message, mcp_call_target, mcp_tool_alias, parse_count, request_message, Answer,
    AnswerStep, Arguments, ChildStep,
};
use locus_llvm::session::{
    agent_transcript_json, live_session_id, live_session_json_from_state, unknown_session,
    wait_or_default, waits_on, AgentTranscript, LiveEvent, LiveState, LiveStatus, DEFAULT_WAIT_MS,
};
use locus_llvm::symbols::ModuleSource;
use locus_llvm::text::{join, lines_of, number, pad, trim, trim_end, words_of};
use locus_llvm::worker::{
    asm_value, build_value, check_value, compile_failure, effects_value, event_after_run,
    events_after_compile, events_before_compile, ir_value, live_answer, push_text_tail, run_waits,
    tail_fits, tool_event, tool_waits, worker_completed_json, worker_crashed, worker_first_step,
    worker_run_result, worker_tool_step, CommandRead, DemandEntry, EffectEntry, EffectReport, FirstStep,
    PipelineReport, RunMode, ToolStep, Waiting, Want, WorkerCommand, WorkerCompleted, WorkerEvent,
    WorkerFailure, WorkerJob, MAX_TAIL_BYTES, NOT_A_TOOL, RUN_FOR_TOOL, TOOL_FOR_RUN,
};

// ── reading values ───────────────────────────────────────────────────────
fn at<'a>(value: &'a Json, path: &str) -> &'a Json {
    let mut cur = value;
    for step in path.split('.') {
        cur = match cur {
            Json::Object(fields) => {
                &fields.iter().find(|f| f.key == step).unwrap_or_else(|| panic!("{step} in {value:?}")).value
            }
            Json::List(list) => &list[step.parse::<usize>().expect("a list has positions")],
            other => panic!("{step} of {other:?}"),
        };
    }
    cur
}

fn text<'a>(value: &'a Json, path: &str) -> &'a str {
    match at(value, path) {
        Json::Text(s) => s,
        other => panic!("{path} is {other:?}"),
    }
}

fn num(value: &Json, path: &str) -> i128 {
    match at(value, path) {
        Json::Int(n) => *n as i128,
        Json::Count(n) => *n as i128,
        other => panic!("{path} is {other:?}"),
    }
}

fn flag(value: &Json, path: &str) -> bool {
    match at(value, path) {
        Json::Bool(b) => *b,
        other => panic!("{path} is {other:?}"),
    }
}

fn is_null(value: &Json, path: &str) -> bool {
    matches!(at(value, path), Json::Null)
}

fn length(value: &Json, path: &str) -> usize {
    match at(value, path) {
        Json::List(list) => list.len(),
        other => panic!("{path} is {other:?}"),
    }
}

fn words(list: &[&str]) -> Vec<String> {
    list.iter().map(|x| x.to_string()).collect()
}

// ── values ───────────────────────────────────────────────────────────────
#[test]
fn a_field_is_set_where_it_stands_or_last() {
    let v = ObjectBuilder::new().text("a", "1").flag("b", true).count("c", 3).finish();
    let v = insert_object_field(v, "a", Json::Null);
    let v = insert_object_field(v, "d", Json::Int(-1));
    assert!(is_null(&v, "a"));
    assert!(flag(&v, "b"));
    assert_eq!((num(&v, "c"), num(&v, "d")), (3, -1));
    match &v {
        Json::Object(fields) => assert_eq!(fields.len(), 4),
        other => panic!("{other:?}"),
    }
}

#[test]
fn lists_and_optional_values() {
    let mut b = ListBuilder::new();
    b.push(optional_text(&Some("x".to_string())));
    b.push(optional_text(&None));
    b.push(optional_count(Some(2)));
    b.push(optional_count(None));
    b.push(list_of_texts(&words(&["p", "q"])));
    let v = b.finish();
    assert_eq!(text(&v, "0"), "x");
    assert!(is_null(&v, "1") && is_null(&v, "3"));
    assert_eq!(num(&v, "2"), 2);
    assert_eq!(text(&v, "4.1"), "q");
}

#[test]
fn replies_say_whether_they_are_errors() {
    let good = tool_ok(ObjectBuilder::new().text("x", "y").finish());
    assert!(flag(&good, "ok"));
    assert_eq!(text(&good, "x"), "y");
    let bad = tool_error("code", "message");
    assert!(!flag(&bad, "ok"));
    assert_eq!(text(&bad, "error.code"), "code");
    assert_eq!(text(&bad, "error.message"), "message");
}

#[test]
fn texts_are_cut_and_joined() {
    assert_eq!(trim(" \t a b \n"), "a b");
    assert_eq!(trim_end(" a \r\n"), " a");
    assert_eq!(words_of("  a  b\tc "), words(&["a", "b", "c"]));
    for t in ["a\r\nb\n\nc", "a\n", "", "\r", "a\r\r\nb\r"] {
        assert_eq!(lines_of(t), t.lines().map(|l| l.to_string()).collect::<Vec<String>>(), "{t:?}");
    }
    assert_eq!(join(&words(&["a", "b", "c"]), 1, "-"), "b-c");
    assert_eq!(number(1200), "1200");
    assert_eq!(pad("ab", 4), "ab  ");
    assert_eq!(pad("abcde", 4), "abcde");
}

#[test]
fn an_explained_code_has_its_help() {
    let v = explain_diagnostic(" rn-e0402 ");
    assert_eq!(text(&v, "code"), "RN-E0402");
    assert_eq!(text(&v, "slug"), "cap.mint-outside-boundary");
}

// ── requests ─────────────────────────────────────────────────────────────
#[test]
fn source_request_requires_one_source() {
    assert_eq!(source_unit(None, None, None).unwrap_err(), NO_SOURCE);
    assert_eq!(
        source_unit(Some("x.locus".into()), Some("1".into()), None).unwrap_err(),
        BOTH_SOURCES
    );
    match source_unit(None, Some("1".into()), None).unwrap() {
        SourcePlan::Given(unit) => assert_eq!(unit.source, "1"),
        other => panic!("{other:?}"),
    }
    match source_unit(Some("x.locus".into()), None, Some(words(&["A"]))).unwrap() {
        SourcePlan::Read { file, extra } => assert_eq!((file, extra), ("x.locus".to_string(), words(&["A"]))),
        other => panic!("{other:?}"),
    }
}

#[test]
fn a_file_is_trusted_as_its_project_and_its_request_say() {
    let unit = file_unit("x.locus".into(), &words(&["B"]), &words(&["A"]), Ok("1".into())).unwrap();
    assert_eq!(unit.source, "1");
    assert_eq!(unit.name, "x.locus");
    assert!(unit.authorized.contains(&"A".to_string()) && unit.authorized.contains(&"B".to_string()));
    assert!(file_unit("x.locus".into(), &vec![], &vec![], Err("no such file".into())).is_err());
}

#[test]
fn an_executable_goes_where_it_was_asked_for() {
    assert_eq!(output_exe(Some("a.locus".into()), Some("b".into())).unwrap(), "b");
    assert_eq!(output_exe(None, Some("b.exe".into())).unwrap(), "b.exe");
    assert_eq!(output_exe(Some("a.locus".into()), None).unwrap(), "a.exe");
    assert_eq!(exe_beside("demos/tic.tac.locus"), "demos/tic.tac.exe");
    assert_eq!(exe_beside("demos.d/tic"), "demos.d/tic.exe");
    assert_eq!(exe_beside("tic"), "tic.exe");
    assert_eq!(exe_beside(".locus"), ".locus.exe");
    assert_eq!(exe_beside("demos/.locus"), "demos/.locus.exe");
    assert_eq!(exe_beside("demos/tic..locus"), "demos/tic..exe");
    assert_eq!(exe_beside("tic:tac"), "tic:tac.exe");
    assert_eq!(output_exe(Some("a.b:c".into()), None).unwrap(), "a.exe");
    assert_eq!(output_exe(Some("prog.locus:alt".into()), None).unwrap(), "prog.exe");
    assert_eq!(output_exe(None, None).unwrap_err(), OUT_REQUIRED);
}

fn materialize(target: Option<&str>, artifact: Option<&str>) -> Materialize {
    materialize_target(MaterializeRequest {
        target: target.map(|x| x.to_string()),
        artifact: artifact.map(|x| x.to_string()),
        file: None,
        source: Some("1".to_string()),
        boundary_modules: None,
        out: Some("a.exe".to_string()),
        optimize: Some(true),
        always_gc: None,
    })
}

#[test]
fn only_known_targets_and_artifacts_are_made() {
    assert!(matches!(materialize(None, None), Materialize::Executable(b) if b.out.as_deref() == Some("a.exe")));
    assert!(matches!(materialize(Some("windows-x86_64"), Some("asm")), Materialize::Assembly(a) if a.optimize == Some(true)));
    assert!(matches!(materialize(Some("x86_64-pc-windows-msvc"), Some("exe")), Materialize::Executable(_)));
    match materialize(Some("wasm32"), None) {
        Materialize::Refused(v) => assert!(!flag(&v, "ok")),
        other => panic!("{other:?}"),
    }
    match materialize(None, Some("pdf")) {
        Materialize::Refused(v) => assert!(text(&v, "error.message").contains("pdf")),
        other => panic!("{other:?}"),
    }
}

// ── workers ──────────────────────────────────────────────────────────────
fn report(ty: &str, effects: &[&str]) -> PipelineReport {
    PipelineReport {
        ty: ty.to_string(),
        effects: effects
            .iter()
            .map(|l| EffectEntry { label: l.to_string(), category: "world".into(), description: "d".into() })
            .collect(),
        demanded: vec![DemandEntry { symbol: "GetTickCount64".into(), dll: "kernel32.dll".into() }],
    }
}

fn unit(name: &str) -> SourceUnit {
    SourceUnit { name: name.to_string(), source: "1".to_string(), authorized: vec![] }
}

#[test]
fn worker_tool_check_sees_worker_stdlib_services() {
    match worker_tool_step(WorkerJob::Check { source: unit("x") }) {
        ToolStep::Compile { source, want: Want::Check } => assert_eq!(source.name, "x"),
        other => panic!("{:?}", std::mem::discriminant(&other)),
    }
    let v = check_value("x", &report("Int", &[]));
    assert_eq!(text(&v, "type"), "Int");
    assert!(flag(&v, "pure"));
    assert!(!flag(&check_value("x", &report("Int", &["fs"])), "pure"));
}

#[test]
fn a_tool_worker_does_not_run_programs() {
    match worker_tool_step(WorkerJob::Run { source: unit("x") }) {
        ToolStep::Refused(f) => assert_eq!(f.message, NOT_A_TOOL),
        _ => panic!("a run is refused"),
    }
    assert!(matches!(
        worker_tool_step(WorkerJob::HelpSearch { query: "q".into(), limit: None }),
        ToolStep::Search { limit: 8, .. }
    ));
}

#[test]
fn tools_report_what_they_made() {
    let r = report("Int", &["fs"]);
    assert_eq!(text(&ir_value("x", &r, "ret 1"), "ir"), "ret 1");
    let v = asm_value("x", &r, true, Ok("mov".into())).unwrap();
    assert_eq!(text(&v, "asm"), "mov");
    assert!(flag(&v, "optimized"));
    assert!(asm_value("x", &r, true, Err("bad".into())).is_err());
    let v = build_value("x", &r, "a.exe", &words(&["user32.lib"]), false, Ok(())).unwrap();
    assert_eq!(text(&v, "output"), "a.exe");
    assert_eq!(text(&v, "import_libs.0"), "user32.lib");
    assert!(build_value("x", &r, "a.exe", &vec![], false, Err("bad".into())).is_err());
    let found = EffectReport { ty: "Int".into(), effects: vec![] };
    assert!(flag(&effects_value("x", Ok(found)).unwrap(), "pure"));
    assert!(effects_value("x", Err("bad".into())).is_err());
    assert_eq!(compile_failure("m".into()).message, "m");
}

#[test]
fn a_run_is_reported_step_by_step() {
    match worker_first_step(WorkerJob::RunAgentText {
        source: unit("x"),
        responses: words(&["d3"]),
        default_response: String::new(),
    }) {
        FirstStep::Compile { mode: RunMode::Queued { responses, .. }, .. } => assert_eq!(responses, words(&["d3"])),
        _ => panic!("a run is compiled first"),
    }
    assert!(matches!(worker_first_step(WorkerJob::Hello), FirstStep::Tool(WorkerJob::Hello)));
    let before = events_before_compile("x");
    assert!(matches!(&before[0], WorkerEvent::Started { name } if name == "x"));
    assert!(matches!(&before[1], WorkerEvent::CompileStarted));
    let after = events_after_compile(&Ok(report("Int", &[])));
    assert!(matches!(&after[0], WorkerEvent::CompileFinished { ty, .. } if ty == "Int"));
    assert!(matches!(&after[1], WorkerEvent::RunStarted));
    let failed = events_after_compile(&Err("no".to_string()));
    assert!(matches!(&failed[0], WorkerEvent::Failed { message, .. } if message == "no"));
    assert_eq!(failed.len(), 1);
    match event_after_run("x".into(), report("Int", &[]), Ok(7), None) {
        WorkerEvent::Completed { result, .. } => assert_eq!((result.result_i64, result.exit_code), (7, 7)),
        other => panic!("{other:?}"),
    }
    assert!(matches!(
        event_after_run("x".into(), report("Int", &[]), Err("trap".into()), None),
        WorkerEvent::Failed { message, .. } if message == "trap"
    ));
}

#[test]
fn an_exit_code_is_the_low_half_of_the_result() {
    assert_eq!(worker_run_result("x".into(), report("Int", &[]), 0x1_0000_0003).exit_code, 3);
    assert_eq!(worker_run_result("x".into(), report("Int", &[]), -1).exit_code, -1);
}

#[test]
fn run_agent_text_executes_and_returns_transcript() {
    let transcript = agent_transcript_json(&AgentTranscript {
        events: vec![
            LiveEvent::Ask { prompt: "move?".into(), response: Some("d3".into()), used_default: false },
            LiveEvent::Tell { text: "d3".into() },
        ],
        remaining_responses: 0,
    });
    let event = event_after_run("x".into(), report("Int", &[]), Ok(7), Some(transcript));
    let done = match run_waits(event) {
        Waiting::Done(done) => done,
        _ => panic!("the run is over"),
    };
    let value = worker_completed_json(done);
    assert_eq!(num(&value, "result_i64"), 7);
    assert_eq!(text(&value, "agent_io_model"), "queued_replay");
    assert_eq!(text(&value, "agent_transcript.mode"), "queued_replay");
    assert_eq!(text(&value, "agent_transcript.events.0.kind"), "ask");
    assert_eq!(text(&value, "agent_transcript.events.0.prompt"), "move?");
    assert!(!flag(&value, "agent_transcript.events.0.used_default"));
    assert_eq!(text(&value, "agent_transcript.asks.0.response"), "d3");
    assert_eq!(text(&value, "agent_transcript.events.1.kind"), "tell");
}

#[test]
fn a_supervisor_waits_for_the_event_that_ends_its_job() {
    assert!(matches!(tool_waits(WorkerEvent::CompileStarted), Waiting::Go));
    assert!(matches!(tool_waits(tool_event(Ok(Json::Null))), Waiting::Done(Json::Null)));
    let failure = || WorkerFailure { code: "c".into(), message: "m".into() };
    assert!(matches!(tool_waits(tool_event(Err(failure()))), Waiting::Failed(f) if f.message == "m"));
    let done = || event_after_run("x".into(), report("Int", &[]), Ok(1), None);
    assert!(matches!(tool_waits(done()), Waiting::Failed(f) if f.message == RUN_FOR_TOOL));
    assert!(matches!(run_waits(tool_event(Ok(Json::Null))), Waiting::Failed(f) if f.message == TOOL_FOR_RUN));
    assert!(matches!(run_waits(done()), Waiting::Done(_)));
    let plain = WorkerCompleted {
        result: worker_run_result("x".into(), report("Int", &[]), 1),
        agent_transcript: None,
    };
    assert_eq!(num(&worker_completed_json(plain), "result_i64"), 1);
}

#[test]
fn a_program_gets_an_answer_or_an_empty_one() {
    assert_eq!(
        live_answer(CommandRead::Command(WorkerCommand::Reply { response: "x".into() })),
        Some("x".to_string())
    );
    assert_eq!(live_answer(CommandRead::Command(WorkerCommand::Cancel)), Some(String::new()));
    assert_eq!(live_answer(CommandRead::Ended), Some(String::new()));
    assert_eq!(live_answer(CommandRead::Garbled), Some(String::new()));
    assert_eq!(live_answer(CommandRead::Broken), None);
}

#[test]
fn a_crash_is_reported_with_what_was_seen() {
    let f = worker_crashed("worker exited", &Some("exit code: 3".into()), "oops", "run_started");
    for part in ["worker exited", "exit code: 3", "oops", "run_started"] {
        assert!(f.message.contains(part), "{part}: {}", f.message);
    }
}

#[test]
fn a_tail_keeps_the_last_bytes() {
    let mut tail = String::new();
    assert!(tail_fits(&tail, "abc"));
    push_text_tail(&mut tail, "abc");
    assert_eq!(tail, "abc");
    let wide = "é".repeat(MAX_TAIL_BYTES / 2);
    assert!(tail_fits(&"é".to_string(), &wide), "the cut falls between characters");
    assert!(!tail_fits(&"é".to_string(), &"x".repeat(MAX_TAIL_BYTES - 1)), "the cut falls inside one");
    let long = "x".repeat(MAX_TAIL_BYTES);
    push_text_tail(&mut tail, &long);
    assert_eq!(tail, long);
    push_text_tail(&mut tail, "end");
    assert_eq!(tail.len(), MAX_TAIL_BYTES);
    assert!(tail.ends_with("xend"));
}

// ── live sessions ────────────────────────────────────────────────────────
#[test]
fn live_agent_session_round_trips_replies() {
    let mut state = LiveState::start("x".into());
    state.on_event(WorkerEvent::Started { name: "x".into() });
    state.on_event(WorkerEvent::Ask { prompt: "first?".into() });
    let id = live_session_id(1);
    let start = live_session_json_from_state(&id, &state, "/w", None);
    assert_eq!(text(&start, "status"), "waiting");
    assert_eq!(text(&start, "agent_io_model"), "live_session");
    assert_eq!(text(&start, "current_ask.prompt"), "first?");
    assert_eq!(text(&start, "session_id"), id);

    state.reply(&id, "a".into()).unwrap();
    state.on_event(WorkerEvent::Tell { text: "a".into() });
    state.on_event(WorkerEvent::Ask { prompt: "second?".into() });
    let first = live_session_json_from_state(&id, &state, "/w", Some(1));
    assert_eq!(text(&first, "status"), "waiting");
    assert_eq!(text(&first, "current_ask.prompt"), "second?");
    assert_eq!(num(&first, "event_window_start"), 1);
    assert_eq!(num(&first, "total_event_count"), 3);
    assert_eq!(num(&first, "event_count"), 2);
    assert!(is_null(&first, "latest_score"));
    assert_eq!(text(&first, "asks.0.prompt"), "second?");
    assert_eq!(text(&first, "tells.0.text"), "a");

    state.reply(&id, "b".into()).unwrap();
    assert!(!state.on_event(event_after_run("x".into(), report("Int", &[]), Ok(42), None)));
    let second = live_session_json_from_state(&id, &state, "/w", None);
    assert_eq!(text(&second, "status"), "completed");
    assert_eq!(num(&second, "result.result_i64"), 42);
    assert_eq!(text(&second, "asks.1.response"), "b");

    state.close();
    assert_eq!(state.status, LiveStatus::Completed, "a session that is over stays as it ended");
}

#[test]
fn a_session_answers_only_what_was_asked() {
    let mut state = LiveState::start("x".into());
    assert!(state.reply("s", "a".into()).is_err());
    state.on_event(WorkerEvent::Ask { prompt: "q".into() });
    assert!(state.reply("s", "a".into()).is_ok());
    let refused = state.reply("s", "b".into()).unwrap_err();
    assert_eq!(text(&refused, "error.code"), "agent_session_not_waiting");
    assert_eq!(text(&refused, "error.message"), "session `s` is `running`; no agent_ask_text is waiting");
    let unknown = unknown_session("s-1");
    assert_eq!(text(&unknown, "error.code"), "unknown_agent_session");
    assert_eq!(text(&unknown, "error.message"), "unknown live agent session `s-1`");
}

#[test]
fn a_closed_session_cannot_fail() {
    let mut state = LiveState::start("x".into());
    state.close();
    state.fail_if_running("late".into());
    assert_eq!(state.status, LiveStatus::Closed);
    let mut other = LiveState::start("y".into());
    other.fail("bad".into());
    assert_eq!(other.status, LiveStatus::Failed);
    assert_eq!(other.error.as_deref(), Some("bad"));
}

#[test]
fn sessions_have_names_of_their_own() {
    assert_ne!(live_session_id(1), live_session_id(2));
    assert_eq!(wait_or_default(None), DEFAULT_WAIT_MS);
    assert_eq!(wait_or_default(Some(5)), 5);
    assert!(waits_on(LiveStatus::Running, 0, 10));
    assert!(!waits_on(LiveStatus::Running, 10, 10));
    assert!(!waits_on(LiveStatus::Waiting, 0, 10));
}

// ── the catalog ──────────────────────────────────────────────────────────
const CATALOG: &str = "\
# label category gloss
order boundary world memory control user staging
winapi boundary the raw FFI edge
mem memory raw memory
gc memory the managed heap
kind:world world an outside capability
kind:exn control an exception
kind:user user an effect of the program
kind:staging staging generated code
kind:gc memory the managed heap
";

#[test]
fn catalog_classifies_every_label_kind() {
    let c = parse_catalog(CATALOG);
    let category = |l: Label| c.lookup(&l).0;
    assert_eq!(category(Label::World("winapi".into())), "boundary");
    assert_eq!(category(Label::World("console".into())), "world");
    assert_eq!(category(Label::World("fs".into())), "world");
    assert_eq!(category(Label::World("mem".into())), "memory");
    assert_eq!(category(Label::Gc), "memory");
    assert_eq!(category(Label::Exn("Overflow".into())), "control");
    assert_eq!(category(Label::User("Db".into())), "user");
    assert_eq!(category(Label::Insert), "staging");
}

#[test]
fn unlisted_labels_fall_back_to_their_kind() {
    let c = parse_catalog(CATALOG);
    assert_eq!(c.lookup(&Label::World("bluetooth".into())).0, "world");
    assert_eq!(c.lookup(&Label::User("Telemetry".into())).0, "user");
    assert!(!c.lookup(&Label::User("Telemetry".into())).1.is_empty());
    assert_eq!(c.effect_entry(&Label::World("winapi".into())).description, "the raw FFI edge");
    assert_eq!(label_kind(&Label::World("x".into())), "world");
}

// ── help ─────────────────────────────────────────────────────────────────
fn card(id: &str) -> HelpCard {
    HelpCard {
        id: id.to_string(),
        kind: "service".into(),
        title: id.to_string(),
        summary: "s".into(),
        syntax: "x".into(),
        example: "e".into(),
        details: words(&["d"]),
        related: vec![],
        keywords: words(&["k"]),
    }
}

fn site() -> WorkerSite {
    WorkerSite {
        version: "0.1.0".into(),
        path: "/bin/locusc".into(),
        os: "linux".into(),
        arch: "x86_64".into(),
        abi_version: 3,
        diagnostic_schema: "d/1".into(),
    }
}

fn about() -> Json {
    let modules = vec![ModuleSource { layer: 0, name: "winapi".into(), source: "w".into() }];
    worker_info(&site(), &modules, &vec![])
}

#[test]
fn help_search_finds_agent_channel() {
    let hits = vec![Hit { score: 9, card: card("service.Agent.agent_ask_text") }];
    let value = help_search_value("ask agent text", &hits, about());
    assert_eq!(text(&value, "results.0.card.id"), "service.Agent.agent_ask_text");
    assert_eq!(num(&value, "results.0.score"), 9);
}

#[test]
fn help_service_returns_exact_card() {
    let value = help_service_value("Agent", &Some(card("service.Agent")), about()).unwrap();
    assert_eq!(text(&value, "card.id"), "service.Agent");
    assert!(help_service_value("Zzz", &None, about()).unwrap_err().message.contains("Zzz"));
    assert!(help_topic_value("zzz", &None, about()).unwrap_err().message.contains("zzz"));
}

#[test]
fn help_overview_reports_worker_and_supervisor_metadata() {
    let value = help_overview_value(&vec![card("syntax.loops")], &vec![card("service.Agent")], "/w", about());
    let value = insert_object_field(value, "supervisor", supervisor_info_value("0.1.0", "/bin/s", "/bin/w"));
    assert_eq!(text(&value, "worker.protocol"), "locus-worker/1");
    assert_eq!(text(&value, "supervisor.protocol"), "locus-mcp-supervisor/1");
    assert!(text(&value, "worker.stdlib_hash").starts_with("0x"));
    assert_eq!(num(&value, "worker.abi_version"), 3);
}

#[test]
fn a_topic_is_its_own_card_or_the_best_hit() {
    let hits = || vec![Hit { score: 9, card: card("best") }, Hit { score: 1, card: card("other") }];
    assert_eq!(card_or_best(Some(card("own")), hits()).unwrap().id, "own");
    assert_eq!(card_or_best(None, hits()).unwrap().id, "best");
    assert!(card_or_best(None, vec![]).is_none());
    assert_eq!(page_or_search(Some("own".into()), "hits".into()), "own");
    assert_eq!(page_or_search(None, "hits".into()), "hits");
}

#[test]
fn a_reminder_of_nothing_says_so() {
    let found = help_remind_value("loops", &Some(card("syntax.loops")), about());
    assert_eq!(text(&found, "schema"), "locus-help/1");
    let hello = hello_value(about());
    assert_eq!(text(&hello, "worker.protocol"), "locus-worker/1");
    let list = list_stdlib_services_value(
        &stdlib_entries("windows", &vec![ModuleSource { layer: 0, name: "winapi".into(), source: "w".into() }]),
        &vec![],
        "/w",
        about(),
    );
    assert!(matches!(list, Json::Object(_)));
}

#[test]
fn a_configured_worker_comes_first() {
    let own: Result<String, String> = Ok("/bin/me".into());
    assert_eq!(worker_exe_path(&Some("/bin/w".into()), own.clone()), Ok("/bin/w".to_string()));
    assert_eq!(worker_exe_path(&None, own.clone()), Ok("/bin/me".to_string()));
    assert!(worker_exe_path(&None, Err("lost".into())).unwrap_err().contains("lost"));
    assert_eq!(path_display(&own), "/bin/me");
}

// ── one call from the command line ───────────────────────────────────────
#[test]
fn a_call_is_read_from_the_command_line() {
    let call = mcp_call_target(&words(&["tools"])).unwrap();
    assert!(call.list_tools);
    let call = mcp_call_target(&words(&["run", "--source", "1 + 1"])).unwrap();
    assert_eq!(call.tool, mcp_tool_alias("run"));
    match &call.arguments {
        Arguments::Value(v) => assert_eq!(text(v, "source"), "1 + 1"),
        other => panic!("{other:?}"),
    }
    let call = mcp_call_target(&words(&["help_search", "loop", "3"])).unwrap();
    match &call.arguments {
        Arguments::Value(v) => assert_eq!((text(v, "query"), num(v, "limit")), ("loop", 3)),
        other => panic!("{other:?}"),
    }
    assert!(mcp_call_target(&vec![]).is_err());
}

#[test]
fn written_arguments_must_be_json() {
    let call = mcp_call_target(&words(&["call", "check", "{\"source\": \"1\"}"])).unwrap();
    assert!(matches!(&call.arguments, Arguments::Written(s) if s == "{\"source\": \"1\"}"));
    let e = mcp_call_target(&words(&["call", "check", "{\"source\""])).unwrap_err();
    assert!(!e.is_empty());
    let other = mcp_call_target(&words(&["call", "check", "nonsense"])).unwrap_err();
    assert_ne!(e, other, "the fault is that of the text");
}

#[test]
fn counts_are_read_or_refused() {
    assert_eq!(parse_count("12"), Ok(12));
    assert_eq!(parse_count("+7"), "+7".parse::<usize>().map_err(|_| ""));
    for bad in ["", "-1", "+", "1x", "99999999999999999999999", "99999999999999999999999x", "1x99999999999999999999999"] {
        let e = bad.parse::<usize>().unwrap_err().to_string();
        assert_eq!(parse_count(bad), Err(e.as_str()), "{bad}");
    }
}

#[test]
fn messages_have_the_shape_of_the_protocol() {
    let m = initialize_message(1, "0.1.0");
    assert_eq!(text(&m, "jsonrpc"), "2.0");
    assert_eq!(text(&m, "method"), "initialize");
    assert_eq!(num(&m, "id"), 1);
    assert_eq!(text(&initialized_message(), "method"), "notifications/initialized");
    assert_eq!(text(&list_message(2), "method"), "tools/list");
    let c = call_message(3, "check", Json::Null);
    assert_eq!(text(&c, "method"), "tools/call");
    assert_eq!(text(&c, "params.name"), "check");
}

#[test]
fn an_answer_belongs_to_its_question() {
    let answer = |id: Option<i64>, error: Option<&str>, has_result: bool| Answer {
        id,
        error: error.map(|x| x.to_string()),
        has_result,
        text: "{}".into(),
    };
    assert!(matches!(answer_step(&answer(Some(1), None, true), 2), AnswerStep::Skip));
    assert!(matches!(answer_step(&answer(None, None, true), 2), AnswerStep::Skip));
    assert!(matches!(answer_step(&answer(Some(2), None, true), 2), AnswerStep::Result));
    assert!(matches!(answer_step(&answer(Some(2), Some("bad"), false), 2), AnswerStep::Failed(e) if e.contains("bad")));
    assert!(matches!(answer_step(&answer(Some(2), None, false), 2), AnswerStep::Failed(_)));
}

#[test]
fn a_line_is_read_as_the_message_it_holds() {
    assert!(matches!(line_step("{\"id\": 2, \"result\": null}\n", 2), AnswerStep::Result));
    assert!(matches!(line_step("{\"id\": 1, \"result\": 3}", 2), AnswerStep::Skip));
    assert!(matches!(line_step("{\"method\": \"note\"}", 2), AnswerStep::Skip));
    assert!(matches!(line_step("{\"id\": \"2\", \"result\": 3}", 2), AnswerStep::Skip));
    match line_step("{\"id\": 2, \"error\": {\"code\": -1}, \"result\": 1}", 2) {
        AnswerStep::Failed(e) => assert_eq!(e, "MCP error: {\n  \"code\": -1\n}"),
        other => panic!("{other:?}"),
    }
    match line_step("{ \"id\" : 2 }\n", 2) {
        AnswerStep::Failed(e) => assert_eq!(e, "MCP response missing result: {\"id\":2}"),
        other => panic!("{other:?}"),
    }
    match line_step("not json\n", 2) {
        AnswerStep::Failed(e) => {
            assert!(e.starts_with("invalid MCP JSON: expected ident"), "{e}");
            assert!(e.ends_with(": not json\n"), "{e}");
        }
        other => panic!("{other:?}"),
    }
}

#[test]
fn a_request_carries_what_the_call_asks_for() {
    let request = |args: &[&str]| {
        let args: Vec<String> = args.iter().map(|a| a.to_string()).collect();
        request_message(2, mcp_call_target(&args).expect("a call"))
    };
    assert_eq!(text(&request(&["tools"]), "method"), "tools/list");
    let written = request(&["call", "ir", "{\"x\": 1.5}"]);
    assert_eq!(text(&written, "params.name"), "emit_ir");
    assert!(matches!(at(&written, "params.arguments"), Json::Written(s) if s == "{\"x\": 1.5}"));
    let made = request(&["check", "--source", "1 + 1"]);
    assert_eq!(text(&made, "method"), "tools/call");
    assert_eq!(text(&made, "params.arguments.source"), "1 + 1");
}

#[test]
fn an_error_reply_is_a_failed_call() {
    assert_eq!(call_exit_code(Some(Some(true)), None), 1);
    assert_eq!(call_exit_code(Some(Some(false)), None), 0);
    assert_eq!(call_exit_code(None, Some(Some(true))), 1);
    assert_eq!(call_exit_code(None, None), 0);
}

#[test]
fn a_child_is_given_its_time() {
    assert_eq!(child_step(true, 5, 5), ChildStep::Ended);
    assert_eq!(child_step(false, 4, 5), ChildStep::Sleep);
    assert_eq!(child_step(false, 5, 5), ChildStep::Kill);
}
