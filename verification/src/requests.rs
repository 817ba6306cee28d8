//! What the compiler's tools are asked, and what a request leads to.
use crate::json::{tool_error, Json};
use crate::names::{sort_names, sorted_names};
use crate::text::is_text;
use vstd::prelude::*;
use vstd::string::*;

verus! {

/// A request about a program.
#[derive(Debug)]
pub struct SourceRequest {
    /// Path to a .locus source file. Mutually exclusive with source.
    pub file: Option<String>,
    /// Inline Locus source. Mutually exclusive with file.
    pub source: Option<String>,
    /// Additional boundary modules to trust for this request.
    pub boundary_modules: Option<Vec<String>>,
}

/// A request to run a program on queued responses.
#[derive(Debug)]
pub struct AgentRunRequest {
    /// Path to a .locus source file. Mutually exclusive with source.
    pub file: Option<String>,
    /// Inline Locus source. Mutually exclusive with file.
    pub source: Option<String>,
    /// Additional boundary modules to trust for this request.
    pub boundary_modules: Option<Vec<String>>,
    /// Queued text responses consumed in order by `agent_ask_text`.
    /// This is a replay model: inspect the transcript, then rerun with a longer queue.
    pub responses: Option<Vec<String>>,
    /// Response used when the queued responses are exhausted. Defaults to empty text.
    /// Ask events set `used_default: true` when this fallback was used.
    pub default_response: Option<String>,
}

/// A request to start a live session.
#[derive(Debug)]
pub struct AgentSessionStartRequest {
    /// Path to a .locus source file. Mutually exclusive with source.
    pub file: Option<String>,
    /// Inline Locus source. Mutually exclusive with file.
    pub source: Option<String>,
    /// Additional boundary modules to trust for this request.
    pub boundary_modules: Option<Vec<String>>,
    /// How long to wait for the first ask/completion before returning. Defaults to 10000 ms.
    pub wait_ms: Option<u64>,
}

/// A reply to a live session.
#[derive(Debug)]
pub struct AgentSessionReplyRequest {
    /// Live agent session id returned by agent_session_start.
    pub session_id: String,
    /// Response text to deliver to the currently waiting agent_ask_text call.
    pub response: String,
    /// If set, return events/asks/tells windows from this event index onward.
    /// Compact latest_* fields and total_event_count are still returned.
    pub since_event_index: Option<usize>,
    /// How long to wait for the next ask/completion before returning. Defaults to 10000 ms.
    pub wait_ms: Option<u64>,
}

/// A question after the state of a live session.
#[derive(Debug)]
pub struct AgentSessionStatusRequest {
    /// Live agent session id returned by agent_session_start.
    pub session_id: String,
    /// If set, return events/asks/tells windows from this event index onward.
    /// Compact latest_* fields and total_event_count are still returned.
    pub since_event_index: Option<usize>,
    /// Optional long-poll wait. Defaults to 0 ms for immediate status.
    pub wait_ms: Option<u64>,
}

/// A request to end a live session.
#[derive(Debug)]
pub struct AgentSessionCloseRequest {
    /// Live agent session id returned by agent_session_start.
    pub session_id: String,
}

/// A request for an executable.
#[derive(Debug)]
pub struct BuildRequest {
    /// Path to a .locus source file. Mutually exclusive with source.
    pub file: Option<String>,
    /// Inline Locus source. Mutually exclusive with file.
    pub source: Option<String>,
    /// Additional boundary modules to trust for this request.
    pub boundary_modules: Option<Vec<String>>,
    /// Output executable path. Defaults to FILE with .exe for file input.
    pub out: Option<String>,
    /// Link the collector even when the program does not allocate.
    pub always_gc: Option<bool>,
}

/// A request for assembly.
#[derive(Debug)]
pub struct AsmRequest {
    /// Path to a .locus source file. Mutually exclusive with source.
    pub file: Option<String>,
    /// Inline Locus source. Mutually exclusive with file.
    pub source: Option<String>,
    /// Additional boundary modules to trust for this request.
    pub boundary_modules: Option<Vec<String>>,
    /// Emit optimized assembly, matching the shipped artifact.
    pub optimize: Option<bool>,
}

/// A request for an artifact of a target.
#[derive(Debug)]
pub struct MaterializeRequest {
    /// Target triple or alias. Supported today: host, windows-x86_64, x86_64-pc-windows-msvc.
    pub target: Option<String>,
    /// Artifact kind: exe or asm.
    pub artifact: Option<String>,
    /// Path to a .locus source file. Mutually exclusive with source.
    pub file: Option<String>,
    /// Inline Locus source. Mutually exclusive with file.
    pub source: Option<String>,
    /// Additional boundary modules to trust for this request.
    pub boundary_modules: Option<Vec<String>>,
    /// Output path. Required for inline-source exe materialization.
    pub out: Option<String>,
    /// Emit optimized assembly when artifact is asm.
    pub optimize: Option<bool>,
    /// Link the collector even when the program does not allocate.
    pub always_gc: Option<bool>,
}

/// A question after a diagnostic code.
#[derive(Debug)]
pub struct ExplainRequest {
    /// Diagnostic code, for example RN-E0402.
    pub code: String,
}

/// A search of the help.
#[derive(Debug)]
pub struct HelpSearchRequest {
    /// Search words, for example "ask agent text", "loop array", or "read file".
    pub query: String,
    /// Maximum number of results. Defaults to 8.
    pub limit: Option<usize>,
}

/// A question after a help topic.
#[derive(Debug)]
pub struct HelpTopicRequest {
    /// Stable help id or title, for example syntax.loops, effects.rows, or agent.start.
    pub id: String,
}

/// A question after a service.
#[derive(Debug)]
pub struct HelpServiceRequest {
    /// Service module or function name, for example Agent, agent_ask_text, or String.
    pub name: String,
}

/// A question after a reminder.
#[derive(Debug)]
pub struct HelpRemindRequest {
    /// Topic words or stable id for a compact reminder.
    pub topic: String,
}

/// A program to compile: its name, its text and the boundary modules it may
/// trust, in order and each once.
#[derive(Debug)]
pub struct SourceUnit {
    pub name: String,
    pub source: String,
    pub authorized: Vec<String>,
}

/// Where the text of a program comes from.
#[derive(Debug)]
pub enum SourcePlan {
    /// It was given.
    Given(SourceUnit),
    /// It is to be read from a file, whose project may authorize modules too.
    Read { file: String, extra: Vec<String> },
}

/// The modules that a request names, if any.
pub open spec fn named_modules(extra: Option<Vec<String>>) -> Seq<String> {
    match extra {
        Some(list) => list@,
        None => Seq::empty(),
    }
}

pub const BOTH_SOURCES: &'static str = "provide either `file` or `source`, not both";

pub const NO_SOURCE: &'static str = "provide `file` or `source`";

fn or_empty(list: Option<Vec<String>>) -> (r: Vec<String>)
    ensures
        r@ == named_modules(list),
{
    match list {
        Some(list) => list,
        None => Vec::new(),
    }
}

/// Where the text of a program comes from: exactly one of the two must be given.
pub fn source_unit(
    file: Option<String>,
    source: Option<String>,
    extra_boundary_modules: Option<Vec<String>>,
) -> (r: Result<SourcePlan, String>)
    ensures
        match (file, source) {
            (Some(_), Some(_)) => r matches Err(e) && e@ == BOTH_SOURCES@,
            (None, None) => r matches Err(e) && e@ == NO_SOURCE@,
            (Some(f), None) => r matches Ok(SourcePlan::Read { file: g, extra }) && g == f && extra@
                == sorted_names(named_modules(extra_boundary_modules)),
            (None, Some(s)) => r matches Ok(SourcePlan::Given(unit)) && unit.name@ == "<source>"@
                && unit.source == s && unit.authorized@ == sorted_names(
                named_modules(extra_boundary_modules),
            ),
        },
{
    let named = or_empty(extra_boundary_modules);
    let extra = sort_names(&named);
    match (file, source) {
        (Some(_), Some(_)) => Err(BOTH_SOURCES.to_owned()),
        (None, None) => Err(NO_SOURCE.to_owned()),
        (Some(file), None) => Ok(SourcePlan::Read { file, extra }),
        (None, Some(source)) => Ok(
            SourcePlan::Given(
                SourceUnit { name: "<source>".to_owned(), source, authorized: extra },
            ),
        ),
    }
}

fn append_names(out: &mut Vec<String>, more: &Vec<String>)
    ensures
        final(out)@ == old(out)@ + more@,
{
    let ghost start = out@;
    let mut i: usize = 0;
    assert(start + more@.take(0) =~= start);
    while i < more.len()
        invariant
            i <= more.len(),
            out@ == start + more@.take(i as int),
        decreases more.len() - i,
    {
        out.push(more[i].clone());
        i = i + 1;
        assert(out@ =~= start + more@.take(i as int));
    }
    assert(more@.take(more@.len() as int) =~= more@);
}

/// What is said of a file that cannot be read.
pub open spec fn read_error(file: Seq<char>, why: Seq<char>) -> Seq<char> {
    "reading `"@ + file + "`: "@ + why
}

/// The program of a file: what was read of it, and the modules that its project
/// and the request authorize.
pub fn file_unit(
    file: String,
    extra: &Vec<String>,
    manifest: &Vec<String>,
    text: Result<String, String>,
) -> (r: Result<SourceUnit, String>)
    ensures
        match text {
            Err(why) => r matches Err(e) && e@ == read_error(file@, why@),
            Ok(s) => r matches Ok(unit) && unit.name == file && unit.source == s
                && unit.authorized@ == sorted_names(manifest@ + extra@),
        },
{
    match text {
        Err(why) => Err("reading `".to_owned().concat(&file).concat("`: ").concat(&why)),
        Ok(source) => {
            let mut all: Vec<String> = Vec::new();
            append_names(&mut all, manifest);
            append_names(&mut all, extra);
            assert(all@ =~= manifest@ + extra@);
            Ok(SourceUnit { name: file, source, authorized: sort_names(&all) })
        },
    }
}

/// A character that parts the names of a path, on one system or another.
pub open spec fn parts_path(c: char) -> bool {
    c == '/' || c == '\\' || c == ':'
}

/// A text in which no character parts the names of a path.
pub open spec fn one_name(s: Seq<char>) -> bool {
    forall|i: int| 0 <= i < s.len() ==> !parts_path(#[trigger] s[i])
}

/// A path that begins with two characters that part names.
pub open spec fn shared(path: Seq<char>) -> bool {
    path.len() >= 2 && parts_path(path[0]) && parts_path(path[1])
}

/// The path ends in a file name with an extension: `stem`, a dot and `old`.
pub open spec fn has_extension(path: Seq<char>, stem: Seq<char>, old: Seq<char>) -> bool {
    &&& path == stem + seq!['.'] + old
    &&& stem.len() > 0
    &&& !parts_path(stem.last())
    &&& stem.last() == '.' ==> stem.len() > 1 && !parts_path(stem[stem.len() - 2])
    &&& old.len() > 0
    &&& !old.contains('/')
    &&& !old.contains('\\')
    &&& !old.contains('.')
    &&& !shared(path)
}

/// A name that begins with its only dot.
pub open spec fn dot_file(name: Seq<char>) -> bool {
    name.len() > 1 && name[0] == '.' && one_name(name) && !name.skip(1).contains('.')
}

/// The path ends, behind `dir`, in a file name without an extension: it has no
/// dot, or begins with its only one.
pub open spec fn has_no_extension(path: Seq<char>, dir: Seq<char>, name: Seq<char>) -> bool {
    &&& path == dir + name
    &&& dir.len() > 0 ==> dir.last() == '/'
    &&& name.len() > 0
    &&& !name.contains('/')
    &&& !parts_path(name.last())
    &&& !name.contains('.') || dot_file(name)
    &&& !shared(path)
}

/// `to` is the path with its extension replaced by `ext`, or with `ext` where it
/// has none.
pub open spec fn extended(path: Seq<char>, ext: Seq<char>, to: Seq<char>) -> bool {
    &&& forall|stem: Seq<char>, old: Seq<char>| #[trigger]
        has_extension(path, stem, old) ==> to == stem + seq!['.'] + ext
    &&& forall|dir: Seq<char>, name: Seq<char>| #[trigger]
        has_no_extension(path, dir, name) ==> to == path + seq!['.'] + ext
}

/// `Path::with_extension` of std: the extension of the file name is replaced, or
/// added where there is none. Left unsaid: a path that begins with two separators,
/// one whose last name is empty, `.` or `..` or begins with two dots and has no
/// other, and one whose last dot stands before a `\` or right behind a `\` or
/// `:`, which part names on some systems alone.
#[verifier::external_body]
fn with_extension(path: &str, ext: &str) -> (r: String)
    requires
        ext@.len() > 0,
        one_name(ext@),
    ensures
        extended(path@, ext@, r@),
{
    std::path::Path::new(path).with_extension(ext).display().to_string()
}

/// The path of the executable that is built beside a source file.
pub fn exe_beside(file: &str) -> (r: String)
    ensures
        extended(file@, "exe"@, r@),
{
    proof {
        reveal_strlit("exe");
    }
    with_extension(file, "exe")
}

pub const OUT_REQUIRED: &'static str = "`out` is required when building from inline `source`";

/// Where an executable goes: to the path given, or beside the source. One built
/// from inline source needs a path.
pub fn output_exe(file: Option<String>, out: Option<String>) -> (r: Result<String, String>)
    ensures
        match (out, file) {
            (Some(o), _) => r matches Ok(p) && p == o,
            (None, Some(f)) => r matches Ok(p) && extended(f@, "exe"@, p@),
            (None, None) => r matches Err(e) && e@ == OUT_REQUIRED@,
        },
{
    match (out, file) {
        (Some(out), _) => Ok(out),
        (None, Some(file)) => Ok(exe_beside(&file)),
        (None, None) => Err(OUT_REQUIRED.to_owned()),
    }
}

/// What a request for an artifact leads to.
#[derive(Debug)]
pub enum Materialize {
    Assembly(AsmRequest),
    Executable(BuildRequest),
    /// A reply that says why not.
    Refused(Json),
}

/// A text that a request gives, or its default.
pub open spec fn given_or(s: Option<String>, default: Seq<char>) -> Seq<char> {
    match s {
        Some(x) => x@,
        None => default,
    }
}

fn text_or(s: &Option<String>, default: &str) -> (r: String)
    ensures
        r@ == given_or(*s, default@),
{
    match s {
        Some(x) => x.clone(),
        None => default.to_owned(),
    }
}

/// A target that artifacts can be made for.
pub open spec fn known_target(target: Seq<char>) -> bool {
    target == "host"@ || target == "windows-x86_64"@ || target == "x86_64-pc-windows-msvc"@
}

/// What is said of any other target.
pub open spec fn target_error(target: Seq<char>) -> Seq<char> {
    "target `"@ + target
        + "` is not wired in this driver yet; supported: host, windows-x86_64, x86_64-pc-windows-msvc"@
}

/// What is said of an artifact that cannot be made.
pub open spec fn artifact_error(artifact: Seq<char>) -> Seq<char> {
    "artifact `"@ + artifact + "` is not supported; use `exe` or `asm`"@
}

/// What a request for an artifact leads to: a known target, and one of the two
/// artifacts.
pub fn materialize_target(req: MaterializeRequest) -> (r: Materialize)
    ensures
        ({
            let target = given_or(req.target, "host"@);
            let artifact = given_or(req.artifact, "exe"@);
            if !known_target(target) {
                r matches Materialize::Refused(reply) && reply@ == crate::json::error_reply(
                    "unsupported_target"@,
                    target_error(target),
                )
            } else if artifact == "asm"@ {
                r matches Materialize::Assembly(a) && a.file == req.file && a.source == req.source
                    && a.boundary_modules == req.boundary_modules && a.optimize == req.optimize
            } else if artifact == "exe"@ {
                r matches Materialize::Executable(b) && b.file == req.file && b.source == req.source
                    && b.boundary_modules == req.boundary_modules && b.out == req.out
                    && b.always_gc == req.always_gc
            } else {
                r matches Materialize::Refused(reply) && reply@ == crate::json::error_reply(
                    "unsupported_artifact"@,
                    artifact_error(artifact),
                )
            }
        }),
{
    let target = text_or(&req.target, "host");
    let artifact = text_or(&req.artifact, "exe");
    if !(is_text(&target, "host") || is_text(&target, "windows-x86_64") || is_text(
        &target,
        "x86_64-pc-windows-msvc",
    )) {
        let message = "target `".to_owned().concat(&target).concat(
            "` is not wired in this driver yet; supported: host, windows-x86_64, x86_64-pc-windows-msvc",
        );
        return Materialize::Refused(tool_error("unsupported_target", &message));
    }
    if is_text(&artifact, "asm") {
        Materialize::Assembly(
            AsmRequest {
                file: req.file,
                source: req.source,
                boundary_modules: req.boundary_modules,
                optimize: req.optimize,
            },
        )
    } else if is_text(&artifact, "exe") {
        Materialize::Executable(
            BuildRequest {
                file: req.file,
                source: req.source,
                boundary_modules: req.boundary_modules,
                out: req.out,
                always_gc: req.always_gc,
            },
        )
    } else {
        let message = "artifact `".to_owned().concat(&artifact).concat(
            "` is not supported; use `exe` or `asm`",
        );
        Materialize::Refused(tool_error("unsupported_artifact", &message))
    }
}

} // verus!
