//! The command line: which command is meant, and with what options.
use crate::text::{is_text, join, joined, lemma_texts_push, texts, trim, trimmed};
use vstd::prelude::*;
use vstd::string::*;

verus! {

pub const USAGE: &'static str = "locusc — the Locus compiler (JIT + AOT)\n\nUSAGE:\n  locusc run     FILE            JIT-compile and run FILE\n  locusc build   FILE [-o EXE]   compile FILE to a standalone .exe\n                   [--always-gc] link the collector even if FILE doesn't allocate\n  locusc asm     FILE [-o OUT.s] dump the generated x86-64 assembly\n  locusc effects FILE [--json]   print FILE's effect manifest (what it touches);\n                                 --json emits a stable, diffable manifest for CI\n  locusc help [TOPIC] [--human]   discover language syntax, operation, and services\n  locusc help search QUERY [--human]\n                                search syntax/services/examples/reminders\n  locusc help service NAME [--human]\n                                show a service/module/function help card\n  locusc help services [--human] list published services\n  locusc republish [DIR]         write the embedded stdlib to DIR for review\n  locusc mcp                     serve the agent-facing MCP protocol over stdio\n  locusc mcp-call COMMAND ...    call the MCP server once and print JSON\n  locusc --help\n\nOPTIONS:\n  --trace-stack-usage            print compiler tree-depth / spine metrics to stderr\n  --brk-enable                   allow the `brk` debug-crash expression (off by\n                                 default; a `brk` traps to exercise a crash handler)\n\n`run`'s exit code is the program's i64 result; effects print as they execute.\n`asm` writes to stdout unless `-o` is given — the same code the .exe contains.\n\nFOR AGENTS:\n  locusc help agent               start here (JSON by default)\n  locusc help search \"loop string\"\n  locusc help service Agent\n  locusc help remind loops --human\n  locusc mcp-call run --source \"let x = 40 in x + 2\"\n\nMinting (`extern`, raw memory) is a `boundary`-only capability: app code may not\nname it — every command rejects an app-level mint (`RN-E0402`). The platform team\nmints in `boundary` modules (baked in) and authorizes user ones via `locus.toml\n[boundary]`; the app team's compiler is locked.\n";

/// What the driver is asked to do with the arguments behind the command.
#[derive(Clone, Copy, Debug, PartialEq, Eq, Structural)]
pub enum Command {
    Run,
    Build,
    Asm,
    Effects,
    Help,
    Republish,
    Mcp,
    McpCall,
    Worker,
    /// Say how the driver is used.
    Usage,
}

/// The command of a name.
pub open spec fn command_named(name: Seq<char>) -> Option<Command> {
    if name == "run"@ {
        Some(Command::Run)
    } else if name == "build"@ {
        Some(Command::Build)
    } else if name == "asm"@ {
        Some(Command::Asm)
    } else if name == "effects"@ {
        Some(Command::Effects)
    } else if name == "help"@ {
        Some(Command::Help)
    } else if name == "republish"@ {
        Some(Command::Republish)
    } else if name == "mcp"@ {
        Some(Command::Mcp)
    } else if name == "mcp-call"@ {
        Some(Command::McpCall)
    } else if name == "worker"@ {
        Some(Command::Worker)
    } else if name == "--help"@ || name == "-h"@ {
        Some(Command::Usage)
    } else {
        None
    }
}

/// What is said of a command that is not known.
pub open spec fn unknown_command(name: Seq<char>) -> Seq<char> {
    "unknown command `"@ + name
        + "` (try `run`, `build`, `asm`, `effects`, `help`, `republish`, `mcp`, `mcp-call`, `--help`)"@
}

fn find_command(name: &String) -> (r: Option<Command>)
    ensures
        r == command_named(name@),
{
    if is_text(name, "run") {
        Some(Command::Run)
    } else if is_text(name, "build") {
        Some(Command::Build)
    } else if is_text(name, "asm") {
        Some(Command::Asm)
    } else if is_text(name, "effects") {
        Some(Command::Effects)
    } else if is_text(name, "help") {
        Some(Command::Help)
    } else if is_text(name, "republish") {
        Some(Command::Republish)
    } else if is_text(name, "mcp") {
        Some(Command::Mcp)
    } else if is_text(name, "mcp-call") {
        Some(Command::McpCall)
    } else if is_text(name, "worker") {
        Some(Command::Worker)
    } else if is_text(name, "--help") || is_text(name, "-h") {
        Some(Command::Usage)
    } else {
        None
    }
}

/// The command that the arguments begin with. Without arguments the driver says
/// how it is used.
pub fn dispatch(args: &Vec<String>) -> (r: Result<Command, String>)
    ensures
        if args.len() == 0 {
            r == Ok::<Command, String>(Command::Usage)
        } else {
            match command_named(args[0]@) {
                Some(c) => r == Ok::<Command, String>(c),
                None => r matches Err(e) && e@ == unknown_command(args[0]@),
            }
        },
{
    if args.len() == 0 {
        return Ok(Command::Usage);
    }
    match find_command(&args[0]) {
        Some(c) => Ok(c),
        None => Err(
            "unknown command `".to_owned().concat(&args[0]).concat(
                "` (try `run`, `build`, `asm`, `effects`, `help`, `republish`, `mcp`, `mcp-call`, `--help`)",
            ),
        ),
    }
}

/// What the server's own driver does.
#[derive(Clone, Copy, Debug, PartialEq, Eq, Structural)]
pub enum McpCommand {
    Serve,
    Worker,
}

/// The command of the server's own driver: it serves unless it is started as a
/// worker.
pub fn mcp_dispatch(args: &Vec<String>) -> (r: Result<McpCommand, String>)
    ensures
        if args.len() == 0 {
            r == Ok::<McpCommand, String>(McpCommand::Serve)
        } else if args.len() == 1 && args[0]@ == "worker"@ {
            r == Ok::<McpCommand, String>(McpCommand::Worker)
        } else {
            r matches Err(e) && e@ == "unknown command `"@ + args[0]@
                + "` (try no arguments for MCP stdio)"@
        },
{
    if args.len() == 0 {
        Ok(McpCommand::Serve)
    } else if args.len() == 1 && is_text(&args[0], "worker") {
        Ok(McpCommand::Worker)
    } else {
        Err(
            "unknown command `".to_owned().concat(&args[0]).concat(
                "` (try no arguments for MCP stdio)",
            ),
        )
    }
}

/// The exit code of the driver: that of the command, or two where it failed.
pub fn exit_code(outcome: &Result<i32, String>) -> (r: i32)
    ensures
        r == match *outcome {
            Ok(c) => c,
            Err(_) => 2,
        },
{
    match outcome {
        Ok(c) => *c,
        Err(_) => 2,
    }
}

/// The first position, from `i` on, at which a text stands.
pub open spec fn first_at(args: Seq<String>, x: Seq<char>, i: nat) -> Option<nat>
    decreases args.len() - i,
{
    if i >= args.len() {
        None
    } else if args[i as int]@ == x {
        Some(i)
    } else {
        first_at(args, x, i + 1)
    }
}

fn find_arg(args: &Vec<String>, x: &str) -> (r: Option<usize>)
    ensures
        match r {
            Some(i) => i < args.len() && first_at(args@, x@, 0) == Some(i as nat),
            None => first_at(args@, x@, 0) is None,
        },
{
    let mut i: usize = 0;
    while i < args.len()
        invariant
            i <= args.len(),
            first_at(args@, x@, i as nat) == first_at(args@, x@, 0),
        decreases args.len() - i,
    {
        if is_text(&args[i], x) {
            return Some(i);
        }
        i = i + 1;
    }
    None
}

/// Take the switch that allows the debugging crash out of the arguments, where it
/// stands first.
pub fn take_brk_switch(given: Vec<String>) -> (r: (Vec<String>, bool))
    ensures
        match first_at(given@, "--brk-enable"@, 0) {
            Some(i) => r.1 && r.0@ == given@.remove(i as int),
            None => !r.1 && r.0@ == given@,
        },
{
    let mut args = given;
    match find_arg(&args, "--brk-enable") {
        Some(i) => {
            args.remove(i);
            (args, true)
        },
        None => (args, false),
    }
}

// ── options ──────────────────────────────────────────────────────────────
/// The commands that take a program.
#[derive(Clone, Copy, Debug, PartialEq, Eq, Structural)]
pub enum Tool {
    Run,
    Build,
    Asm,
    Effects,
}

/// What the arguments of a command ask for.
#[derive(Debug)]
pub struct Options {
    pub file: Option<String>,
    pub out: Option<String>,
    pub always_gc: bool,
    pub optimize: bool,
    pub json: bool,
    pub trace_stack: bool,
}

/// What the arguments of a command ask for.
#[verifier::ext_equal]
pub struct Asked {
    pub file: Option<Seq<char>>,
    pub out: Option<Seq<char>>,
    pub always_gc: bool,
    pub optimize: bool,
    pub json: bool,
    pub trace_stack: bool,
}

/// A text that may be missing.
pub open spec fn opt_text(s: Option<String>) -> Option<Seq<char>> {
    match s {
        Some(x) => Some(x@),
        None => None,
    }
}

impl View for Options {
    type V = Asked;

    open spec fn view(&self) -> Asked {
        Asked {
            file: opt_text(self.file),
            out: opt_text(self.out),
            always_gc: self.always_gc,
            optimize: self.optimize,
            json: self.json,
            trace_stack: self.trace_stack,
        }
    }
}

/// Nothing was asked for yet.
pub open spec fn nothing_asked() -> Asked {
    Asked {
        file: None,
        out: None,
        always_gc: false,
        optimize: false,
        json: false,
        trace_stack: false,
    }
}

/// The tool writes to a path that is given.
pub open spec fn takes_out(tool: Tool) -> bool {
    tool is Build || tool is Asm
}

/// What one argument adds, where it is no path to write to.
pub open spec fn asked_more(tool: Tool, arg: Seq<char>, asked: Asked) -> Asked {
    if arg == "--trace-stack-usage"@ {
        Asked { trace_stack: true, ..asked }
    } else if tool is Build && arg == "--always-gc"@ {
        Asked { always_gc: true, ..asked }
    } else if tool is Asm && (arg == "-O2"@ || arg == "--opt"@) {
        Asked { optimize: true, ..asked }
    } else if tool is Effects && arg == "--json"@ {
        Asked { json: true, ..asked }
    } else {
        Asked { file: Some(arg), ..asked }
    }
}

/// What the arguments from position `i` on ask for; none where a path is missing.
pub open spec fn asked_from(tool: Tool, args: Seq<String>, i: nat, asked: Asked) -> Option<Asked>
    decreases args.len() - i,
{
    if i >= args.len() {
        Some(asked)
    } else if takes_out(tool) && args[i as int]@ == "-o"@ {
        if i + 1 >= args.len() {
            None
        } else {
            asked_from(tool, args, i + 2, Asked { out: Some(args[(i + 1) as int]@), ..asked })
        }
    } else {
        asked_from(tool, args, i + 1, asked_more(tool, args[i as int]@, asked))
    }
}

/// How a tool is used.
pub open spec fn usage_of(tool: Tool) -> &'static str {
    match tool {
        Tool::Run => "usage: locusc run [--trace-stack-usage] FILE",
        Tool::Build => "usage: locusc build [--trace-stack-usage] FILE [-o EXE] [--always-gc]",
        Tool::Asm => "usage: locusc asm [--trace-stack-usage] FILE [-O2] [-o OUT.s]",
        Tool::Effects => "usage: locusc effects [--trace-stack-usage] FILE [--json]",
    }
}

fn usage_text(tool: Tool) -> (r: &'static str)
    ensures
        r == usage_of(tool),
{
    match tool {
        Tool::Run => "usage: locusc run [--trace-stack-usage] FILE",
        Tool::Build => "usage: locusc build [--trace-stack-usage] FILE [-o EXE] [--always-gc]",
        Tool::Asm => "usage: locusc asm [--trace-stack-usage] FILE [-O2] [-o OUT.s]",
        Tool::Effects => "usage: locusc effects [--trace-stack-usage] FILE [--json]",
    }
}

proof fn lemma_asked_behind(tool: Tool, a: Seq<String>, b: Seq<String>, j: nat, asked: Asked)
    ensures
        asked_from(tool, a + b, a.len() + j, asked) == asked_from(tool, b, j, asked),
    decreases b.len() - j,
{
    if j < b.len() {
        let arg = b[j as int]@;
        assert((a + b)[(a.len() + j) as int] == b[j as int]);
        if takes_out(tool) && arg == "-o"@ {
            if j + 1 < b.len() {
                let out = b[(j + 1) as int]@;
                assert((a + b)[(a.len() + j + 1) as int] == b[(j + 1) as int]);
                lemma_asked_behind(tool, a, b, j + 2, Asked { out: Some(out), ..asked });
            }
        } else {
            lemma_asked_behind(tool, a, b, j + 1, asked_more(tool, arg, asked));
        }
    }
}

proof fn lemma_asked_in_turn(tool: Tool, a: Seq<String>, b: Seq<String>, i: nat, asked: Asked)
    requires
        i <= a.len(),
        asked_from(tool, a, i, asked) is Some,
    ensures
        asked_from(tool, a + b, i, asked) == asked_from(
            tool,
            b,
            0,
            asked_from(tool, a, i, asked)->Some_0,
        ),
    decreases a.len() - i,
{
    if i == a.len() {
        lemma_asked_behind(tool, a, b, 0, asked);
    } else {
        let arg = a[i as int]@;
        assert((a + b)[i as int] == a[i as int]);
        if takes_out(tool) && arg == "-o"@ {
            let out = a[(i + 1) as int]@;
            assert((a + b)[(i + 1) as int] == a[(i + 1) as int]);
            lemma_asked_in_turn(tool, a, b, i + 2, Asked { out: Some(out), ..asked });
        } else {
            lemma_asked_in_turn(tool, a, b, i + 1, asked_more(tool, arg, asked));
        }
    }
}

/// Arguments are read in turn: what follows adds to what was asked before it.
pub proof fn arguments_are_read_in_turn(tool: Tool, a: Seq<String>, b: Seq<String>)
    requires
        asked_from(tool, a, 0, nothing_asked()) is Some,
    ensures
        asked_from(tool, a + b, 0, nothing_asked()) == asked_from(
            tool,
            b,
            0,
            asked_from(tool, a, 0, nothing_asked())->Some_0,
        ),
{
    lemma_asked_in_turn(tool, a, b, 0, nothing_asked());
}

/// Of the files that are named the last counts.
pub proof fn the_last_file_counts(tool: Tool, args: Seq<String>, file: String)
    requires
        asked_from(tool, args, 0, nothing_asked()) is Some,
        asked_more(tool, file@, nothing_asked()).file is Some,
        !(takes_out(tool) && file@ == "-o"@),
    ensures
        asked_from(tool, args.push(file), 0, nothing_asked()) == Some(
            (Asked {
                file: Some(file@),
                ..asked_from(tool, args, 0, nothing_asked())->Some_0
            }),
        ),
{
    arguments_are_read_in_turn(tool, args, seq![file]);
    assert(args + seq![file] =~= args.push(file));
    reveal_with_fuel(asked_from, 2);
}

fn ask_more(tool: Tool, arg: &String, o: Options) -> (r: Options)
    ensures
        r@ == asked_more(tool, arg@, o@),
{
    let mut o = o;
    if is_text(arg, "--trace-stack-usage") {
        o.trace_stack = true;
    } else if matches!(tool, Tool::Build) && is_text(arg, "--always-gc") {
        o.always_gc = true;
    } else if matches!(tool, Tool::Asm) && (is_text(arg, "-O2") || is_text(arg, "--opt")) {
        o.optimize = true;
    } else if matches!(tool, Tool::Effects) && is_text(arg, "--json") {
        o.json = true;
    } else {
        o.file = Some(arg.clone());
    }
    o
}

/// The options of a command: of what is given twice the last counts, and a file
/// must be given.
pub fn parse_options(tool: Tool, args: &Vec<String>) -> (r: Result<Options, String>)
    ensures
        match asked_from(tool, args@, 0, nothing_asked()) {
            None => r matches Err(e) && e@ == "`-o` needs a path"@,
            Some(asked) => if asked.file is None {
                r matches Err(e) && e@ == usage_of(tool)@
            } else {
                r matches Ok(o) && o@ == asked
            },
        },
{
    let mut o = Options {
        file: None,
        out: None,
        always_gc: false,
        optimize: false,
        json: false,
        trace_stack: false,
    };
    let mut i: usize = 0;
    while i < args.len()
        invariant
            i <= args.len(),
            asked_from(tool, args@, i as nat, o@) == asked_from(tool, args@, 0, nothing_asked()),
        decreases args.len() - i,
    {
        if matches!(tool, Tool::Build | Tool::Asm) && is_text(&args[i], "-o") {
            if i + 1 >= args.len() {
                return Err("`-o` needs a path".to_owned());
            }
            o.out = Some(args[i + 1].clone());
            i = i + 2;
        } else {
            o = ask_more(tool, &args[i], o);
            i = i + 1;
        }
    }
    match o.file {
        None => Err(usage_text(tool).to_owned()),
        Some(_) => Ok(o),
    }
}

// ── help ─────────────────────────────────────────────────────────────────
/// The argument is a switch of the help.
pub open spec fn help_switch(arg: Seq<char>) -> bool {
    arg == "--human"@ || arg == "--json"@
}

/// The first `n` arguments that are no switches.
pub open spec fn help_words(args: Seq<String>, n: nat) -> Seq<Seq<char>>
    decreases n,
{
    if n == 0 || n > args.len() {
        Seq::empty()
    } else if help_switch(args[n - 1]@) {
        help_words(args, (n - 1) as nat)
    } else {
        help_words(args, (n - 1) as nat).push(args[n - 1]@)
    }
}

/// Some argument is the text.
pub open spec fn is_given(args: Seq<String>, x: Seq<char>) -> bool {
    first_at(args, x, 0) is Some
}

/// Whether the help is for people, and what it is asked about.
pub fn parse_help_args(args: &Vec<String>) -> (r: (bool, Vec<String>))
    ensures
        r.0 == is_given(args@, "--human"@),
        texts(r.1@) == help_words(args@, args@.len()),
{
    broadcast use lemma_texts_push;

    let mut human: bool = false;
    let mut words: Vec<String> = Vec::new();
    let mut i: usize = 0;
    assert(texts(words@) =~= Seq::<Seq<char>>::empty());
    while i < args.len()
        invariant
            i <= args.len(),
            human ==> is_given(args@, "--human"@),
            !human ==> first_at(args@, "--human"@, i as nat) == first_at(args@, "--human"@, 0),
            texts(words@) == help_words(args@, i as nat),
        decreases args.len() - i,
    {
        broadcast use lemma_texts_push;

        if is_text(&args[i], "--human") {
            human = true;
        } else if is_text(&args[i], "--json") {
        } else {
            words.push(args[i].clone());
        }
        i = i + 1;
    }
    (human, words)
}

/// What the help is asked for.
#[derive(Debug)]
pub enum HelpRoute {
    Overview,
    /// A card that must be there.
    Card(String),
    Search(String),
    Service(String),
    Services,
    Remind(String),
    /// A card, or what a search for all the words finds.
    Lookup { id: String, query: String },
}

/// What the help is asked for.
pub enum HelpAim {
    Overview,
    Card(Seq<char>),
    Search(Seq<char>),
    Service(Seq<char>),
    Services,
    Remind(Seq<char>),
    Lookup(Seq<char>, Seq<char>),
    /// The question is incomplete.
    Usage(&'static str),
}

pub const HELP_SEARCH_USAGE: &'static str = "usage: locusc help search QUERY [--human]";

pub const HELP_TOPIC_USAGE: &'static str = "usage: locusc help topic TOPIC [--human]";

pub const HELP_SERVICE_USAGE: &'static str = "usage: locusc help service NAME [--human]";

pub const HELP_REMIND_USAGE: &'static str = "usage: locusc help remind TOPIC [--human]";

/// What the words ask for.
pub open spec fn help_aim(w: Seq<Seq<char>>) -> HelpAim {
    if w.len() == 0 || w[0] == "overview"@ || w[0] == "index"@ {
        HelpAim::Overview
    } else if w[0] == "agent"@ {
        HelpAim::Card("agent.start"@)
    } else if w[0] == "search"@ {
        let query = joined(w.skip(1), " "@);
        if trimmed(query).len() == 0 {
            HelpAim::Usage(HELP_SEARCH_USAGE)
        } else {
            HelpAim::Search(query)
        }
    } else if w[0] == "topic"@ {
        if w.len() < 2 {
            HelpAim::Usage(HELP_TOPIC_USAGE)
        } else {
            HelpAim::Card(w[1])
        }
    } else if w[0] == "service"@ {
        if w.len() < 2 {
            HelpAim::Usage(HELP_SERVICE_USAGE)
        } else {
            HelpAim::Service(w[1])
        }
    } else if w[0] == "services"@ {
        HelpAim::Services
    } else if w[0] == "remind"@ {
        if w.len() < 2 {
            HelpAim::Usage(HELP_REMIND_USAGE)
        } else {
            HelpAim::Remind(w[1])
        }
    } else {
        HelpAim::Lookup(w[0], joined(w, " "@))
    }
}

/// The route is what was aimed at.
pub open spec fn route_is(r: Result<HelpRoute, String>, aim: HelpAim) -> bool {
    match aim {
        HelpAim::Overview => r matches Ok(HelpRoute::Overview),
        HelpAim::Card(id) => r matches Ok(HelpRoute::Card(x)) && x@ == id,
        HelpAim::Search(q) => r matches Ok(HelpRoute::Search(x)) && x@ == q,
        HelpAim::Service(n) => r matches Ok(HelpRoute::Service(x)) && x@ == n,
        HelpAim::Services => r matches Ok(HelpRoute::Services),
        HelpAim::Remind(t) => r matches Ok(HelpRoute::Remind(x)) && x@ == t,
        HelpAim::Lookup(i, q) => r matches Ok(HelpRoute::Lookup { id, query }) && id@ == i
            && query@ == q,
        HelpAim::Usage(u) => r matches Err(e) && e@ == u@,
    }
}

/// What the words ask for.
pub fn help_route(words: &Vec<String>) -> (r: Result<HelpRoute, String>)
    ensures
        route_is(r, help_aim(texts(words@))),
{
    let ghost w = texts(words@);
    if words.len() == 0 || is_text(&words[0], "overview") || is_text(&words[0], "index") {
        return Ok(HelpRoute::Overview);
    }
    assert(w[0] == words@[0]@);
    if is_text(&words[0], "agent") {
        Ok(HelpRoute::Card("agent.start".to_owned()))
    } else if is_text(&words[0], "search") {
        let query = join(words, 1, " ");
        let bare = trim(&query);
        if bare.as_str().is_empty() {
            Err(HELP_SEARCH_USAGE.to_owned())
        } else {
            Ok(HelpRoute::Search(query))
        }
    } else if is_text(&words[0], "topic") {
        if words.len() < 2 {
            Err(HELP_TOPIC_USAGE.to_owned())
        } else {
            Ok(HelpRoute::Card(words[1].clone()))
        }
    } else if is_text(&words[0], "service") {
        if words.len() < 2 {
            Err(HELP_SERVICE_USAGE.to_owned())
        } else {
            Ok(HelpRoute::Service(words[1].clone()))
        }
    } else if is_text(&words[0], "services") {
        Ok(HelpRoute::Services)
    } else if is_text(&words[0], "remind") {
        if words.len() < 2 {
            Err(HELP_REMIND_USAGE.to_owned())
        } else {
            Ok(HelpRoute::Remind(words[1].clone()))
        }
    } else {
        let query = join(words, 0, " ");
        assert(w.skip(0) =~= w);
        Ok(HelpRoute::Lookup { id: words[0].clone(), query })
    }
}

/// What is said where the help has no such card.
pub fn unknown_topic(id: &str) -> (r: String)
    ensures
        r@ == "unknown help topic `"@ + id@ + "` (try `locusc help search "@ + id@ + "`)"@,
{
    "unknown help topic `".to_owned().concat(id).concat("` (try `locusc help search ").concat(
        id,
    ).concat("`)")
}

/// What is said where the help has no such service.
pub fn unknown_service(name: &str) -> (r: String)
    ensures
        r@ == "unknown service `"@ + name@ + "` (try `locusc help search "@ + name@ + "`)"@,
{
    "unknown service `".to_owned().concat(name).concat("` (try `locusc help search ").concat(
        name,
    ).concat("`)")
}

} // verus!
