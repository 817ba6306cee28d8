//! One call of the compiler's server: what is asked, and what the answer means.
use crate::json::{no_fields, Js, Json, ObjectBuilder};
use crate::text::{chars_of, is_text};
use vstd::prelude::*;
use vstd::string::*;

verus! {

pub const MCP_CALL_USAGE: &'static str = "usage:\n  locusc mcp-call tools\n  locusc mcp-call call TOOL [JSON_ARGS]\n  locusc mcp-call help_overview\n  locusc mcp-call help_search QUERY [LIMIT]\n  locusc mcp-call help_topic ID\n  locusc mcp-call help_service NAME\n  locusc mcp-call help_remind TOPIC\n  locusc mcp-call check (--file PATH | --source SOURCE)\n  locusc mcp-call run (--file PATH | --source SOURCE)\n  locusc mcp-call ir (--file PATH | --source SOURCE)\n  locusc mcp-call effects (--file PATH | --source SOURCE)";

/// A message of the server.
#[derive(Debug)]
pub struct Answer {
    pub id: Option<i64>,
    /// The error it carries, as text.
    pub error: Option<String>,
    pub has_result: bool,
    /// The whole message.
    pub text: String,
}

/// What a message of the server stands for.
#[verifier::ext_equal]
pub struct Message {
    pub id: Option<i64>,
    pub error: Option<Seq<char>>,
    pub has_result: bool,
    pub text: Seq<char>,
}

impl View for Answer {
    type V = Message;

    open spec fn view(&self) -> Message {
        Message {
            id: self.id,
            error: match self.error {
                Some(e) => Some(e@),
                None => None,
            },
            has_result: self.has_result,
            text: self.text@,
        }
    }
}

/// What `serde_json` reads in a text: a JSON value, of which a message keeps the
/// number, the error and whether there is a result, or what is said against it.
pub uninterp spec fn read_message(line: Seq<char>) -> Result<Message, Seq<char>>;

/// `serde_json::from_str`, reading any JSON value. Of the value it gives the
/// number under `id`, the value under `error` as pretty text, whether there is one
/// under `result`, and its own text; of a text that is no JSON value, what is said
/// against it.
#[verifier::external_body]
fn parse_answer(line: &str) -> (r: Result<Answer, String>)
    ensures
        match read_message(line@) {
            Ok(m) => r matches Ok(a) && a@ == m,
            Err(why) => r matches Err(e) && e@ == why,
        },
{
    let read = serde_json::from_str::<serde_json::Value>(line);
    read.map_err(|e| e.to_string()).map(
        |value| Answer {
            id: value.get("id").and_then(|id| id.as_i64()),
            error: value.get("error").map(
                |e| serde_json::to_string_pretty(e).unwrap_or_else(|_| e.to_string()),
            ),
            has_result: value.get("result").is_some(),
            text: value.to_string(),
        },
    )
}

/// What is said against a text that is no JSON value.
pub open spec fn json_fault(text: Seq<char>) -> Option<Seq<char>> {
    match read_message(text) {
        Ok(_) => None,
        Err(why) => Some(why),
    }
}

fn check_json(text: &str) -> (r: Result<(), String>)
    ensures
        match json_fault(text@) {
            None => r is Ok,
            Some(why) => r matches Err(e) && e@ == why,
        },
{
    match parse_answer(text) {
        Ok(_) => Ok(()),
        Err(e) => Err(e),
    }
}

/// The arguments of a call.
#[derive(Debug)]
pub enum Arguments {
    Value(Json),
    /// A JSON value, as it was written.
    Written(String),
}

/// A call of the server.
#[derive(Debug)]
pub struct McpCall {
    pub tool: String,
    pub arguments: Arguments,
    /// Ask for the list of tools instead.
    pub list_tools: bool,
}

/// The tool behind a short name.
pub open spec fn tool_alias(name: Seq<char>) -> Seq<char> {
    if name == "ir"@ {
        "emit_ir"@
    } else if name == "asm"@ {
        "emit_asm"@
    } else {
        name
    }
}

/// The tool behind a short name.
pub fn mcp_tool_alias(name: &str) -> (r: String)
    ensures
        r@ == tool_alias(name@),
{
    if is_text(name, "ir") {
        "emit_ir".to_owned()
    } else if is_text(name, "asm") {
        "emit_asm".to_owned()
    } else {
        name.to_owned()
    }
}

// ── numbers ──────────────────────────────────────────────────────────────
/// The value of a decimal digit.
pub open spec fn digit_value(c: char) -> Option<nat> {
    if '0' <= c && c <= '9' {
        Some((c as nat - '0' as nat) as nat)
    } else {
        None
    }
}

pub const NO_DIGIT: &'static str = "invalid digit found in string";

pub const TOO_LARGE: &'static str = "number too large to fit in target type";

/// The number that digits are, read one by one, or the first fault in them.
pub open spec fn digits_value(s: Seq<char>) -> Result<nat, &'static str>
    decreases s.len(),
{
    if s.len() == 0 {
        Ok(0)
    } else {
        match digits_value(s.drop_last()) {
            Err(e) => Err(e),
            Ok(n) => match digit_value(s.last()) {
                None => Err(NO_DIGIT),
                Some(d) => if n * 10 + d <= usize::MAX {
                    Ok(n * 10 + d)
                } else {
                    Err(TOO_LARGE)
                },
            },
        }
    }
}

/// The digits of a number, behind the sign it may have.
pub open spec fn unsigned_digits(s: Seq<char>) -> Seq<char> {
    if s.len() > 1 && s[0] == '+' {
        s.drop_first()
    } else {
        s
    }
}

/// The number that a text is, or what is wrong with it.
pub open spec fn count_of(s: Seq<char>) -> Result<nat, &'static str> {
    if s.len() == 0 {
        Err("cannot parse integer from empty string")
    } else {
        digits_value(unsigned_digits(s))
    }
}

/// A fault in the first digits is the fault of them all.
proof fn lemma_first_fault(s: Seq<char>, k: nat)
    requires
        k <= s.len(),
        digits_value(s.take(k as int)) is Err,
    ensures
        digits_value(s) == digits_value(s.take(k as int)),
    decreases s.len() - k,
{
    if k < s.len() {
        assert(s.take((k + 1) as int).drop_last() =~= s.take(k as int));
        lemma_first_fault(s, k + 1);
    } else {
        assert(s.take(k as int) =~= s);
    }
}

/// The number that a text is.
pub fn parse_count(s: &str) -> (r: Result<usize, &'static str>)
    ensures
        match count_of(s@) {
            Ok(n) => r matches Ok(m) && m == n,
            Err(e) => r == Err::<usize, &'static str>(e),
        },
{
    let chars = chars_of(s);
    if chars.len() == 0 {
        return Err("cannot parse integer from empty string");
    }
    let from: usize = if chars.len() > 1 && chars[0] == '+' {
        1
    } else {
        0
    };
    let ghost d = chars@.skip(from as int);
    assert(d =~= unsigned_digits(s@));
    let mut n: usize = 0;
    let mut i: usize = from;
    assert(d.take(0) =~= Seq::<char>::empty());
    while i < chars.len()
        invariant
            from <= i <= chars.len(),
            d == chars@.skip(from as int),
            d == unsigned_digits(s@),
            s@.len() > 0,
            digits_value(d.take(i - from)) == Ok::<nat, &'static str>(n as nat),
        decreases chars.len() - i,
    {
        let ghost k = (i - from) as nat;
        let c: char = chars[i];
        proof {
            assert(d.take((k + 1) as int).drop_last() =~= d.take(k as int));
            assert(d.take((k + 1) as int).last() == c);
            if digits_value(d.take((k + 1) as int)) is Err {
                lemma_first_fault(d, k + 1);
            }
        }
        if !('0' <= c && c <= '9') {
            return Err(NO_DIGIT);
        }
        let v: usize = (c as u32 - 48) as usize;
        assert('0' as u32 == 48);
        let tens: usize = match n.checked_mul(10) {
            None => {
                return Err(TOO_LARGE);
            },
            Some(tens) => tens,
        };
        n = match tens.checked_add(v) {
            None => {
                return Err(TOO_LARGE);
            },
            Some(n) => n,
        };
        i = i + 1;
    }
    assert(d.take(d.len() as int) =~= d);
    Ok(n)
}

// ── what is asked ────────────────────────────────────────────────────────
/// What a call is.
pub enum CallAim {
    /// The list of tools.
    Tools,
    /// A tool and its arguments as they were written.
    Written(Seq<char>, Seq<char>),
    /// A tool and its arguments.
    Tool(Seq<char>, Js),
    Wrong(Seq<char>),
}

/// An error with how the command is used.
pub open spec fn with_usage(message: Seq<char>) -> Seq<char> {
    message + "\n"@ + MCP_CALL_USAGE@
}

/// An object with one text.
pub open spec fn one_text(key: Seq<char>, value: Seq<char>) -> Js {
    Js::Object(no_fields().push((key, Js::Text(value))))
}

/// What the program of a call is given by.
pub open spec fn source_args(args: Seq<String>) -> Result<Js, Seq<char>> {
    if args.len() != 2 {
        Err("expected --file PATH or --source SOURCE"@)
    } else if args[0]@ == "--file"@ {
        Ok(one_text("file"@, args[1]@))
    } else if args[0]@ == "--source"@ {
        Ok(one_text("source"@, args[1]@))
    } else {
        Err("expected --file or --source, got `"@ + args[0]@ + "`"@)
    }
}

/// A tool with one text as its argument.
pub open spec fn one_arg(cmd: Seq<char>, key: Seq<char>, rest: Seq<String>) -> CallAim {
    if rest.len() == 1 {
        CallAim::Tool(cmd, one_text(key, rest[0]@))
    } else {
        CallAim::Wrong(with_usage(cmd + " requires exactly one argument"@))
    }
}

/// A search, with the number of hits it may be given.
pub open spec fn search_aim(rest: Seq<String>) -> CallAim {
    if rest.len() == 0 {
        CallAim::Wrong(with_usage("help_search requires QUERY [LIMIT]"@))
    } else if rest.len() == 1 {
        CallAim::Tool("help_search"@, one_text("query"@, rest[0]@))
    } else {
        match count_of(rest[1]@) {
            Err(e) => CallAim::Wrong("invalid help_search LIMIT `"@ + rest[1]@ + "`: "@ + e@),
            Ok(n) => CallAim::Tool(
                "help_search"@,
                Js::Object(
                    no_fields().push(("query"@, Js::Text(rest[0]@))).push(
                        ("limit"@, Js::Num(n as int)),
                    ),
                ),
            ),
        }
    }
}

/// A tool with its arguments as they are written, an empty object where there are
/// none.
pub open spec fn written_aim(rest: Seq<String>) -> CallAim {
    if rest.len() == 0 {
        CallAim::Wrong(with_usage("call requires TOOL [JSON_ARGS]"@))
    } else {
        let raw = if rest.len() >= 2 {
            rest[1]@
        } else {
            "{}"@
        };
        match json_fault(raw) {
            Some(why) => CallAim::Wrong("invalid JSON_ARGS for `"@ + rest[0]@ + "`: "@ + why),
            None => CallAim::Written(tool_alias(rest[0]@), raw),
        }
    }
}

/// What the arguments of a call ask for.
pub open spec fn call_aim(args: Seq<String>) -> CallAim {
    if args.len() == 0 {
        CallAim::Wrong(MCP_CALL_USAGE@)
    } else {
        let cmd = args[0]@;
        let rest = args.skip(1);
        if cmd == "tools"@ {
            CallAim::Tools
        } else if cmd == "call"@ {
            written_aim(rest)
        } else if cmd == "help_overview"@ {
            CallAim::Tool("help_overview"@, Js::Object(no_fields()))
        } else if cmd == "help_search"@ {
            search_aim(rest)
        } else if cmd == "help_topic"@ {
            one_arg(cmd, "id"@, rest)
        } else if cmd == "help_service"@ {
            one_arg(cmd, "name"@, rest)
        } else if cmd == "help_remind"@ {
            one_arg(cmd, "topic"@, rest)
        } else if cmd == "check"@ || cmd == "run"@ || cmd == "effects"@ || cmd == "ir"@ || cmd
            == "asm"@ {
            match source_args(rest) {
                Err(e) => CallAim::Wrong(with_usage(e)),
                Ok(js) => CallAim::Tool(tool_alias(cmd), js),
            }
        } else {
            CallAim::Wrong(with_usage("unknown mcp-call command `"@ + cmd + "`"@))
        }
    }
}

/// The call is what was aimed at.
pub open spec fn call_is(r: Result<McpCall, String>, aim: CallAim) -> bool {
    match aim {
        CallAim::Tools => r matches Ok(c) && c.list_tools,
        CallAim::Written(tool, raw) => {
            &&& r matches Ok(c)
            &&& !c.list_tools
            &&& c.tool@ == tool
            &&& c.arguments matches Arguments::Written(s)
            &&& s@ == raw
        },
        CallAim::Tool(tool, js) => {
            &&& r matches Ok(c)
            &&& !c.list_tools
            &&& c.tool@ == tool
            &&& c.arguments matches Arguments::Value(v)
            &&& v@ == js
        },
        CallAim::Wrong(e) => r matches Err(m) && m@ == e,
    }
}

fn usage_error(message: String) -> (r: String)
    ensures
        r@ == with_usage(message@),
{
    message.concat("\n").concat(MCP_CALL_USAGE)
}

fn tool_call(tool: &str, arguments: Json) -> (r: Result<McpCall, String>)
    ensures
        call_is(r, CallAim::Tool(tool@, arguments@)),
{
    Ok(McpCall { tool: tool.to_owned(), arguments: Arguments::Value(arguments), list_tools: false })
}

fn text_object(key: &str, value: &str) -> (r: Json)
    ensures
        r@ == one_text(key@, value@),
{
    ObjectBuilder::new().text(key, value).finish()
}

fn only_arg(cmd: &str, key: &str, args: &Vec<String>) -> (r: Result<McpCall, String>)
    requires
        args.len() >= 1,
    ensures
        call_is(r, one_arg(cmd@, key@, args@.skip(1))),
{
    if args.len() == 2 {
        tool_call(cmd, text_object(key, &args[1]))
    } else {
        let message = cmd.to_owned().concat(" requires exactly one argument");
        Err(usage_error(message))
    }
}

fn mcp_source_args(args: &Vec<String>) -> (r: Result<Json, String>)
    requires
        args.len() >= 1,
    ensures
        match source_args(args@.skip(1)) {
            Ok(js) => r matches Ok(v) && v@ == js,
            Err(e) => r matches Err(m) && m@ == e,
        },
{
    if args.len() != 3 {
        return Err("expected --file PATH or --source SOURCE".to_owned());
    }
    if is_text(&args[1], "--file") {
        Ok(text_object("file", &args[2]))
    } else if is_text(&args[1], "--source") {
        Ok(text_object("source", &args[2]))
    } else {
        Err("expected --file or --source, got `".to_owned().concat(&args[1]).concat("`"))
    }
}

fn search_call(args: &Vec<String>) -> (r: Result<McpCall, String>)
    requires
        args.len() >= 1,
    ensures
        call_is(r, search_aim(args@.skip(1))),
{
    if args.len() == 1 {
        return Err(usage_error("help_search requires QUERY [LIMIT]".to_owned()));
    }
    if args.len() == 2 {
        return tool_call("help_search", text_object("query", &args[1]));
    }
    match parse_count(&args[2]) {
        Err(e) => Err(
            "invalid help_search LIMIT `".to_owned().concat(&args[2]).concat("`: ").concat(e),
        ),
        Ok(n) => {
            let arguments = ObjectBuilder::new().text("query", &args[1]).count("limit", n).finish();
            tool_call("help_search", arguments)
        },
    }
}

fn written_call(args: &Vec<String>) -> (r: Result<McpCall, String>)
    requires
        args.len() >= 1,
    ensures
        call_is(r, written_aim(args@.skip(1))),
{
    if args.len() == 1 {
        return Err(usage_error("call requires TOOL [JSON_ARGS]".to_owned()));
    }
    let raw = if args.len() >= 3 {
        args[2].clone()
    } else {
        "{}".to_owned()
    };
    match check_json(&raw) {
        Err(why) => Err(
            "invalid JSON_ARGS for `".to_owned().concat(&args[1]).concat("`: ").concat(&why),
        ),
        Ok(_) => Ok(
            McpCall {
                tool: mcp_tool_alias(&args[1]),
                arguments: Arguments::Written(raw),
                list_tools: false,
            },
        ),
    }
}

/// What the arguments of a call ask for.
pub fn mcp_call_target(args: &Vec<String>) -> (r: Result<McpCall, String>)
    ensures
        call_is(r, call_aim(args@)),
{
    if args.len() == 0 {
        return Err(MCP_CALL_USAGE.to_owned());
    }
    let cmd = args[0].as_str();
    if is_text(cmd, "tools") {
        Ok(
            McpCall {
                tool: String::new(),
                arguments: Arguments::Value(ObjectBuilder::new().finish()),
                list_tools: true,
            },
        )
    } else if is_text(cmd, "call") {
        written_call(args)
    } else if is_text(cmd, "help_overview") {
        tool_call("help_overview", ObjectBuilder::new().finish())
    } else if is_text(cmd, "help_search") {
        search_call(args)
    } else if is_text(cmd, "help_topic") {
        only_arg(cmd, "id", args)
    } else if is_text(cmd, "help_service") {
        only_arg(cmd, "name", args)
    } else if is_text(cmd, "help_remind") {
        only_arg(cmd, "topic", args)
    } else if is_text(cmd, "check") || is_text(cmd, "run") || is_text(cmd, "effects") || is_text(
        cmd,
        "ir",
    ) || is_text(cmd, "asm") {
        match mcp_source_args(args) {
            Err(e) => Err(usage_error(e)),
            Ok(v) => {
                let tool = mcp_tool_alias(cmd);
                tool_call(&tool, v)
            },
        }
    } else {
        let message = "unknown mcp-call command `".to_owned().concat(cmd).concat("`");
        Err(usage_error(message))
    }
}

// ── messages ─────────────────────────────────────────────────────────────
/// The head of every message with a number.
pub open spec fn message_head(id: int, method: Seq<char>) -> Seq<(Seq<char>, Js)> {
    no_fields().push(("jsonrpc"@, Js::Text("2.0"@))).push(("id"@, Js::Num(id))).push(
        ("method"@, Js::Text(method)),
    )
}

fn message(id: i64, method: &str) -> (r: ObjectBuilder)
    ensures
        r@ == message_head(id as int, method@),
{
    ObjectBuilder::new().text("jsonrpc", "2.0").with("id", Json::Int(id)).text("method", method)
}

/// The message that opens a connection.
pub fn initialize_message(id: i64, version: &str) -> (r: Json)
    ensures
        r@ == Js::Object(
            message_head(id as int, "initialize"@).push(
                (
                    "params"@,
                    Js::Object(
                        no_fields().push(("protocolVersion"@, Js::Text("2025-06-18"@))).push(
                            ("capabilities"@, Js::Object(no_fields())),
                        ).push(
                            (
                                "clientInfo"@,
                                Js::Object(
                                    no_fields().push(("name"@, Js::Text("locusc-mcp-call"@))).push(
                                        ("version"@, Js::Text(version@)),
                                    ),
                                ),
                            ),
                        ),
                    ),
                ),
            ),
        ),
{
    let client = ObjectBuilder::new().text("name", "locusc-mcp-call").text(
        "version",
        version,
    ).finish();
    let params = ObjectBuilder::new().text("protocolVersion", "2025-06-18").with(
        "capabilities",
        ObjectBuilder::new().finish(),
    ).with("clientInfo", client).finish();
    message(id, "initialize").with("params", params).finish()
}

/// The message that a connection is open.
pub fn initialized_message() -> (r: Json)
    ensures
        r@ == Js::Object(
            no_fields().push(("jsonrpc"@, Js::Text("2.0"@))).push(
                ("method"@, Js::Text("notifications/initialized"@)),
            ).push(("params"@, Js::Object(no_fields()))),
        ),
{
    ObjectBuilder::new().text("jsonrpc", "2.0").text(
        "method",
        "notifications/initialized",
    ).with("params", ObjectBuilder::new().finish()).finish()
}

/// What the message that asks for the list of tools stands for.
pub open spec fn list_js(id: int) -> Js {
    Js::Object(message_head(id, "tools/list"@).push(("params"@, Js::Object(no_fields()))))
}

/// The message that asks for the list of tools.
pub fn list_message(id: i64) -> (r: Json)
    ensures
        r@ == list_js(id as int),
{
    message(id, "tools/list").with("params", ObjectBuilder::new().finish()).finish()
}

/// What the message that calls a tool stands for.
pub open spec fn call_js(id: int, tool: Seq<char>, arguments: Js) -> Js {
    let params = Js::Object(
        no_fields().push(("name"@, Js::Text(tool))).push(("arguments"@, arguments)),
    );
    Js::Object(message_head(id, "tools/call"@).push(("params"@, params)))
}

/// The message that calls a tool.
pub fn call_message(id: i64, tool: &str, arguments: Json) -> (r: Json)
    ensures
        r@ == call_js(id as int, tool@, arguments@),
{
    let params = ObjectBuilder::new().text("name", tool).with("arguments", arguments).finish();
    message(id, "tools/call").with("params", params).finish()
}

/// The message of a call: it asks for the list of tools, or calls one with its
/// arguments.
pub fn request_message(id: i64, call: McpCall) -> (r: Json)
    ensures
        r@ == if call.list_tools {
            list_js(id as int)
        } else {
            call_js(
                id as int,
                call.tool@,
                match call.arguments {
                    Arguments::Value(value) => value@,
                    Arguments::Written(text) => Js::Written(text@),
                },
            )
        },
{
    if call.list_tools {
        return list_message(id);
    }
    match call.arguments {
        Arguments::Value(value) => call_message(id, &call.tool, value),
        Arguments::Written(text) => call_message(id, &call.tool, Json::Written(text)),
    }
}

/// What a message means to whoever waits for an answer.
#[derive(Debug)]
pub enum AnswerStep {
    /// It answers something else.
    Skip,
    /// Its result is the answer.
    Result,
    Failed(String),
}

/// What a message means to whoever waits for the answer number `id`.
pub open spec fn step_is(r: AnswerStep, message: Message, id: i64) -> bool {
    if message.id != Some(id) {
        r is Skip
    } else {
        match message.error {
            Some(e) => r matches AnswerStep::Failed(m) && m@ == "MCP error: "@ + e,
            None => if message.has_result {
                r is Result
            } else {
                r matches AnswerStep::Failed(m) && m@ == "MCP response missing result: "@
                    + message.text
            },
        }
    }
}

/// What a message means to whoever waits for the answer number `id`.
pub fn answer_step(answer: &Answer, id: i64) -> (r: AnswerStep)
    ensures
        step_is(r, answer@, id),
{
    match answer.id {
        Some(n) => if n != id {
            return AnswerStep::Skip;
        },
        None => {
            return AnswerStep::Skip;
        },
    }
    match &answer.error {
        Some(e) => AnswerStep::Failed("MCP error: ".to_owned().concat(e)),
        None => if answer.has_result {
            AnswerStep::Result
        } else {
            AnswerStep::Failed("MCP response missing result: ".to_owned().concat(&answer.text))
        },
    }
}

/// What a line of the server means to whoever waits for the answer number `id`.
pub fn line_step(line: &str, id: i64) -> (r: AnswerStep)
    ensures
        match read_message(line@) {
            Ok(message) => step_is(r, message, id),
            Err(why) => r matches AnswerStep::Failed(m) && m@ == "invalid MCP JSON: "@ + why
                + ": "@ + line@,
        },
{
    match parse_answer(line) {
        Ok(answer) => answer_step(&answer, id),
        Err(why) => AnswerStep::Failed(
            "invalid MCP JSON: ".to_owned().concat(&why).concat(": ").concat(line),
        ),
    }
}

/// The exit code of a call: one where the tool reports an error, under either
/// spelling of the field; the first one that is there counts.
pub fn call_exit_code(is_error: Option<Option<bool>>, is_error_snake: Option<Option<bool>>) -> (r: i32)
    ensures
        r == (match (is_error, is_error_snake) {
            (Some(v), _) => if v == Some(true) {
                1int
            } else {
                0int
            },
            (None, Some(v)) => if v == Some(true) {
                1int
            } else {
                0int
            },
            (None, None) => 0int,
        }),
{
    let flag: Option<bool> = match is_error {
        Some(v) => v,
        None => match is_error_snake {
            Some(v) => v,
            None => None,
        },
    };
    match flag {
        Some(b) => if b {
            1
        } else {
            0
        },
        None => 0,
    }
}

/// What to do about a process that should end.
#[derive(Clone, Copy, Debug, PartialEq, Eq, Structural)]
pub enum ChildStep {
    /// It has ended.
    Ended,
    /// Its time is up.
    Kill,
    /// Look again a little later.
    Sleep,
}

/// What to do about a process that should end by itself, up to a time.
pub fn child_step(ended: bool, now_ms: u64, deadline_ms: u64) -> (r: ChildStep)
    ensures
        r == if ended {
            ChildStep::Ended
        } else if now_ms >= deadline_ms {
            ChildStep::Kill
        } else {
            ChildStep::Sleep
        },
{
    if ended {
        ChildStep::Ended
    } else if now_ms >= deadline_ms {
        ChildStep::Kill
    } else {
        ChildStep::Sleep
    }
}

} // verus!
