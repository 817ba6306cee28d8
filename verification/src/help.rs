//! Help cards and the replies made of them, and what a worker says of itself.
use crate::json::{list_of_texts, no_fields, text_list, Js, Json, ListBuilder, ObjectBuilder};
use crate::manifest::{fnv, fnv1a, platform_hash, stdlib_hash, StdlibModuleEntry};
use crate::symbols::ModuleSource;
use crate::text::{chars_of, count, decimal, hash_string, hash_text};
use crate::worker::WorkerFailure;
use vstd::prelude::*;
use vstd::string::*;

verus! {

/// A help card.
#[derive(Debug)]
pub struct HelpCard {
    pub id: String,
    pub kind: String,
    pub title: String,
    pub summary: String,
    pub syntax: String,
    pub example: String,
    pub details: Vec<String>,
    pub related: Vec<String>,
    pub keywords: Vec<String>,
}

/// A card as a JSON value.
pub open spec fn card_js(c: HelpCard) -> Js {
    Js::Object(
        no_fields().push(("id"@, Js::Text(c.id@))).push(("kind"@, Js::Text(c.kind@))).push(
            ("title"@, Js::Text(c.title@)),
        ).push(("summary"@, Js::Text(c.summary@))).push(("syntax"@, Js::Text(c.syntax@))).push(
            ("example"@, Js::Text(c.example@)),
        ).push(("details"@, Js::List(text_list(c.details@)))).push(
            ("related"@, Js::List(text_list(c.related@))),
        ).push(("keywords"@, Js::List(text_list(c.keywords@)))),
    )
}

/// A card as a JSON value.
pub fn help_card_json_value(c: &HelpCard) -> (r: Json)
    ensures
        r@ == card_js(*c),
{
    ObjectBuilder::new().text("id", &c.id).text("kind", &c.kind).text("title", &c.title).text(
        "summary",
        &c.summary,
    ).text("syntax", &c.syntax).text("example", &c.example).with(
        "details",
        list_of_texts(&c.details),
    ).with("related", list_of_texts(&c.related)).with(
        "keywords",
        list_of_texts(&c.keywords),
    ).finish()
}

/// How many dots a text has.
pub open spec fn dots(s: Seq<char>) -> nat
    decreases s.len(),
{
    if s.len() == 0 {
        0
    } else {
        dots(s.drop_last()) + (if s.last() == '.' {
            1nat
        } else {
            0nat
        })
    }
}

fn has_two_dots(s: &str) -> (r: bool)
    ensures
        r == (dots(s@) >= 2),
{
    let chars = chars_of(s);
    let mut seen: usize = 0;
    let mut i: usize = 0;
    assert(s@.take(0) =~= Seq::<char>::empty());
    while i < chars.len()
        invariant
            i <= chars.len(),
            chars@ == s@,
            seen <= i,
            seen == dots(s@.take(i as int)),
        decreases chars.len() - i,
    {
        assert(s@.take(i + 1).drop_last() =~= s@.take(i as int));
        if chars[i] == '.' {
            seen = seen + 1;
        }
        i = i + 1;
    }
    assert(s@.take(s@.len() as int) =~= s@);
    seen >= 2
}

/// The first `n` cards.
pub open spec fn cards_js(list: Seq<HelpCard>, n: nat) -> Seq<Js>
    decreases n,
{
    if n == 0 || n > list.len() {
        Seq::empty()
    } else {
        cards_js(list, (n - 1) as nat).push(card_js(list[n - 1]))
    }
}

/// Those of the first `n` cards that are of a whole service, not of a part of one.
pub open spec fn services_js(list: Seq<HelpCard>, n: nat) -> Seq<Js>
    decreases n,
{
    if n == 0 || n > list.len() {
        Seq::empty()
    } else if dots(list[n - 1].id@) >= 2 {
        services_js(list, (n - 1) as nat)
    } else {
        services_js(list, (n - 1) as nat).push(card_js(list[n - 1]))
    }
}

fn card_list(list: &Vec<HelpCard>) -> (r: Json)
    ensures
        r@ == Js::List(cards_js(list@, list@.len())),
{
    let mut out = ListBuilder::new();
    let mut i: usize = 0;
    while i < list.len()
        invariant
            i <= list.len(),
            out@ == cards_js(list@, i as nat),
        decreases list.len() - i,
    {
        out.push(help_card_json_value(&list[i]));
        i = i + 1;
    }
    out.finish()
}

fn service_list(list: &Vec<HelpCard>) -> (r: Json)
    ensures
        r@ == Js::List(services_js(list@, list@.len())),
{
    let mut out = ListBuilder::new();
    let mut i: usize = 0;
    while i < list.len()
        invariant
            i <= list.len(),
            out@ == services_js(list@, i as nat),
        decreases list.len() - i,
    {
        if !has_two_dots(&list[i].id) {
            out.push(help_card_json_value(&list[i]));
        }
        i = i + 1;
    }
    out.finish()
}

/// The head of every reply about the help.
pub open spec fn help_head(kind: Seq<char>) -> Seq<(Seq<char>, Js)> {
    no_fields().push(("schema"@, Js::Text("locus-help/1"@))).push(("kind"@, Js::Text(kind)))
}

fn head(kind: &str) -> (r: ObjectBuilder)
    ensures
        r@ == help_head(kind@),
{
    ObjectBuilder::new().text("schema", "locus-help/1").text("kind", kind)
}

/// The overview of the help.
pub fn help_overview_value(topics: &Vec<HelpCard>, services: &Vec<HelpCard>, cwd: &str, worker: Json) -> (r: Json)
    ensures
        r@ == Js::Object(
            help_head("overview"@).push(("default_format"@, Js::Text("json"@))).push(
                ("human_flag"@, Js::Text("--human"@)),
            ).push(("workspace_cwd"@, Js::Text(cwd@))).push(
                ("agent_start"@, Js::Text("locusc help agent"@)),
            ).push(("topics"@, Js::List(cards_js(topics@, topics@.len())))).push(
                ("services"@, Js::List(services_js(services@, services@.len()))),
            ).push(("worker"@, worker@)),
        ),
{
    head("overview").text("default_format", "json").text("human_flag", "--human").text(
        "workspace_cwd",
        cwd,
    ).text("agent_start", "locusc help agent").with("topics", card_list(topics)).with(
        "services",
        service_list(services),
    ).with("worker", worker).finish()
}

/// A card that a search found.
#[derive(Debug)]
pub struct Hit {
    pub score: u64,
    pub card: HelpCard,
}

/// A hit as a JSON value.
pub open spec fn hit_js(h: Hit) -> Js {
    Js::Object(
        no_fields().push(("score"@, Js::Num(h.score as int))).push(("card"@, card_js(h.card))),
    )
}

/// The first `n` hits.
pub open spec fn hits_js(list: Seq<Hit>, n: nat) -> Seq<Js>
    decreases n,
{
    if n == 0 || n > list.len() {
        Seq::empty()
    } else {
        hits_js(list, (n - 1) as nat).push(hit_js(list[n - 1]))
    }
}

fn hit_list(list: &Vec<Hit>) -> (r: Json)
    ensures
        r@ == Js::List(hits_js(list@, list@.len())),
{
    let mut out = ListBuilder::new();
    let mut i: usize = 0;
    while i < list.len()
        invariant
            i <= list.len(),
            out@ == hits_js(list@, i as nat),
        decreases list.len() - i,
    {
        let hit = ObjectBuilder::new().with("score", Json::Count(list[i].score)).with(
            "card",
            help_card_json_value(&list[i].card),
        ).finish();
        out.push(hit);
        i = i + 1;
    }
    out.finish()
}

/// What a search found.
pub fn help_search_value(query: &str, hits: &Vec<Hit>, worker: Json) -> (r: Json)
    ensures
        r@ == Js::Object(
            help_head("search"@).push(("query"@, Js::Text(query@))).push(
                ("results"@, Js::List(hits_js(hits@, hits@.len()))),
            ).push(("worker"@, worker@)),
        ),
{
    head("search").text("query", query).with("results", hit_list(hits)).with(
        "worker",
        worker,
    ).finish()
}

/// What is said where there is no card.
pub open spec fn no_card_text(what: Seq<char>, name: Seq<char>) -> Seq<char> {
    "unknown "@ + what + " `"@ + name + "` (try help_search)"@
}

fn no_card(what: &str, name: &str) -> (r: WorkerFailure)
    ensures
        r.code@ == "help_not_found"@,
        r.message@ == no_card_text(what@, name@),
{
    WorkerFailure {
        code: "help_not_found".to_owned(),
        message: "unknown ".to_owned().concat(what).concat(" `").concat(name).concat(
            "` (try help_search)",
        ),
    }
}

/// The card of a topic.
pub fn help_topic_value(id: &str, card: &Option<HelpCard>, worker: Json) -> (r: Result<
    Json,
    WorkerFailure,
>)
    ensures
        match *card {
            None => r matches Err(f) && f.code@ == "help_not_found"@ && f.message@ == no_card_text(
                "help topic"@,
                id@,
            ),
            Some(c) => r matches Ok(v) && v@ == Js::Object(
                help_head("topic"@).push(("card"@, card_js(c))).push(("worker"@, worker@)),
            ),
        },
{
    match card {
        None => Err(no_card("help topic", id)),
        Some(c) => Ok(
            head("topic").with("card", help_card_json_value(c)).with("worker", worker).finish(),
        ),
    }
}

/// The card of a service.
pub fn help_service_value(name: &str, card: &Option<HelpCard>, worker: Json) -> (r: Result<
    Json,
    WorkerFailure,
>)
    ensures
        match *card {
            None => r matches Err(f) && f.code@ == "help_not_found"@ && f.message@ == no_card_text(
                "service"@,
                name@,
            ),
            Some(c) => r matches Ok(v) && v@ == Js::Object(
                help_head("service"@).push(("card"@, card_js(c))).push(("worker"@, worker@)),
            ),
        },
{
    match card {
        None => Err(no_card("service", name)),
        Some(c) => Ok(
            head("service").with("card", help_card_json_value(c)).with("worker", worker).finish(),
        ),
    }
}

/// The card of a topic: the one that has its name, else the best that a search
/// found.
pub open spec fn card_of(named: Option<HelpCard>, hits: Seq<Hit>) -> Option<HelpCard> {
    match named {
        Some(card) => Some(card),
        None => if hits.len() > 0 {
            Some(hits[0].card)
        } else {
            None
        },
    }
}

/// The card of a topic, from the one that has its name and from what a search
/// found, the best first.
pub fn card_or_best(named: Option<HelpCard>, hits: Vec<Hit>) -> (r: Option<HelpCard>)
    ensures
        r == card_of(named, hits@),
{
    if named.is_some() {
        return named;
    }
    let mut hits = hits;
    if hits.len() == 0 {
        return None;
    }
    Some(hits.remove(0).card)
}

/// What is shown for a word: its own page, else the page of what a search found.
pub fn page_or_search(named: Option<String>, found: String) -> (r: String)
    ensures
        r == (match named {
            Some(page) => page,
            None => found,
        }),
{
    match named {
        Some(page) => page,
        None => found,
    }
}

/// A reminder: a card, or that there is none.
pub fn help_remind_value(topic: &str, card: &Option<HelpCard>, worker: Json) -> (r: Json)
    ensures
        r@ == Js::Object(
            help_head("reminder"@).push(("query"@, Js::Text(topic@))).push(
                match *card {
                    Some(c) => ("card"@, card_js(c)),
                    None => ("error"@, Js::Text("no matching help card"@)),
                },
            ).push(("worker"@, worker@)),
        ),
{
    let start = head("reminder").text("query", topic);
    match card {
        Some(c) => start.with("card", help_card_json_value(c)).with("worker", worker).finish(),
        None => start.text("error", "no matching help card").with("worker", worker).finish(),
    }
}

// ── services ─────────────────────────────────────────────────────────────
/// A listed module as a JSON value.
pub open spec fn module_js(e: StdlibModuleEntry) -> Js {
    Js::Object(
        no_fields().push(("platform"@, Js::Text(e.platform@))).push(
            ("layer"@, Js::Num(e.layer as int)),
        ).push(("name"@, Js::Text(e.name@))).push(("boundary"@, Js::Bool(e.boundary))).push(
            ("bytes"@, Js::Num(e.bytes as int)),
        ).push(("fnv1a64"@, Js::Text(e.fnv1a64@))),
    )
}

/// The first `n` listed modules.
pub open spec fn modules_js(list: Seq<StdlibModuleEntry>, n: nat) -> Seq<Js>
    decreases n,
{
    if n == 0 || n > list.len() {
        Seq::empty()
    } else {
        modules_js(list, (n - 1) as nat).push(module_js(list[n - 1]))
    }
}

fn module_list(list: &Vec<StdlibModuleEntry>) -> (r: Json)
    ensures
        r@ == Js::List(modules_js(list@, list@.len())),
{
    let mut out = ListBuilder::new();
    let mut i: usize = 0;
    while i < list.len()
        invariant
            i <= list.len(),
            out@ == modules_js(list@, i as nat),
        decreases list.len() - i,
    {
        let e = &list[i];
        let entry = ObjectBuilder::new().text("platform", e.platform).with(
            "layer",
            Json::Count(e.layer as u64),
        ).text("name", &e.name).flag("boundary", e.boundary).count("bytes", e.bytes).text(
            "fnv1a64",
            &e.fnv1a64,
        ).finish();
        out.push(entry);
        i = i + 1;
    }
    out.finish()
}

/// The modules of both platforms.
pub fn list_stdlib_services_value(
    windows: &Vec<StdlibModuleEntry>,
    linux: &Vec<StdlibModuleEntry>,
    cwd: &str,
    worker: Json,
) -> (r: Json)
    ensures
        r@ == Js::Object(
            no_fields().push(("schema"@, Js::Text("locus-stdlib-services/1"@))).push(
                ("workspace_cwd"@, Js::Text(cwd@)),
            ).push(("worker"@, worker@)).push(
                ("windows"@, Js::List(modules_js(windows@, windows@.len()))),
            ).push(("linux"@, Js::List(modules_js(linux@, linux@.len())))),
        ),
{
    ObjectBuilder::new().text("schema", "locus-stdlib-services/1").text(
        "workspace_cwd",
        cwd,
    ).with("worker", worker).with("windows", module_list(windows)).with(
        "linux",
        module_list(linux),
    ).finish()
}

// ── what a worker says of itself ─────────────────────────────────────────
/// Where a worker runs and what it was made of.
#[derive(Debug)]
pub struct WorkerSite {
    pub version: String,
    pub path: String,
    pub os: String,
    pub arch: String,
    pub abi_version: u32,
    pub diagnostic_schema: String,
}

/// The hash of both platforms together.
pub open spec fn language_hash(windows: Seq<ModuleSource>, linux: Seq<ModuleSource>) -> u64 {
    fnv(
        vstd::utf8::encode_utf8(
            "windows:"@ + hash_text(platform_hash("windows"@, windows)) + ";linux:"@ + hash_text(
                platform_hash("linux"@, linux),
            ),
        ),
    )
}

/// What a worker says of itself.
pub open spec fn worker_js(site: WorkerSite, windows: Seq<ModuleSource>, linux: Seq<ModuleSource>) -> Js {
    let hash = hash_text(language_hash(windows, linux));
    Js::Object(
        no_fields().push(("protocol"@, Js::Text("locus-worker/1"@))).push(
            ("worker_version"@, Js::Text(site.version@)),
        ).push(("worker_path"@, Js::Text(site.path@))).push(
            ("target_os"@, Js::Text(site.os@)),
        ).push(("target_arch"@, Js::Text(site.arch@))).push(
            ("abi_version"@, Js::Num(site.abi_version as int)),
        ).push(("diagnostic_schema"@, Js::Text(site.diagnostic_schema@))).push(
            ("stdlib_hash"@, Js::Text(hash)),
        ).push(
            ("windows_stdlib_hash"@, Js::Text(hash_text(platform_hash("windows"@, windows)))),
        ).push(("linux_stdlib_hash"@, Js::Text(hash_text(platform_hash("linux"@, linux))))).push(
            ("stdlib_module_count"@, Js::Num((windows.len() + linux.len()) as int)),
        ).push(
            (
                "language_revision"@,
                Js::Text("abi"@ + decimal(site.abi_version as nat) + "-stdlib-"@ + hash),
            ),
        ),
    )
}

/// What a worker says of itself. The hashes tell one set of modules from another.
pub fn worker_info(site: &WorkerSite, windows: &Vec<ModuleSource>, linux: &Vec<ModuleSource>) -> (r: Json)
    requires
        windows.len() + linux.len() <= u64::MAX,
    ensures
        r@ == worker_js(*site, windows@, linux@),
{
    let windows_hash = stdlib_hash("windows", windows);
    let linux_hash = stdlib_hash("linux", linux);
    let both = "windows:".to_owned().concat(&windows_hash).concat(";linux:").concat(&linux_hash);
    let hash = hash_string(fnv1a(both.as_str()));
    let abi = count(site.abi_version as u64);
    let revision = "abi".to_owned().concat(&abi).concat("-stdlib-").concat(&hash);
    ObjectBuilder::new().text("protocol", "locus-worker/1").text(
        "worker_version",
        &site.version,
    ).text("worker_path", &site.path).text("target_os", &site.os).text(
        "target_arch",
        &site.arch,
    ).with("abi_version", Json::Count(site.abi_version as u64)).text(
        "diagnostic_schema",
        &site.diagnostic_schema,
    ).text("stdlib_hash", &hash).text("windows_stdlib_hash", &windows_hash).text(
        "linux_stdlib_hash",
        &linux_hash,
    ).with(
        "stdlib_module_count",
        Json::Count(windows.len() as u64 + linux.len() as u64),
    ).text("language_revision", &revision).finish()
}

pub const UPDATE_HINT: &'static str = "Rebuild or replace the worker binary, or set LOCUS_WORKER_EXE to a fresh locusc-compatible worker; new MCP requests use that worker without restarting the supervisor.";

/// What the supervisor says of itself.
pub fn supervisor_info_value(version: &str, path: &str, worker: &str) -> (r: Json)
    ensures
        r@ == Js::Object(
            no_fields().push(("protocol"@, Js::Text("locus-mcp-supervisor/1"@))).push(
                ("supervisor_version"@, Js::Text(version@)),
            ).push(("supervisor_path"@, Js::Text(path@))).push(
                ("worker_env_var"@, Js::Text("LOCUS_WORKER_EXE"@)),
            ).push(("configured_worker_path"@, Js::Text(worker@))).push(
                ("worker_update_hint"@, Js::Text(UPDATE_HINT@)),
            ),
        ),
{
    ObjectBuilder::new().text("protocol", "locus-mcp-supervisor/1").text(
        "supervisor_version",
        version,
    ).text("supervisor_path", path).text("worker_env_var", "LOCUS_WORKER_EXE").text(
        "configured_worker_path",
        worker,
    ).text("worker_update_hint", UPDATE_HINT).finish()
}

/// The greeting of a worker.
pub fn hello_value(worker: Json) -> (r: Json)
    ensures
        r@ == Js::Object(
            no_fields().push(("kind"@, Js::Text("worker_hello"@))).push(("worker"@, worker@)),
        ),
{
    ObjectBuilder::new().text("kind", "worker_hello").with("worker", worker).finish()
}

/// Where the worker is: what the environment says, unless that is blank, else the
/// program itself.
pub fn worker_exe_path(configured: &Option<String>, own: Result<String, String>) -> (r: Result<
    String,
    String,
>)
    ensures
        match *configured {
            Some(path) => if crate::text::trimmed(path@).len() > 0 {
                r matches Ok(p) && p@ == crate::text::trimmed(path@)
            } else {
                r == own
            },
            None => r == own,
        },
{
    match configured {
        Some(path) => {
            let path = crate::text::trim(path);
            if path.as_str().is_empty() {
                own
            } else {
                Ok(path)
            }
        },
        None => own,
    }
}

/// A path as it is shown.
pub fn path_display(path: &Result<String, String>) -> (r: String)
    ensures
        r@ == match *path {
            Ok(p) => p@,
            Err(e) => "<unavailable: "@ + e@ + ">"@,
        },
{
    match path {
        Ok(p) => p.clone(),
        Err(e) => "<unavailable: ".to_owned().concat(e).concat(">"),
    }
}

} // verus!
