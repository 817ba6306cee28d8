//! What the command line, the reports, the manifests and the linker steps say.
use locus_llvm::cli::{
    dispatch, exit_code, help_route, mcp_dispatch, parse_help_args, parse_options, take_brk_switch, unknown_service,
    unknown_topic, Command, HelpRoute, McpCommand, Tool, HELP_REMIND_USAGE, HELP_SEARCH_USAGE, HELP_SERVICE_USAGE,
    HELP_TOPIC_USAGE, USAGE,
};
use locus_llvm::diagnostics::diagnostic_explanation;
use locus_llvm::error::Context;
use locus_llvm::ir::{Atom, Comp, Ir, Label, Row, ValueLayout};
use locus_llvm::layout::{field_region, FieldRegion};
use locus_llvm::link::{
    compile_args, link_args, locate_runtime_staticlib, needs_collector, newest_time, program_libs,
    program_object, runtime_asm_import_libs, runtime_object, runtime_source, runtime_staticlib_stale,
    with_runtime, AsmImport, Candidate, ImportLib, CRT_MAIN, NO_RUNTIME,
};
use locus_llvm::manifest::{
    fnv1a, manifest_step, parse_boundary_modules, republished_file, republished_listing,
    stdlib_entries, stdlib_hash, ManifestStep,
};
use locus_llvm::report::{effects_human, effects_json, grouped, json_escape, layer_tag, Effect};
use locus_llvm::symbols::{
    dedupe_last_wins, import_table, plugin_grafted_modules, plugin_symbols, resolved, Lookup,
    ModuleSource, ServicePlugin, Symbol,
};
use std::rc::Rc;

fn words(list: &[&str]) -> Vec<String> {
    list.iter().map(|x| x.to_string()).collect()
}

fn module(layer: u8, name: &str, source: &str) -> ModuleSource {
    ModuleSource { layer, name: name.to_string(), source: source.to_string() }
}

fn sym(name: &str, addr: u64) -> Symbol {
    Symbol { name: name.to_string(), addr }
}

fn shown(list: &[Symbol]) -> Vec<(&str, u64)> {
    list.iter().map(|s| (s.name.as_str(), s.addr)).collect()
}

// ── reports ──────────────────────────────────────────────────────────────
#[test]
fn json_escape_handles_specials() {
    assert_eq!(json_escape(r#"a"b\c"#), r#"a\"b\\c"#);
    assert_eq!(json_escape("tab\tnl\n"), "tab\\tnl\\n");
    assert_eq!(json_escape("plain — unicode"), "plain — unicode");
}

#[test]
fn control_characters_are_escaped_by_number() {
    assert_eq!(json_escape("\u{1}\u{1f}\r"), "\\u0001\\u001f\\r");
    assert_eq!(json_escape(""), "");
}

fn effect(label: &str, category: &str, layer: Option<u64>) -> Effect {
    Effect {
        label: label.to_string(),
        category: category.to_string(),
        description: format!("about {label}"),
        layer,
    }
}

#[test]
fn effects_are_grouped_in_the_order_of_the_categories() {
    let effects = vec![effect("gc", "memory", None), effect("fs", "world", Some(1)), effect("mem", "memory", Some(0))];
    let groups = grouped(&effects, &words(&["world", "control", "memory"]));
    let seen: Vec<(&str, &[usize])> = groups.iter().map(|g| (g.category.as_str(), &g.members[..])).collect();
    assert_eq!(seen, vec![("world", &[1usize][..]), ("memory", &[0usize, 2][..])]);
}

#[test]
fn a_layer_has_a_tag() {
    assert_eq!(layer_tag(Some(0)), "L0");
    assert_eq!(layer_tag(Some(1)), "L1");
    assert_eq!(layer_tag(Some(2)), "L2");
    assert_eq!(layer_tag(Some(3)), "L\u{b7}");
    assert_eq!(layer_tag(None), "L\u{b7}");
}

#[test]
fn the_manifest_for_people_rolls_up_long_lists() {
    let order = words(&["world", "memory"]);
    assert_eq!(
        effects_human("a.locus", "Int", &vec![], &order),
        "a.locus\n  type    : Int\n  effects : {}  — pure (touches nothing outside itself)\n"
    );
    let few = vec![effect("fs", "world", Some(1)), effect("gc", "memory", None)];
    assert_eq!(
        effects_human("a.locus", "Int", &few, &order),
        "a.locus\n  type    : Int\n  effects : { fs, gc }\n\n  world (1)\n    L1  fs         about fs\n\n  memory (1)\n    L\u{b7}  gc         about gc\n"
    );
    let many: Vec<Effect> = (0..9).map(|i| effect(&format!("e{i}"), "world", None)).collect();
    let text = effects_human("a.locus", "Int", &many, &order);
    assert!(text.contains("  effects : 9 in 1 categories  (world 9)\n"), "{text}");
}

#[test]
fn the_manifest_for_machines_is_fixed_in_shape() {
    let order = words(&["world", "memory"]);
    let list = vec![effect("fs", "world", Some(1)), effect("gc", "memory", None)];
    assert_eq!(
        effects_json("a\"b", "Int", &list, &order),
        "{\n  \"file\": \"a\\\"b\",\n  \"type\": \"Int\",\n  \"pure\": false,\n  \"effect_count\": 2,\n  \"categories\": { \"world\": 1, \"memory\": 1 },\n  \"effects\": [\n    { \"label\": \"fs\", \"category\": \"world\", \"layer\": 1 },\n    { \"label\": \"gc\", \"category\": \"memory\", \"layer\": null }\n  ]\n}\n"
    );
}

// ── manifests ────────────────────────────────────────────────────────────
#[test]
fn boundary_manifest_parses_the_module_list() {
    let m = parse_boundary_modules(
        "[package]\nname = \"x\"\n\n[boundary]\nmodules = [\"MyFfi\", \"Gpu\"]\n",
    );
    assert!(m.contains(&"MyFfi".to_string()) && m.contains(&"Gpu".to_string()) && m.len() == 2);
}

#[test]
fn boundary_manifest_tolerates_a_multiline_array_and_no_section() {
    let has = |m: &Vec<String>, x: &str| m.contains(&x.to_string());
    let multiline = parse_boundary_modules("[boundary]\nmodules = [\n  \"A\",\n  \"B\",\n]\n");
    assert!(has(&multiline, "A") && has(&multiline, "B"));
    assert!(parse_boundary_modules("[package]\nname = \"x\"\n").is_empty());
    let scoped = parse_boundary_modules("[boundary]\nmodules = [\"A\"]\n[other]\nx = [\"Z\"]\n");
    assert!(has(&scoped, "A") && !has(&scoped, "Z") && scoped.len() == 1);
}

#[test]
fn what_follows_the_boundary_table_is_not_read() {
    let with = |rest: &str| {
        parse_boundary_modules(&format!("[boundary]\nmodules = [\"A\"]\n[other]{rest}"))
    };
    assert_eq!(with(""), words(&["A"]));
    assert_eq!(with("\n[boundary]\nmodules = [\"B\"]\n"), words(&["A"]));
    let early = "[boundary]\n[other]\nmodules = [\"Z\"]\n";
    assert!(parse_boundary_modules(early).is_empty());
}

#[test]
fn the_nearest_manifest_counts() {
    assert_eq!(manifest_step(true, true), ManifestStep::Read);
    assert_eq!(manifest_step(true, false), ManifestStep::Read);
    assert_eq!(manifest_step(false, true), ManifestStep::Up);
    assert_eq!(manifest_step(false, false), ManifestStep::Nothing);
}

#[test]
fn a_module_listed_twice_is_authorized_once() {
    assert_eq!(parse_boundary_modules("[boundary]\nmodules = [\"A\", \"A\"]\n"), words(&["A"]));
}

#[test]
fn texts_hash_to_known_numbers() {
    assert_eq!(fnv1a(""), 0xcbf2_9ce4_8422_2325);
    assert_eq!(fnv1a("a"), 0xaf63_dc4c_8601_ec8c);
    assert_eq!(fnv1a("foobar"), 0x8594_4171_f739_67e8);
    // the hash is one of the bytes: é is two of them
    let bytes = "é".bytes().fold(0xcbf2_9ce4_8422_2325u64, |h, b| (h ^ b as u64).wrapping_mul(0x100_0000_01b3));
    assert_eq!(fnv1a("é"), bytes);
}

#[test]
fn a_listing_has_one_line_for_each_module() {
    let list = vec![module(0, "winapi", "abc"), module(1, "console", "")];
    assert_eq!(republished_file(&list[0]), "0_winapi.locus");
    let text = republished_listing(&list, &"x".to_string());
    let lines: Vec<&str> = text.lines().collect();
    assert_eq!(lines[0], "# Locus platform - republished from the compiler's embedded (authoritative) copy.");
    assert_eq!(lines[3], "# layer  module       bytes    fnv1a-64            file");
    assert_eq!(lines[4], format!("  0      winapi       3        {:#018x}  0_winapi.locus", fnv1a("abc")));
    assert_eq!(lines[5], format!("  1      console      0        {:#018x}  1_console.locus", fnv1a("")));
    assert_eq!(lines[6], format!("  cfg    effects      1        {:#018x}  effects.catalog", fnv1a("x")));
    assert_eq!(lines.len(), 7);
}

#[test]
fn stdlib_listing_includes_both_platform_boundaries() {
    let modules = stdlib_entries("windows", &vec![module(0, "winapi", "w"), module(1, "console", "c")]);
    assert!(modules.iter().any(|m| m.name == "winapi" && m.boundary));
    let linux = stdlib_entries("linux", &vec![module(0, "libc", "l")]);
    assert!(linux.iter().any(|m| m.name == "libc" && m.boundary));
    assert!(modules.iter().any(|m| m.name == "console" && !m.boundary));
    assert_eq!(linux[0].platform, "linux");
    assert_eq!(linux[0].fnv1a64, format!("{:#018x}", fnv1a("l")));
}

#[test]
fn a_stdlib_hash_tells_platforms_and_sources_apart() {
    let one = vec![module(0, "m", "a")];
    let other = vec![module(0, "m", "b")];
    let h = stdlib_hash("windows", &one);
    assert!(h.starts_with("0x") && h.len() == 18);
    assert_ne!(h, stdlib_hash("linux", &one));
    assert_ne!(h, stdlib_hash("windows", &other));
    assert_eq!(h, stdlib_hash("windows", &vec![module(0, "m", "a")]));
}

// ── diagnostics and layouts ──────────────────────────────────────────────
#[test]
fn diagnostic_explain_knows_capability_codes() {
    let (_, slug, _, _) = diagnostic_explanation("RN-E0402");
    assert_eq!(slug, "cap.mint-outside-boundary");
}

#[test]
fn an_unknown_code_is_explained_as_unknown() {
    let (code, slug, _, _) = diagnostic_explanation("RN-E9999");
    assert_ne!(code, "RN-E0402");
    assert!(slug.contains("unknown"), "{slug}");
}

#[test]
fn field_region_counts_multi_cell_scalar_fields() {
    let quad = ValueLayout::scalar_bytes(16, 16);
    match field_region(quad, Context::Phrase("quad field")).expect("multi-cell scalar accepted") {
        FieldRegion::Scalar { cells } => assert_eq!(cells, 2),
        FieldRegion::Pointer { .. } => panic!("a vector field is a scalar region"),
    }
    match field_region(ValueLayout::scalar_cell(), Context::Phrase("int field")).unwrap() {
        FieldRegion::Scalar { cells } => assert_eq!(cells, 1),
        FieldRegion::Pointer { .. } => panic!(),
    }
    assert!(matches!(
        field_region(ValueLayout::pointer_cell(), Context::Phrase("handle field")).unwrap(),
        FieldRegion::Pointer { word: false }
    ));
    assert!(matches!(
        field_region(ValueLayout::word_cell(), Context::Phrase("var field")).unwrap(),
        FieldRegion::Pointer { word: true }
    ));
    let mixed = ValueLayout {
        pointer_cells: 1,
        scalar_cells: 1,
        byte_width: 16,
        align: 8,
        known: true,
        word: false,
    };
    assert!(field_region(mixed, Context::Phrase("mixed value"))
        .unwrap_err()
        .message()
        .contains("unsupported mixed layout p1 s1"));
    assert!(field_region(ValueLayout::unknown_scalar_cell(), Context::Phrase("poly value"))
        .unwrap_err()
        .message()
        .contains("unknown storage layout"));
}

// ── symbols ──────────────────────────────────────────────────────────────
#[test]
fn the_last_of_equal_names_is_kept() {
    let list = dedupe_last_wins(vec![sym("a", 1), sym("b", 2), sym("a", 3)]);
    assert_eq!(shown(&list), vec![("a", 3), ("b", 2)]);
    let list = dedupe_last_wins(vec![sym("z", 1), sym("a", 2), sym("a", 3), sym("m", 4), sym("z", 5)]);
    assert_eq!(shown(&list), vec![("z", 5), ("a", 3), ("m", 4)]);
}

#[test]
fn the_host_overrides_the_runtime_and_the_system() {
    let table = import_table(
        &vec![sym("locus_alloc", 1), sym("WriteConsoleW", 2)],
        &vec![sym("WriteConsoleW", 3)],
        &vec![sym("WriteConsoleW", 4)],
    );
    assert_eq!(shown(&table), vec![("locus_alloc", 1), ("WriteConsoleW", 4)]);
}

#[test]
fn other_names_keep_their_binding_beside_the_host() {
    let runtime = vec![sym("locus_alloc", 1), sym("locus_len", 2)];
    let system = vec![sym("WriteConsoleW", 3), sym("locus_len", 5)];
    let host = vec![sym("draw", 7), sym("locus_alloc", 9)];
    let without = import_table(&runtime, &system, &vec![]);
    let table = import_table(&runtime, &system, &host);
    assert_eq!(shown(&without), vec![("locus_alloc", 1), ("locus_len", 5), ("WriteConsoleW", 3)]);
    assert_eq!(
        shown(&table),
        vec![("locus_alloc", 9), ("locus_len", 5), ("WriteConsoleW", 3), ("draw", 7)]
    );
}

#[test]
fn plugins_bring_their_symbols_and_modules() {
    let plugin = |name: &str, addr: u64| ServicePlugin {
        modules: vec![module(1, name, "src")],
        symbols: vec![sym(name, addr)],
    };
    let plugins = vec![plugin("sqlite", 10), plugin("zip", 20)];
    assert_eq!(shown(&plugin_symbols(&plugins)), vec![("sqlite", 10), ("zip", 20)]);
    let grafted = plugin_grafted_modules(&vec![module(0, "winapi", "w")], &plugins);
    let names: Vec<&str> = grafted.iter().map(|m| m.name.as_str()).collect();
    assert_eq!(names, vec!["winapi", "sqlite", "zip"]);
    assert!(plugin_symbols(&vec![]).is_empty());
}

#[test]
fn a_failed_lookup_says_what_was_needed() {
    let s = "MessageBoxW".to_string();
    let d = "user32.dll".to_string();
    assert_eq!(resolved(&s, &d, Lookup::BadLibrary).unwrap_err(), "bad DLL name `user32.dll`");
    assert_eq!(resolved(&s, &d, Lookup::BadSymbol).unwrap_err(), "bad symbol name `MessageBoxW`");
    assert_eq!(
        resolved(&s, &d, Lookup::NotLoaded).unwrap_err(),
        "LoadLibrary(\"user32.dll\") failed (needed for `MessageBoxW`)"
    );
    assert_eq!(
        resolved(&s, &d, Lookup::NotFound).unwrap_err(),
        "GetProcAddress(`MessageBoxW` in user32.dll) failed"
    );
    let found = resolved(&s, &d, Lookup::Found(7)).unwrap();
    assert_eq!((found.name.as_str(), found.addr), ("MessageBoxW", 7));
}

// ── linking ──────────────────────────────────────────────────────────────
#[test]
fn a_linker_call_names_objects_switches_and_libraries() {
    assert_eq!(
        compile_args("rt.obj", "rt.c"),
        words(&["/nologo", "/c", "/Fort.obj", "rt.c"])
    );
    let args = link_args(&words(&["a.obj", "b.obj"]), "a.exe", &words(&["user32.lib"]));
    assert_eq!(args[..2], words(&["a.obj", "b.obj"])[..]);
    for switch in [
        "/OUT:a.exe",
        "/SUBSYSTEM:CONSOLE",
        "/ENTRY:mainCRTStartup",
        "/MACHINE:X64",
        "/STACK:16777216",
        "/NXCOMPAT",
        "/DYNAMICBASE",
    ] {
        assert!(args.contains(&switch.to_string()), "{switch}");
    }
    assert_eq!(args.last(), Some(&"user32.lib".to_string()));
}

#[test]
fn the_collector_brings_its_libraries() {
    let plain = program_libs(&words(&["user32.lib"]), &words(&["kernel32.lib"]), &None);
    assert_eq!(plain, words(&["user32.lib", "kernel32.lib"]));
    let managed = program_libs(&vec![], &vec![], &Some("locus_rt.lib".to_string()));
    assert_eq!(managed[0], "locus_rt.lib");
    assert!(managed.len() > 1);
    assert_eq!(with_runtime(&words(&["a.obj"]), "rt.obj"), words(&["a.obj", "rt.obj"]));
}

#[test]
fn objects_are_named_after_the_program() {
    assert_ne!(program_object("demo"), runtime_object("demo"));
    assert!(program_object("demo").contains("demo"));
    assert!(runtime_object("demo").contains("demo"));
}

fn program(row: Vec<Label>) -> Ir {
    Ir::Ret { row: Rc::new(Row { labels: row }), comp: Rc::new(Comp::Atom(Atom::Int(1))) }
}

#[test]
fn the_collector_is_linked_when_it_is_needed_or_asked_for() {
    assert!(!needs_collector(&program(vec![]), false));
    assert!(needs_collector(&program(vec![]), true));
    let allocates = Ir::Ret {
        row: Rc::new(Row { labels: vec![Label::Gc] }),
        comp: Rc::new(Comp::ArrayLit { elems: vec![], elem_layout: ValueLayout::scalar_cell() }),
    };
    assert!(needs_collector(&allocates, false));
    assert!(runtime_source(true).starts_with(CRT_MAIN) || runtime_source(true).contains("__locus_main"));
    assert!(!runtime_source(true).contains("malloc"));
    assert!(runtime_source(false).contains("malloc"));
}

#[test]
fn the_newest_time_is_the_greatest_known() {
    assert_eq!(newest_time(&vec![]), None);
    assert_eq!(newest_time(&vec![None]), None);
    assert_eq!(newest_time(&vec![Some(3), None, Some(9), Some(4)]), Some(9));
}

#[test]
fn a_library_older_than_its_sources_is_stale() {
    assert!(runtime_staticlib_stale("rt.lib", Some(5), Some(6)).is_some());
    assert!(runtime_staticlib_stale("rt.lib", Some(6), Some(6)).is_none());
    assert!(runtime_staticlib_stale("rt.lib", Some(7), Some(6)).is_none());
    assert!(runtime_staticlib_stale("rt.lib", Some(7), None).is_none());
}

#[test]
fn the_first_library_there_is_taken() {
    let at = |path: &str, exists: bool, time: u64| Candidate {
        path: path.to_string(),
        exists,
        time: Some(time),
    };
    let list = vec![at("a.lib", false, 9), at("b.lib", true, 9), at("c.lib", true, 9)];
    assert_eq!(locate_runtime_staticlib(&list, Some(5)), Ok("b.lib".to_string()));
    assert!(locate_runtime_staticlib(&list, Some(10)).unwrap_err().contains("b.lib"));
    assert_eq!(locate_runtime_staticlib(&vec![at("a.lib", false, 9)], None), Err(NO_RUNTIME.to_string()));
}

#[test]
fn runtime_asm_win32_imports_resolve_through_the_oracle() {
    let known = |symbol: &str, dll: &str| AsmImport { symbol: symbol.to_string(), dll: Some(dll.to_string()) };
    let table = vec![ImportLib { dll: "kernel32.dll".to_string(), lib: Some("kernel32.lib".to_string()) }];
    let libs = runtime_asm_import_libs(&vec![known("GetStdHandle", "kernel32.dll")], &table)
        .expect("every runtime-asm Win32 import is in the oracle");
    assert!(libs.iter().any(|l| l.eq_ignore_ascii_case("kernel32.lib")));
    let missing = AsmImport { symbol: "NoSuchApi".to_string(), dll: None };
    assert!(runtime_asm_import_libs(&vec![missing], &table).unwrap_err().contains("NoSuchApi"));
    let two = vec![known("GetStdHandle", "kernel32.dll"), known("WriteFile", "kernel32.dll")];
    assert_eq!(runtime_asm_import_libs(&two, &table).unwrap(), words(&["kernel32.lib"]));
}

// ── the command line ─────────────────────────────────────────────────────
#[test]
fn the_first_word_is_the_command() {
    assert!(matches!(dispatch(&words(&["run", "a.locus"])), Ok(Command::Run)));
    assert!(matches!(dispatch(&words(&["build"])), Ok(Command::Build)));
    assert!(matches!(dispatch(&words(&["asm"])), Ok(Command::Asm)));
    assert!(matches!(dispatch(&words(&["effects"])), Ok(Command::Effects)));
    assert!(matches!(dispatch(&words(&["republish"])), Ok(Command::Republish)));
    assert!(matches!(dispatch(&words(&["mcp"])), Ok(Command::Mcp)));
    assert!(matches!(dispatch(&words(&["mcp-call"])), Ok(Command::McpCall)));
    assert!(matches!(dispatch(&words(&["help"])), Ok(Command::Help)));
    assert!(matches!(dispatch(&words(&["--help"])), Ok(Command::Usage)));
    let e = dispatch(&words(&["frobnicate"])).unwrap_err();
    assert!(e.contains("frobnicate"), "{e}");
    assert!(USAGE.contains("locusc run     FILE"));
}

#[test]
fn the_server_serves_unless_it_is_a_worker() {
    assert_eq!(mcp_dispatch(&vec![]), Ok(McpCommand::Serve));
    assert_eq!(mcp_dispatch(&words(&["worker"])), Ok(McpCommand::Worker));
    let e = mcp_dispatch(&words(&["worker", "x"])).unwrap_err();
    assert_eq!(e, "unknown command `worker` (try no arguments for MCP stdio)");
}

#[test]
fn a_failed_command_has_its_own_exit_code() {
    assert_eq!(exit_code(&Ok(42)), 42);
    assert_ne!(exit_code(&Err("x".to_string())), 0);
}

#[test]
fn the_debug_switch_is_taken_out_once_found() {
    let (rest, on) = take_brk_switch(words(&["run", "--brk-enable", "a.locus"]));
    assert_eq!((rest, on), (words(&["run", "a.locus"]), true));
    let (rest, on) = take_brk_switch(words(&["run"]));
    assert_eq!((rest, on), (words(&["run"]), false));
}

#[test]
fn the_last_file_and_output_count() {
    let o = parse_options(Tool::Build, &words(&["a.locus", "-o", "x.exe", "--always-gc", "b.locus", "-o", "y.exe"])).unwrap();
    assert_eq!(o.file.as_deref(), Some("b.locus"));
    assert_eq!(o.out.as_deref(), Some("y.exe"));
    assert!(o.always_gc && !o.json);
    let o = parse_options(Tool::Effects, &words(&["--json", "a.locus", "--trace-stack-usage"])).unwrap();
    assert!(o.json && o.trace_stack);
    assert_eq!(o.file.as_deref(), Some("a.locus"));
    assert!(parse_options(Tool::Build, &words(&["a.locus", "-o"])).is_err());
}

#[test]
fn help_is_json_unless_it_is_for_people() {
    assert_eq!(parse_help_args(&words(&["loops", "--human"])), (true, words(&["loops"])));
    assert_eq!(parse_help_args(&words(&["loops"])), (false, words(&["loops"])));
}

#[test]
fn help_words_choose_the_card() {
    assert!(matches!(help_route(&vec![]), Ok(HelpRoute::Overview)));
    assert!(matches!(help_route(&words(&["search", "loop", "string"])), Ok(HelpRoute::Search(q)) if q == "loop string"));
    assert!(matches!(help_route(&words(&["service", "Agent"])), Ok(HelpRoute::Service(s)) if s == "Agent"));
    assert!(matches!(help_route(&words(&["services"])), Ok(HelpRoute::Services)));
    assert!(matches!(help_route(&words(&["remind", "loops"])), Ok(HelpRoute::Remind(t)) if t == "loops"));
    assert_eq!(help_route(&words(&["search"])).unwrap_err(), HELP_SEARCH_USAGE);
    assert_eq!(help_route(&words(&["topic"])).unwrap_err(), HELP_TOPIC_USAGE);
    assert_eq!(help_route(&words(&["service"])).unwrap_err(), HELP_SERVICE_USAGE);
    assert_eq!(help_route(&words(&["remind"])).unwrap_err(), HELP_REMIND_USAGE);
    assert!(unknown_topic("zzz").contains("zzz"));
    assert!(unknown_service("Zzz").contains("Zzz"));
}
