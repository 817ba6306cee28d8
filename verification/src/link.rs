//! Making an executable: the objects, the small runtime beside them, and what
//! the compiler and the linker are told.
use crate::analysis::{block_performs_gc, performs_gc};
use crate::ir::Ir;
use crate::text::{lemma_texts_push, texts};
use vstd::prelude::*;
use vstd::string::*;

verus! {

/// The optimization pipeline that every executed module goes through.
pub const OPT_PIPELINE: &'static str = "default<O2>";

/// The entry of an executable: it runs the program, whose result is the exit
/// code.
pub const CRT_MAIN: &'static str = "extern long long __locus_main(void);\nint main(void) { return (int)__locus_main(); }\n";

/// A plain allocator, for executables without the managed heap.
pub const C_ALLOC: &'static str = "extern void* malloc(unsigned long long);\nextern int printf(const char*, ...);\nvoid* locus_alloc(long long n) { return malloc((unsigned long long)n); }\nvoid locus_write_float(long long bits) {\n  union { unsigned long long u; double d; } v;\n  v.u = (unsigned long long)bits;\n  printf(\"%.17g\\n\", v.d);\n}\ndouble locus_fp64_add(double a, double b) { return a + b; }\ndouble locus_fp64_add_i64(double a, long long b) { return a + (double)b; }\nfloat locus_fp32_id(float x) { return x; }\n";

/// Whether an executable links the managed heap: its program uses it, or it is
/// asked for.
pub fn needs_collector(ir: &Ir, always_gc: bool) -> (r: bool)
    ensures
        r == (always_gc || performs_gc(*ir)),
{
    always_gc || block_performs_gc(ir)
}

/// The source of the runtime beside a program. The managed heap brings its own
/// allocator.
pub open spec fn runtime_text(managed: bool) -> Seq<char> {
    if managed {
        CRT_MAIN@
    } else {
        C_ALLOC@ + CRT_MAIN@
    }
}

/// The source of the runtime beside a program.
pub fn runtime_source(managed: bool) -> (r: String)
    ensures
        r@ == runtime_text(managed),
{
    if managed {
        CRT_MAIN.to_owned()
    } else {
        C_ALLOC.to_owned().concat(CRT_MAIN)
    }
}

/// The object that a program, or its runtime, is compiled to.
pub open spec fn object_text(stem: Seq<char>, part: Seq<char>) -> Seq<char> {
    stem + "."@ + part + ".obj"@
}

/// The file of a program's object.
pub fn program_object(stem: &str) -> (r: String)
    ensures
        r@ == object_text(stem@, "program"@),
{
    stem.to_owned().concat(".").concat("program").concat(".obj")
}

/// The file of its runtime's object.
pub fn runtime_object(stem: &str) -> (r: String)
    ensures
        r@ == object_text(stem@, "runtime"@),
{
    stem.to_owned().concat(".").concat("runtime").concat(".obj")
}

fn push_text(out: &mut Vec<String>, s: &str)
    ensures
        texts(final(out)@) == texts(old(out)@).push(s@),
{
    broadcast use lemma_texts_push;

    out.push(s.to_owned());
}

fn push_all(out: &mut Vec<String>, more: &Vec<String>)
    ensures
        texts(final(out)@) == texts(old(out)@) + texts(more@),
{
    broadcast use lemma_texts_push;

    let ghost start = texts(out@);
    let mut i: usize = 0;
    assert(start + texts(more@).take(0) =~= start);
    while i < more.len()
        invariant
            i <= more.len(),
            texts(out@) == start + texts(more@).take(i as int),
        decreases more.len() - i,
    {
        broadcast use lemma_texts_push;

        out.push(more[i].clone());
        i = i + 1;
        assert(texts(out@) =~= start + texts(more@).take(i as int));
    }
    assert(texts(more@).take(more@.len() as int) =~= texts(more@));
}

/// An empty list of texts.
pub open spec fn no_texts() -> Seq<Seq<char>> {
    Seq::empty()
}

/// What the C compiler is told, to make `object` of `source`.
pub open spec fn compile_words(object: Seq<char>, source: Seq<char>) -> Seq<Seq<char>> {
    no_texts().push("/nologo"@).push("/c"@).push("/Fo"@ + object).push(source)
}

/// What the C compiler is told.
pub fn compile_args(object: &str, source: &str) -> (r: Vec<String>)
    ensures
        texts(r@) == compile_words(object@, source@),
{
    let mut out: Vec<String> = Vec::new();
    assert(texts(out@) =~= no_texts());
    push_text(&mut out, "/nologo");
    push_text(&mut out, "/c");
    let target = "/Fo".to_owned().concat(object);
    push_text(&mut out, &target);
    push_text(&mut out, source);
    out
}

/// The switches of the linker.
pub open spec fn link_switches(output: Seq<char>) -> Seq<Seq<char>> {
    no_texts().push("/OUT:"@ + output).push("/SUBSYSTEM:CONSOLE"@).push(
        "/ENTRY:mainCRTStartup"@,
    ).push("/MACHINE:X64"@).push("/STACK:16777216"@).push("/NXCOMPAT"@).push("/DYNAMICBASE"@)
}

/// The libraries of every executable.
pub open spec fn base_libs() -> Seq<Seq<char>> {
    no_texts().push("kernel32.lib"@).push("msvcrt.lib"@).push("ucrt.lib"@).push(
        "vcruntime.lib"@,
    ).push("legacy_stdio_definitions.lib"@)
}

/// The system libraries that the managed heap needs.
pub open spec fn heap_libs() -> Seq<Seq<char>> {
    no_texts().push("ws2_32.lib"@).push("userenv.lib"@).push("advapi32.lib"@).push(
        "bcrypt.lib"@,
    ).push("ntdll.lib"@)
}

fn switches(output: &str) -> (r: Vec<String>)
    ensures
        texts(r@) == link_switches(output@),
{
    let mut out: Vec<String> = Vec::new();
    assert(texts(out@) =~= no_texts());
    let target = "/OUT:".to_owned().concat(output);
    push_text(&mut out, &target);
    push_text(&mut out, "/SUBSYSTEM:CONSOLE");
    push_text(&mut out, "/ENTRY:mainCRTStartup");
    push_text(&mut out, "/MACHINE:X64");
    push_text(&mut out, "/STACK:16777216");
    push_text(&mut out, "/NXCOMPAT");
    push_text(&mut out, "/DYNAMICBASE");
    out
}

fn base_libraries() -> (r: Vec<String>)
    ensures
        texts(r@) == base_libs(),
{
    let mut out: Vec<String> = Vec::new();
    assert(texts(out@) =~= no_texts());
    push_text(&mut out, "kernel32.lib");
    push_text(&mut out, "msvcrt.lib");
    push_text(&mut out, "ucrt.lib");
    push_text(&mut out, "vcruntime.lib");
    push_text(&mut out, "legacy_stdio_definitions.lib");
    out
}

fn heap_libraries() -> (r: Vec<String>)
    ensures
        texts(r@) == heap_libs(),
{
    let mut out: Vec<String> = Vec::new();
    assert(texts(out@) =~= no_texts());
    push_text(&mut out, "ws2_32.lib");
    push_text(&mut out, "userenv.lib");
    push_text(&mut out, "advapi32.lib");
    push_text(&mut out, "bcrypt.lib");
    push_text(&mut out, "ntdll.lib");
    out
}

/// What the linker is told: the objects, the switches and the libraries.
pub fn link_args(objects: &Vec<String>, output: &str, libs: &Vec<String>) -> (r: Vec<String>)
    ensures
        texts(r@) == texts(objects@) + link_switches(output@) + base_libs() + texts(libs@),
{
    let mut out: Vec<String> = Vec::new();
    push_all(&mut out, objects);
    push_all(&mut out, &switches(output));
    push_all(&mut out, &base_libraries());
    push_all(&mut out, libs);
    assert(texts(out@) =~= texts(objects@) + link_switches(output@) + base_libs() + texts(libs@));
    out
}

/// The libraries beyond those of every executable.
pub open spec fn extra_libs(
    import: Seq<Seq<char>>,
    embedded: Seq<Seq<char>>,
    heap: Option<Seq<char>>,
) -> Seq<Seq<char>> {
    match heap {
        None => import + embedded,
        Some(lib) => (import + embedded).push(lib) + heap_libs(),
    }
}

/// The libraries beyond those of every executable: what the program and the
/// embedded assembly import, and the managed heap where it is linked.
pub fn program_libs(import: &Vec<String>, embedded: &Vec<String>, heap: &Option<String>) -> (r: Vec<
    String,
>)
    ensures
        texts(r@) == extra_libs(
            texts(import@),
            texts(embedded@),
            match *heap {
                Some(lib) => Some(lib@),
                None => None,
            },
        ),
{
    let mut out: Vec<String> = Vec::new();
    push_all(&mut out, import);
    push_all(&mut out, embedded);
    assert(texts(out@) =~= texts(import@) + texts(embedded@));
    match heap {
        None => {},
        Some(lib) => {
            push_text(&mut out, lib);
            push_all(&mut out, &heap_libraries());
        },
    }
    out
}

/// The objects of a link, with that of the runtime behind them.
pub fn with_runtime(objects: &Vec<String>, runtime: &str) -> (r: Vec<String>)
    ensures
        texts(r@) == texts(objects@).push(runtime@),
{
    let mut out: Vec<String> = Vec::new();
    push_all(&mut out, objects);
    assert(texts(out@) =~= texts(objects@));
    push_text(&mut out, runtime);
    out
}

// ── the managed heap's library ───────────────────────────────────────────
/// The newest of the times that are known.
pub open spec fn newest(times: Seq<Option<u64>>) -> Option<u64>
    decreases times.len(),
{
    if times.len() == 0 {
        None
    } else {
        match (newest(times.drop_last()), times.last()) {
            (Some(a), Some(b)) => if a < b {
                Some(b)
            } else {
                Some(a)
            },
            (None, t) => t,
            (t, None) => t,
        }
    }
}

/// The newest of the times that are known.
pub fn newest_time(times: &Vec<Option<u64>>) -> (r: Option<u64>)
    ensures
        r == newest(times@),
{
    let mut best: Option<u64> = None;
    let mut i: usize = 0;
    assert(times@.take(0) =~= Seq::<Option<u64>>::empty());
    while i < times.len()
        invariant
            i <= times.len(),
            best == newest(times@.take(i as int)),
        decreases times.len() - i,
    {
        assert(times@.take(i + 1).drop_last() =~= times@.take(i as int));
        best = match (best, times[i]) {
            (Some(a), Some(b)) => if a < b {
                Some(b)
            } else {
                Some(a)
            },
            (None, t) => t,
            (t, None) => t,
        };
        i = i + 1;
    }
    assert(times@.take(times@.len() as int) =~= times@);
    best
}

/// The newest time is one of those known, and none is newer.
pub proof fn the_newest_time_is_the_greatest(times: Seq<Option<u64>>)
    ensures
        match newest(times) {
            None => forall|i: int| 0 <= i < times.len() ==> (#[trigger] times[i]) is None,
            Some(t) => times.contains(Some(t)) && forall|i: int|
                0 <= i < times.len() && (#[trigger] times[i]) is Some ==> times[i]->0 <= t,
        },
    decreases times.len(),
{
    if times.len() > 0 {
        let front = times.drop_last();
        the_newest_time_is_the_greatest(front);
        assert forall|i: int| 0 <= i < front.len() implies times[i] == #[trigger] front[i] by {}
        assert(times[times.len() - 1] == times.last());
        if let Some(t) = newest(front) {
            let k = choose|k: int| 0 <= k < front.len() && front[k] == Some(t);
            assert(times[k] == Some(t));
        }
        assert forall|i: int|
            0 <= i < times.len() && (#[trigger] times[i]) is Some implies newest(times) is Some
            && times[i]->0 <= newest(times)->0 by {
            if i < front.len() {
                assert(front[i] is Some);
            }
        }
        assert forall|i: int| 0 <= i < times.len() && newest(times) is None implies (
        #[trigger] times[i]) is None by {
            if i < front.len() {
                assert(front[i] is None);
            }
        }
    }
}

/// The library is older than the sources it is made of.
pub open spec fn stale(lib: Option<u64>, sources: Option<u64>) -> bool {
    match (lib, sources) {
        (Some(l), Some(s)) => s > l,
        _ => false,
    }
}

/// What is said of a stale library.
pub open spec fn stale_text(path: Seq<char>) -> Seq<char> {
    "locus_rt.lib at "@ + path
        + " is STALE — newer `locus-rt/src` exists. `cargo test` refreshes locus-rt's rlib but NOT its staticlib (`.lib`), so the AOT link would miss a runtime symbol added since the `.lib` was built (a cryptic LNK2019). Rebuild it: `cargo build -p locus-rt`."@
}

/// Why the library cannot be used: it is older than its sources. Where a time is
/// not known there is nothing to say.
pub fn runtime_staticlib_stale(path: &str, lib: Option<u64>, sources: Option<u64>) -> (r: Option<
    String,
>)
    ensures
        match r {
            Some(e) => stale(lib, sources) && e@ == stale_text(path@),
            None => !stale(lib, sources),
        },
{
    match (lib, sources) {
        (Some(l), Some(s)) => if s > l {
            Some(
                "locus_rt.lib at ".to_owned().concat(path).concat(
                    " is STALE — newer `locus-rt/src` exists. `cargo test` refreshes locus-rt's rlib but NOT its staticlib (`.lib`), so the AOT link would miss a runtime symbol added since the `.lib` was built (a cryptic LNK2019). Rebuild it: `cargo build -p locus-rt`.",
                ),
            )
        } else {
            None
        },
        _ => None,
    }
}

/// A place where the library may be.
#[derive(Debug)]
pub struct Candidate {
    pub path: String,
    pub exists: bool,
    pub time: Option<u64>,
}

/// The first place, from position `i` on, where the library is.
pub open spec fn first_existing(list: Seq<Candidate>, i: nat) -> Option<nat>
    decreases list.len() - i,
{
    if i >= list.len() {
        None
    } else if list[i as int].exists {
        Some(i)
    } else {
        first_existing(list, i + 1)
    }
}

pub const NO_RUNTIME: &'static str = "locus_rt.lib not found next to the compiler — build it with `cargo build -p locus-rt`";

/// The library to link: the first that exists, unless it is stale.
pub fn locate_runtime_staticlib(list: &Vec<Candidate>, sources: Option<u64>) -> (r: Result<
    String,
    String,
>)
    ensures
        match first_existing(list@, 0) {
            None => r matches Err(e) && e@ == NO_RUNTIME@,
            Some(i) => if stale(list[i as int].time, sources) {
                r matches Err(e) && e@ == stale_text(list[i as int].path@)
            } else {
                r matches Ok(p) && p@ == list[i as int].path@
            },
        },
{
    let mut i: usize = 0;
    while i < list.len()
        invariant
            i <= list.len(),
            first_existing(list@, i as nat) == first_existing(list@, 0),
        decreases list.len() - i,
    {
        if list[i].exists {
            return match runtime_staticlib_stale(&list[i].path, list[i].time, sources) {
                Some(e) => Err(e),
                None => Ok(list[i].path.clone()),
            };
        }
        i = i + 1;
    }
    Err(NO_RUNTIME.to_owned())
}

// ── the embedded assembly ────────────────────────────────────────────────
/// What an unknown import of the embedded assembly leads to.
pub open spec fn unknown_import(sym: Seq<char>) -> Seq<char> {
    "the runtime .masm calls Win32 `"@ + sym
        + "`, which is not in the oracle (locus-winapi) — the asm floor must use the single API source, not its own copy"@
}

/// What is known of a function that the embedded assembly calls.
#[derive(Debug)]
pub struct AsmImport {
    pub symbol: String,
    /// The library that has it, if any has.
    pub dll: Option<String>,
}

/// The first import, from position `i` on, that no library has.
pub open spec fn first_unknown(list: Seq<AsmImport>, i: nat) -> Option<nat>
    decreases list.len() - i,
{
    if i >= list.len() {
        None
    } else if list[i as int].dll is None {
        Some(i)
    } else {
        first_unknown(list, i + 1)
    }
}

/// The libraries of the first `n` imports.
pub open spec fn import_dlls(list: Seq<AsmImport>, n: nat) -> Seq<String>
    decreases n,
{
    if n == 0 || n > list.len() {
        Seq::empty()
    } else {
        match list[n - 1].dll {
            Some(dll) => import_dlls(list, (n - 1) as nat).push(dll),
            None => import_dlls(list, (n - 1) as nat),
        }
    }
}

/// The libraries that the embedded assembly calls into, each once and in order;
/// every function that it calls must be known.
fn runtime_asm_dlls(list: &Vec<AsmImport>) -> (r: Result<Vec<String>, String>)
    ensures
        match first_unknown(list@, 0) {
            Some(i) => r matches Err(e) && e@ == unknown_import(list[i as int].symbol@),
            None => r matches Ok(v) && v@ == crate::names::sorted_names(
                import_dlls(list@, list@.len()),
            ),
        },
{
    let mut dlls: Vec<String> = Vec::new();
    let mut i: usize = 0;
    while i < list.len()
        invariant
            i <= list.len(),
            first_unknown(list@, i as nat) == first_unknown(list@, 0),
            dlls@ == import_dlls(list@, i as nat),
        decreases list.len() - i,
    {
        match &list[i].dll {
            None => {
                return Err(
                    "the runtime .masm calls Win32 `".to_owned().concat(&list[i].symbol).concat(
                        "`, which is not in the oracle (locus-winapi) — the asm floor must use the single API source, not its own copy",
                    ),
                );
            },
            Some(dll) => {
                dlls.push(dll.clone());
            },
        }
        i = i + 1;
    }
    Ok(crate::names::sort_names(&dlls))
}

/// The import library of a library, if it has one.
#[derive(Debug)]
pub struct ImportLib {
    pub dll: String,
    pub lib: Option<String>,
}

/// The import library that the table has for a library, from position `i` on.
pub open spec fn lib_for(table: Seq<ImportLib>, dll: Seq<char>, i: nat) -> Option<Seq<char>>
    decreases table.len() - i,
{
    if i >= table.len() {
        None
    } else if table[i as int].dll@ == dll {
        match table[i as int].lib {
            Some(lib) => Some(lib@),
            None => None,
        }
    } else {
        lib_for(table, dll, i + 1)
    }
}

/// The import libraries of the first `n` libraries, where they have one.
pub open spec fn import_libs(table: Seq<ImportLib>, dlls: Seq<String>, n: nat) -> Seq<Seq<char>>
    decreases n,
{
    if n == 0 || n > dlls.len() {
        Seq::empty()
    } else {
        match lib_for(table, dlls[n - 1]@, 0) {
            Some(lib) => import_libs(table, dlls, (n - 1) as nat).push(lib),
            None => import_libs(table, dlls, (n - 1) as nat),
        }
    }
}

fn find_lib(table: &Vec<ImportLib>, dll: &String) -> (r: Option<String>)
    ensures
        match lib_for(table@, dll@, 0) {
            Some(lib) => r matches Some(s) && s@ == lib,
            None => r is None,
        },
{
    let mut i: usize = 0;
    while i < table.len()
        invariant
            i <= table.len(),
            lib_for(table@, dll@, i as nat) == lib_for(table@, dll@, 0),
        decreases table.len() - i,
    {
        if table[i].dll == *dll {
            return match &table[i].lib {
                Some(lib) => Some(lib.clone()),
                None => None,
            };
        }
        i = i + 1;
    }
    None
}

/// The import libraries that the embedded assembly needs: those of the libraries
/// it calls into, each once. A function that no library has is an error.
pub fn runtime_asm_import_libs(list: &Vec<AsmImport>, table: &Vec<ImportLib>) -> (r: Result<
    Vec<String>,
    String,
>)
    ensures
        match first_unknown(list@, 0) {
            Some(i) => r matches Err(e) && e@ == unknown_import(list[i as int].symbol@),
            None => {
                let dlls = crate::names::sorted_names(import_dlls(list@, list@.len()));
                r matches Ok(v) && texts(v@) == import_libs(table@, dlls, dlls.len())
            },
        },
{
    broadcast use lemma_texts_push;

    let dlls = match runtime_asm_dlls(list) {
        Err(e) => {
            return Err(e);
        },
        Ok(dlls) => dlls,
    };
    let mut out: Vec<String> = Vec::new();
    let mut i: usize = 0;
    assert(texts(out@) =~= no_texts());
    while i < dlls.len()
        invariant
            i <= dlls.len(),
            texts(out@) == import_libs(table@, dlls@, i as nat),
        decreases dlls.len() - i,
    {
        broadcast use lemma_texts_push;

        if let Some(lib) = find_lib(table, &dlls[i]) {
            out.push(lib);
        }
        i = i + 1;
    }
    Ok(out)
}

} // verus!
