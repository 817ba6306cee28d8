//! What a project and the platform say of themselves: the boundary modules a
//! project trusts, hashes of sources, and the listing of what was republished.
use crate::symbols::{module_model, ModuleSource};
use crate::text::{
    chars_of, decimal, find, find_from, hash_string, hash_text, number, pad, padded, stands_at,
    texts, lemma_texts_push,
};
use vstd::prelude::*;
use vstd::string::*;

verus! {

// ── the boundary manifest ────────────────────────────────────────────────
/// The table of the boundary: what follows its head, up to the next table.
pub open spec fn boundary_section(toml: Seq<char>) -> Option<Seq<char>> {
    match find_from(toml, "[boundary]"@, 0) {
        None => None,
        Some(start) => {
            let after = toml.skip(start + "[boundary]"@.len());
            match find_from(after, "\n["@, 0) {
                Some(i) => Some(after.take(i)),
                None => Some(after),
            }
        },
    }
}

/// What stands between the brackets behind `modules`.
pub open spec fn modules_array(section: Seq<char>) -> Option<Seq<char>> {
    match find_from(section, "modules"@, 0) {
        None => None,
        Some(m) => {
            let rest = section.skip(m);
            match find_from(rest, "["@, 0) {
                None => None,
                Some(open) => match find_from(rest, "]"@, open) {
                    None => None,
                    Some(close) => Some(rest.subrange(open + 1, close)),
                },
            }
        },
    }
}

/// A list of texts with one more, unless it has that one already.
pub open spec fn with_text(list: Seq<Seq<char>>, x: Seq<char>) -> Seq<Seq<char>> {
    if list.contains(x) {
        list
    } else {
        list.push(x)
    }
}

/// The quoted texts from position `i` on, behind those found before. `cur` is
/// what stands behind an open quote.
pub open spec fn quoted(s: Seq<char>, i: int, cur: Option<Seq<char>>, found: Seq<Seq<char>>) -> Seq<
    Seq<char>,
>
    decreases s.len() - i,
{
    if i < 0 || i >= s.len() {
        found
    } else {
        match cur {
            None => if s[i] == '"' {
                quoted(s, i + 1, Some(Seq::empty()), found)
            } else {
                quoted(s, i + 1, None, found)
            },
            Some(text) => if s[i] == '"' {
                quoted(s, i + 1, None, with_text(found, text))
            } else {
                quoted(s, i + 1, Some(text.push(s[i])), found)
            },
        }
    }
}

/// The modules that may mint: those the manifest lists in its boundary table.
pub open spec fn boundary_modules(toml: Seq<char>) -> Seq<Seq<char>> {
    match boundary_section(toml) {
        None => Seq::empty(),
        Some(section) => match modules_array(section) {
            None => Seq::empty(),
            Some(array) => quoted(array, 0, None, Seq::empty()),
        },
    }
}

/// The characters from `from` up to `to`.
fn chars_between(chars: &Vec<char>, from: usize, to: usize) -> (r: Vec<char>)
    requires
        from <= to <= chars.len(),
    ensures
        r@ == chars@.subrange(from as int, to as int),
{
    let mut out: Vec<char> = Vec::new();
    let mut i: usize = from;
    while i < to
        invariant
            from <= i <= to <= chars.len(),
            out@ == chars@.subrange(from as int, i as int),
        decreases to - i,
    {
        out.push(chars[i]);
        i = i + 1;
        assert(out@ =~= chars@.subrange(from as int, i as int));
    }
    out
}

fn find_boundary_section(toml: &Vec<char>) -> (r: Option<Vec<char>>)
    ensures
        match boundary_section(toml@) {
            Some(s) => r matches Some(v) && v@ == s,
            None => r is None,
        },
{
    let head = chars_of("[boundary]");
    match find(toml, &head, 0) {
        None => None,
        Some(start) => {
            let n: usize = toml.len();
            let after = chars_between(toml, start + head.len(), n);
            assert(after@ =~= toml@.skip(start + head@.len()));
            let next = chars_of("\n[");
            match find(&after, &next, 0) {
                Some(i) => {
                    let section = chars_between(&after, 0, i);
                    assert(section@ =~= after@.take(i as int));
                    Some(section)
                },
                None => Some(after),
            }
        },
    }
}

fn find_modules_array(section: &Vec<char>) -> (r: Option<Vec<char>>)
    ensures
        match modules_array(section@) {
            Some(s) => r matches Some(v) && v@ == s,
            None => r is None,
        },
{
    let key = chars_of("modules");
    let m: usize = match find(section, &key, 0) {
        None => {
            return None;
        },
        Some(m) => m,
    };
    let rest = chars_between(section, m, section.len());
    assert(rest@ =~= section@.skip(m as int));
    let opening = chars_of("[");
    let closing = chars_of("]");
    proof {
        reveal_strlit("[");
        reveal_strlit("]");
    }
    match find(&rest, &opening, 0) {
        None => None,
        Some(open) => match find(&rest, &closing, open) {
            None => None,
            Some(close) => {
                assert(close != open) by {
                    assert(rest@.subrange(open as int, open + 1)[0] == '[');
                    assert(rest@.subrange(close as int, close + 1)[0] == ']');
                }
                Some(chars_between(&rest, open + 1, close))
            },
        },
    }
}

fn holds_text(list: &Vec<String>, x: &String) -> (r: bool)
    ensures
        r == texts(list@).contains(x@),
{
    let mut i: usize = 0;
    while i < list.len()
        invariant
            i <= list.len(),
            forall|j: int| 0 <= j < i ==> (#[trigger] texts(list@)[j]) != x@,
        decreases list.len() - i,
    {
        if list[i] == *x {
            assert(texts(list@)[i as int] == x@);
            return true;
        }
        i = i + 1;
    }
    false
}

fn quoted_texts(array: &Vec<char>) -> (r: Vec<String>)
    ensures
        texts(r@) == quoted(array@, 0, None, Seq::empty()),
{
    broadcast use lemma_texts_push;

    let mut out: Vec<String> = Vec::new();
    let mut cur = String::new();
    let mut inside: bool = false;
    let mut i: usize = 0;
    assert(texts(out@) =~= Seq::<Seq<char>>::empty());
    while i < array.len()
        invariant
            i <= array.len(),
            !inside ==> cur@.len() == 0,
            quoted(
                array@,
                i as int,
                if inside {
                    Some(cur@)
                } else {
                    None
                },
                texts(out@),
            ) == quoted(array@, 0, None, Seq::empty()),
        decreases array.len() - i,
    {
        broadcast use lemma_texts_push;

        let c: char = array[i];
        if inside {
            if c == '"' {
                if !holds_text(&out, &cur) {
                    out.push(cur);
                }
                cur = String::new();
                inside = false;
            } else {
                cur.push(c);
            }
        } else if c == '"' {
            inside = true;
            assert(cur@ =~= Seq::<char>::empty());
        }
        i = i + 1;
    }
    out
}

/// The modules that the manifest lists in its boundary table, each once. Without
/// such a table there are none.
pub fn parse_boundary_modules(toml: &str) -> (r: Vec<String>)
    ensures
        texts(r@) == boundary_modules(toml@),
{
    let chars = chars_of(toml);
    let none: Vec<String> = Vec::new();
    assert(texts(none@) =~= Seq::<Seq<char>>::empty());
    match find_boundary_section(&chars) {
        None => none,
        Some(section) => match find_modules_array(&section) {
            None => none,
            Some(array) => quoted_texts(&array),
        },
    }
}

/// What to do in a directory on the way to the project's manifest.
#[derive(Clone, Copy, Debug, PartialEq, Eq, Structural)]
pub enum ManifestStep {
    /// The manifest stands here: its text counts, none if it cannot be read.
    Read,
    /// Look in the parent directory.
    Up,
    /// There is no manifest.
    Nothing,
}

/// What to do in a directory on the way to the project's manifest: the nearest one
/// counts, from the directory of the source up.
pub fn manifest_step(has_file: bool, has_parent: bool) -> (r: ManifestStep)
    ensures
        r == if has_file {
            ManifestStep::Read
        } else if has_parent {
            ManifestStep::Up
        } else {
            ManifestStep::Nothing
        },
{
    if has_file {
        ManifestStep::Read
    } else if has_parent {
        ManifestStep::Up
    } else {
        ManifestStep::Nothing
    }
}

/// Nothing is trusted unless the manifest has a boundary table.
pub proof fn nothing_is_trusted_by_default(toml: Seq<char>)
    requires
        forall|i: int| !#[trigger] stands_at(toml, "[boundary]"@, i),
    ensures
        boundary_modules(toml) == Seq::<Seq<char>>::empty(),
{
    lemma_not_found(toml, "[boundary]"@, 0);
}

proof fn lemma_not_found(s: Seq<char>, pat: Seq<char>, i: int)
    requires
        forall|j: int| !#[trigger] stands_at(s, pat, j),
    ensures
        find_from(s, pat, i) is None,
    decreases s.len() + 1 - i,
{
    if 0 <= i && i + pat.len() <= s.len() {
        assert(!stands_at(s, pat, i));
        lemma_not_found(s, pat, i + 1);
    }
}

/// Nothing from the head of the next table on changes the modules: two manifests
/// that are the same up to the head of a table behind the boundary table list the
/// same.
pub proof fn what_follows_the_table_changes_nothing(
    toml: Seq<char>,
    other: Seq<char>,
    start: int,
    end: int,
)
    requires
        stands_at(toml, "[boundary]"@, start),
        start + "[boundary]"@.len() <= end,
        stands_at(toml, "\n["@, end),
        end + "\n["@.len() <= other.len(),
        other.take(end + "\n["@.len()) == toml.take(end + "\n["@.len()),
    ensures
        boundary_modules(other) == boundary_modules(toml),
{
    let head = "[boundary]"@;
    let next = "\n["@;
    let upto = end + next.len();
    lemma_found(toml, head, 0, start);
    let at = find_from(toml, head, 0)->0;
    lemma_found_same(toml, other, head, 0, upto);
    let after = toml.skip(at + head.len());
    let after_other = other.skip(at + head.len());
    let end_after = end - at - head.len();
    assert(after.subrange(end_after, end_after + next.len()) =~= toml.subrange(end, upto));
    lemma_found(after, next, 0, end_after);
    assert(after.take(end_after + next.len()) =~= toml.take(upto).skip(at + head.len()));
    assert(after_other.take(end_after + next.len()) =~= other.take(upto).skip(at + head.len()));
    lemma_found_same(after, after_other, next, 0, end_after + next.len());
    let i = find_from(after, next, 0)->0;
    assert(after.take(i) =~= after.take(end_after + next.len()).take(i));
    assert(after_other.take(i) =~= after_other.take(end_after + next.len()).take(i));
}

proof fn lemma_found(s: Seq<char>, pat: Seq<char>, i: int, k: int)
    requires
        stands_at(s, pat, k),
        0 <= i <= k,
    ensures
        find_from(s, pat, i) matches Some(j) && i <= j <= k,
    decreases k - i,
{
    if !stands_at(s, pat, i) {
        lemma_found(s, pat, i + 1, k);
    }
}

proof fn lemma_found_same(s: Seq<char>, t: Seq<char>, pat: Seq<char>, i: int, upto: int)
    requires
        0 <= i,
        0 <= upto <= s.len(),
        upto <= t.len(),
        s.take(upto) == t.take(upto),
        find_from(s, pat, i) matches Some(j) && j + pat.len() <= upto,
    ensures
        find_from(t, pat, i) == find_from(s, pat, i),
    decreases s.len() + 1 - i,
{
    lemma_found_from(s, pat, i);
    assert(s.subrange(i, i + pat.len()) =~= s.take(upto).subrange(i, i + pat.len()));
    assert(t.subrange(i, i + pat.len()) =~= t.take(upto).subrange(i, i + pat.len()));
    if !stands_at(s, pat, i) {
        lemma_found_same(s, t, pat, i + 1, upto);
    }
}

proof fn lemma_found_from(s: Seq<char>, pat: Seq<char>, i: int)
    ensures
        find_from(s, pat, i) matches Some(j) ==> i <= j,
    decreases s.len() + 1 - i,
{
    if 0 <= i && i + pat.len() <= s.len() && !stands_at(s, pat, i) {
        lemma_found_from(s, pat, i + 1);
    }
}

/// No module is listed twice.
pub proof fn each_module_is_listed_once(toml: Seq<char>)
    ensures
        boundary_modules(toml).no_duplicates(),
{
    if let Some(section) = boundary_section(toml) {
        if let Some(array) = modules_array(section) {
            lemma_quoted_once(array, 0, None, Seq::empty());
        }
    }
}

proof fn lemma_quoted_once(s: Seq<char>, i: int, cur: Option<Seq<char>>, found: Seq<Seq<char>>)
    requires
        found.no_duplicates(),
    ensures
        quoted(s, i, cur, found).no_duplicates(),
    decreases s.len() - i,
{
    if 0 <= i < s.len() {
        match cur {
            None => {
                if s[i] == '"' {
                    lemma_quoted_once(s, i + 1, Some(Seq::empty()), found);
                } else {
                    lemma_quoted_once(s, i + 1, None, found);
                }
            },
            Some(text) => {
                if s[i] == '"' {
                    assert(with_text(found, text).no_duplicates());
                    lemma_quoted_once(s, i + 1, None, with_text(found, text));
                } else {
                    lemma_quoted_once(s, i + 1, Some(text.push(s[i])), found);
                }
            },
        }
    }
}

// ── hashes ───────────────────────────────────────────────────────────────
pub const FNV_START: u64 = 0xcbf2_9ce4_8422_2325;

pub const FNV_PRIME: u64 = 0x0000_0100_0000_01b3;

/// One step of the hash.
pub open spec fn fnv_step(h: u64, b: u8) -> u64 {
    (((h ^ (b as u64)) * FNV_PRIME) % 0x1_0000_0000_0000_0000) as u64
}

/// The hash of bytes behind those that led to `h`.
pub open spec fn fnv_from(h: u64, bytes: Seq<u8>) -> u64
    decreases bytes.len(),
{
    if bytes.len() == 0 {
        h
    } else {
        fnv_step(fnv_from(h, bytes.drop_last()), bytes.last())
    }
}

/// The hash of bytes.
pub open spec fn fnv(bytes: Seq<u8>) -> u64 {
    fnv_from(FNV_START, bytes)
}

/// The 64-bit FNV-1a hash of a text's bytes.
pub fn fnv1a(s: &str) -> (r: u64)
    ensures
        r == fnv(s.spec_bytes()),
{
    let bytes = s.as_bytes();
    let mut h: u64 = FNV_START;
    let mut i: usize = 0;
    assert(bytes@.take(0) =~= Seq::<u8>::empty());
    while i < bytes.len()
        invariant
            i <= bytes.len(),
            h == fnv(bytes@.take(i as int)),
        decreases bytes.len() - i,
    {
        assert(bytes@.take(i + 1).drop_last() =~= bytes@.take(i as int));
        h = (h ^ (bytes[i] as u64)).wrapping_mul(FNV_PRIME);
        i = i + 1;
    }
    assert(bytes@.take(bytes@.len() as int) =~= bytes@);
    h
}

/// A text may be hashed in pieces.
pub proof fn hashing_goes_on(h: u64, a: Seq<u8>, b: Seq<u8>)
    ensures
        fnv_from(h, a + b) == fnv_from(fnv_from(h, a), b),
    decreases b.len(),
{
    if b.len() == 0 {
        assert(a + b =~= a);
    } else {
        hashing_goes_on(h, a, b.drop_last());
        assert((a + b).drop_last() =~= a + b.drop_last());
    }
}

// ── the platform ─────────────────────────────────────────────────────────
/// The parts of a module that its platform's hash is taken of, each ended by a
/// zero character.
pub open spec fn module_parts(platform: Seq<char>, m: (u8, Seq<char>, Seq<char>), bytes: nat) -> Seq<
    char,
> {
    platform + "\0"@ + decimal(m.0 as nat) + "\0"@ + m.1 + "\0"@ + decimal(bytes) + "\0"@ + m.2
        + "\0"@
}

/// The parts of the first `n` modules.
pub open spec fn platform_parts(platform: Seq<char>, modules: Seq<ModuleSource>, n: nat) -> Seq<char>
    decreases n,
{
    if n == 0 || n > modules.len() {
        Seq::empty()
    } else {
        platform_parts(platform, modules, (n - 1) as nat) + module_parts(
            platform,
            module_model(modules[n - 1]),
            vstd::utf8::encode_utf8(modules[n - 1].source@).len(),
        )
    }
}

/// The bytes of a text, as many as fit a number.
fn bytes_in(s: &String) -> (r: usize)
    ensures
        r == vstd::utf8::encode_utf8(s@).len(),
{
    s.as_str().as_bytes().len()
}

fn push_module(out: &mut String, platform: &str, m: &ModuleSource)
    ensures
        final(out)@ == old(out)@ + module_parts(
            platform@,
            module_model(*m),
            vstd::utf8::encode_utf8(m.source@).len(),
        ),
{
    let layer = number(m.layer as usize);
    let bytes = number(bytes_in(&m.source));
    let part = platform.to_owned().concat("\0").concat(&layer).concat("\0").concat(
        &m.name,
    ).concat("\0").concat(&bytes).concat("\0").concat(&m.source).concat("\0");
    out.append(&part);
}

/// The hash of a platform's modules.
pub open spec fn platform_hash(platform: Seq<char>, modules: Seq<ModuleSource>) -> u64 {
    fnv(vstd::utf8::encode_utf8(platform_parts(platform, modules, modules.len())))
}

/// The hash of a platform's modules, as it is printed.
pub fn stdlib_hash(platform: &str, modules: &Vec<ModuleSource>) -> (r: String)
    ensures
        r@ == hash_text(platform_hash(platform@, modules@)),
{
    let mut text = String::new();
    let mut i: usize = 0;
    while i < modules.len()
        invariant
            i <= modules.len(),
            text@ == platform_parts(platform@, modules@, i as nat),
        decreases modules.len() - i,
    {
        push_module(&mut text, platform, &modules[i]);
        i = i + 1;
    }
    hash_string(fnv1a(text.as_str()))
}

/// The file that a module is republished to.
pub open spec fn module_file(layer: u8, name: Seq<char>) -> Seq<char> {
    decimal(layer as nat) + "_"@ + name + ".locus"@
}

/// The file that a module is republished to.
pub fn republished_file(m: &ModuleSource) -> (r: String)
    ensures
        r@ == module_file(m.layer, m.name@),
{
    let layer = number(m.layer as usize);
    layer.concat("_").concat(&m.name).concat(".locus")
}

/// One line of the listing of what was republished.
pub open spec fn listing_line(layer: Seq<char>, name: Seq<char>, source: Seq<char>, file: Seq<char>) -> Seq<
    char,
> {
    "  "@ + padded(layer, 5) + "  "@ + padded(name, 11) + "  "@ + padded(
        decimal(vstd::utf8::encode_utf8(source).len()),
        7,
    ) + "  "@ + hash_text(fnv(vstd::utf8::encode_utf8(source))) + "  "@ + file + "\n"@
}

fn listing_entry(layer: &str, name: &str, source: &String, file: &str) -> (r: String)
    ensures
        r@ == listing_line(layer@, name@, source@, file@),
{
    let layer = pad(layer, 5);
    let name = pad(name, 11);
    let bytes = number(bytes_in(source));
    let bytes = pad(&bytes, 7);
    let hash = hash_string(fnv1a(source.as_str()));
    "  ".to_owned().concat(&layer).concat("  ").concat(&name).concat("  ").concat(&bytes).concat(
        "  ",
    ).concat(&hash).concat("  ").concat(file).concat("\n")
}

pub const LISTING_HEAD: &'static str = "# Locus platform - republished from the compiler's embedded (authoritative) copy.\n# Compare the FNV-1a below against a copy to verify it matches this compiler.\n#\n# layer  module       bytes    fnv1a-64            file\n";

/// The lines of the first `n` modules.
pub open spec fn listing_lines(modules: Seq<ModuleSource>, n: nat) -> Seq<char>
    decreases n,
{
    if n == 0 || n > modules.len() {
        Seq::empty()
    } else {
        let m = modules[n - 1];
        listing_lines(modules, (n - 1) as nat) + listing_line(
            decimal(m.layer as nat),
            m.name@,
            m.source@,
            module_file(m.layer, m.name@),
        )
    }
}

/// The listing of what is republished: a line with the size and the hash of every
/// module, and one of the effect catalog.
pub fn republished_listing(modules: &Vec<ModuleSource>, catalog: &String) -> (r: String)
    ensures
        r@ == LISTING_HEAD@ + listing_lines(modules@, modules@.len()) + listing_line(
            "cfg"@,
            "effects"@,
            catalog@,
            "effects.catalog"@,
        ),
{
    let mut out = LISTING_HEAD.to_owned();
    let mut i: usize = 0;
    assert(LISTING_HEAD@ + listing_lines(modules@, 0) =~= LISTING_HEAD@);
    while i < modules.len()
        invariant
            i <= modules.len(),
            out@ == LISTING_HEAD@ + listing_lines(modules@, i as nat),
        decreases modules.len() - i,
    {
        let layer = number(modules[i].layer as usize);
        let file = republished_file(&modules[i]);
        let line = listing_entry(&layer, &modules[i].name, &modules[i].source, &file);
        out.append(&line);
        i = i + 1;
        assert(out@ =~= LISTING_HEAD@ + listing_lines(modules@, i as nat));
    }
    let line = listing_entry("cfg", "effects", catalog, "effects.catalog");
    out.append(&line);
    out
}

/// A module as it is listed.
#[derive(Debug)]
pub struct StdlibModuleEntry {
    pub platform: &'static str,
    pub layer: u8,
    pub name: String,
    /// Whether the module is of the boundary layer.
    pub boundary: bool,
    pub bytes: usize,
    pub fnv1a64: String,
}

/// The entry lists the module.
pub open spec fn lists(e: StdlibModuleEntry, platform: &'static str, m: ModuleSource) -> bool {
    &&& e.platform == platform
    &&& e.layer == m.layer
    &&& e.name@ == m.name@
    &&& e.boundary == (m.layer == 0)
    &&& e.bytes == vstd::utf8::encode_utf8(m.source@).len()
    &&& e.fnv1a64@ == hash_text(fnv(vstd::utf8::encode_utf8(m.source@)))
}

/// The entries of a platform's modules.
pub fn stdlib_entries(platform: &'static str, modules: &Vec<ModuleSource>) -> (r: Vec<
    StdlibModuleEntry,
>)
    ensures
        r.len() == modules.len(),
        forall|i: int| 0 <= i < r.len() ==> lists(#[trigger] r[i], platform, modules[i]),
{
    let mut out: Vec<StdlibModuleEntry> = Vec::new();
    let mut i: usize = 0;
    while i < modules.len()
        invariant
            i <= modules.len(),
            out.len() == i,
            forall|j: int| 0 <= j < i ==> lists(#[trigger] out[j], platform, modules[j]),
        decreases modules.len() - i,
    {
        let m = &modules[i];
        out.push(
            StdlibModuleEntry {
                platform,
                layer: m.layer,
                name: m.name.clone(),
                boundary: m.layer == 0,
                bytes: bytes_in(&m.source),
                fnv1a64: hash_string(fnv1a(m.source.as_str())),
            },
        );
        i = i + 1;
    }
    out
}

} // verus!
