//! The symbols a program is bound to when it runs in place.
use vstd::prelude::*;
use vstd::string::*;

verus! {

/// A symbol and its address.
#[derive(Debug)]
pub struct Symbol {
    pub name: String,
    pub addr: u64,
}

/// A symbol as a name and a number.
pub open spec fn pair(s: Symbol) -> (Seq<char>, u64) {
    (s.name@, s.addr)
}

/// The symbols as names and numbers.
pub open spec fn pairs(list: Seq<Symbol>) -> Seq<(Seq<char>, u64)> {
    Seq::new(list.len(), |i: int| pair(list[i]))
}

/// Some symbol of the list has the name.
pub open spec fn names_symbol(list: Seq<(Seq<char>, u64)>, name: Seq<char>) -> bool {
    exists|i: int| 0 <= i < list.len() && (#[trigger] list[i]).0 == name
}

/// The list with a symbol: under its name if that is there, else behind the others.
pub open spec fn put(list: Seq<(Seq<char>, u64)>, s: (Seq<char>, u64)) -> Seq<(Seq<char>, u64)> {
    if names_symbol(list, s.0) {
        Seq::new(
            list.len(),
            |i: int|
                if list[i].0 == s.0 {
                    s
                } else {
                    list[i]
                },
        )
    } else {
        list.push(s)
    }
}

/// Each name once, where it is seen first, with the address that it is given last.
pub open spec fn last_wins(list: Seq<(Seq<char>, u64)>) -> Seq<(Seq<char>, u64)>
    decreases list.len(),
{
    if list.len() == 0 {
        Seq::empty()
    } else {
        put(last_wins(list.drop_last()), list.last())
    }
}

fn copy_symbol(s: &Symbol) -> (r: Symbol)
    ensures
        pair(r) == pair(*s),
{
    Symbol { name: s.name.clone(), addr: s.addr }
}

/// Give the symbols of this name this address, and say whether there is one.
fn redirect(list: &mut Vec<Symbol>, s: &Symbol) -> (r: bool)
    ensures
        r == names_symbol(pairs(old(list)@), s.name@),
        final(list).len() == old(list).len(),
        forall|i: int|
            0 <= i < old(list).len() ==> #[trigger] pairs(final(list)@)[i] == (if pairs(
                old(list)@,
            )[i].0 == s.name@ {
                pair(*s)
            } else {
                pairs(old(list)@)[i]
            }),
{
    let ghost start = pairs(list@);
    let mut found = false;
    let mut i: usize = 0;
    while i < list.len()
        invariant
            i <= list.len(),
            list.len() == start.len(),
            found == exists|j: int| 0 <= j < i && (#[trigger] start[j]).0 == s.name@,
            forall|j: int|
                0 <= j < i ==> #[trigger] pairs(list@)[j] == (if start[j].0 == s.name@ {
                    pair(*s)
                } else {
                    start[j]
                }),
            forall|j: int| i <= j < list.len() ==> #[trigger] pairs(list@)[j] == start[j],
        decreases list.len() - i,
    {
        let ghost before = list@;
        proof {
            assert(pairs(before)[i as int] == start[i as int]);
        }
        if list[i].name == s.name {
            list.set(i, copy_symbol(s));
            found = true;
            assert(start[i as int].0 == s.name@);
        }
        assert forall|j: int| 0 <= j < list.len() && j != i implies #[trigger] pairs(list@)[j]
            == pairs(before)[j] by {
            assert(list@[j] == before[j]);
        }
        i = i + 1;
    }
    found
}

/// The symbols with each name once, in the order in which the names are seen: the
/// last address of a name counts, so that one given later overrides an earlier one.
pub fn dedupe_last_wins(symbols: Vec<Symbol>) -> (r: Vec<Symbol>)
    ensures
        pairs(r@) == last_wins(pairs(symbols@)),
{
    let ghost all = pairs(symbols@);
    let mut out: Vec<Symbol> = Vec::new();
    let mut i: usize = 0;
    assert(pairs(out@) =~= last_wins(all.take(0)));
    while i < symbols.len()
        invariant
            i <= symbols.len(),
            all == pairs(symbols@),
            pairs(out@) == last_wins(all.take(i as int)),
        decreases symbols.len() - i,
    {
        let ghost before = pairs(out@);
        proof {
            assert(all.take(i + 1).drop_last() =~= all.take(i as int));
            assert(all.take(i + 1).last() == pair(symbols@[i as int]));
        }
        if redirect(&mut out, &symbols[i]) {
            assert(pairs(out@) =~= put(before, pair(symbols@[i as int])));
        } else {
            assert(pairs(out@) =~= before) by {
                assert forall|j: int| 0 <= j < before.len() implies pairs(out@)[j] == before[j] by {
                    assert(before[j].0 != symbols@[i as int].name@);
                }
            }
            let ghost kept = out@;
            out.push(copy_symbol(&symbols[i]));
            assert(pairs(out@) =~= pairs(kept).push(pair(symbols@[i as int])));
        }
        i = i + 1;
    }
    assert(all.take(all.len() as int) =~= all);
    out
}

proof fn lemma_put_names(list: Seq<(Seq<char>, u64)>, s: (Seq<char>, u64), name: Seq<char>)
    ensures
        names_symbol(put(list, s), name) == (names_symbol(list, name) || s.0 == name),
        list.len() <= put(list, s).len(),
        forall|i: int| 0 <= i < list.len() ==> (#[trigger] put(list, s)[i]).0 == list[i].0,
{
    let after = put(list, s);
    if names_symbol(list, name) {
        let i = choose|i: int| 0 <= i < list.len() && (#[trigger] list[i]).0 == name;
        assert(after[i].0 == name);
    }
    if names_symbol(after, name) {
        let i = choose|i: int| 0 <= i < after.len() && (#[trigger] after[i]).0 == name;
        if i < list.len() {
            assert(list[i].0 == name);
        }
    }
    if s.0 == name && !names_symbol(list, name) {
        assert(after[list.len() as int].0 == name);
    }
}

/// The names that are left are the names there were.
proof fn lemma_last_wins_names(list: Seq<(Seq<char>, u64)>, name: Seq<char>)
    ensures
        names_symbol(last_wins(list), name) == names_symbol(list, name),
    decreases list.len(),
{
    if list.len() > 0 {
        let front = list.drop_last();
        lemma_last_wins_names(front, name);
        lemma_put_names(last_wins(front), list.last(), name);
        if names_symbol(front, name) {
            let i = choose|i: int| 0 <= i < front.len() && (#[trigger] front[i]).0 == name;
            assert(list[i].0 == name);
        }
        if names_symbol(list, name) {
            let i = choose|i: int| 0 <= i < list.len() && (#[trigger] list[i]).0 == name;
            if i < front.len() {
                assert(front[i].0 == name);
            }
        }
        if list.last().0 == name {
            assert(list[list.len() - 1].0 == name);
        }
    }
}

// ── laws ─────────────────────────────────────────────────────────────────
/// No name is left twice, and no name is lost.
pub proof fn every_name_is_left_once(list: Seq<(Seq<char>, u64)>)
    ensures
        forall|i: int, j: int|
            0 <= i < j < last_wins(list).len() ==> (#[trigger] last_wins(list)[i]).0 != (
            #[trigger] last_wins(list)[j]).0,
        forall|name: Seq<char>| #[trigger] names_symbol(last_wins(list), name) == names_symbol(list, name),
    decreases list.len(),
{
    assert forall|name: Seq<char>| #[trigger] names_symbol(last_wins(list), name) == names_symbol(
        list,
        name,
    ) by {
        lemma_last_wins_names(list, name);
    }
    if list.len() > 0 {
        let front = last_wins(list.drop_last());
        every_name_is_left_once(list.drop_last());
        lemma_put_names(front, list.last(), list.last().0);
        assert forall|i: int, j: int| 0 <= i < j < last_wins(list).len() implies (
        #[trigger] last_wins(list)[i]).0 != (#[trigger] last_wins(list)[j]).0 by {
            assert(last_wins(list)[i].0 == front[i].0);
            if j < front.len() {
                assert(last_wins(list)[j].0 == front[j].0);
            }
        }
    }
}

/// Names stand in the order in which they are seen first: what comes behind a list
/// moves none of its names.
pub proof fn names_stand_in_first_seen_order(
    list: Seq<(Seq<char>, u64)>,
    more: Seq<(Seq<char>, u64)>,
)
    ensures
        last_wins(list).len() <= last_wins(list + more).len(),
        forall|i: int|
            0 <= i < last_wins(list).len() ==> (#[trigger] last_wins(list + more)[i]).0 == last_wins(
                list,
            )[i].0,
    decreases more.len(),
{
    if more.len() == 0 {
        assert(list + more =~= list);
    } else {
        names_stand_in_first_seen_order(list, more.drop_last());
        assert((list + more).drop_last() =~= list + more.drop_last());
        let front = last_wins(list + more.drop_last());
        lemma_put_names(front, more.last(), more.last().0);
        assert forall|i: int| 0 <= i < last_wins(list).len() implies (
        #[trigger] last_wins(list + more)[i]).0 == last_wins(list)[i].0 by {
            assert(put(front, more.last())[i].0 == front[i].0);
        }
    }
}

/// A symbol that is given last under its name is kept as it is: extra symbols
/// behind the defaults override them.
pub proof fn the_last_of_a_name_is_kept(list: Seq<(Seq<char>, u64)>, k: int)
    requires
        0 <= k < list.len(),
        !names_symbol(list.skip(k + 1), list[k].0),
    ensures
        last_wins(list).contains(list[k]),
    decreases list.len(),
{
    let front = list.drop_last();
    let before = last_wins(front);
    let after = last_wins(list);
    if k == list.len() - 1 {
        if names_symbol(before, list[k].0) {
            let i = choose|i: int| 0 <= i < before.len() && (#[trigger] before[i]).0 == list[k].0;
            assert(after[i] == list[k]);
        } else {
            assert(after[before.len() as int] == list[k]);
        }
    } else {
        assert forall|i: int| 0 <= i < front.skip(k + 1).len() implies (#[trigger] front.skip(
            k + 1,
        )[i]).0 != list[k].0 by {
            assert(list.skip(k + 1)[i].0 != list[k].0);
        }
        the_last_of_a_name_is_kept(front, k);
        let i = choose|i: int| 0 <= i < before.len() && before[i] == list[k];
        assert(list.skip(k + 1)[list.len() - 1 - (k + 1)].0 != list[k].0);
        assert(after[i] == list[k]);
    }
}

proof fn lemma_distinct_stays(list: Seq<(Seq<char>, u64)>)
    requires
        forall|i: int, j: int|
            0 <= i < j < list.len() ==> (#[trigger] list[i]).0 != (#[trigger] list[j]).0,
    ensures
        last_wins(list) == list,
    decreases list.len(),
{
    if list.len() > 0 {
        let front = list.drop_last();
        assert forall|i: int, j: int| 0 <= i < j < front.len() implies (#[trigger] front[i]).0 != (
        #[trigger] front[j]).0 by {
            assert(list[i].0 != list[j].0);
        }
        lemma_distinct_stays(front);
        assert(!names_symbol(front, list.last().0)) by {
            assert forall|i: int| 0 <= i < front.len() implies (#[trigger] front[i]).0
                != list.last().0 by {
                assert(list[i].0 != list[list.len() - 1].0);
            }
        }
        assert(front.push(list.last()) =~= list);
    } else {
        assert(last_wins(list) =~= list);
    }
}

/// Once every name stands once, nothing more is dropped.
pub proof fn dropping_again_changes_nothing(list: Seq<(Seq<char>, u64)>)
    ensures
        last_wins(last_wins(list)) == last_wins(list),
{
    every_name_is_left_once(list);
    lemma_distinct_stays(last_wins(list));
}

// ── service plugins ──────────────────────────────────────────────────────
/// The source of a module: its layer, its name and its text.
#[derive(Debug)]
pub struct ModuleSource {
    pub layer: u8,
    pub name: String,
    pub source: String,
}

/// A service compiled into the driver: the modules it adds and the symbols they
/// call.
#[derive(Debug)]
pub struct ServicePlugin {
    pub modules: Vec<ModuleSource>,
    pub symbols: Vec<Symbol>,
}

/// The symbols of the first `n` plugins.
pub open spec fn symbols_of(plugins: Seq<ServicePlugin>, n: nat) -> Seq<(Seq<char>, u64)>
    decreases n,
{
    if n == 0 || n > plugins.len() {
        Seq::empty()
    } else {
        symbols_of(plugins, (n - 1) as nat) + pairs(plugins[n - 1].symbols@)
    }
}

fn append_symbols(out: &mut Vec<Symbol>, more: &Vec<Symbol>)
    ensures
        pairs(final(out)@) == pairs(old(out)@) + pairs(more@),
{
    let ghost start = pairs(out@);
    let mut i: usize = 0;
    assert(start + pairs(more@).take(0) =~= start);
    while i < more.len()
        invariant
            i <= more.len(),
            pairs(out@) == start + pairs(more@).take(i as int),
        decreases more.len() - i,
    {
        let ghost before = out@;
        out.push(copy_symbol(&more[i]));
        assert(pairs(out@) =~= pairs(before).push(pair(more@[i as int])));
        i = i + 1;
        assert(pairs(out@) =~= start + pairs(more@).take(i as int));
    }
    assert(pairs(more@).take(more@.len() as int) =~= pairs(more@));
}

/// The symbols of every plugin, in their order.
pub fn plugin_symbols(plugins: &Vec<ServicePlugin>) -> (r: Vec<Symbol>)
    ensures
        pairs(r@) == symbols_of(plugins@, plugins@.len()),
{
    let mut out: Vec<Symbol> = Vec::new();
    let mut i: usize = 0;
    assert(pairs(out@) =~= Seq::<(Seq<char>, u64)>::empty());
    while i < plugins.len()
        invariant
            i <= plugins.len(),
            pairs(out@) == symbols_of(plugins@, i as nat),
        decreases plugins.len() - i,
    {
        append_symbols(&mut out, &plugins[i].symbols);
        i = i + 1;
    }
    out
}

/// A module as a layer and two texts.
pub open spec fn module_model(m: ModuleSource) -> (u8, Seq<char>, Seq<char>) {
    (m.layer, m.name@, m.source@)
}

/// The modules as layers and texts.
pub open spec fn module_models(list: Seq<ModuleSource>) -> Seq<(u8, Seq<char>, Seq<char>)> {
    Seq::new(list.len(), |i: int| module_model(list[i]))
}

/// The modules of the first `n` plugins behind the standard ones.
pub open spec fn grafted(stdlib: Seq<ModuleSource>, plugins: Seq<ServicePlugin>, n: nat) -> Seq<
    (u8, Seq<char>, Seq<char>),
>
    decreases n,
{
    if n == 0 || n > plugins.len() {
        module_models(stdlib)
    } else {
        grafted(stdlib, plugins, (n - 1) as nat) + module_models(plugins[n - 1].modules@)
    }
}

fn append_modules(out: &mut Vec<ModuleSource>, more: &Vec<ModuleSource>)
    ensures
        module_models(final(out)@) == module_models(old(out)@) + module_models(more@),
{
    let ghost start = module_models(out@);
    let mut i: usize = 0;
    assert(start + module_models(more@).take(0) =~= start);
    while i < more.len()
        invariant
            i <= more.len(),
            module_models(out@) == start + module_models(more@).take(i as int),
        decreases more.len() - i,
    {
        let ghost before = out@;
        out.push(
            ModuleSource {
                layer: more[i].layer,
                name: more[i].name.clone(),
                source: more[i].source.clone(),
            },
        );
        assert(module_models(out@) =~= module_models(before).push(module_model(more@[i as int])));
        i = i + 1;
        assert(module_models(out@) =~= start + module_models(more@).take(i as int));
    }
    assert(module_models(more@).take(more@.len() as int) =~= module_models(more@));
}

/// The standard modules and those of every plugin.
pub fn plugin_grafted_modules(stdlib: &Vec<ModuleSource>, plugins: &Vec<ServicePlugin>) -> (r: Vec<
    ModuleSource,
>)
    ensures
        module_models(r@) == grafted(stdlib@, plugins@, plugins@.len()),
{
    let mut out: Vec<ModuleSource> = Vec::new();
    append_modules(&mut out, stdlib);
    assert(module_models(out@) =~= module_models(stdlib@));
    let mut i: usize = 0;
    while i < plugins.len()
        invariant
            i <= plugins.len(),
            module_models(out@) == grafted(stdlib@, plugins@, i as nat),
        decreases plugins.len() - i,
    {
        append_modules(&mut out, &plugins[i].modules);
        i = i + 1;
    }
    out
}

// ── the table ────────────────────────────────────────────────────────────
/// The symbols of a run: the runtime's, those of the operating system and those
/// of the host, of which the last one of a name counts.
pub fn import_table(runtime: &Vec<Symbol>, system: &Vec<Symbol>, extra: &Vec<Symbol>) -> (r: Vec<
    Symbol,
>)
    ensures
        pairs(r@) == last_wins(pairs(runtime@) + pairs(system@) + pairs(extra@)),
{
    let mut all: Vec<Symbol> = Vec::new();
    append_symbols(&mut all, runtime);
    append_symbols(&mut all, system);
    append_symbols(&mut all, extra);
    assert(pairs(all@) =~= pairs(runtime@) + pairs(system@) + pairs(extra@));
    dedupe_last_wins(all)
}

/// A symbol of the host stands in the table under its address, whatever the
/// runtime or the operating system have under its name.
pub proof fn the_host_overrides(
    runtime: Seq<(Seq<char>, u64)>,
    system: Seq<(Seq<char>, u64)>,
    extra: Seq<(Seq<char>, u64)>,
    k: int,
)
    requires
        0 <= k < extra.len(),
        !names_symbol(extra.skip(k + 1), extra[k].0),
    ensures
        last_wins(runtime + system + extra).contains(extra[k]),
{
    let all = runtime + system + extra;
    let at = runtime.len() + system.len() + k;
    assert(all[at] == extra[k]);
    assert(all.skip(at + 1) =~= extra.skip(k + 1));
    the_last_of_a_name_is_kept(all, at);
}

/// A name that the host does not give binds as it does without the host.
pub proof fn other_names_bind_as_without_the_host(
    runtime: Seq<(Seq<char>, u64)>,
    system: Seq<(Seq<char>, u64)>,
    extra: Seq<(Seq<char>, u64)>,
    name: Seq<char>,
    address: u64,
)
    requires
        !names_symbol(extra, name),
    ensures
        last_wins(runtime + system + extra).contains((name, address)) == last_wins(
            runtime + system,
        ).contains((name, address)),
{
    lemma_others_stay(runtime + system, extra, name, address);
}

proof fn lemma_others_stay(
    list: Seq<(Seq<char>, u64)>,
    more: Seq<(Seq<char>, u64)>,
    name: Seq<char>,
    address: u64,
)
    requires
        !names_symbol(more, name),
    ensures
        last_wins(list + more).contains((name, address)) == last_wins(list).contains(
            (name, address),
        ),
    decreases more.len(),
{
    if more.len() == 0 {
        assert(list + more =~= list);
    } else {
        let less = more.drop_last();
        assert forall|i: int| 0 <= i < less.len() implies (#[trigger] less[i]).0 != name by {
            assert(more[i].0 != name);
        }
        lemma_others_stay(list, less, name, address);
        assert((list + more).drop_last() =~= list + less);
        assert(more[more.len() - 1].0 != name);
        let front = last_wins(list + less);
        let all = put(front, more.last());
        let s = (name, address);
        if front.contains(s) {
            let i = choose|i: int| 0 <= i < front.len() && front[i] == s;
            assert(all[i] == s);
        }
        if all.contains(s) {
            let i = choose|i: int| 0 <= i < all.len() && all[i] == s;
            assert(i < front.len());
            assert(front[i] == s);
        }
    }
}

/// What came of looking a function of the operating system up.
#[derive(Clone, Copy, Debug, PartialEq, Eq, Structural)]
pub enum Lookup {
    /// The library's name holds a zero byte.
    BadLibrary,
    /// The function's name holds a zero byte.
    BadSymbol,
    /// The library did not load.
    NotLoaded,
    /// The library has no such function.
    NotFound,
    Found(u64),
}

/// What a failed lookup says.
pub open spec fn lookup_error(sym: Seq<char>, dll: Seq<char>, found: Lookup) -> Option<Seq<char>> {
    match found {
        Lookup::BadLibrary => Some("bad DLL name `"@ + dll + "`"@),
        Lookup::BadSymbol => Some("bad symbol name `"@ + sym + "`"@),
        Lookup::NotLoaded => Some(
            "LoadLibrary(\""@ + dll + "\") failed (needed for `"@ + sym + "`)"@,
        ),
        Lookup::NotFound => Some("GetProcAddress(`"@ + sym + "` in "@ + dll + ") failed"@),
        Lookup::Found(_) => None,
    }
}

/// The symbol a lookup found, or why it found none.
pub fn resolved(sym: &String, dll: &String, found: Lookup) -> (r: Result<Symbol, String>)
    ensures
        match r {
            Ok(s) => found == Lookup::Found(s.addr) && s.name@ == sym@,
            Err(e) => lookup_error(sym@, dll@, found) == Some(e@),
        },
{
    match found {
        Lookup::BadLibrary => Err("bad DLL name `".to_owned().concat(dll).concat("`")),
        Lookup::BadSymbol => Err("bad symbol name `".to_owned().concat(sym).concat("`")),
        Lookup::NotLoaded => Err(
            "LoadLibrary(\"".to_owned().concat(dll).concat("\") failed (needed for `").concat(
                sym,
            ).concat("`)"),
        ),
        Lookup::NotFound => Err(
            "GetProcAddress(`".to_owned().concat(sym).concat("` in ").concat(dll).concat(
                ") failed",
            ),
        ),
        Lookup::Found(addr) => Ok(Symbol { name: sym.clone(), addr }),
    }
}

} // verus!
