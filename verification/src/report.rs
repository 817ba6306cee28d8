//! The effect manifest of a program, for people and for machines.
use crate::text::{chars_of, decimal, hex, join, joined, number, pad, padded, push_hex, texts};
use vstd::prelude::*;
use vstd::string::*;

verus! {

// ── escaping ─────────────────────────────────────────────────────────────
/// A character inside a JSON string.
pub open spec fn escape(c: char) -> Seq<char> {
    if c == '"' {
        seq!['\\', '"']
    } else if c == '\\' {
        seq!['\\', '\\']
    } else if c == '\n' {
        seq!['\\', 'n']
    } else if c == '\r' {
        seq!['\\', 'r']
    } else if c == '\t' {
        seq!['\\', 't']
    } else if (c as u32) < 0x20 {
        seq!['\\', 'u'] + hex(c as nat, 4)
    } else {
        seq![c]
    }
}

/// A text inside a JSON string.
pub open spec fn escaped(s: Seq<char>) -> Seq<char>
    decreases s.len(),
{
    if s.len() == 0 {
        Seq::empty()
    } else {
        escaped(s.drop_last()) + escape(s.last())
    }
}

fn push_escaped(out: &mut String, c: char)
    ensures
        final(out)@ == old(out)@ + escape(c),
{
    if c == '"' {
        out.push('\\');
        out.push('"');
    } else if c == '\\' {
        out.push('\\');
        out.push('\\');
    } else if c == '\n' {
        out.push('\\');
        out.push('n');
    } else if c == '\r' {
        out.push('\\');
        out.push('r');
    } else if c == '\t' {
        out.push('\\');
        out.push('t');
    } else if (c as u32) < 0x20 {
        out.push('\\');
        out.push('u');
        push_hex(out, c as u64, 4);
    } else {
        out.push(c);
    }
    assert(out@ =~= old(out)@ + escape(c));
}

/// A text as it stands inside a JSON string.
pub fn json_escape(s: &str) -> (r: String)
    ensures
        r@ == escaped(s@),
{
    let chars = chars_of(s);
    let mut out = String::new();
    let mut i: usize = 0;
    assert(s@.take(0) =~= Seq::<char>::empty());
    while i < chars.len()
        invariant
            i <= chars.len(),
            chars@ == s@,
            out@ == escaped(s@.take(i as int)),
        decreases chars.len() - i,
    {
        assert(s@.take(i + 1).drop_last() =~= s@.take(i as int));
        push_escaped(&mut out, chars[i]);
        i = i + 1;
    }
    assert(s@.take(s@.len() as int) =~= s@);
    out
}

// ── reading an escaped text back ─────────────────────────────────────────
/// The value of a hexadecimal digit.
pub open spec fn hex_value(c: char) -> nat {
    if '0' <= c && c <= '9' {
        (c as nat - '0' as nat) as nat
    } else {
        (c as nat - 'a' as nat + 10) as nat
    }
}

/// The text that a JSON string stands for, if it is well formed.
pub open spec fn unescaped(s: Seq<char>) -> Option<Seq<char>>
    decreases s.len(),
{
    if s.len() == 0 {
        Some(Seq::empty())
    } else if s[0] == '\\' {
        if s.len() >= 6 && s[1] == 'u' {
            let n = ((hex_value(s[2]) * 16 + hex_value(s[3])) * 16 + hex_value(s[4])) * 16
                + hex_value(s[5]);
            match unescaped(s.skip(6)) {
                None => None,
                Some(rest) => Some(seq![n as char] + rest),
            }
        } else if s.len() >= 2 {
            match (simple_escape(s[1]), unescaped(s.skip(2))) {
                (Some(c), Some(rest)) => Some(seq![c] + rest),
                _ => None,
            }
        } else {
            None
        }
    } else if s[0] == '"' || (s[0] as u32) < 0x20 {
        None
    } else {
        match unescaped(s.skip(1)) {
            None => None,
            Some(rest) => Some(seq![s[0]] + rest),
        }
    }
}

/// The character that a backslash and a letter stand for.
pub open spec fn simple_escape(c: char) -> Option<char> {
    if c == '"' {
        Some('"')
    } else if c == '\\' {
        Some('\\')
    } else if c == 'n' {
        Some('\n')
    } else if c == 'r' {
        Some('\r')
    } else if c == 't' {
        Some('\t')
    } else {
        None
    }
}

/// An escaped text is well formed inside a JSON string, and stands for the text
/// it was made of.
pub proof fn escaping_loses_nothing(s: Seq<char>)
    ensures
        unescaped(escaped(s)) == Some(s),
    decreases s.len(),
{
    if s.len() > 0 {
        let c = s[0];
        let tail = s.drop_first();
        escaping_loses_nothing(tail);
        lemma_escaped_front(s);
        lemma_unescape_one(c, escaped(tail));
        assert(seq![c] + tail =~= s);
    } else {
        assert(unescaped(escaped(s)) =~= Some(s));
    }
}

pub(crate) proof fn lemma_escaped_front(s: Seq<char>)
    requires
        s.len() > 0,
    ensures
        escaped(s) == escape(s[0]) + escaped(s.drop_first()),
    decreases s.len(),
{
    if s.len() == 1 {
        assert(s.drop_last() =~= Seq::<char>::empty());
        assert(s.drop_first() =~= Seq::<char>::empty());
        assert(escaped(s) =~= escape(s[0]) + escaped(s.drop_first()));
    } else {
        lemma_escaped_front(s.drop_last());
        assert(s.drop_last().drop_first() =~= s.drop_first().drop_last());
        assert(s.drop_first().last() == s.last());
        assert(escaped(s) =~= escape(s[0]) + escaped(s.drop_first()));
    }
}

proof fn lemma_unescape_one(c: char, rest: Seq<char>)
    ensures
        unescaped(escape(c) + rest) == (match unescaped(rest) {
            None => None,
            Some(r) => Some(seq![c] + r),
        }),
{
    let all = escape(c) + rest;
    if c == '"' || c == '\\' || c == '\n' || c == '\r' || c == '\t' {
        assert(all.skip(2) =~= rest);
    } else if (c as u32) < 0x20 {
        let h = hex(c as nat, 4);
        lemma_hex_value(c as nat);
        assert(h.len() == 4) by {
            reveal_with_fuel(hex, 5);
        }
        assert(all.skip(6) =~= rest);
        assert(all[2] == h[0] && all[3] == h[1] && all[4] == h[2] && all[5] == h[3]);
    } else {
        assert(all.skip(1) =~= rest);
    }
}

pub(crate) proof fn lemma_hex_value(n: nat)
    requires
        n < 0x20,
    ensures
        ({
            let h = hex(n, 4);
            ((hex_value(h[0]) * 16 + hex_value(h[1])) * 16 + hex_value(h[2])) * 16 + hex_value(h[3])
                == n
        }),
{
    reveal_with_fuel(hex, 5);
    let h = hex(n, 4);
    assert(n / 16 / 16 == 0);
    assert(h[0] == crate::text::hex_digit(n / 16 / 16 / 16 % 16));
    assert(h[1] == crate::text::hex_digit(n / 16 / 16 % 16));
    assert(h[2] == crate::text::hex_digit(n / 16 % 16));
    assert(h[3] == crate::text::hex_digit(n % 16));
    assert(hex_value(h[3]) == n % 16);
    assert(hex_value(h[2]) == n / 16);
}

// ── effects ──────────────────────────────────────────────────────────────
/// An effect of a program.
#[derive(Debug)]
pub struct Effect {
    pub label: String,
    pub category: String,
    pub description: String,
    /// The layer the effect enters at, unless it is not confined to one.
    pub layer: Option<u64>,
}

/// The effects of a category, in their order.
pub open spec fn of_category(effects: Seq<Effect>, category: Seq<char>, n: nat) -> Seq<int>
    decreases n,
{
    if n == 0 || n > effects.len() {
        Seq::empty()
    } else if effects[n - 1].category@ == category {
        of_category(effects, category, (n - 1) as nat).push(n - 1)
    } else {
        of_category(effects, category, (n - 1) as nat)
    }
}

/// The positions as numbers.
pub open spec fn positions(list: Seq<usize>) -> Seq<int> {
    Seq::new(list.len(), |i: int| list[i] as int)
}

fn find_category(effects: &Vec<Effect>, category: &String) -> (r: Vec<usize>)
    ensures
        positions(r@) == of_category(effects@, category@, effects@.len()),
        forall|i: int| 0 <= i < r.len() ==> r[i] < effects.len(),
{
    let mut out: Vec<usize> = Vec::new();
    let mut i: usize = 0;
    assert(positions(out@) =~= Seq::<int>::empty());
    while i < effects.len()
        invariant
            i <= effects.len(),
            positions(out@) == of_category(effects@, category@, i as nat),
            forall|j: int| 0 <= j < out.len() ==> out[j] < i,
        decreases effects.len() - i,
    {
        if effects[i].category == *category {
            let ghost before = out@;
            out.push(i);
            assert(positions(out@) =~= positions(before).push(i as int));
        }
        i = i + 1;
    }
    out
}

/// A category and the positions of its effects.
#[derive(Debug)]
pub struct Group {
    pub category: String,
    pub members: Vec<usize>,
}

/// The groups as texts and positions.
pub open spec fn groups(list: Seq<Group>) -> Seq<(Seq<char>, Seq<int>)> {
    Seq::new(list.len(), |i: int| (list[i].category@, positions(list[i].members@)))
}

/// The categories that have an effect, in the given order, with their effects.
pub open spec fn grouping(effects: Seq<Effect>, order: Seq<String>, n: nat) -> Seq<
    (Seq<char>, Seq<int>),
>
    decreases n,
{
    if n == 0 || n > order.len() {
        Seq::empty()
    } else {
        let before = grouping(effects, order, (n - 1) as nat);
        let members = of_category(effects, order[n - 1]@, effects.len());
        if members.len() == 0 {
            before
        } else {
            before.push((order[n - 1]@, members))
        }
    }
}

/// The categories that have an effect, in the given order.
pub fn grouped(effects: &Vec<Effect>, order: &Vec<String>) -> (r: Vec<Group>)
    ensures
        groups(r@) == grouping(effects@, order@, order@.len()),
        forall|i: int, j: int|
            0 <= i < r.len() && 0 <= j < r[i].members.len() ==> #[trigger] r[i].members[j]
                < effects.len(),
{
    let mut out: Vec<Group> = Vec::new();
    let mut i: usize = 0;
    assert(groups(out@) =~= Seq::<(Seq<char>, Seq<int>)>::empty());
    while i < order.len()
        invariant
            i <= order.len(),
            groups(out@) == grouping(effects@, order@, i as nat),
            forall|k: int, j: int|
                0 <= k < out.len() && 0 <= j < out[k].members.len() ==> #[trigger] out[k].members[j]
                    < effects.len(),
        decreases order.len() - i,
    {
        let members = find_category(effects, &order[i]);
        if members.len() > 0 {
            let ghost before = out@;
            let ghost found = positions(members@);
            out.push(Group { category: order[i].clone(), members });
            assert(groups(out@) =~= groups(before).push((order@[i as int]@, found)));
        }
        i = i + 1;
    }
    out
}

/// The mark of the layer an effect enters at.
pub open spec fn layer_mark(layer: Option<u64>) -> &'static str {
    match layer {
        Some(n) => if n == 0 {
            "L0"
        } else if n == 1 {
            "L1"
        } else if n == 2 {
            "L2"
        } else {
            "L·"
        },
        None => "L·",
    }
}

/// The mark of the layer an effect enters at.
pub fn layer_tag(layer: Option<u64>) -> (r: &'static str)
    ensures
        r == layer_mark(layer),
{
    match layer {
        Some(n) => if n == 0 {
            "L0"
        } else if n == 1 {
            "L1"
        } else if n == 2 {
            "L2"
        } else {
            "L·"
        },
        None => "L·",
    }
}

/// The labels of the effects.
pub open spec fn labels(effects: Seq<Effect>) -> Seq<Seq<char>> {
    Seq::new(effects.len(), |i: int| effects[i].label@)
}

fn label_list(effects: &Vec<Effect>) -> (r: Vec<String>)
    ensures
        texts(r@) == labels(effects@),
{
    let mut out: Vec<String> = Vec::new();
    let mut i: usize = 0;
    while i < effects.len()
        invariant
            i <= effects.len(),
            out.len() == i,
            forall|j: int| 0 <= j < i ==> (#[trigger] out@[j])@ == effects@[j].label@,
        decreases effects.len() - i,
    {
        out.push(effects[i].label.clone());
        i = i + 1;
    }
    assert(texts(out@) =~= labels(effects@));
    out
}

/// How many effects each category has.
pub open spec fn tallies(list: Seq<(Seq<char>, Seq<int>)>, quote: Seq<char>, sep: Seq<char>) -> Seq<
    Seq<char>,
> {
    Seq::new(
        list.len(),
        |i: int| quote + list[i].0 + quote + sep + decimal(list[i].1.len()),
    )
}

fn tally_list(list: &Vec<Group>, quote: &str, sep: &str) -> (r: Vec<String>)
    ensures
        texts(r@) == tallies(groups(list@), quote@, sep@),
{
    let mut out: Vec<String> = Vec::new();
    let mut i: usize = 0;
    while i < list.len()
        invariant
            i <= list.len(),
            out.len() == i,
            forall|j: int|
                0 <= j < i ==> (#[trigger] out@[j])@ == tallies(groups(list@), quote@, sep@)[j],
        decreases list.len() - i,
    {
        let n = number(list[i].members.len());
        let line = quote.to_owned().concat(&list[i].category).concat(quote).concat(sep).concat(&n);
        assert(groups(list@)[i as int].1.len() == list@[i as int].members@.len());
        out.push(line);
        i = i + 1;
    }
    assert(texts(out@) =~= tallies(groups(list@), quote@, sep@));
    out
}

/// One line of the legend.
pub open spec fn legend_line(e: Effect) -> Seq<char> {
    "    "@ + layer_mark(e.layer)@ + "  "@ + padded(e.label@, 10) + " "@ + e.description@ + "\n"@
}

/// The lines of the first `n` members of a category.
pub open spec fn legend_lines(effects: Seq<Effect>, members: Seq<int>, n: nat) -> Seq<char>
    decreases n,
{
    if n == 0 || n > members.len() {
        Seq::empty()
    } else {
        legend_lines(effects, members, (n - 1) as nat) + legend_line(effects[members[n - 1]])
    }
}

/// The legend of the first `n` categories.
pub open spec fn legend(effects: Seq<Effect>, list: Seq<(Seq<char>, Seq<int>)>, n: nat) -> Seq<char>
    decreases n,
{
    if n == 0 || n > list.len() {
        Seq::empty()
    } else {
        let (category, members) = list[n - 1];
        legend(effects, list, (n - 1) as nat) + ("\n  "@ + category + " ("@ + decimal(members.len())
            + ")\n"@) + legend_lines(effects, members, members.len())
    }
}

/// One line that sums the effects up: all of them where they are few, the
/// categories where they are many.
pub open spec fn summary(effects: Seq<Effect>, list: Seq<(Seq<char>, Seq<int>)>) -> Seq<char> {
    if effects.len() <= 8 {
        "  effects : { "@ + joined(labels(effects), ", "@) + " }\n"@
    } else {
        "  effects : "@ + decimal(effects.len()) + " in "@ + decimal(list.len()) + " categories  ("@
            + joined(tallies(list, ""@, " "@), ", "@) + ")\n"@
    }
}

/// The manifest for people.
pub open spec fn human_manifest(
    file: Seq<char>,
    ty: Seq<char>,
    effects: Seq<Effect>,
    order: Seq<String>,
) -> Seq<char> {
    let head = file + "\n  type    : "@ + ty + "\n"@;
    if effects.len() == 0 {
        head + "  effects : {}  — pure (touches nothing outside itself)\n"@
    } else {
        let list = grouping(effects, order, order.len());
        head + summary(effects, list) + legend(effects, list, list.len())
    }
}

fn push_legend_line(out: &mut String, e: &Effect)
    ensures
        final(out)@ == old(out)@ + legend_line(*e),
{
    let label = pad(&e.label, 10);
    let line = "    ".to_owned().concat(layer_tag(e.layer)).concat("  ").concat(&label).concat(
        " ",
    ).concat(&e.description).concat("\n");
    out.append(&line);
}

fn push_legend_lines(out: &mut String, effects: &Vec<Effect>, members: &Vec<usize>)
    requires
        forall|j: int| 0 <= j < members.len() ==> members[j] < effects.len(),
    ensures
        final(out)@ == old(out)@ + legend_lines(
            effects@,
            positions(members@),
            positions(members@).len(),
        ),
{
    let ghost start = out@;
    let ghost all = positions(members@);
    let mut i: usize = 0;
    assert(start + legend_lines(effects@, all, 0) =~= start);
    while i < members.len()
        invariant
            i <= members.len(),
            all == positions(members@),
            forall|j: int| 0 <= j < members.len() ==> members[j] < effects.len(),
            out@ == start + legend_lines(effects@, all, i as nat),
        decreases members.len() - i,
    {
        push_legend_line(out, &effects[members[i]]);
        i = i + 1;
        assert(out@ =~= start + legend_lines(effects@, all, i as nat));
    }
}

fn push_legend(out: &mut String, effects: &Vec<Effect>, list: &Vec<Group>)
    requires
        forall|i: int, j: int|
            0 <= i < list.len() && 0 <= j < list[i].members.len() ==> #[trigger] list[i].members[j]
                < effects.len(),
    ensures
        final(out)@ == old(out)@ + legend(effects@, groups(list@), groups(list@).len()),
{
    let ghost start = out@;
    let ghost all = groups(list@);
    let mut i: usize = 0;
    assert(start + legend(effects@, all, 0) =~= start);
    while i < list.len()
        invariant
            i <= list.len(),
            all == groups(list@),
            forall|i: int, j: int|
                0 <= i < list.len() && 0 <= j < list[i].members.len()
                    ==> #[trigger] list[i].members[j] < effects.len(),
            out@ == start + legend(effects@, all, i as nat),
        decreases list.len() - i,
    {
        let n = number(list[i].members.len());
        let head = "\n  ".to_owned().concat(&list[i].category).concat(" (").concat(&n).concat(
            ")\n",
        );
        assert(all[i as int].1.len() == list@[i as int].members@.len());
        out.append(&head);
        push_legend_lines(out, effects, &list[i].members);
        i = i + 1;
        assert(out@ =~= start + legend(effects@, all, i as nat));
    }
}

fn summary_line(effects: &Vec<Effect>, list: &Vec<Group>) -> (r: String)
    ensures
        r@ == summary(effects@, groups(list@)),
{
    if effects.len() <= 8 {
        let names = label_list(effects);
        let names = join(&names, 0, ", ");
        assert(labels(effects@).skip(0) =~= labels(effects@));
        "  effects : { ".to_owned().concat(&names).concat(" }\n")
    } else {
        let total = number(effects.len());
        let categories = number(list.len());
        let roll = tally_list(list, "", " ");
        let roll = join(&roll, 0, ", ");
        assert(tallies(groups(list@), ""@, " "@).skip(0) =~= tallies(groups(list@), ""@, " "@));
        "  effects : ".to_owned().concat(&total).concat(" in ").concat(&categories).concat(
            " categories  (",
        ).concat(&roll).concat(")\n")
    }
}

/// The manifest for people: the type, a line that sums the effects up, and a
/// legend by category.
pub fn effects_human(file: &str, ty: &str, effects: &Vec<Effect>, order: &Vec<String>) -> (r: String)
    ensures
        r@ == human_manifest(file@, ty@, effects@, order@),
{
    let mut out = file.to_owned().concat("\n  type    : ").concat(ty).concat("\n");
    if effects.len() == 0 {
        out.append("  effects : {}  — pure (touches nothing outside itself)\n");
        return out;
    }
    let list = grouped(effects, order);
    let line = summary_line(effects, &list);
    out.append(&line);
    push_legend(&mut out, effects, &list);
    out
}

/// A layer as the machine manifest gives it.
pub open spec fn layer_json(layer: Option<u64>) -> Seq<char> {
    match layer {
        Some(n) => decimal(n as nat),
        None => "null"@,
    }
}

/// One effect of the machine manifest.
pub open spec fn effect_json(e: Effect, last: bool) -> Seq<char> {
    "    { \"label\": \""@ + escaped(e.label@) + "\", \"category\": \""@ + e.category@
        + "\", \"layer\": "@ + layer_json(e.layer) + " }"@ + (if last {
        ""@
    } else {
        ","@
    }) + "\n"@
}

/// The first `n` effects of the machine manifest.
pub open spec fn effects_array(effects: Seq<Effect>, n: nat) -> Seq<char>
    decreases n,
{
    if n == 0 || n > effects.len() {
        Seq::empty()
    } else {
        effects_array(effects, (n - 1) as nat) + effect_json(effects[n - 1], n == effects.len())
    }
}

/// The manifest for machines.
pub open spec fn json_manifest(
    file: Seq<char>,
    ty: Seq<char>,
    effects: Seq<Effect>,
    order: Seq<String>,
) -> Seq<char> {
    let list = grouping(effects, order, order.len());
    "{\n  \"file\": \""@ + escaped(file) + "\",\n  \"type\": \""@ + escaped(ty)
        + "\",\n  \"pure\": "@ + (if effects.len() == 0 {
        "true"@
    } else {
        "false"@
    }) + ",\n  \"effect_count\": "@ + decimal(effects.len()) + ",\n  \"categories\": { "@ + joined(
        tallies(list, "\""@, ": "@),
        ", "@,
    ) + " },\n  \"effects\": [\n"@ + effects_array(effects, effects.len()) + "  ]\n}\n"@
}

fn layer_value(layer: Option<u64>) -> (r: String)
    ensures
        r@ == layer_json(layer),
{
    match layer {
        Some(n) => crate::text::count(n),
        None => "null".to_owned(),
    }
}

fn push_effect_json(out: &mut String, e: &Effect, last: bool)
    ensures
        final(out)@ == old(out)@ + effect_json(*e, last),
{
    let label = json_escape(&e.label);
    let layer = layer_value(e.layer);
    let comma = if last {
        ""
    } else {
        ","
    };
    let line = "    { \"label\": \"".to_owned().concat(&label).concat(
        "\", \"category\": \"",
    ).concat(&e.category).concat("\", \"layer\": ").concat(&layer).concat(" }").concat(
        comma,
    ).concat("\n");
    out.append(&line);
}

/// The manifest for machines: stable and in order, so that two of them can be
/// compared line by line.
pub fn effects_json(file: &str, ty: &str, effects: &Vec<Effect>, order: &Vec<String>) -> (r: String)
    ensures
        r@ == json_manifest(file@, ty@, effects@, order@),
{
    let list = grouped(effects, order);
    let file = json_escape(file);
    let ty = json_escape(ty);
    let pure = if effects.len() == 0 {
        "true"
    } else {
        "false"
    };
    let total = number(effects.len());
    let counts = tally_list(&list, "\"", ": ");
    let counts = join(&counts, 0, ", ");
    assert(tallies(groups(list@), "\""@, ": "@).skip(0) =~= tallies(groups(list@), "\""@, ": "@));
    let mut out = "{\n  \"file\": \"".to_owned().concat(&file).concat("\",\n  \"type\": \"").concat(
        &ty,
    ).concat("\",\n  \"pure\": ").concat(pure).concat(",\n  \"effect_count\": ").concat(
        &total,
    ).concat(",\n  \"categories\": { ").concat(&counts).concat(" },\n  \"effects\": [\n");
    let ghost head = out@;
    let mut i: usize = 0;
    assert(head + effects_array(effects@, 0) =~= head);
    while i < effects.len()
        invariant
            i <= effects.len(),
            out@ == head + effects_array(effects@, i as nat),
        decreases effects.len() - i,
    {
        push_effect_json(&mut out, &effects[i], i + 1 == effects.len());
        i = i + 1;
        assert(out@ =~= head + effects_array(effects@, i as nat));
    }
    out.append("  ]\n}\n");
    out
}

} // verus!
