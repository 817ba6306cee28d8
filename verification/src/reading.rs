//! Reading JSON text, and what is proved of the manifest for machines: read back, it says
//! what the effects of the program are.
use crate::json::Js;
use crate::report::{
    effect_json, effects_array, escape, escaped, grouping, hex_value, human_manifest, json_manifest,
    layer_json, legend, lemma_escaped_front, lemma_hex_value, of_category, simple_escape, summary,
    tallies, Effect,
};
use crate::text::{decimal, digit, hash_text, hex, hex_digit, joined, padded};
use vstd::prelude::*;
use vstd::string::*;

verus! {

// ── a reader ─────────────────────────────────────────────────────────────
/// A character that may stand between the parts of a JSON text.
pub open spec fn is_space(c: char) -> bool {
    c == ' ' || c == '\n' || c == '\r' || c == '\t'
}

/// The text behind the space that it begins with.
pub open spec fn behind_space(s: Seq<char>) -> Seq<char>
    decreases s.len(),
{
    if s.len() > 0 && is_space(s[0]) {
        behind_space(s.skip(1))
    } else {
        s
    }
}

/// The string that ends at the next quote, and what is behind it.
pub open spec fn read_string(s: Seq<char>) -> Option<(Seq<char>, Seq<char>)>
    decreases s.len(),
{
    if s.len() == 0 {
        None
    } else if s[0] == '"' {
        Some((Seq::empty(), s.skip(1)))
    } else if s[0] == '\\' {
        if s.len() >= 6 && s[1] == 'u' {
            let n = ((hex_value(s[2]) * 16 + hex_value(s[3])) * 16 + hex_value(s[4])) * 16
                + hex_value(s[5]);
            match read_string(s.skip(6)) {
                None => None,
                Some((text, rest)) => Some((seq![n as char] + text, rest)),
            }
        } else if s.len() >= 2 {
            match (simple_escape(s[1]), read_string(s.skip(2))) {
                (Some(c), Some((text, rest))) => Some((seq![c] + text, rest)),
                _ => None,
            }
        } else {
            None
        }
    } else if (s[0] as u32) < 0x20 {
        None
    } else {
        match read_string(s.skip(1)) {
            None => None,
            Some((text, rest)) => Some((seq![s[0]] + text, rest)),
        }
    }
}

/// The value of a decimal digit.
pub open spec fn digit_value(c: char) -> Option<nat> {
    if '0' <= c && c <= '9' {
        Some((c as nat - '0' as nat) as nat)
    } else {
        None
    }
}

/// The number whose digits go on here behind those of `high`, and what is behind it.
pub open spec fn read_digits(high: nat, s: Seq<char>) -> (nat, Seq<char>)
    decreases s.len(),
{
    if s.len() == 0 {
        (high, s)
    } else {
        match digit_value(s[0]) {
            None => (high, s),
            Some(d) => read_digits(high * 10 + d, s.skip(1)),
        }
    }
}

/// The text begins with this one.
pub open spec fn starts(s: Seq<char>, with: Seq<char>) -> bool {
    s.len() >= with.len() && s.take(with.len() as int) == with
}

/// A JSON value, and what is behind it. Of numbers, those without a sign, a point and an
/// exponent are read.
pub open spec fn read_value(s: Seq<char>) -> Option<(Js, Seq<char>)>
    decreases s.len(), 1int,
{
    let t = behind_space(s);
    if t.len() == 0 || t.len() > s.len() {
        None
    } else if t[0] == '"' {
        match read_string(t.skip(1)) {
            None => None,
            Some((text, rest)) => Some((Js::Text(text), rest)),
        }
    } else if digit_value(t[0]) is Some {
        let (n, rest) = read_digits(0, t);
        Some((Js::Num(n as int), rest))
    } else if starts(t, "true"@) {
        Some((Js::Bool(true), t.skip(4)))
    } else if starts(t, "false"@) {
        Some((Js::Bool(false), t.skip(5)))
    } else if starts(t, "null"@) {
        Some((Js::Null, t.skip(4)))
    } else if t[0] == '[' {
        let inside = behind_space(t.skip(1));
        if inside.len() > 0 && inside[0] == ']' {
            Some((Js::List(Seq::empty()), inside.skip(1)))
        } else {
            match read_items(t.skip(1)) {
                None => None,
                Some((list, rest)) => Some((Js::List(list), rest)),
            }
        }
    } else if t[0] == '{' {
        let inside = behind_space(t.skip(1));
        if inside.len() > 0 && inside[0] == '}' {
            Some((Js::Object(Seq::empty()), inside.skip(1)))
        } else {
            match read_members(t.skip(1)) {
                None => None,
                Some((list, rest)) => Some((Js::Object(list), rest)),
            }
        }
    } else {
        None
    }
}

/// The values up to the end of a list, of which there is one at least.
pub open spec fn read_items(s: Seq<char>) -> Option<(Seq<Js>, Seq<char>)>
    decreases s.len(), 2int,
{
    match read_value(s) {
        None => None,
        Some((v, rest)) => {
            let t = behind_space(rest);
            if t.len() == 0 || t.len() > s.len() {
                None
            } else if t[0] == ']' {
                Some((seq![v], t.skip(1)))
            } else if t[0] == ',' {
                match read_items(t.skip(1)) {
                    None => None,
                    Some((list, rest)) => Some((seq![v] + list, rest)),
                }
            } else {
                None
            }
        },
    }
}

/// The members up to the end of an object, of which there is one at least.
pub open spec fn read_members(s: Seq<char>) -> Option<(Seq<(Seq<char>, Js)>, Seq<char>)>
    decreases s.len(), 2int,
{
    let t = behind_space(s);
    if t.len() == 0 || t[0] != '"' {
        None
    } else {
        match read_string(t.skip(1)) {
            None => None,
            Some((key, rest)) => {
                let colon = behind_space(rest);
                if colon.len() == 0 || colon.len() > s.len() || colon[0] != ':' {
                    None
                } else {
                    match read_value(colon.skip(1)) {
                        None => None,
                        Some((v, rest)) => {
                            let t = behind_space(rest);
                            if t.len() == 0 || t.len() > s.len() {
                                None
                            } else if t[0] == '}' {
                                Some((seq![(key, v)], t.skip(1)))
                            } else if t[0] == ',' {
                                match read_members(t.skip(1)) {
                                    None => None,
                                    Some((list, rest)) => Some((seq![(key, v)] + list, rest)),
                                }
                            } else {
                                None
                            }
                        },
                    }
                }
            },
        }
    }
}

/// The value that a text is, with nothing but space behind it.
pub open spec fn read_json(s: Seq<char>) -> Option<Js> {
    match read_value(s) {
        None => None,
        Some((v, rest)) => if behind_space(rest).len() == 0 {
            Some(v)
        } else {
            None
        },
    }
}

// ── what is read of what was written ─────────────────────────────────────
/// A text of space alone.
pub open spec fn all_space(s: Seq<char>) -> bool {
    forall|i: int| 0 <= i < s.len() ==> is_space(#[trigger] s[i])
}

proof fn lemma_behind_space(space: Seq<char>, rest: Seq<char>)
    requires
        all_space(space),
        rest.len() == 0 || !is_space(rest[0]),
    ensures
        behind_space(space + rest) == rest,
    decreases space.len(),
{
    if space.len() > 0 {
        assert((space + rest)[0] == space[0]);
        assert((space + rest).skip(1) =~= space.skip(1) + rest);
        assert(all_space(space.skip(1)));
        lemma_behind_space(space.skip(1), rest);
    } else {
        assert(space + rest =~= rest);
    }
}

proof fn lemma_read_one(c: char, rest: Seq<char>)
    ensures
        read_string(escape(c) + rest) == (match read_string(rest) {
            None => None,
            Some((text, behind)) => Some((seq![c] + text, behind)),
        }),
{
    let all = escape(c) + rest;
    if c == '"' || c == '\\' || c == '\n' || c == '\r' || c == '\t' {
        assert(all.skip(2) =~= rest);
    } else if (c as u32) < 0x20 {
        let h = hex(c as nat, 4);
        lemma_hex_value(c as nat);
        assert(h.len() == 4) by {
            reveal_with_fuel(hex, 5);
        }
        assert(all.skip(6) =~= rest);
        assert(all[2] == h[0] && all[3] == h[1] && all[4] == h[2] && all[5] == h[3]);
    } else {
        assert(all.skip(1) =~= rest);
    }
}

/// A string that was escaped is read back.
proof fn lemma_read_string(s: Seq<char>, rest: Seq<char>)
    ensures
        read_string(escaped(s) + seq!['"'] + rest) == Some((s, rest)),
    decreases s.len(),
{
    let all = escaped(s) + seq!['"'] + rest;
    if s.len() == 0 {
        assert(all[0] == '"');
        assert(all.skip(1) =~= rest);
        assert(s =~= Seq::<char>::empty());
    } else {
        let tail = s.drop_first();
        lemma_escaped_front(s);
        lemma_read_string(tail, rest);
        lemma_read_one(s[0], escaped(tail) + seq!['"'] + rest);
        assert(all =~= escape(s[0]) + (escaped(tail) + seq!['"'] + rest));
        assert(seq![s[0]] + tail =~= s);
    }
}

/// The text begins with no digit.
pub open spec fn no_digit(rest: Seq<char>) -> bool {
    rest.len() == 0 || digit_value(rest[0]) is None
}

proof fn lemma_digit(d: nat)
    requires
        d < 10,
    ensures
        digit_value(digit(d)) == Some(d),
{
}

/// The number whose digits are those of `high` and then those of `n`.
pub open spec fn shifted(high: nat, n: nat) -> nat
    decreases n,
{
    if n < 10 {
        high * 10 + n
    } else {
        shifted(high, n / 10) * 10 + n % 10
    }
}

proof fn lemma_shifted(n: nat)
    ensures
        shifted(0, n) == n,
    decreases n,
{
    if n >= 10 {
        lemma_shifted(n / 10);
    }
}

proof fn lemma_read_digits(high: nat, n: nat, rest: Seq<char>)
    ensures
        read_digits(high, decimal(n) + rest) == read_digits(shifted(high, n), rest),
    decreases n,
{
    if n < 10 {
        lemma_digit(n);
        assert((decimal(n) + rest)[0] == digit(n));
        assert((decimal(n) + rest).skip(1) =~= rest);
    } else {
        let last = seq![digit(n % 10)];
        assert(decimal(n) + rest =~= decimal(n / 10) + (last + rest));
        lemma_read_digits(high, n / 10, last + rest);
        lemma_digit(n % 10);
        assert((last + rest)[0] == digit(n % 10));
        assert((last + rest).skip(1) =~= rest);
    }
}

proof fn lemma_decimal_front(n: nat)
    ensures
        decimal(n).len() > 0,
        digit_value(decimal(n)[0]) is Some,
        !is_space(decimal(n)[0]),
        decimal(n)[0] != '"',
    decreases n,
{
    if n < 10 {
        lemma_digit(n);
    } else {
        lemma_decimal_front(n / 10);
        assert(decimal(n)[0] == decimal(n / 10)[0]);
    }
}

// ── values ───────────────────────────────────────────────────────────────
proof fn lemma_text_value(space: Seq<char>, s: Seq<char>, rest: Seq<char>)
    requires
        all_space(space),
    ensures
        read_value(space + seq!['"'] + escaped(s) + seq!['"'] + rest) == Some((Js::Text(s), rest)),
{
    let inside = escaped(s) + seq!['"'] + rest;
    let t = seq!['"'] + inside;
    assert(space + seq!['"'] + escaped(s) + seq!['"'] + rest =~= space + t);
    lemma_behind_space(space, t);
    assert(t.skip(1) =~= inside);
    lemma_read_string(s, rest);
}

proof fn lemma_number_value(space: Seq<char>, n: nat, rest: Seq<char>)
    requires
        all_space(space),
        no_digit(rest),
    ensures
        read_value(space + decimal(n) + rest) == Some((Js::Num(n as int), rest)),
{
    let t = decimal(n) + rest;
    lemma_decimal_front(n);
    assert(t[0] == decimal(n)[0]);
    assert(space + decimal(n) + rest =~= space + t);
    lemma_behind_space(space, t);
    lemma_read_digits(0, n, rest);
    lemma_shifted(n);
}

/// The word of a value that has one.
pub open spec fn word_of(v: Js) -> Seq<char> {
    match v {
        Js::Bool(true) => "true"@,
        Js::Bool(false) => "false"@,
        _ => "null"@,
    }
}

proof fn lemma_word_value(space: Seq<char>, v: Js, rest: Seq<char>)
    requires
        all_space(space),
        v is Bool || v is Null,
    ensures
        read_value(space + word_of(v) + rest) == Some((v, rest)),
{
    reveal_strlit("true");
    reveal_strlit("false");
    reveal_strlit("null");
    let w = word_of(v);
    let t = w + rest;
    assert(t[0] == w[0]);
    assert(space + w + rest =~= space + t);
    lemma_behind_space(space, t);
    assert(t.take(w.len() as int) =~= w);
    assert(t.skip(w.len() as int) =~= rest);
    assert(t.len() >= 4 ==> t.take(4)[0] == t[0]);
    assert(t.len() >= 5 ==> t.take(5)[0] == t[0]);
}

/// What follows a member whose value was read.
pub open spec fn member_then(key: Seq<char>, value: Option<(Js, Seq<char>)>) -> Option<
    (Seq<(Seq<char>, Js)>, Seq<char>),
> {
    match value {
        None => None,
        Some((v, rest)) => {
            let t = behind_space(rest);
            if t.len() == 0 {
                None
            } else if t[0] == '}' {
                Some((seq![(key, v)], t.skip(1)))
            } else if t[0] == ',' {
                match read_members(t.skip(1)) {
                    None => None,
                    Some((list, rest)) => Some((seq![(key, v)] + list, rest)),
                }
            } else {
                None
            }
        },
    }
}

proof fn lemma_behind_len(s: Seq<char>)
    ensures
        behind_space(s).len() <= s.len(),
    decreases s.len(),
{
    if s.len() > 0 && is_space(s[0]) {
        lemma_behind_len(s.skip(1));
    }
}

/// A member is read as its key and its value, and then what follows.
proof fn lemma_member(space: Seq<char>, key: Seq<char>, value: Seq<char>)
    requires
        all_space(space),
        read_value(value) matches Some((v, rest)) && rest.len() <= value.len(),
    ensures
        read_members(space + seq!['"'] + escaped(key) + seq!['"', ':'] + value) == member_then(
            key,
            read_value(value),
        ),
{
    let s = space + seq!['"'] + escaped(key) + seq!['"', ':'] + value;
    let colon = seq![':'] + value;
    let inside = escaped(key) + seq!['"'] + colon;
    let t = seq!['"'] + inside;
    assert(s =~= space + t);
    lemma_behind_space(space, t);
    assert(t.skip(1) =~= inside);
    lemma_read_string(key, colon);
    lemma_behind_space(Seq::empty(), colon);
    assert(Seq::<char>::empty() + colon =~= colon);
    assert(colon.skip(1) =~= value);
    let (_, rest) = read_value(value)->0;
    lemma_behind_len(rest);
}

/// The text begins with this value, and this is behind it.
#[verifier::opaque]
pub open spec fn gives_value(s: Seq<char>, v: Js, rest: Seq<char>) -> bool {
    read_value(s) == Some((v, rest))
}

/// The text begins with these members, and this is behind the object.
#[verifier::opaque]
pub open spec fn gives_members(s: Seq<char>, list: Seq<(Seq<char>, Js)>, rest: Seq<char>) -> bool {
    read_members(s) == Some((list, rest))
}

/// A member in front of its value.
pub open spec fn member_text(space: Seq<char>, key: Seq<char>, value: Seq<char>) -> Seq<char> {
    space + seq!['"'] + escaped(key) + seq!['"', ':'] + value
}

/// A member with others behind it.
proof fn lemma_next(
    space: Seq<char>,
    key: Seq<char>,
    value: Seq<char>,
    v: Js,
    next: Seq<char>,
    list: Seq<(Seq<char>, Js)>,
    rest: Seq<char>,
)
    requires
        all_space(space),
        gives_value(value, v, seq![','] + next),
        next.len() < value.len(),
        gives_members(next, list, rest),
    ensures
        gives_members(member_text(space, key, value), seq![(key, v)] + list, rest),
{
    reveal(gives_value);
    reveal(gives_members);
    lemma_member(space, key, value);
    lemma_comma(next);
}

/// The last member.
proof fn lemma_last(
    space: Seq<char>,
    key: Seq<char>,
    value: Seq<char>,
    v: Js,
    gap: Seq<char>,
    rest: Seq<char>,
)
    requires
        all_space(space),
        all_space(gap),
        gives_value(value, v, gap + seq!['}'] + rest),
        gap.len() + 1 + rest.len() <= value.len(),
    ensures
        gives_members(member_text(space, key, value), seq![(key, v)], rest),
{
    reveal(gives_value);
    reveal(gives_members);
    let brace = seq!['}'] + rest;
    assert(gap + seq!['}'] + rest =~= gap + brace);
    lemma_member(space, key, value);
    lemma_behind_space(gap, brace);
    assert(brace.skip(1) =~= rest);
}

/// An object of members.
proof fn lemma_object(
    space: Seq<char>,
    gap: Seq<char>,
    key: Seq<char>,
    value: Seq<char>,
    list: Seq<(Seq<char>, Js)>,
    rest: Seq<char>,
)
    requires
        all_space(space),
        all_space(gap),
        gives_members(member_text(gap, key, value), list, rest),
    ensures
        gives_value(space + seq!['{'] + member_text(gap, key, value), Js::Object(list), rest),
{
    reveal(gives_value);
    reveal(gives_members);
    let inside = member_text(gap, key, value);
    let t = seq!['{'] + inside;
    assert(space + seq!['{'] + inside =~= space + t);
    lemma_behind_space(space, t);
    assert(t.skip(1) =~= inside);
    lemma_starts(t);
    let quoted = seq!['"'] + escaped(key) + seq!['"', ':'] + value;
    assert(inside =~= gap + quoted);
    lemma_behind_space(gap, quoted);
}

proof fn lemma_gives_text(space: Seq<char>, s: Seq<char>, rest: Seq<char>)
    requires
        all_space(space),
    ensures
        gives_value(space + seq!['"'] + escaped(s) + seq!['"'] + rest, Js::Text(s), rest),
{
    reveal(gives_value);
    lemma_text_value(space, s, rest);
}

proof fn lemma_gives_number(space: Seq<char>, n: nat, rest: Seq<char>)
    requires
        all_space(space),
        no_digit(rest),
    ensures
        gives_value(space + decimal(n) + rest, Js::Num(n as int), rest),
{
    reveal(gives_value);
    lemma_number_value(space, n, rest);
}

proof fn lemma_gives_word(space: Seq<char>, v: Js, rest: Seq<char>)
    requires
        all_space(space),
        v is Bool || v is Null,
    ensures
        gives_value(space + word_of(v) + rest, v, rest),
{
    reveal(gives_value);
    lemma_word_value(space, v, rest);
}

// ── the manifest ─────────────────────────────────────────────────────────
/// A text that stands inside a JSON string as it is.
pub open spec fn plain_text(s: Seq<char>) -> bool {
    escaped(s) == s
}

proof fn lemma_plain(s: Seq<char>)
    requires
        forall|i: int|
            0 <= i < s.len() ==> (#[trigger] s[i]) != '"' && s[i] != '\\' && (s[i] as u32) >= 0x20,
    ensures
        plain_text(s),
    decreases s.len(),
{
    if s.len() > 0 {
        lemma_plain(s.drop_last());
        assert(s.drop_last() + seq![s.last()] =~= s);
        assert(escape(s.last()) == seq![s.last()]);
    } else {
        assert(escaped(s) =~= s);
    }
}

proof fn lemma_keys()
    ensures
        plain_text("file"@),
        plain_text("type"@),
        plain_text("pure"@),
        plain_text("effect_count"@),
        plain_text("categories"@),
        plain_text("effects"@),
        plain_text("label"@),
        plain_text("category"@),
        plain_text("layer"@),
{
    reveal_strlit("file");
    reveal_strlit("type");
    reveal_strlit("pure");
    reveal_strlit("effect_count");
    reveal_strlit("categories");
    reveal_strlit("effects");
    reveal_strlit("label");
    reveal_strlit("category");
    reveal_strlit("layer");
    lemma_plain("file"@);
    lemma_plain("type"@);
    lemma_plain("pure"@);
    lemma_plain("effect_count"@);
    lemma_plain("categories"@);
    lemma_plain("effects"@);
    lemma_plain("label"@);
    lemma_plain("category"@);
    lemma_plain("layer"@);
}

proof fn lemma_joined_front(list: Seq<Seq<char>>, sep: Seq<char>)
    requires
        list.len() > 1,
    ensures
        joined(list, sep) == list[0] + sep + joined(list.drop_first(), sep),
    decreases list.len(),
{
    let front = list.drop_last();
    assert(list.drop_first().last() == list.last());
    if list.len() == 2 {
        assert(joined(front, sep) == list[0]);
        assert(joined(list.drop_first(), sep) == list[1]);
        assert(joined(list, sep) =~= list[0] + sep + joined(list.drop_first(), sep));
    } else {
        lemma_joined_front(front, sep);
        assert(front.drop_first() =~= list.drop_first().drop_last());
        assert(front[0] == list[0]);
        assert(joined(list, sep) =~= list[0] + sep + joined(list.drop_first(), sep));
    }
}

/// The categories, each with how many effects it has.
pub open spec fn counts(list: Seq<(Seq<char>, Seq<int>)>) -> Seq<(Seq<char>, Js)> {
    Seq::new(list.len(), |i: int| (list[i].0, Js::Num(list[i].1.len() as int)))
}

/// The categories stand inside JSON strings as they are.
pub open spec fn plain_groups(list: Seq<(Seq<char>, Seq<int>)>) -> bool {
    forall|i: int| 0 <= i < list.len() ==> plain_text((#[trigger] list[i]).0)
}

#[verifier::rlimit(40)]
proof fn lemma_counts(space: Seq<char>, list: Seq<(Seq<char>, Seq<int>)>, rest: Seq<char>)
    requires
        all_space(space),
        list.len() > 0,
        plain_groups(list),
    ensures
        read_members(space + joined(tallies(list, "\""@, ": "@), ", "@) + " }"@ + rest) == Some(
            (counts(list), rest),
        ),
    decreases list.len(),
{
    reveal_strlit("\"");
    reveal_strlit(": ");
    reveal_strlit(", ");
    reveal_strlit(" }");
    let all = tallies(list, "\""@, ": "@);
    let (name, members) = list[0];
    assert(plain_text(list[0].0));
    let n = decimal(members.len());
    let quoted = seq!['"'] + escaped(name) + seq!['"', ':'];
    assert(all[0] =~= quoted + seq![' '] + n);
    if list.len() == 1 {
        let tail = " }"@ + rest;
        let value = seq![' '] + n + tail;
        assert(joined(all, ", "@) == all[0]);
        assert(space + all[0] + " }"@ + rest =~= space + seq!['"'] + escaped(name) + seq!['"', ':']
            + value);
        lemma_number_value(seq![' '], members.len(), tail);
        lemma_member(space, name, value);
        lemma_behind_space(seq![' '], seq!['}'] + rest);
        assert(tail =~= seq![' '] + (seq!['}'] + rest));
        assert((seq!['}'] + rest).skip(1) =~= rest);
        assert(counts(list) =~= seq![(name, Js::Num(members.len() as int))]);
    } else {
        let more = list.drop_first();
        let others = joined(all.drop_first(), ", "@);
        assert(all.drop_first() =~= tallies(more, "\""@, ": "@));
        lemma_joined_front(all, ", "@);
        let next = seq![' '] + others + " }"@ + rest;
        let tail = seq![','] + next;
        let value = seq![' '] + n + tail;
        assert(space + joined(all, ", "@) + " }"@ + rest =~= space + seq!['"'] + escaped(name)
            + seq!['"', ':'] + value);
        lemma_number_value(seq![' '], members.len(), tail);
        lemma_member(space, name, value);
        lemma_behind_space(Seq::empty(), tail);
        assert(Seq::<char>::empty() + tail =~= tail);
        assert(tail.skip(1) =~= next);
        assert forall|i: int| 0 <= i < more.len() implies plain_text((#[trigger] more[i]).0) by {
            assert(more[i] == list[i + 1]);
        }
        lemma_counts(seq![' '], more, rest);
        assert(counts(list) =~= seq![(name, Js::Num(members.len() as int))] + counts(more));
    }
}

/// What one effect is read as.
pub open spec fn effect_value(e: Effect) -> Js {
    Js::Object(effect_members(e))
}

/// The text of an effect up to its end.
pub open spec fn effect_body(e: Effect) -> Seq<char> {
    "{ \"label\": \""@ + escaped(e.label@) + "\", \"category\": \""@ + e.category@
        + "\", \"layer\": "@ + layer_json(e.layer) + " }"@
}

/// The members of an effect.
pub open spec fn effect_members(e: Effect) -> Seq<(Seq<char>, Js)> {
    seq![
        ("label"@, Js::Text(e.label@)),
        ("category"@, Js::Text(e.category@)),
        (
            "layer"@,
            match e.layer {
                Some(n) => Js::Num(n as int),
                None => Js::Null,
            },
        ),
    ]
}

proof fn lemma_effect(space: Seq<char>, e: Effect, rest: Seq<char>)
    requires
        all_space(space),
        plain_text(e.category@),
    ensures
        read_value(space + effect_body(e) + rest) == Some((Js::Object(effect_members(e)), rest)),
{
    let sp = seq![' '];
    let q = seq!['"'];
    let layer = effect_members(e)[2].1;
    let end = sp + seq!['}'] + rest;
    let v3 = sp + layer_json(e.layer) + end;
    match e.layer {
        Some(n) => lemma_gives_number(sp, n as nat, end),
        None => lemma_gives_word(sp, Js::Null, end),
    }
    let m3 = member_text(sp, "layer"@, v3);
    lemma_last(sp, "layer"@, v3, layer, sp, rest);
    let t2 = seq![','] + m3;
    let v2 = sp + q + escaped(e.category@) + q + t2;
    lemma_gives_text(sp, e.category@, t2);
    let m2 = member_text(sp, "category"@, v2);
    let list3 = seq![("layer"@, layer)];
    lemma_next(sp, "category"@, v2, Js::Text(e.category@), m3, list3, rest);
    let t1 = seq![','] + m2;
    let v1 = sp + q + escaped(e.label@) + q + t1;
    lemma_gives_text(sp, e.label@, t1);
    let m1 = member_text(sp, "label"@, v1);
    let list2 = seq![("category"@, Js::Text(e.category@))] + list3;
    lemma_next(sp, "label"@, v1, Js::Text(e.label@), m2, list2, rest);
    let list1 = seq![("label"@, Js::Text(e.label@))] + list2;
    lemma_object(space, sp, "label"@, v1, list1, rest);
    assert(list1 =~= effect_members(e));
    lemma_effect_text(e, rest);
    assert(space + effect_body(e) + rest =~= space + seq!['{'] + m1) by {
        assert(effect_body(e) + rest == seq!['{'] + m1);
        assert(space + effect_body(e) + rest =~= space + (effect_body(e) + rest));
        assert(space + seq!['{'] + m1 =~= space + (seq!['{'] + m1));
    }
    reveal(gives_value);
}

proof fn lemma_effect_text(e: Effect, rest: Seq<char>)
    requires
        plain_text(e.category@),
    ensures
        ({
            let sp = seq![' '];
            let q = seq!['"'];
            let v3 = sp + layer_json(e.layer) + (sp + seq!['}'] + rest);
            let m3 = member_text(sp, "layer"@, v3);
            let v2 = sp + q + escaped(e.category@) + q + (seq![','] + m3);
            let m2 = member_text(sp, "category"@, v2);
            let v1 = sp + q + escaped(e.label@) + q + (seq![','] + m2);
            effect_body(e) + rest == seq!['{'] + member_text(sp, "label"@, v1)
        }),
{
    reveal_strlit("{ \"label\": \"");
    reveal_strlit("\", \"category\": \"");
    reveal_strlit("\", \"layer\": ");
    reveal_strlit(" }");
    reveal_strlit("label");
    reveal_strlit("category");
    reveal_strlit("layer");
    lemma_keys();
    let sp = seq![' '];
    let q = seq!['"'];
    let qc = seq!['"', ':'];
    let comma = seq![','];
    let v3 = sp + layer_json(e.layer) + (sp + seq!['}'] + rest);
    let m3 = member_text(sp, "layer"@, v3);
    let v2 = sp + q + escaped(e.category@) + q + (comma + m3);
    let m2 = member_text(sp, "category"@, v2);
    let v1 = sp + q + escaped(e.label@) + q + (comma + m2);
    let x3 = "\", \"layer\": "@ + layer_json(e.layer) + " }"@ + rest;
    assert(x3 =~= q + (comma + m3)) by {
        assert("\", \"layer\": "@ =~= q + comma + (sp + q + "layer"@ + qc + sp));
        assert(" }"@ =~= sp + seq!['}']);
    }
    let x2 = "\", \"category\": \""@ + e.category@ + x3;
    assert(x2 =~= q + (comma + m2)) by {
        assert("\", \"category\": \""@ =~= q + comma + (sp + q + "category"@ + qc + sp + q));
    }
    let x1 = "{ \"label\": \""@ + escaped(e.label@) + x2;
    assert(x1 =~= seq!['{'] + member_text(sp, "label"@, v1)) by {
        assert("{ \"label\": \""@ =~= seq!['{'] + (sp + q + "label"@ + qc + sp + q));
    }
    assert(effect_body(e) + rest =~= x1);
}

proof fn lemma_starts(t: Seq<char>)
    requires
        t.len() > 0,
        t[0] == '{' || t[0] == '[',
    ensures
        !starts(t, "true"@),
        !starts(t, "false"@),
        !starts(t, "null"@),
{
    reveal_strlit("true");
    reveal_strlit("false");
    reveal_strlit("null");
    assert(t.len() >= 4 ==> t.take(4)[0] == t[0]);
    assert(t.len() >= 5 ==> t.take(5)[0] == t[0]);
}

/// The text of the effects from position `i` on.
pub open spec fn effects_from(effects: Seq<Effect>, i: nat) -> Seq<char>
    decreases effects.len() - i,
{
    if i >= effects.len() {
        Seq::empty()
    } else {
        effect_json(effects[i as int], i + 1 == effects.len()) + effects_from(effects, i + 1)
    }
}

proof fn lemma_effects_from(effects: Seq<Effect>, i: nat)
    requires
        i <= effects.len(),
    ensures
        effects_array(effects, i) + effects_from(effects, i) == effects_array(
            effects,
            effects.len(),
        ),
    decreases effects.len() - i,
{
    if i < effects.len() {
        lemma_effects_from(effects, i + 1);
        assert(effects_array(effects, i) + effects_from(effects, i) =~= effects_array(
            effects,
            i + 1,
        ) + effects_from(effects, i + 1));
    } else {
        assert(effects_array(effects, i) + effects_from(effects, i) =~= effects_array(effects, i));
    }
}

/// What the effects from position `i` on are read as.
pub open spec fn effect_values(effects: Seq<Effect>, i: nat) -> Seq<Js> {
    Seq::new((effects.len() - i) as nat, |k: int| effect_value(effects[i + k]))
}

/// The categories of effects stand inside JSON strings as they are.
pub open spec fn plain_effects(effects: Seq<Effect>) -> bool {
    forall|i: int| 0 <= i < effects.len() ==> plain_text((#[trigger] effects[i]).category@)
}

#[verifier::rlimit(40)]
proof fn lemma_items(space: Seq<char>, effects: Seq<Effect>, i: nat, rest: Seq<char>)
    requires
        all_space(space),
        i < effects.len(),
        plain_effects(effects),
    ensures
        read_items(space + effects_from(effects, i) + "  ]"@ + rest) == Some(
            (effect_values(effects, i), rest),
        ),
    decreases effects.len() - i,
{
    reveal_strlit("    { \"label\": \"");
    reveal_strlit("{ \"label\": \"");
    reveal_strlit("  ]");
    reveal_strlit("\n");
    reveal_strlit("");
    reveal_strlit(",");
    reveal_strlit("    ");
    let e = effects[i as int];
    let body = effect_body(e);
    let close = "  ]"@ + rest;
    let indent = space + "    "@;
    assert(all_space(indent));
    assert("    { \"label\": \""@ =~= "    "@ + "{ \"label\": \""@);
    if i + 1 == effects.len() {
        let tail = "\n"@ + close;
        assert(effects_from(effects, i + 1) =~= Seq::<char>::empty());
        assert(space + effects_from(effects, i) + "  ]"@ + rest =~= indent + body + tail);
        lemma_effect(indent, e, tail);
        let bracket = seq![']'] + rest;
        let gap = seq!['\n', ' ', ' '];
        assert(tail =~= gap + bracket);
        lemma_behind_space(gap, bracket);
        assert(bracket.skip(1) =~= rest);
        assert(effect_values(effects, i) =~= seq![effect_value(e)]);
    } else {
        let next = "\n"@ + effects_from(effects, i + 1) + "  ]"@ + rest;
        let tail = seq![','] + next;
        assert(space + effects_from(effects, i) + "  ]"@ + rest =~= indent + body + tail);
        lemma_effect(indent, e, tail);
        lemma_behind_space(Seq::empty(), tail);
        assert(Seq::<char>::empty() + tail =~= tail);
        assert(tail.skip(1) =~= next);
        lemma_items("\n"@, effects, i + 1, rest);
        assert(effect_values(effects, i) =~= seq![effect_value(e)] + effect_values(
            effects,
            i + 1,
        ));
    }
}

/// The list of the effects, with the space in front of it.
proof fn lemma_effects_value(effects: Seq<Effect>, rest: Seq<char>)
    requires
        plain_effects(effects),
    ensures
        gives_value(" [\n"@ + effects_array(effects, effects.len()) + "  ]"@ + rest, Js::List(effect_values(effects, 0)), rest),
{
    reveal(gives_value);
    reveal_strlit(" [\n");
    reveal_strlit("  ]");
    reveal_strlit("\n");
    let list = effects_array(effects, effects.len());
    lemma_effects_from(effects, 0);
    assert(effects_array(effects, 0) + effects_from(effects, 0) =~= effects_from(effects, 0));
    let inside = "\n"@ + list + "  ]"@ + rest;
    let t = seq!['['] + inside;
    assert(" [\n"@ + list + "  ]"@ + rest =~= seq![' '] + t);
    lemma_behind_space(seq![' '], t);
    assert(t.skip(1) =~= inside);
    lemma_starts(t);
    if effects.len() == 0 {
        let gap = seq!['\n', ' ', ' '];
        let bracket = seq![']'] + rest;
        assert(list =~= Seq::<char>::empty());
        assert(inside =~= gap + bracket);
        lemma_behind_space(gap, bracket);
        assert(bracket.skip(1) =~= rest);
        assert(effect_values(effects, 0) =~= Seq::<Js>::empty());
    } else {
        lemma_items("\n"@, effects, 0, rest);
        lemma_inside(effects, rest);
    }
}

/// A list of effects begins with none of its ends.
proof fn lemma_inside(effects: Seq<Effect>, rest: Seq<char>)
    requires
        effects.len() > 0,
    ensures
        behind_space("\n"@ + effects_array(effects, effects.len()) + "  ]"@ + rest).len() > 0,
        behind_space("\n"@ + effects_array(effects, effects.len()) + "  ]"@ + rest)[0] == '{',
{
    reveal_strlit("\n");
    reveal_strlit("    { \"label\": \"");
    reveal_strlit("{ \"label\": \"");
    lemma_effects_from(effects, 0);
    assert(effects_array(effects, 0) + effects_from(effects, 0) =~= effects_from(effects, 0));
    let gap = seq!['\n', ' ', ' ', ' ', ' '];
    let all = "\n"@ + effects_array(effects, effects.len()) + "  ]"@ + rest;
    let list = effects_from(effects, 0);
    let e = effects[0];
    let json = effect_json(e, 1 == effects.len());
    assert(list == json + effects_from(effects, 1));
    assert(json.len() >= 6 && json.take(4) =~= seq![' ', ' ', ' ', ' '] && json[4] == '{');
    let tail = all.skip(5);
    assert(all =~= gap + tail);
    assert(tail[0] == '{');
    lemma_behind_space(gap, tail);
}

/// What the categories are read as, with the space in front of them.
proof fn lemma_categories_value(list: Seq<(Seq<char>, Seq<int>)>, rest: Seq<char>)
    requires
        plain_groups(list),
    ensures
        gives_value(" { "@ + joined(tallies(list, "\""@, ": "@), ", "@) + " }"@ + rest, Js::Object(counts(list)), rest),
{
    reveal(gives_value);
    reveal_strlit(" { ");
    reveal_strlit(" }");
    reveal_strlit("\"");
    reveal_strlit(": ");
    reveal_strlit(", ");
    let all = tallies(list, "\""@, ": "@);
    let inside = seq![' '] + joined(all, ", "@) + " }"@ + rest;
    let t = seq!['{'] + inside;
    assert(" { "@ + joined(all, ", "@) + " }"@ + rest =~= seq![' '] + t);
    lemma_behind_space(seq![' '], t);
    assert(t.skip(1) =~= inside);
    lemma_starts(t);
    if list.len() == 0 {
        let gap = seq![' ', ' '];
        let brace = seq!['}'] + rest;
        assert(joined(all, ", "@) =~= Seq::<char>::empty());
        assert(inside =~= gap + brace);
        lemma_behind_space(gap, brace);
        assert(brace.skip(1) =~= rest);
        assert(counts(list) =~= Seq::<(Seq<char>, Js)>::empty());
    } else {
        lemma_counts(seq![' '], list, rest);
        let tail = inside.skip(1);
        assert(joined(all, ", "@).len() > 0 && joined(all, ", "@)[0] == '"') by {
            assert(all[0][0] == '"');
            if list.len() > 1 {
                lemma_joined_front(all, ", "@);
            }
        }
        assert(inside =~= seq![' '] + tail);
        assert(tail[0] == '"');
        lemma_behind_space(seq![' '], tail);
    }
}

/// Read back as JSON, the manifest for machines is an object that names the file and the
/// type, says that the program is pure just when it has no effect, counts its effects,
/// counts those of each category, and lists them in their order, each with its label, its
/// category and its layer. The names of categories are written as they are, so they are
/// meant without quotes, backslashes and control characters.
#[verifier::rlimit(90)]
#[verifier::spinoff_prover]
pub proof fn a_manifest_says_what_the_effects_are(
    file: Seq<char>,
    ty: Seq<char>,
    effects: Seq<Effect>,
    order: Seq<String>,
)
    requires
        plain_effects(effects),
        forall|i: int| 0 <= i < order.len() ==> plain_text((#[trigger] order[i])@),
    ensures
        read_json(json_manifest(file, ty, effects, order)) == Some(
            Js::Object(
                seq![
                    ("file"@, Js::Text(file)),
                    ("type"@, Js::Text(ty)),
                    ("pure"@, Js::Bool(effects.len() == 0)),
                    ("effect_count"@, Js::Num(effects.len() as int)),
                    ("categories"@, Js::Object(counts(grouping(effects, order, order.len())))),
                    ("effects"@, Js::List(effect_values(effects, 0))),
                ],
            ),
        ),
{
    let groups = grouping(effects, order, order.len());
    lemma_plain_groups(effects, order, order.len());
    let sp = seq![' '];
    let q = seq!['"'];
    let comma = seq![','];
    let pure = Js::Bool(effects.len() == 0);
    let nl = seq!['\n', ' ', ' '];
    let list = effects_array(effects, effects.len());
    let tally = joined(tallies(groups, "\""@, ": "@), ", "@);
    let close = seq!['\n'] + seq!['}'] + seq!['\n'];
    let values = Js::List(effect_values(effects, 0));
    let v6 = " [\n"@ + list + "  ]"@ + close;
    lemma_effects_value(effects, close);
    let m6 = member_text(nl, "effects"@, v6);
    lemma_last(nl, "effects"@, v6, values, seq!['\n'], seq!['\n']);
    let list6 = seq![("effects"@, values)];
    let v5 = " { "@ + tally + " }"@ + (comma + m6);
    lemma_categories_value(groups, comma + m6);
    let m5 = member_text(nl, "categories"@, v5);
    lemma_some_text();
    lemma_next(nl, "categories"@, v5, Js::Object(counts(groups)), m6, list6, seq!['\n']);
    let list5 = seq![("categories"@, Js::Object(counts(groups)))] + list6;
    let v4 = sp + decimal(effects.len()) + (comma + m5);
    lemma_gives_number(sp, effects.len(), comma + m5);
    let m4 = member_text(nl, "effect_count"@, v4);
    lemma_next(
        nl,
        "effect_count"@,
        v4,
        Js::Num(effects.len() as int),
        m5,
        list5,
        seq!['\n'],
    );
    let list4 = seq![("effect_count"@, Js::Num(effects.len() as int))] + list5;
    let v3 = sp + word_of(pure) + (comma + m4);
    lemma_gives_word(sp, pure, comma + m4);
    let m3 = member_text(nl, "pure"@, v3);
    lemma_next(nl, "pure"@, v3, pure, m4, list4, seq!['\n']);
    let list3 = seq![("pure"@, pure)] + list4;
    let v2 = sp + q + escaped(ty) + q + (comma + m3);
    lemma_gives_text(sp, ty, comma + m3);
    let m2 = member_text(nl, "type"@, v2);
    lemma_next(nl, "type"@, v2, Js::Text(ty), m3, list3, seq!['\n']);
    let list2 = seq![("type"@, Js::Text(ty))] + list3;
    let v1 = sp + q + escaped(file) + q + (comma + m2);
    lemma_gives_text(sp, file, comma + m2);
    let m1 = member_text(nl, "file"@, v1);
    lemma_next(nl, "file"@, v1, Js::Text(file), m2, list2, seq!['\n']);
    let list1 = seq![("file"@, Js::Text(file))] + list2;
    lemma_object(Seq::empty(), nl, "file"@, v1, list1, seq!['\n']);
    lemma_manifest_text(file, ty, effects, groups, word_of(pure));
    assert(json_manifest(file, ty, effects, order) == seq!['{'] + m1);
    assert(Seq::<char>::empty() + seq!['{'] + m1 =~= seq!['{'] + m1);
    lemma_all_read(seq!['{'] + m1, Js::Object(list1));
    assert(list1 =~= seq![
        ("file"@, Js::Text(file)),
        ("type"@, Js::Text(ty)),
        ("pure"@, Js::Bool(effects.len() == 0)),
        ("effect_count"@, Js::Num(effects.len() as int)),
        ("categories"@, Js::Object(counts(groups))),
        ("effects"@, Js::List(effect_values(effects, 0))),
    ]);
}

proof fn lemma_some_text()
    ensures
        " { "@.len() > 0,
        " [\n"@.len() > 0,
        "  ]"@.len() > 0,
{
    reveal_strlit(" { ");
    reveal_strlit(" [\n");
    reveal_strlit("  ]");
}

/// A text with nothing but the end of a line behind its value.
proof fn lemma_all_read(s: Seq<char>, v: Js)
    requires
        gives_value(s, v, seq!['\n']),
    ensures
        read_json(s) == Some(v),
{
    reveal(gives_value);
    let none = Seq::<char>::empty();
    lemma_behind_space(seq!['\n'], none);
    assert(seq!['\n'] + none =~= seq!['\n']);
}

proof fn lemma_comma(next: Seq<char>)
    ensures
        behind_space(seq![','] + next) == seq![','] + next,
        (seq![','] + next).skip(1) == next,
{
    let all = seq![','] + next;
    lemma_behind_space(Seq::empty(), all);
    assert(Seq::<char>::empty() + all =~= all);
    assert(all.skip(1) =~= next);
}

proof fn lemma_plain_groups(effects: Seq<Effect>, order: Seq<String>, n: nat)
    requires
        forall|i: int| 0 <= i < order.len() ==> plain_text((#[trigger] order[i])@),
    ensures
        plain_groups(grouping(effects, order, n)),
    decreases n,
{
    if n != 0 && n <= order.len() {
        lemma_plain_groups(effects, order, (n - 1) as nat);
        assert(plain_text(order[n - 1]@));
    }
}

/// The text of the manifest is made of its members.
#[verifier::rlimit(60)]
proof fn lemma_manifest_text(
    file: Seq<char>,
    ty: Seq<char>,
    effects: Seq<Effect>,
    groups: Seq<(Seq<char>, Seq<int>)>,
    word: Seq<char>,
)
    ensures
        ({
            let list = effects_array(effects, effects.len());
            let tally = joined(tallies(groups, "\""@, ": "@), ", "@);
            let comma = seq![','];
            let sp = seq![' '];
            let q = seq!['"'];
            let nl = seq!['\n', ' ', ' '];
            let m6 = member_text(nl, "effects"@, " [\n"@ + list + "  ]"@ + (seq!['\n'] + seq!['}'] + seq!['\n']));
            let m5 = member_text(nl, "categories"@, " { "@ + tally + " }"@ + (comma + m6));
            let m4 = member_text(nl, "effect_count"@, sp + decimal(effects.len()) + (comma + m5));
            let m3 = member_text(nl, "pure"@, sp + word + (comma + m4));
            let m2 = member_text(nl, "type"@, sp + q + escaped(ty) + q + (comma + m3));
            let m1 = member_text(nl, "file"@, sp + q + escaped(file) + q + (comma + m2));
            "{\n  \"file\": \""@ + escaped(file) + "\",\n  \"type\": \""@ + escaped(ty)
                + "\",\n  \"pure\": "@ + word + ",\n  \"effect_count\": "@ + decimal(effects.len())
                + ",\n  \"categories\": { "@ + tally + " },\n  \"effects\": [\n"@ + list
                + "  ]\n}\n"@ == seq!['{'] + m1
        }),
{
    reveal_strlit("{\n  \"file\": \"");
    reveal_strlit("\",\n  \"type\": \"");
    reveal_strlit("\",\n  \"pure\": ");
    reveal_strlit(",\n  \"effect_count\": ");
    reveal_strlit(",\n  \"categories\": { ");
    reveal_strlit(" },\n  \"effects\": [\n");
    reveal_strlit("  ]\n}\n");
    reveal_strlit("file");
    reveal_strlit("type");
    reveal_strlit("pure");
    reveal_strlit("effect_count");
    reveal_strlit("categories");
    reveal_strlit("effects");
    reveal_strlit(" { ");
    reveal_strlit(" }");
    reveal_strlit(" [\n");
    reveal_strlit("  ]");
    lemma_keys();
    let list = effects_array(effects, effects.len());
    let tally = joined(tallies(groups, "\""@, ": "@), ", "@);
    let comma = seq![','];
    let sp = seq![' '];
    let q = seq!['"'];
    let nl = seq!['\n', ' ', ' '];
    let qc = seq!['"', ':'];
    let close = seq!['\n'] + seq!['}'] + seq!['\n'];
    let n = decimal(effects.len());
    let m6 = member_text(nl, "effects"@, " [\n"@ + list + "  ]"@ + close);
    let m5 = member_text(nl, "categories"@, " { "@ + tally + " }"@ + (comma + m6));
    let m4 = member_text(nl, "effect_count"@, sp + n + (comma + m5));
    let m3 = member_text(nl, "pure"@, sp + word + (comma + m4));
    let m2 = member_text(nl, "type"@, sp + q + escaped(ty) + q + (comma + m3));
    let m1 = member_text(nl, "file"@, sp + q + escaped(file) + q + (comma + m2));
    let x6 = " },\n  \"effects\": [\n"@ + list + "  ]\n}\n"@;
    assert(x6 =~= " }"@ + (comma + m6)) by {
        assert(" },\n  \"effects\": [\n"@ =~= " }"@ + (comma + (nl + q + "effects"@ + qc + " [\n"@)));
        assert("  ]\n}\n"@ =~= "  ]"@ + close);
    }
    let x5 = ",\n  \"categories\": { "@ + tally + x6;
    assert(x5 =~= comma + m5) by {
        assert(",\n  \"categories\": { "@ =~= comma + (nl + q + "categories"@ + qc + " { "@));
    }
    let x4 = ",\n  \"effect_count\": "@ + n + x5;
    assert(x4 =~= comma + m4) by {
        assert(",\n  \"effect_count\": "@ =~= comma + (nl + q + "effect_count"@ + qc + sp));
    }
    let x3 = "\",\n  \"pure\": "@ + word + x4;
    assert(x3 =~= q + (comma + m3)) by {
        assert("\",\n  \"pure\": "@ =~= q + (comma + (nl + q + "pure"@ + qc + sp)));
    }
    let x2 = "\",\n  \"type\": \""@ + escaped(ty) + x3;
    assert(x2 =~= q + (comma + m2)) by {
        assert("\",\n  \"type\": \""@ =~= q + (comma + (nl + q + "type"@ + qc + sp + q)));
    }
    let x1 = "{\n  \"file\": \""@ + escaped(file) + x2;
    assert(x1 =~= seq!['{'] + m1) by {
        assert("{\n  \"file\": \""@ =~= seq!['{'] + (nl + q + "file"@ + qc + sp + q));
    }
    assert("{\n  \"file\": \""@ + escaped(file) + "\",\n  \"type\": \""@ + escaped(ty)
        + "\",\n  \"pure\": "@ + word + ",\n  \"effect_count\": "@ + n
        + ",\n  \"categories\": { "@ + tally + " },\n  \"effects\": [\n"@ + list + "  ]\n}\n"@
        =~= x1);
}

// ── categories ───────────────────────────────────────────────────────────
/// A category has just the effects that are of it, in their order.
pub proof fn a_category_has_just_its_effects(effects: Seq<Effect>, category: Seq<char>, n: nat)
    requires
        n <= effects.len(),
    ensures
        forall|i: int|
            #[trigger] of_category(effects, category, n).contains(i) <==> 0 <= i < n
                && effects[i].category@ == category,
        forall|a: int, b: int|
            0 <= a < b < of_category(effects, category, n).len() ==> of_category(
                effects,
                category,
                n,
            )[a] < of_category(effects, category, n)[b],
    decreases n,
{
    let list = of_category(effects, category, n);
    if n > 0 {
        let front = of_category(effects, category, (n - 1) as nat);
        a_category_has_just_its_effects(effects, category, (n - 1) as nat);
        if effects[n - 1].category@ == category {
            assert(list == front.push(n - 1));
            assert forall|i: int| #[trigger] list.contains(i) <==> 0 <= i < n && effects[i].category@
                == category by {
                if list.contains(i) {
                    let k = choose|k: int| 0 <= k < list.len() && list[k] == i;
                    if k < front.len() {
                        assert(front[k] == i);
                        assert(front.contains(i));
                    }
                }
                if 0 <= i < n && effects[i].category@ == category {
                    if i < n - 1 {
                        assert(front.contains(i));
                        let k = choose|k: int| 0 <= k < front.len() && front[k] == i;
                        assert(list[k] == i);
                    } else {
                        assert(list[front.len() as int] == i);
                    }
                }
            }
            assert forall|a: int, b: int| 0 <= a < b < list.len() implies list[a] < list[b] by {
                if b == front.len() {
                    assert(front.contains(front[a]));
                }
            }
        } else {
            assert(list == front);
        }
    }
}

/// The categories that are counted are those of the order that have an effect, each with
/// all its effects.
pub proof fn the_categories_counted_are_those_with_effects(
    effects: Seq<Effect>,
    order: Seq<String>,
    n: nat,
)
    requires
        n <= order.len(),
    ensures
        forall|k: int|
            0 <= k < n && (exists|i: int|
                0 <= i < effects.len() && (#[trigger] effects[i]).category@ == order[k]@)
                ==> exists|j: int|
                0 <= j < grouping(effects, order, n).len() && (#[trigger] grouping(
                    effects,
                    order,
                    n,
                )[j]).0 == (#[trigger] order[k])@,
        forall|j: int|
            0 <= j < grouping(effects, order, n).len() ==> (#[trigger] grouping(
                effects,
                order,
                n,
            )[j]).1.len() > 0 && grouping(effects, order, n)[j].1 == of_category(
                effects,
                grouping(effects, order, n)[j].0,
                effects.len(),
            ),
    decreases n,
{
    let list = grouping(effects, order, n);
    if n > 0 {
        let front = grouping(effects, order, (n - 1) as nat);
        let name = order[n - 1]@;
        let members = of_category(effects, name, effects.len());
        the_categories_counted_are_those_with_effects(effects, order, (n - 1) as nat);
        a_category_has_just_its_effects(effects, name, effects.len());
        assert forall|k: int|
            0 <= k < n && (exists|i: int|
                0 <= i < effects.len() && (#[trigger] effects[i]).category@ == order[k]@) implies exists|
            j: int,
        |
            0 <= j < list.len() && (#[trigger] list[j]).0 == (#[trigger] order[k])@ by {
            if k < n - 1 {
                let j = choose|j: int| 0 <= j < front.len() && (#[trigger] front[j]).0 == order[k]@;
                assert(list[j] == front[j]);
            } else {
                let i = choose|i: int|
                    0 <= i < effects.len() && (#[trigger] effects[i]).category@ == order[k]@;
                assert(members.contains(i));
                assert(members.len() > 0);
                assert(list[front.len() as int].0 == name);
            }
        }
    }
}

// ── numbers and the manifest for people ──────────────────────────────────
/// A number in decimal is read back.
pub proof fn a_decimal_number_is_read_back(n: nat)
    ensures
        read_digits(0, decimal(n)) == (n, Seq::<char>::empty()),
{
    lemma_read_digits(0, n, Seq::empty());
    lemma_shifted(n);
    assert(decimal(n) + Seq::<char>::empty() =~= decimal(n));
}

/// The number that hexadecimal digits stand for.
pub open spec fn hex_number(s: Seq<char>) -> nat
    decreases s.len(),
{
    if s.len() == 0 {
        0
    } else {
        hex_number(s.drop_last()) * 16 + hex_value(s.last())
    }
}

/// A hash that is printed is read back from its sixteen digits.
pub proof fn a_printed_hash_is_read_back(n: u64)
    ensures
        hash_text(n).len() == 18,
        hash_text(n)[0] == '0' && hash_text(n)[1] == 'x',
        hex_number(hash_text(n).skip(2)) == n,
{
    reveal_strlit("0x");
    let digits = hex(n as nat, 16);
    lemma_hex_number(n as nat, 16);
    assert(hash_text(n).skip(2) =~= digits);
    assert(power(16) == 0x1_0000_0000_0000_0000) by {
        reveal_with_fuel(power, 17);
    }
}

/// How many numbers so many hexadecimal digits have.
pub open spec fn power(width: nat) -> nat
    decreases width,
{
    if width == 0 {
        1
    } else {
        16 * power((width - 1) as nat)
    }
}

proof fn lemma_hex_number(n: nat, width: nat)
    requires
        n < power(width),
    ensures
        hex(n, width).len() == width,
        hex_number(hex(n, width)) == n,
    decreases width,
{
    if width > 0 {
        let high = hex(n / 16, (width - 1) as nat);
        lemma_hex_number(n / 16, (width - 1) as nat);
        assert(hex(n, width).drop_last() =~= high);
        assert(hex_value(hex_digit(n % 16)) == n % 16);
    }
}

/// A padded text is the text and then spaces, and no shorter than the width.
pub proof fn a_padded_text_begins_with_the_text(s: Seq<char>, width: nat)
    ensures
        padded(s, width).len() == (if s.len() < width {
            width
        } else {
            s.len()
        }),
        padded(s, width).take(s.len() as int) == s,
        forall|i: int| s.len() <= i < padded(s, width).len() ==> padded(s, width)[i] == ' ',
    decreases width - s.len(),
{
    if s.len() < width {
        let more = s.push(' ');
        a_padded_text_begins_with_the_text(more, width);
        let all = padded(s, width);
        assert(all.take(s.len() as int) =~= s) by {
            assert forall|i: int| 0 <= i < s.len() implies all[i] == s[i] by {
                assert(all.take(more.len() as int)[i] == more[i]);
            }
        }
        assert(all[s.len() as int] == all.take(more.len() as int)[s.len() as int]);
    } else {
        assert(padded(s, width).take(s.len() as int) =~= s);
    }
}

/// The manifest for people begins with the file and the type, and says right behind them
/// that the program has no effects just when it has none.
pub proof fn a_manifest_for_people_says_whether_there_are_effects(
    file: Seq<char>,
    ty: Seq<char>,
    effects: Seq<Effect>,
    order: Seq<String>,
)
    ensures
        ({
            let head = file + "\n  type    : "@ + ty + "\n"@;
            let all = human_manifest(file, ty, effects, order);
            &&& starts(all, head)
            &&& starts(all.skip(head.len() as int), "  effects : {}"@) <==> effects.len() == 0
        }),
{
    reveal_strlit("  effects : {}");
    reveal_strlit("  effects : {}  — pure (touches nothing outside itself)\n");
    reveal_strlit("  effects : { ");
    reveal_strlit("  effects : ");
    let head = file + "\n  type    : "@ + ty + "\n"@;
    let all = human_manifest(file, ty, effects, order);
    let tail = all.skip(head.len() as int);
    assert(all.take(head.len() as int) =~= head);
    let none = "  effects : {}"@;
    if effects.len() == 0 {
        assert(tail =~= "  effects : {}  — pure (touches nothing outside itself)\n"@);
        assert(tail.take(14) =~= none);
    } else {
        let list = grouping(effects, order, order.len());
        let line = summary(effects, list);
        assert(tail =~= line + legend(effects, list, list.len()));
        if effects.len() <= 8 {
            assert(tail[13] == ' ');
        } else {
            lemma_decimal_front(effects.len());
            assert(tail[12] == decimal(effects.len())[0]);
        }
        if starts(tail, none) {
            assert(tail.take(14)[12] == none[12]);
            assert(tail.take(14)[13] == none[13]);
        }
    }
}

} // verus!
