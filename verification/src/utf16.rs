//! UTF-16 code units of a string.
use crate::text::chars_of;
use vstd::prelude::*;

verus! {

/// The code units of one character: itself below 0x10000, else a surrogate pair.
pub open spec fn char_units(c: char) -> Seq<u16> {
    let n = c as u32;
    if n < 0x10000 {
        seq![n as u16]
    } else {
        seq![
            (0xd800 + (n - 0x10000) / 0x400) as u16,
            (0xdc00 + (n - 0x10000) % 0x400) as u16,
        ]
    }
}

/// The code units of the first `n` characters.
pub open spec fn units_of(s: Seq<char>, n: nat) -> Seq<u16>
    decreases n,
{
    if n == 0 || n > s.len() {
        Seq::empty()
    } else {
        units_of(s, (n - 1) as nat) + char_units(s[n - 1])
    }
}

/// The code units of a string.
pub open spec fn utf16(s: Seq<char>) -> Seq<u16> {
    units_of(s, s.len())
}

/// The code units of a string.
pub fn encode_utf16(s: &String) -> (r: Vec<u16>)
    ensures
        r@ == utf16(s@),
{
    let chars = chars_of(s);
    let n: usize = chars.len();
    let mut out: Vec<u16> = Vec::new();
    let mut i: usize = 0;
    while i < n
        invariant
            i <= n,
            n == chars.len(),
            chars@ == s@,
            out@ == units_of(s@, i as nat),
        decreases n - i,
    {
        let c: u32 = chars[i] as u32;
        if c < 0x10000 {
            out.push(c as u16);
        } else {
            let over: u32 = c - 0x10000;
            out.push((0xd800 + over / 0x400) as u16);
            out.push((0xdc00 + over % 0x400) as u16);
        }
        i = i + 1;
        assert(out@ =~= units_of(s@, i as nat));
    }
    out
}

// ── reading code units back ──────────────────────────────────────────────
/// The first half of a character of two code units.
pub open spec fn is_high(u: u16) -> bool {
    0xd800 <= u < 0xdc00
}

/// The second half of a character of two code units.
pub open spec fn is_low(u: u16) -> bool {
    0xdc00 <= u < 0xe000
}

/// The numbers of the characters that code units stand for: a first half and a second one
/// behind it are one character.
pub open spec fn scalars(units: Seq<u16>) -> Seq<int>
    decreases units.len(),
{
    if units.len() == 0 {
        Seq::empty()
    } else if units.len() >= 2 && is_high(units[0]) && is_low(units[1]) {
        seq![0x10000 + (units[0] - 0xd800) * 0x400 + (units[1] - 0xdc00)] + scalars(units.skip(2))
    } else {
        seq![units[0] as int] + scalars(units.skip(1))
    }
}

/// The numbers of the characters of a text.
pub open spec fn numbers(s: Seq<char>) -> Seq<int> {
    Seq::new(s.len(), |i: int| s[i] as u32 as int)
}

proof fn lemma_units_front(s: Seq<char>, n: nat)
    requires
        0 < n <= s.len(),
    ensures
        units_of(s, n) == char_units(s[0]) + units_of(s.drop_first(), (n - 1) as nat),
    decreases n,
{
    let tail = s.drop_first();
    if n > 1 {
        lemma_units_front(s, (n - 1) as nat);
        assert(tail[n - 2] == s[n - 1]);
        assert(units_of(s, n) =~= char_units(s[0]) + units_of(tail, (n - 1) as nat));
    } else {
        assert(units_of(s, 0) =~= Seq::<u16>::empty());
        assert(units_of(tail, 0) =~= Seq::<u16>::empty());
        assert(units_of(s, n) =~= char_units(s[0]) + units_of(tail, 0));
    }
}

proof fn lemma_char(c: char)
    ensures
        (c as u32) < 0xd800 || 0xe000 <= (c as u32) < 0x110000,
{
}

/// The code units of a text stand for its characters, in their order.
pub proof fn code_units_stand_for_their_text(s: Seq<char>)
    ensures
        scalars(utf16(s)) == numbers(s),
    decreases s.len(),
{
    if s.len() == 0 {
        assert(scalars(utf16(s)) =~= numbers(s));
    } else {
        let c = s[0];
        let n = c as u32;
        let tail = s.drop_first();
        lemma_char(c);
        code_units_stand_for_their_text(tail);
        lemma_units_front(s, s.len());
        let units = utf16(s);
        let rest = utf16(tail);
        assert(units == char_units(c) + rest);
        if n < 0x10000 {
            assert(!(0xd800 <= n < 0xe000));
            assert(units[0] == n as u16);
            assert(units.skip(1) =~= rest);
        } else {
            let over = n - 0x10000;
            assert(over < 0x100000);
            assert(units.skip(2) =~= rest);
            assert(units[0] == (0xd800 + over / 0x400) as u16);
            assert(units[1] == (0xdc00 + over % 0x400) as u16);
        }
        assert(scalars(units) =~= seq![n as int] + scalars(rest));
        assert(numbers(s) =~= seq![n as int] + numbers(tail));
    }
}

} // verus!
