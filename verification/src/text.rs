//! Text: comparing it, building it, and writing numbers.
use vstd::prelude::*;
use vstd::string::*;

verus! {

/// `String::push` appends one character.
pub assume_specification[ String::push ](s: &mut String, c: char)
    ensures
        final(s)@ == old(s)@.push(c),
;

/// Whether two texts are the same.
pub fn is_text(s: &str, t: &str) -> (r: bool)
    ensures
        r == (s@ == t@),
{
    s.to_owned() == t.to_owned()
}

/// The decimal digit of a number below ten.
pub open spec fn digit(n: nat) -> char {
    if n == 0 {
        '0'
    } else if n == 1 {
        '1'
    } else if n == 2 {
        '2'
    } else if n == 3 {
        '3'
    } else if n == 4 {
        '4'
    } else if n == 5 {
        '5'
    } else if n == 6 {
        '6'
    } else if n == 7 {
        '7'
    } else if n == 8 {
        '8'
    } else {
        '9'
    }
}

/// A number in decimal, without leading zeros.
pub open spec fn decimal(n: nat) -> Seq<char>
    decreases n,
{
    if n < 10 {
        seq![digit(n)]
    } else {
        decimal(n / 10).push(digit(n % 10))
    }
}

fn digit_char(n: u64) -> (r: char)
    requires
        n < 10,
    ensures
        r == digit(n as nat),
{
    if n == 0 {
        '0'
    } else if n == 1 {
        '1'
    } else if n == 2 {
        '2'
    } else if n == 3 {
        '3'
    } else if n == 4 {
        '4'
    } else if n == 5 {
        '5'
    } else if n == 6 {
        '6'
    } else if n == 7 {
        '7'
    } else if n == 8 {
        '8'
    } else {
        '9'
    }
}

/// Append a number in decimal.
pub fn push_decimal(s: &mut String, n: u64)
    ensures
        final(s)@ == old(s)@ + decimal(n as nat),
    decreases n,
{
    if n >= 10 {
        push_decimal(s, n / 10);
    }
    s.push(digit_char(n % 10));
    assert(s@ =~= old(s)@ + decimal(n as nat));
}

// ── characters ───────────────────────────────────────────────────────────
/// The characters of a text.
pub fn chars_of(s: &str) -> (r: Vec<char>)
    ensures
        r@ == s@,
{
    let mut out: Vec<char> = Vec::new();
    for c in it: s.chars()
        invariant
            it.seq() == s@,
            out@ == s@.take(it.index() as int),
    {
        out.push(c);
        assert(out@ =~= s@.take(it.index() + 1));
    }
    assert(s@.take(s@.len() as int) =~= s@);
    out
}

/// The text of the characters from `from` up to `to`.
pub fn text_between(chars: &Vec<char>, from: usize, to: usize) -> (r: String)
    requires
        from <= to <= chars.len(),
    ensures
        r@ == chars@.subrange(from as int, to as int),
{
    let mut out = String::new();
    let mut i: usize = from;
    while i < to
        invariant
            from <= i <= to <= chars.len(),
            out@ == chars@.subrange(from as int, i as int),
        decreases to - i,
    {
        out.push(chars[i]);
        i = i + 1;
        assert(out@ =~= chars@.subrange(from as int, i as int));
    }
    out
}

/// A white-space character.
pub open spec fn white(c: char) -> bool {
    let n = c as u32;
    (0x9 <= n && n <= 0xd) || n == 0x20 || n == 0x85 || n == 0xa0 || n == 0x1680 || (0x2000 <= n
        && n <= 0x200a) || n == 0x2028 || n == 0x2029 || n == 0x202f || n == 0x205f || n == 0x3000
}

/// Whether a character is white space.
pub fn is_white(c: char) -> (r: bool)
    ensures
        r == white(c),
{
    let n: u32 = c as u32;
    (0x9 <= n && n <= 0xd) || n == 0x20 || n == 0x85 || n == 0xa0 || n == 0x1680 || (0x2000 <= n
        && n <= 0x200a) || n == 0x2028 || n == 0x2029 || n == 0x202f || n == 0x205f || n == 0x3000
}

// ── trimming ─────────────────────────────────────────────────────────────
/// A text without the white space in front.
pub open spec fn trim_front(s: Seq<char>) -> Seq<char>
    decreases s.len(),
{
    if s.len() > 0 && white(s[0]) {
        trim_front(s.drop_first())
    } else {
        s
    }
}

/// A text without the white space behind.
pub open spec fn trim_back(s: Seq<char>) -> Seq<char>
    decreases s.len(),
{
    if s.len() > 0 && white(s.last()) {
        trim_back(s.drop_last())
    } else {
        s
    }
}

/// A text without the white space around it.
pub open spec fn trimmed(s: Seq<char>) -> Seq<char> {
    trim_back(trim_front(s))
}

/// Where the first character that is no white space stands, from `from` on.
fn skip_white(chars: &Vec<char>, from: usize, to: usize) -> (r: usize)
    requires
        from <= to <= chars.len(),
    ensures
        from <= r <= to,
        trim_front(chars@.subrange(from as int, to as int)) == chars@.subrange(r as int, to as int),
        r < to ==> !white(chars@[r as int]),
{
    let mut i: usize = from;
    while i < to && is_white(chars[i])
        invariant
            from <= i <= to <= chars.len(),
            trim_front(chars@.subrange(from as int, to as int)) == trim_front(
                chars@.subrange(i as int, to as int),
            ),
        decreases to - i,
    {
        assert(chars@.subrange(i as int, to as int).drop_first() =~= chars@.subrange(
            i + 1,
            to as int,
        ));
        i = i + 1;
    }
    i
}

/// Where the white space behind begins, from `to` back to `from`.
fn skip_white_back(chars: &Vec<char>, from: usize, to: usize) -> (r: usize)
    requires
        from <= to <= chars.len(),
    ensures
        from <= r <= to,
        trim_back(chars@.subrange(from as int, to as int)) == chars@.subrange(
            from as int,
            r as int,
        ),
{
    let mut i: usize = to;
    while i > from && is_white(chars[i - 1])
        invariant
            from <= i <= to <= chars.len(),
            trim_back(chars@.subrange(from as int, to as int)) == trim_back(
                chars@.subrange(from as int, i as int),
            ),
        decreases i,
    {
        assert(chars@.subrange(from as int, i as int).drop_last() =~= chars@.subrange(
            from as int,
            i - 1,
        ));
        i = i - 1;
    }
    i
}

/// A text without the white space around it.
pub fn trim(s: &str) -> (r: String)
    ensures
        r@ == trimmed(s@),
{
    let chars = chars_of(s);
    let n: usize = chars.len();
    assert(chars@.subrange(0, n as int) =~= s@);
    let from: usize = skip_white(&chars, 0, n);
    let to: usize = skip_white_back(&chars, from, n);
    text_between(&chars, from, to)
}

/// A text without the white space behind it.
pub fn trim_end(s: &str) -> (r: String)
    ensures
        r@ == trim_back(s@),
{
    let chars = chars_of(s);
    let n: usize = chars.len();
    assert(chars@.subrange(0, n as int) =~= s@);
    let to: usize = skip_white_back(&chars, 0, n);
    text_between(&chars, 0, to)
}

// ── words and lines ──────────────────────────────────────────────────────
/// How many characters of the text come before its first white space.
pub open spec fn word_len(s: Seq<char>) -> nat
    decreases s.len(),
{
    if s.len() == 0 || white(s[0]) {
        0
    } else {
        1 + word_len(s.drop_first())
    }
}

/// A text has at most as many characters as its first word.
pub proof fn lemma_word_len(s: Seq<char>)
    ensures
        word_len(s) <= s.len(),
    decreases s.len(),
{
    if s.len() > 0 && !white(s[0]) {
        lemma_word_len(s.drop_first());
    }
}

proof fn lemma_trim_front_len(s: Seq<char>)
    ensures
        trim_front(s).len() <= s.len(),
        trim_front(s).len() > 0 ==> !white(trim_front(s)[0]),
    decreases s.len(),
{
    if s.len() > 0 && white(s[0]) {
        lemma_trim_front_len(s.drop_first());
    }
}

/// The words of a text: what stands between white space.
pub open spec fn words(s: Seq<char>) -> Seq<Seq<char>>
    decreases s.len(),
    via words_shrink
{
    let t = trim_front(s);
    if t.len() == 0 {
        Seq::empty()
    } else {
        let n = word_len(t) as int;
        seq![t.take(n)] + words(t.skip(n))
    }
}

#[via_fn]
proof fn words_shrink(s: Seq<char>) {
    lemma_trim_front_len(s);
    let t = trim_front(s);
    lemma_word_len(t);
    if t.len() > 0 {
        assert(word_len(t) > 0);
    }
}

/// The texts of a list.
pub open spec fn texts(list: Seq<String>) -> Seq<Seq<char>> {
    Seq::new(list.len(), |i: int| list[i]@)
}

/// The texts of a list with one more at its end.
pub broadcast proof fn lemma_texts_push(list: Seq<String>, x: String)
    ensures
        #[trigger] texts(list.push(x)) == texts(list).push(x@),
{
    assert(texts(list.push(x)) =~= texts(list).push(x@));
}

fn end_of_word(chars: &Vec<char>, from: usize, to: usize) -> (r: usize)
    requires
        from <= to <= chars.len(),
    ensures
        from <= r <= to,
        r - from == word_len(chars@.subrange(from as int, to as int)),
{
    let mut i: usize = from;
    while i < to && !is_white(chars[i])
        invariant
            from <= i <= to <= chars.len(),
            (i - from) + word_len(chars@.subrange(i as int, to as int)) == word_len(
                chars@.subrange(from as int, to as int),
            ),
        decreases to - i,
    {
        assert(chars@.subrange(i as int, to as int).drop_first() =~= chars@.subrange(
            i + 1,
            to as int,
        ));
        i = i + 1;
    }
    i
}

/// The words of a text.
pub fn words_of(s: &str) -> (r: Vec<String>)
    ensures
        texts(r@) == words(s@),
{
    broadcast use lemma_texts_push;

    let chars = chars_of(s);
    let n: usize = chars.len();
    assert(chars@.subrange(0, n as int) =~= s@);
    let mut out: Vec<String> = Vec::new();
    let mut i: usize = skip_white(&chars, 0, n);
    assert(texts(out@) =~= Seq::<Seq<char>>::empty());
    proof {
        lemma_words_trim(s@);
        assert(words(s@) =~= texts(out@) + words(chars@.subrange(i as int, n as int)));
    }
    while i < n
        invariant
            i <= n,
            n == chars.len(),
            i < n ==> !white(chars@[i as int]),
            words(s@) == texts(out@) + words(chars@.subrange(i as int, n as int)),
        decreases n - i,
    {
        let ghost before = out@;
        let ghost rest = chars@.subrange(i as int, n as int);
        let end: usize = end_of_word(&chars, i, n);
        out.push(text_between(&chars, i, end));
        let next: usize = skip_white(&chars, end, n);
        proof {
            assert(trim_front(rest) == rest);
            assert(rest.take(end - i) =~= chars@.subrange(i as int, end as int));
            assert(rest.skip(end - i) =~= chars@.subrange(end as int, n as int));
            lemma_words_trim(chars@.subrange(end as int, n as int));
            assert(texts(out@) == texts(before).push(chars@.subrange(i as int, end as int)));
            assert(words(rest) == seq![rest.take(end - i)] + words(rest.skip(end - i)));
            assert(texts(before) + words(rest) =~= texts(out@) + words(
                chars@.subrange(next as int, n as int),
            ));
        }
        i = next;
    }
    proof {
        assert(chars@.subrange(n as int, n as int) =~= Seq::<char>::empty());
        assert(words(Seq::<char>::empty()) =~= Seq::<Seq<char>>::empty());
        assert(texts(out@) + Seq::<Seq<char>>::empty() =~= texts(out@));
    }
    out
}

proof fn lemma_words_trim(s: Seq<char>)
    ensures
        words(trim_front(s)) == words(s),
{
    lemma_trim_front_len(s);
    assert(trim_front(trim_front(s)) == trim_front(s));
}

/// Where the first line of a text ends.
pub open spec fn line_len(s: Seq<char>) -> nat
    decreases s.len(),
{
    if s.len() == 0 || s[0] == '\n' {
        0
    } else {
        1 + line_len(s.drop_first())
    }
}

proof fn lemma_line_len(s: Seq<char>)
    ensures
        line_len(s) <= s.len(),
    decreases s.len(),
{
    if s.len() > 0 && s[0] != '\n' {
        lemma_line_len(s.drop_first());
    }
}

/// A line without the carriage return before its end.
pub open spec fn without_return(line: Seq<char>) -> Seq<char> {
    if line.len() > 0 && line.last() == '\r' {
        line.drop_last()
    } else {
        line
    }
}

/// The lines of a text, without their ends.
pub open spec fn lines(s: Seq<char>) -> Seq<Seq<char>>
    decreases s.len(),
{
    if s.len() == 0 {
        Seq::empty()
    } else {
        let n = line_len(s) as int;
        if n >= s.len() {
            seq![s]
        } else {
            seq![without_return(s.take(n))] + lines(s.skip(n + 1))
        }
    }
}

fn end_of_line(chars: &Vec<char>, from: usize) -> (r: usize)
    requires
        from <= chars.len(),
    ensures
        from <= r <= chars.len(),
        r - from == line_len(chars@.skip(from as int)),
{
    let mut i: usize = from;
    while i < chars.len() && chars[i] != '\n'
        invariant
            from <= i <= chars.len(),
            (i - from) + line_len(chars@.skip(i as int)) == line_len(chars@.skip(from as int)),
        decreases chars.len() - i,
    {
        assert(chars@.skip(i as int).drop_first() =~= chars@.skip(i + 1));
        i = i + 1;
    }
    i
}

/// The lines of a text.
pub fn lines_of(s: &str) -> (r: Vec<String>)
    ensures
        texts(r@) == lines(s@),
{
    broadcast use lemma_texts_push;

    let chars = chars_of(s);
    let mut out: Vec<String> = Vec::new();
    let mut i: usize = 0;
    proof {
        assert(chars@.skip(0) =~= s@);
        assert(texts(out@) + lines(s@) =~= lines(s@));
    }
    while i < chars.len()
        invariant
            i <= chars.len(),
            lines(s@) == texts(out@) + lines(chars@.skip(i as int)),
        decreases chars.len() - i,
    {
        let ghost before = out@;
        let ghost rest = chars@.skip(i as int);
        let end: usize = end_of_line(&chars, i);
        let ghost line = chars@.subrange(i as int, end as int);
        let stop: usize = if end < chars.len() && end > i && chars[end - 1] == '\r' {
            end - 1
        } else {
            end
        };
        out.push(text_between(&chars, i, stop));
        assert(texts(out@) == texts(before).push(chars@.subrange(i as int, stop as int)));
        if end < chars.len() {
            proof {
                assert(rest.take(end - i) =~= line);
                assert(without_return(line) =~= chars@.subrange(i as int, stop as int));
                assert(rest.skip(end - i + 1) =~= chars@.skip(end + 1));
                assert(texts(before) + lines(rest) =~= texts(out@) + lines(chars@.skip(end + 1)));
            }
            i = end + 1;
        } else {
            proof {
                assert(rest =~= line);
                assert(chars@.skip(end as int) =~= Seq::<char>::empty());
                assert(lines(chars@.skip(end as int)) =~= Seq::<Seq<char>>::empty());
                assert(texts(before) + lines(rest) =~= texts(out@) + lines(chars@.skip(end as int)));
            }
            i = end;
        }
    }
    proof {
        assert(chars@.skip(i as int) =~= Seq::<char>::empty());
        assert(lines(chars@.skip(i as int)) =~= Seq::<Seq<char>>::empty());
        assert(texts(out@) + lines(chars@.skip(i as int)) =~= texts(out@));
    }
    out
}

// ── searching ────────────────────────────────────────────────────────────
/// The pattern stands at a position of the text.
pub open spec fn stands_at(s: Seq<char>, pat: Seq<char>, i: int) -> bool {
    0 <= i && i + pat.len() <= s.len() && s.subrange(i, i + pat.len()) == pat
}

/// A text begins with another.
pub open spec fn begins_with(s: Seq<char>, pat: Seq<char>) -> bool {
    stands_at(s, pat, 0)
}

/// The first position, from `i` on, at which the pattern stands.
pub open spec fn find_from(s: Seq<char>, pat: Seq<char>, i: int) -> Option<int>
    decreases s.len() + 1 - i,
{
    if i < 0 || i + pat.len() > s.len() {
        None
    } else if stands_at(s, pat, i) {
        Some(i)
    } else {
        find_from(s, pat, i + 1)
    }
}

/// Whether the pattern stands at a position.
pub fn is_at(chars: &Vec<char>, pat: &Vec<char>, i: usize) -> (r: bool)
    ensures
        r == stands_at(chars@, pat@, i as int),
{
    if pat.len() > chars.len() || i > chars.len() - pat.len() {
        return false;
    }
    let mut k: usize = 0;
    while k < pat.len()
        invariant
            k <= pat.len(),
            i + pat.len() <= chars.len(),
            forall|j: int| 0 <= j < k ==> chars@[i + j] == pat@[j],
        decreases pat.len() - k,
    {
        if chars[i + k] != pat[k] {
            assert(chars@.subrange(i as int, i + pat@.len())[k as int] != pat@[k as int]);
            return false;
        }
        k = k + 1;
    }
    assert(chars@.subrange(i as int, i + pat@.len()) =~= pat@);
    true
}

/// The first position, from `from` on, at which the pattern stands.
pub fn find(chars: &Vec<char>, pat: &Vec<char>, from: usize) -> (r: Option<usize>)
    ensures
        match r {
            Some(i) => find_from(chars@, pat@, from as int) == Some(i as int) && stands_at(
                chars@,
                pat@,
                i as int,
            ) && from <= i,
            None => find_from(chars@, pat@, from as int) is None,
        },
{
    let mut i: usize = from;
    while pat.len() <= chars.len() && i <= chars.len() - pat.len()
        invariant
            from <= i,
            find_from(chars@, pat@, i as int) == find_from(chars@, pat@, from as int),
        decreases chars.len() - i,
    {
        if is_at(chars, pat, i) {
            return Some(i);
        }
        assert(i < chars.len()) by {
            if pat@.len() == 0 {
                assert(chars@.subrange(i as int, i as int) =~= pat@);
            }
        }
        i = i + 1;
    }
    None
}

/// Whether a text begins with another.
pub fn starts_with(s: &str, pat: &str) -> (r: bool)
    ensures
        r == begins_with(s@, pat@),
{
    let chars = chars_of(s);
    let pat = chars_of(pat);
    is_at(&chars, &pat, 0)
}

// ── joining ──────────────────────────────────────────────────────────────
/// The texts with a separator between them.
pub open spec fn joined(list: Seq<Seq<char>>, sep: Seq<char>) -> Seq<char>
    decreases list.len(),
{
    if list.len() == 0 {
        Seq::empty()
    } else if list.len() == 1 {
        list[0]
    } else {
        joined(list.drop_last(), sep) + sep + list.last()
    }
}

/// The texts from position `from` on with a separator between them.
pub fn join(list: &Vec<String>, from: usize, sep: &str) -> (r: String)
    requires
        from <= list.len(),
    ensures
        r@ == joined(texts(list@).skip(from as int), sep@),
{
    let mut out = String::new();
    let mut i: usize = from;
    let ghost all = texts(list@).skip(from as int);
    assert(all.take(0) =~= Seq::<Seq<char>>::empty());
    while i < list.len()
        invariant
            from <= i <= list.len(),
            all == texts(list@).skip(from as int),
            out@ == joined(all.take(i - from), sep@),
        decreases list.len() - i,
    {
        let ghost k = (i - from) as int;
        assert(all.take(k + 1).drop_last() =~= all.take(k));
        assert(all.take(k + 1).last() == list@[i as int]@);
        if i > from {
            out.append(sep);
        } else {
            assert(all.take(k + 1) =~= seq![list@[i as int]@]);
        }
        out.append(list[i].as_str());
        i = i + 1;
        assert(k == 0 ==> out@ =~= list@[from as int]@);
    }
    assert(all.take(all.len() as int) =~= all);
    out
}

// ── case ─────────────────────────────────────────────────────────────────
/// A character in upper case, if it is a Latin letter of ASCII.
pub open spec fn upper(c: char) -> char {
    if 'a' <= c && c <= 'z' {
        ((c as u32) - 32) as char
    } else {
        c
    }
}

fn upper_char(c: char) -> (r: char)
    ensures
        r == upper(c),
{
    if 'a' <= c && c <= 'z' {
        let n: u8 = c as u8;
        (n - 32) as char
    } else {
        c
    }
}

/// A text with the Latin letters of ASCII in upper case.
pub open spec fn uppercase(s: Seq<char>) -> Seq<char> {
    s.map_values(|c: char| upper(c))
}

/// A text with the Latin letters of ASCII in upper case.
pub fn to_uppercase(s: &str) -> (r: String)
    ensures
        r@ == uppercase(s@),
{
    let chars = chars_of(s);
    let mut out = String::new();
    let mut i: usize = 0;
    while i < chars.len()
        invariant
            i <= chars.len(),
            chars@ == s@,
            out@ == uppercase(s@).take(i as int),
        decreases chars.len() - i,
    {
        out.push(upper_char(chars[i]));
        i = i + 1;
        assert(out@ =~= uppercase(s@).take(i as int));
    }
    assert(uppercase(s@).take(s@.len() as int) =~= uppercase(s@));
    out
}

// ── numbers ──────────────────────────────────────────────────────────────
/// The hexadecimal digit of a number below sixteen.
pub open spec fn hex_digit(n: nat) -> char {
    if n < 10 {
        digit(n)
    } else if n == 10 {
        'a'
    } else if n == 11 {
        'b'
    } else if n == 12 {
        'c'
    } else if n == 13 {
        'd'
    } else if n == 14 {
        'e'
    } else {
        'f'
    }
}

/// The last `width` hexadecimal digits of a number.
pub open spec fn hex(n: nat, width: nat) -> Seq<char>
    decreases width,
{
    if width == 0 {
        Seq::empty()
    } else {
        hex(n / 16, (width - 1) as nat).push(hex_digit(n % 16))
    }
}

fn hex_char(n: u64) -> (r: char)
    requires
        n < 16,
    ensures
        r == hex_digit(n as nat),
{
    if n < 10 {
        digit_char(n)
    } else if n == 10 {
        'a'
    } else if n == 11 {
        'b'
    } else if n == 12 {
        'c'
    } else if n == 13 {
        'd'
    } else if n == 14 {
        'e'
    } else {
        'f'
    }
}

/// Append the last `width` hexadecimal digits of a number.
pub fn push_hex(s: &mut String, n: u64, width: u64)
    ensures
        final(s)@ == old(s)@ + hex(n as nat, width as nat),
    decreases width,
{
    if width > 0 {
        push_hex(s, n / 16, width - 1);
        s.push(hex_char(n % 16));
    }
    assert(s@ =~= old(s)@ + hex(n as nat, width as nat));
}

/// A hash as it is printed: all sixteen digits behind `0x`.
pub open spec fn hash_text(n: u64) -> Seq<char> {
    "0x"@ + hex(n as nat, 16)
}

/// A hash as it is printed.
pub fn hash_string(n: u64) -> (r: String)
    ensures
        r@ == hash_text(n),
{
    let mut s = "0x".to_owned();
    push_hex(&mut s, n, 16);
    s
}

/// A number in decimal.
pub fn number(n: usize) -> (r: String)
    ensures
        r@ == decimal(n as nat),
{
    count(n as u64)
}

/// A number in decimal.
pub fn count(n: u64) -> (r: String)
    ensures
        r@ == decimal(n as nat),
{
    let mut s = String::new();
    push_decimal(&mut s, n);
    assert(s@ =~= decimal(n as nat));
    s
}

/// A text followed by spaces up to a width.
pub open spec fn padded(s: Seq<char>, width: nat) -> Seq<char>
    decreases width - s.len(),
{
    if s.len() >= width {
        s
    } else {
        padded(s.push(' '), width)
    }
}

/// A text followed by spaces up to a width.
pub fn pad(s: &str, width: usize) -> (r: String)
    ensures
        r@ == padded(s@, width as nat),
{
    let mut out = s.to_owned();
    let mut n: usize = out.as_str().unicode_len();
    while n < width
        invariant
            n == out@.len(),
            padded(out@, width as nat) == padded(s@, width as nat),
        decreases width - n,
    {
        out.push(' ');
        n = n + 1;
    }
    out
}

} // verus!
