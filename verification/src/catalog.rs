//! The catalog of effects: what category a label is of, and what it means.
use crate::ir::Label;
use crate::text::{
    begins_with, chars_of, is_at, is_text, join, joined, lines, lines_of, starts_with, text_between,
    texts, trim, trimmed, words, words_of,
};
use crate::worker::EffectEntry;
use vstd::prelude::*;
use vstd::string::*;

verus! {

/// What a line of the catalog says: of a label or of a kind of labels, the
/// category and the meaning.
#[verifier::ext_equal]
pub struct Meaning {
    pub of_kind: bool,
    pub key: Seq<char>,
    pub category: Seq<char>,
    pub gloss: Seq<char>,
}

/// What a line says, unless it is empty, a comment, the order of the categories
/// or too short.
pub open spec fn line_meaning(line: Seq<char>) -> Option<Meaning> {
    let t = trimmed(line);
    let w = words(t);
    if t.len() == 0 || begins_with(t, "#"@) || w.len() < 3 || w[0] == "order"@ {
        None
    } else if begins_with(w[0], "kind:"@) {
        Some(
            Meaning {
                of_kind: true,
                key: w[0].skip("kind:"@.len() as int),
                category: w[1],
                gloss: joined(w.skip(2), " "@),
            },
        )
    } else {
        Some(
            Meaning {
                of_kind: false,
                key: w[0],
                category: w[1],
                gloss: joined(w.skip(2), " "@),
            },
        )
    }
}

/// What the first `n` lines say.
pub open spec fn meanings(list: Seq<Seq<char>>, n: nat) -> Seq<Meaning>
    decreases n,
{
    if n == 0 || n > list.len() {
        Seq::empty()
    } else {
        match line_meaning(list[n - 1]) {
            Some(m) => meanings(list, (n - 1) as nat).push(m),
            None => meanings(list, (n - 1) as nat),
        }
    }
}

/// What the catalog says.
pub open spec fn catalog_of(text: Seq<char>) -> Seq<Meaning> {
    meanings(lines(text), lines(text).len())
}

/// An entry of the catalog.
#[derive(Debug)]
pub struct Entry {
    pub of_kind: bool,
    pub key: String,
    pub category: String,
    pub gloss: String,
}

impl View for Entry {
    type V = Meaning;

    open spec fn view(&self) -> Meaning {
        Meaning {
            of_kind: self.of_kind,
            key: self.key@,
            category: self.category@,
            gloss: self.gloss@,
        }
    }
}

/// The catalog of effects.
#[derive(Debug)]
pub struct Catalog {
    pub entries: Vec<Entry>,
}

impl View for Catalog {
    type V = Seq<Meaning>;

    open spec fn view(&self) -> Seq<Meaning> {
        Seq::new(self.entries@.len(), |i: int| self.entries@[i]@)
    }
}

fn parse_line(line: &String) -> (r: Option<Entry>)
    ensures
        match r {
            Some(e) => line_meaning(line@) == Some(e@),
            None => line_meaning(line@) is None,
        },
{
    let t = trim(line);
    if t.as_str().is_empty() || starts_with(&t, "#") {
        return None;
    }
    let w = words_of(&t);
    if w.len() < 3 {
        return None;
    }
    assert(texts(w@).len() == w@.len());
    if is_text(&w[0], "order") {
        return None;
    }
    let gloss = join(&w, 2, " ");
    let category = w[1].clone();
    let first = chars_of(&w[0]);
    let prefix = chars_of("kind:");
    if is_at(&first, &prefix, 0) {
        let key = text_between(&first, prefix.len(), first.len());
        assert(key@ =~= w@[0]@.skip("kind:"@.len() as int));
        Some(Entry { of_kind: true, key, category, gloss })
    } else {
        Some(Entry { of_kind: false, key: w[0].clone(), category, gloss })
    }
}

/// The catalog that a text describes, line by line.
pub fn parse_catalog(text: &str) -> (r: Catalog)
    ensures
        r@ == catalog_of(text@),
{
    let list = lines_of(text);
    let ghost all = texts(list@);
    let mut out = Catalog { entries: Vec::new() };
    let mut i: usize = 0;
    assert(out@ =~= Seq::<Meaning>::empty());
    while i < list.len()
        invariant
            i <= list.len(),
            all == texts(list@),
            out@ == meanings(all, i as nat),
        decreases list.len() - i,
    {
        if let Some(e) = parse_line(&list[i]) {
            let ghost before = out@;
            let ghost m = e@;
            out.entries.push(e);
            assert(out@ =~= before.push(m));
        }
        i = i + 1;
    }
    out
}

/// The kind of a label.
pub open spec fn kind_of(l: Label) -> &'static str {
    match l {
        Label::World(_) => "world",
        Label::User(_) => "user",
        Label::Exn(_) => "exn",
        Label::Gc => "gc",
        Label::St => "state",
        Label::Insert => "staging",
    }
}

/// The kind of a label.
pub fn label_kind(l: &Label) -> (r: &'static str)
    ensures
        r == kind_of(*l),
{
    match l {
        Label::World(_) => "world",
        Label::User(_) => "user",
        Label::Exn(_) => "exn",
        Label::Gc => "gc",
        Label::St => "state",
        Label::Insert => "staging",
    }
}

/// What the catalog says of a key: its last line about it counts.
pub open spec fn said_of(catalog: Seq<Meaning>, of_kind: bool, key: Seq<char>, n: nat) -> Option<
    (Seq<char>, Seq<char>),
>
    decreases n,
{
    if n == 0 || n > catalog.len() {
        None
    } else if catalog[n - 1].of_kind == of_kind && catalog[n - 1].key == key {
        Some((catalog[n - 1].category, catalog[n - 1].gloss))
    } else {
        said_of(catalog, of_kind, key, (n - 1) as nat)
    }
}

/// The category and the meaning of a label: what the catalog says of the label,
/// else of its kind.
pub open spec fn meaning_of(catalog: Seq<Meaning>, l: Label) -> (Seq<char>, Seq<char>) {
    match said_of(catalog, false, l.text(), catalog.len()) {
        Some(m) => m,
        None => match said_of(catalog, true, kind_of(l)@, catalog.len()) {
            Some(m) => m,
            None => ("user"@, "effect"@),
        },
    }
}

impl Catalog {
    fn find(&self, of_kind: bool, key: &str) -> (r: Option<(String, String)>)
        ensures
            match said_of(self@, of_kind, key@, self@.len()) {
                Some(m) => r matches Some(e) && (e.0@, e.1@) == m,
                None => r is None,
            },
    {
        let mut i: usize = self.entries.len();
        while i > 0
            invariant
                i <= self.entries.len(),
                said_of(self@, of_kind, key@, i as nat) == said_of(
                    self@,
                    of_kind,
                    key@,
                    self@.len(),
                ),
            decreases i,
        {
            let e = &self.entries[i - 1];
            assert(self@[i - 1] == e@);
            if e.of_kind == of_kind && is_text(&e.key, key) {
                return Some((e.category.clone(), e.gloss.clone()));
            }
            i = i - 1;
        }
        None
    }

    /// The category and the meaning of a label.
    pub fn lookup(&self, l: &Label) -> (r: (String, String))
        ensures
            (r.0@, r.1@) == meaning_of(self@, *l),
    {
        let name = l.to_text();
        match self.find(false, &name) {
            Some(m) => m,
            None => match self.find(true, label_kind(l)) {
                Some(m) => m,
                None => ("user".to_owned(), "effect".to_owned()),
            },
        }
    }

    /// A label as it is reported.
    pub fn effect_entry(&self, l: &Label) -> (r: EffectEntry)
        ensures
            r.label@ == l.text(),
            (r.category@, r.description@) == meaning_of(self@, *l),
    {
        let (category, description) = self.lookup(l);
        EffectEntry { label: l.to_text(), category, description }
    }
}

/// A label that the catalog does not name falls back to what it says of its kind.
pub proof fn an_unlisted_label_falls_back_to_its_kind(catalog: Seq<Meaning>, l: Label)
    requires
        forall|i: int|
            0 <= i < catalog.len() ==> (#[trigger] catalog[i]).of_kind || catalog[i].key
                != l.text(),
    ensures
        meaning_of(catalog, l) == match said_of(catalog, true, kind_of(l)@, catalog.len()) {
            Some(m) => m,
            None => ("user"@, "effect"@),
        },
{
    lemma_unsaid(catalog, l.text(), catalog.len());
}

proof fn lemma_unsaid(catalog: Seq<Meaning>, key: Seq<char>, n: nat)
    requires
        n <= catalog.len(),
        forall|i: int|
            0 <= i < catalog.len() ==> (#[trigger] catalog[i]).of_kind || catalog[i].key != key,
    ensures
        said_of(catalog, false, key, n) is None,
    decreases n,
{
    if n > 0 {
        assert(catalog[n - 1].of_kind || catalog[n - 1].key != key);
        lemma_unsaid(catalog, key, (n - 1) as nat);
    }
}

} // verus!
