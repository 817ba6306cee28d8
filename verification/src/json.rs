//! JSON values, as the compiler's replies are made of.
use crate::text::is_text;
use vstd::prelude::*;
use vstd::string::*;

verus! {

/// A JSON value.
#[derive(Debug)]
pub enum Json {
    Null,
    Bool(bool),
    /// A signed number.
    Int(i64),
    /// A count.
    Count(u64),
    Text(String),
    List(Vec<Json>),
    /// The fields of an object, in the order they were set.
    Object(Vec<Field>),
    /// A value, as its JSON text.
    Written(String),
}

/// A field of a JSON object.
#[derive(Debug)]
pub struct Field {
    pub key: String,
    pub value: Json,
}

/// What a JSON value stands for.
#[verifier::ext_equal]
pub enum Js {
    Null,
    Bool(bool),
    Num(int),
    Text(Seq<char>),
    List(Seq<Js>),
    Object(Seq<(Seq<char>, Js)>),
    Written(Seq<char>),
}

/// An object without fields.
pub open spec fn no_fields() -> Seq<(Seq<char>, Js)> {
    Seq::empty()
}

/// What the first `n` values of a list stand for.
pub open spec fn items(list: Vec<Json>, n: nat) -> Seq<Js>
    decreases list, n,
{
    if n == 0 || n > list.len() {
        Seq::empty()
    } else {
        items(list, (n - 1) as nat).push(list[n - 1].model())
    }
}

/// What the first `n` fields of an object stand for.
pub open spec fn fields(list: Vec<Field>, n: nat) -> Seq<(Seq<char>, Js)>
    decreases list, n,
{
    if n == 0 || n > list.len() {
        Seq::empty()
    } else {
        fields(list, (n - 1) as nat).push((list[n - 1].key@, list[n - 1].value.model()))
    }
}

impl Json {
    /// What the value stands for.
    pub open spec fn model(self) -> Js
        decreases self, 0nat,
    {
        match self {
            Json::Null => Js::Null,
            Json::Bool(b) => Js::Bool(b),
            Json::Int(n) => Js::Num(n as int),
            Json::Count(n) => Js::Num(n as int),
            Json::Text(s) => Js::Text(s@),
            Json::List(list) => Js::List(items(list, list.len() as nat)),
            Json::Object(list) => Js::Object(fields(list, list.len() as nat)),
            Json::Written(s) => Js::Written(s@),
        }
    }
}

impl View for Json {
    type V = Js;

    open spec fn view(&self) -> Js {
        self.model()
    }
}

proof fn lemma_items_push(list: Vec<Json>, more: Vec<Json>, n: nat)
    requires
        n <= list.len(),
        n <= more.len(),
        forall|i: int| 0 <= i < n ==> list[i] == more[i],
    ensures
        items(list, n) == items(more, n),
    decreases n,
{
    if n > 0 {
        lemma_items_push(list, more, (n - 1) as nat);
        assert(list[n - 1] == more[n - 1]);
    }
}

proof fn lemma_fields_push(list: Vec<Field>, more: Vec<Field>, n: nat)
    requires
        n <= list.len(),
        n <= more.len(),
        forall|i: int| 0 <= i < n ==> list[i] == more[i],
    ensures
        fields(list, n) == fields(more, n),
    decreases n,
{
    if n > 0 {
        lemma_fields_push(list, more, (n - 1) as nat);
        assert(list[n - 1] == more[n - 1]);
    }
}

/// A list under construction.
pub struct ListBuilder {
    pub list: Vec<Json>,
}

impl View for ListBuilder {
    type V = Seq<Js>;

    open spec fn view(&self) -> Seq<Js> {
        items(self.list, self.list.len() as nat)
    }
}

impl ListBuilder {
    pub fn new() -> (r: ListBuilder)
        ensures
            r@ == Seq::<Js>::empty(),
    {
        ListBuilder { list: Vec::new() }
    }

    /// Add a value at the end.
    pub fn push(&mut self, value: Json)
        ensures
            final(self)@ == old(self)@.push(value@),
    {
        let ghost before = self.list;
        self.list.push(value);
        proof {
            lemma_items_push(before, self.list, before.len() as nat);
        }
    }

    pub fn finish(self) -> (r: Json)
        ensures
            r@ == Js::List(self@),
    {
        Json::List(self.list)
    }
}

/// An object under construction.
pub struct ObjectBuilder {
    pub list: Vec<Field>,
}

impl View for ObjectBuilder {
    type V = Seq<(Seq<char>, Js)>;

    open spec fn view(&self) -> Seq<(Seq<char>, Js)> {
        fields(self.list, self.list.len() as nat)
    }
}

impl ObjectBuilder {
    pub fn new() -> (r: ObjectBuilder)
        ensures
            r@ == Seq::<(Seq<char>, Js)>::empty(),
    {
        ObjectBuilder { list: Vec::new() }
    }

    /// Set a field.
    pub fn with(self, key: &str, value: Json) -> (r: ObjectBuilder)
        ensures
            r@ == self@.push((key@, value@)),
    {
        let mut b = self;
        let ghost before = b.list;
        b.list.push(Field { key: key.to_owned(), value });
        proof {
            lemma_fields_push(before, b.list, before.len() as nat);
        }
        b
    }

    /// Set a text field.
    pub fn text(self, key: &str, value: &str) -> (r: ObjectBuilder)
        ensures
            r@ == self@.push((key@, Js::Text(value@))),
    {
        self.with(key, Json::Text(value.to_owned()))
    }

    /// Set a field that is true or false.
    pub fn flag(self, key: &str, value: bool) -> (r: ObjectBuilder)
        ensures
            r@ == self@.push((key@, Js::Bool(value))),
    {
        self.with(key, Json::Bool(value))
    }

    /// Set a field that counts.
    pub fn count(self, key: &str, value: usize) -> (r: ObjectBuilder)
        ensures
            r@ == self@.push((key@, Js::Num(value as int))),
    {
        self.with(key, Json::Count(value as u64))
    }

    pub fn finish(self) -> (r: Json)
        ensures
            r@ == Js::Object(self@),
    {
        Json::Object(self.list)
    }
}

/// A text, or null.
pub open spec fn text_or_null(s: Option<String>) -> Js {
    match s {
        Some(x) => Js::Text(x@),
        None => Js::Null,
    }
}

/// A text, or null.
pub fn optional_text(s: &Option<String>) -> (r: Json)
    ensures
        r@ == text_or_null(*s),
{
    match s {
        Some(x) => Json::Text(x.clone()),
        None => Json::Null,
    }
}

/// A count, or null.
pub open spec fn count_or_null(n: Option<usize>) -> Js {
    match n {
        Some(x) => Js::Num(x as int),
        None => Js::Null,
    }
}

/// A count, or null.
pub fn optional_count(n: Option<usize>) -> (r: Json)
    ensures
        r@ == count_or_null(n),
{
    match n {
        Some(x) => Json::Count(x as u64),
        None => Json::Null,
    }
}

/// The texts of a list, as values.
pub open spec fn text_list(list: Seq<String>) -> Seq<Js> {
    Seq::new(list.len(), |i: int| Js::Text(list[i]@))
}

/// A list of texts.
pub fn list_of_texts(list: &Vec<String>) -> (r: Json)
    ensures
        r@ == Js::List(text_list(list@)),
{
    let mut out = ListBuilder::new();
    let mut i: usize = 0;
    while i < list.len()
        invariant
            i <= list.len(),
            out@ == text_list(list@).take(i as int),
        decreases list.len() - i,
    {
        out.push(Json::Text(list[i].clone()));
        i = i + 1;
        assert(out@ =~= text_list(list@).take(i as int));
    }
    assert(text_list(list@).take(list@.len() as int) =~= text_list(list@));
    out.finish()
}

// ── replies ──────────────────────────────────────────────────────────────
/// Where the first field of a name stands, from position `i` on.
pub open spec fn field_at(list: Seq<(Seq<char>, Js)>, key: Seq<char>, i: nat) -> Option<nat>
    decreases list.len() - i,
{
    if i >= list.len() {
        None
    } else if list[i as int].0 == key {
        Some(i)
    } else {
        field_at(list, key, i + 1)
    }
}

/// The fields with one set: in place of the one of that name, or behind them.
pub open spec fn with_field(list: Seq<(Seq<char>, Js)>, key: Seq<char>, field: Js) -> Seq<
    (Seq<char>, Js),
> {
    match field_at(list, key, 0) {
        Some(i) => list.update(i as int, (key, field)),
        None => list.push((key, field)),
    }
}

/// The fields with the first `n` of others set.
pub open spec fn with_fields(
    list: Seq<(Seq<char>, Js)>,
    more: Seq<(Seq<char>, Js)>,
    n: nat,
) -> Seq<(Seq<char>, Js)>
    decreases n,
{
    if n == 0 || n > more.len() {
        list
    } else {
        with_field(with_fields(list, more, (n - 1) as nat), more[n - 1].0, more[n - 1].1)
    }
}

proof fn lemma_fields_at(list: Vec<Field>, n: nat, i: int)
    requires
        0 <= i < n <= list.len(),
    ensures
        fields(list, n).len() == n,
        fields(list, n)[i] == (list[i].key@, list[i].value.model()),
    decreases n,
{
    reveal_with_fuel(fields, 2);
    if n > 1 {
        let k: int = if i < n - 1 {
            i
        } else {
            0
        };
        lemma_fields_at(list, (n - 1) as nat, k);
    }
}

fn find_field(list: &Vec<Field>, key: &str) -> (r: Option<usize>)
    ensures
        match r {
            Some(i) => i < list.len() && field_at(fields(*list, list.len() as nat), key@, 0) == Some(
                i as nat,
            ),
            None => field_at(fields(*list, list.len() as nat), key@, 0) is None,
        },
{
    let ghost all = fields(*list, list.len() as nat);
    let mut i: usize = 0;
    proof {
        if list.len() > 0 {
            lemma_fields_at(*list, list.len() as nat, 0);
        }
    }
    while i < list.len()
        invariant
            i <= list.len(),
            all == fields(*list, list.len() as nat),
            all.len() == list.len(),
            field_at(all, key@, i as nat) == field_at(all, key@, 0),
        decreases list.len() - i,
    {
        proof {
            lemma_fields_at(*list, list.len() as nat, i as int);
        }
        if is_text(list[i].key.as_str(), key) {
            return Some(i);
        }
        i = i + 1;
    }
    None
}

impl ObjectBuilder {
    /// Set a field: in place of the one of that name, or behind the others.
    pub fn put(self, key: &str, value: Json) -> (r: ObjectBuilder)
        ensures
            r@ == with_field(self@, key@, value@),
    {
        match find_field(&self.list, key) {
            None => self.with(key, value),
            Some(i) => {
                let mut b = self;
                let ghost before = b.list;
                let ghost field = value@;
                b.list.set(i, Field { key: key.to_owned(), value });
                proof {
                    lemma_fields_at(before, before.len() as nat, 0);
                    lemma_fields_at(b.list, b.list.len() as nat, 0);
                    assert forall|k: int| 0 <= k < before.len() implies #[trigger] b@[k]
                        == with_field(self@, key@, field)[k] by {
                        lemma_fields_at(before, before.len() as nat, k);
                        lemma_fields_at(b.list, b.list.len() as nat, k);
                    }
                    assert(b@ =~= with_field(self@, key@, field));
                }
                b
            },
        }
    }
}

/// Set a field of an object; any other value becomes a field itself.
pub open spec fn field_set(value: Js, key: Seq<char>, field: Js) -> Js {
    match value {
        Js::Object(list) => Js::Object(with_field(list, key, field)),
        other => Js::Object(with_field(no_fields().push(("value"@, other)), key, field)),
    }
}

/// Set a field of an object; any other value becomes a field itself.
pub fn insert_object_field(value: Json, key: &str, field: Json) -> (r: Json)
    ensures
        r@ == field_set(value@, key@, field@),
{
    match value {
        Json::Object(list) => {
            assert(value.model() == Js::Object(fields(list, list.len() as nat)));
            ObjectBuilder { list }.put(key, field).finish()
        },
        other => ObjectBuilder::new().with("value", other).put(key, field).finish(),
    }
}

/// The reply of a tool that succeeded.
pub open spec fn ok_reply(value: Js) -> Js {
    let head = no_fields().push(("ok"@, Js::Bool(true)));
    match value {
        Js::Object(list) => Js::Object(with_fields(head, list, list.len())),
        other => Js::Object(head.push(("value"@, other))),
    }
}

fn move_fields(list: Vec<Field>, out: ObjectBuilder) -> (r: ObjectBuilder)
    ensures
        r@ == with_fields(
            out@,
            fields(list, list.len() as nat),
            fields(list, list.len() as nat).len(),
        ),
{
    let ghost whole = list;
    let ghost all = fields(list, list.len() as nat);
    let ghost start = out@;
    let mut out = out;
    let mut rest = list;
    let mut moved: Vec<Field> = Vec::new();
    proof {
        if list.len() > 0 {
            lemma_fields_at(list, list.len() as nat, 0);
        }
    }
    while rest.len() > 0
        invariant
            rest.len() + moved.len() == whole.len(),
            forall|i: int| 0 <= i < rest.len() ==> rest[i] == whole[i],
            forall|i: int| 0 <= i < moved.len() ==> moved[i] == whole[whole.len() - 1 - i],
        decreases rest.len(),
    {
        match rest.pop() {
            None => {},
            Some(f) => {
                moved.push(f);
            },
        }
    }
    let mut done: usize = 0;
    while moved.len() > 0
        invariant
            done + moved.len() == whole.len(),
            all == fields(whole, whole.len() as nat),
            all.len() == whole.len(),
            forall|i: int| 0 <= i < moved.len() ==> moved[i] == whole[whole.len() - 1 - i],
            out@ == with_fields(start, all, done as nat),
        decreases moved.len(),
    {
        match moved.pop() {
            None => {},
            Some(f) => {
                assert(f == whole[done as int]);
                proof {
                    lemma_fields_at(whole, whole.len() as nat, done as int);
                }
                out = out.put(f.key.as_str(), f.value);
                done = done + 1;
            },
        }
    }
    out
}

/// The reply of a tool that succeeded: the value's fields behind `ok`.
pub fn tool_ok(value: Json) -> (r: Json)
    ensures
        r@ == ok_reply(value@),
{
    let head = ObjectBuilder::new().flag("ok", true);
    match value {
        Json::Object(list) => move_fields(list, head).finish(),
        other => head.with("value", other).finish(),
    }
}

/// The reply of a tool that failed.
pub open spec fn error_reply(code: Seq<char>, message: Seq<char>) -> Js {
    let error = Js::Object(
        no_fields().push(("code"@, Js::Text(code))).push(("message"@, Js::Text(message))),
    );
    Js::Object(no_fields().push(("ok"@, Js::Bool(false))).push(("error"@, error)))
}

/// The reply of a tool that failed.
pub fn tool_error(code: &str, message: &str) -> (r: Json)
    ensures
        r@ == error_reply(code@, message@),
{
    let error = ObjectBuilder::new().text("code", code).text("message", message).finish();
    ObjectBuilder::new().flag("ok", false).with("error", error).finish()
}

} // verus!
