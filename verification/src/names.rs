//! Lists of names, compared by their characters.
use vstd::prelude::*;

verus! {

/// Some entry of the list is the name `x`.
pub open spec fn has_name(list: Seq<String>, x: Seq<char>) -> bool {
    exists|i: int| 0 <= i < list.len() && (#[trigger] list[i])@ == x
}

/// The set of the names in a list.
pub open spec fn name_set(list: Seq<String>) -> Set<Seq<char>> {
    Set::new(|x: Seq<char>| has_name(list, x))
}

/// Whether the list holds the name.
pub fn contains_name(list: &Vec<String>, x: &String) -> (r: bool)
    ensures
        r == has_name(list@, x@),
        r == name_set(list@).contains(x@),
{
    let mut i: usize = 0;
    while i < list.len()
        invariant
            i <= list.len(),
            forall|j: int| 0 <= j < i ==> (#[trigger] list@[j])@ != x@,
        decreases list.len() - i,
    {
        if list[i] == *x {
            assert(list@[i as int]@ == x@);
            return true;
        }
        i = i + 1;
    }
    false
}

/// A list with one more name has one more name in its set.
pub proof fn lemma_push_name(list: Seq<String>, x: String)
    ensures
        name_set(list.push(x)) == name_set(list).insert(x@),
{
    assert forall|y: Seq<char>| name_set(list.push(x)).contains(y) == name_set(list).insert(
        x@,
    ).contains(y) by {
        if has_name(list, y) {
            let i = choose|i: int| 0 <= i < list.len() && (#[trigger] list[i])@ == y;
            assert(list.push(x)[i]@ == y);
        }
        if y == x@ {
            assert(list.push(x)[list.len() as int]@ == y);
        }
        if has_name(list.push(x), y) {
            let i = choose|i: int|
                0 <= i < list.push(x).len() && (#[trigger] list.push(x)[i])@ == y;
            if i < list.len() {
                assert(list[i]@ == y);
            }
        }
    }
    assert(name_set(list.push(x)) =~= name_set(list).insert(x@));
}

/// The list with `x` at its end, unless it holds that name already.
pub open spec fn add_name(list: Seq<String>, x: String) -> Seq<String> {
    if has_name(list, x@) {
        list
    } else {
        list.push(x)
    }
}

/// The list after each of `more` was added in turn.
pub open spec fn add_names(list: Seq<String>, more: Seq<String>) -> Seq<String>
    decreases more.len(),
{
    if more.len() == 0 {
        list
    } else {
        add_name(add_names(list, more.drop_last()), more.last())
    }
}

/// Adding two lists in turn is adding their concatenation.
pub broadcast proof fn lemma_add_names_concat(list: Seq<String>, a: Seq<String>, b: Seq<String>)
    ensures
        #[trigger] add_names(list, a + b) == add_names(add_names(list, a), b),
    decreases b.len(),
{
    if b.len() == 0 {
        assert(a + b =~= a);
    } else {
        lemma_add_names_concat(list, a, b.drop_last());
        assert((a + b).drop_last() =~= a + b.drop_last());
    }
}

/// What a list of added names holds: the old names and the new ones.
pub proof fn lemma_add_names_set(list: Seq<String>, more: Seq<String>)
    ensures
        name_set(add_names(list, more)) == name_set(list).union(name_set(more)),
    decreases more.len(),
{
    if more.len() == 0 {
        assert(name_set(more) =~= Set::<Seq<char>>::empty());
        assert(name_set(list).union(name_set(more)) =~= name_set(list));
    } else {
        let rest = more.drop_last();
        let x = more.last();
        lemma_add_names_set(list, rest);
        lemma_push_name(rest, x);
        assert(rest.push(x) =~= more);
        let mid = add_names(list, rest);
        lemma_push_name(mid, x);
        if has_name(mid, x@) {
            assert(name_set(mid).contains(x@));
            assert(name_set(mid).insert(x@) =~= name_set(mid));
        }
        assert(name_set(list).union(name_set(rest)).insert(x@) =~= name_set(list).union(
            name_set(more),
        ));
    }
}

/// Characters in dictionary order: the order of their code points, a proper
/// prefix first.
pub open spec fn name_lt(a: Seq<char>, b: Seq<char>) -> bool
    decreases a.len(),
{
    if b.len() == 0 {
        false
    } else if a.len() == 0 {
        true
    } else if a[0] == b[0] {
        name_lt(a.drop_first(), b.drop_first())
    } else {
        (a[0] as int) < (b[0] as int)
    }
}

proof fn lemma_lt_skip(a: Seq<char>, b: Seq<char>, n: int)
    requires
        0 <= n <= a.len(),
        n <= b.len(),
        forall|j: int| 0 <= j < n ==> a[j] == b[j],
    ensures
        name_lt(a, b) == name_lt(a.skip(n), b.skip(n)),
    decreases n,
{
    if n == 0 {
        assert(a.skip(0) =~= a);
        assert(b.skip(0) =~= b);
    } else {
        assert forall|j: int| 0 <= j < n - 1 implies a.drop_first()[j] == b.drop_first()[j] by {
            assert(a[j + 1] == b[j + 1]);
        }
        lemma_lt_skip(a.drop_first(), b.drop_first(), n - 1);
        assert(a.drop_first().skip(n - 1) =~= a.skip(n));
        assert(b.drop_first().skip(n - 1) =~= b.skip(n));
    }
}

/// The order is irreflexive.
pub proof fn lemma_lt_irreflexive(a: Seq<char>)
    ensures
        !name_lt(a, a),
    decreases a.len(),
{
    if a.len() > 0 {
        lemma_lt_irreflexive(a.drop_first());
    }
}

/// The order is transitive.
pub proof fn lemma_lt_transitive(a: Seq<char>, b: Seq<char>, c: Seq<char>)
    requires
        name_lt(a, b),
        name_lt(b, c),
    ensures
        name_lt(a, c),
    decreases a.len(),
{
    if a.len() > 0 && a[0] == b[0] && b[0] == c[0] {
        lemma_lt_transitive(a.drop_first(), b.drop_first(), c.drop_first());
    }
}

/// Two different names are in order one way or the other.
pub proof fn lemma_lt_total(a: Seq<char>, b: Seq<char>)
    ensures
        a == b || name_lt(a, b) || name_lt(b, a),
    decreases a.len(),
{
    if a.len() > 0 && b.len() > 0 && a[0] == b[0] {
        lemma_lt_total(a.drop_first(), b.drop_first());
        if a.drop_first() == b.drop_first() {
            assert(a =~= seq![a[0]] + a.drop_first());
            assert(b =~= seq![b[0]] + b.drop_first());
        }
    } else if a.len() == 0 && b.len() == 0 {
        assert(a =~= b);
    }
}

/// Whether `a` comes before `b` in dictionary order.
pub fn name_before(a: &String, b: &String) -> (r: bool)
    ensures
        r == name_lt(a@, b@),
{
    let x = a.as_str();
    let y = b.as_str();
    let n: usize = x.unicode_len();
    let m: usize = y.unicode_len();
    let mut i: usize = 0;
    while i < n && i < m
        invariant
            i <= n,
            i <= m,
            n == a@.len(),
            m == b@.len(),
            x@ == a@,
            y@ == b@,
            forall|j: int| 0 <= j < i ==> a@[j] == b@[j],
        decreases n - i,
    {
        let c = x.get_char(i);
        let d = y.get_char(i);
        if c != d {
            proof {
                lemma_lt_skip(a@, b@, i as int);
                assert(a@.skip(i as int)[0] == c);
                assert(b@.skip(i as int)[0] == d);
            }
            return (c as u32) < (d as u32);
        }
        i = i + 1;
    }
    proof {
        lemma_lt_skip(a@, b@, i as int);
    }
    n < m
}

/// Each name comes before every later one: sorted, and none twice.
pub open spec fn strictly_sorted(list: Seq<String>) -> bool {
    forall|i: int, j: int|
        0 <= i < j < list.len() ==> name_lt((#[trigger] list[i])@, (#[trigger] list[j])@)
}

/// The number of names of the list that come before `x`.
pub open spec fn rank(list: Seq<String>, x: Seq<char>) -> nat
    decreases list.len(),
{
    if list.len() == 0 {
        0
    } else {
        rank(list.drop_last(), x) + if name_lt(list.last()@, x) {
            1nat
        } else {
            0nat
        }
    }
}

/// The sorted list with `x` in its place, unless it holds that name already.
pub open spec fn insert_name(list: Seq<String>, x: String) -> Seq<String> {
    if has_name(list, x@) {
        list
    } else {
        list.insert(rank(list, x@) as int, x)
    }
}

/// The names of `more`, sorted, each once.
pub open spec fn sorted_names(more: Seq<String>) -> Seq<String>
    decreases more.len(),
{
    if more.len() == 0 {
        Seq::empty()
    } else {
        insert_name(sorted_names(more.drop_last()), more.last())
    }
}

pub(crate) proof fn lemma_rank_bounds(list: Seq<String>, x: Seq<char>)
    ensures
        rank(list, x) <= list.len(),
    decreases list.len(),
{
    if list.len() > 0 {
        lemma_rank_bounds(list.drop_last(), x);
    }
}

proof fn lemma_rank_splits(list: Seq<String>, x: Seq<char>, k: int)
    requires
        0 <= k <= list.len(),
        forall|i: int| 0 <= i < k ==> name_lt((#[trigger] list[i])@, x),
        forall|i: int| k <= i < list.len() ==> !name_lt((#[trigger] list[i])@, x),
    ensures
        rank(list, x) == k,
    decreases list.len(),
{
    if list.len() > 0 {
        let rest = list.drop_last();
        if k == list.len() {
            assert(name_lt(list[k - 1]@, x));
            lemma_rank_splits(rest, x, k - 1);
        } else {
            assert(!name_lt(list[list.len() - 1]@, x));
            lemma_rank_splits(rest, x, k);
        }
    }
}

/// Put a name in its place in a sorted list, unless it is there already.
pub fn insert_sorted(list: &mut Vec<String>, x: &String)
    requires
        strictly_sorted(old(list)@),
    ensures
        final(list)@ == insert_name(old(list)@, *x),
{
    if contains_name(list, x) {
        return;
    }
    let mut k: usize = 0;
    while k < list.len() && name_before(&list[k], x)
        invariant
            k <= list.len(),
            list@ == old(list)@,
            forall|i: int| 0 <= i < k ==> name_lt((#[trigger] list@[i])@, x@),
        decreases list.len() - k,
    {
        k = k + 1;
    }
    proof {
        assert forall|i: int| k <= i < list@.len() implies !name_lt((#[trigger] list@[i])@, x@) by {
            if i > k && name_lt(list@[i]@, x@) {
                lemma_lt_transitive(list@[k as int]@, list@[i]@, x@);
            }
        }
        lemma_rank_splits(list@, x@, k as int);
    }
    list.insert(k, x.clone());
}

proof fn lemma_insert_name(list: Seq<String>, x: String)
    requires
        strictly_sorted(list),
    ensures
        strictly_sorted(insert_name(list, x)),
        name_set(insert_name(list, x)) == name_set(list).insert(x@),
{
    if has_name(list, x@) {
        assert(name_set(list).contains(x@));
        assert(name_set(list).insert(x@) =~= name_set(list));
    } else {
        let k = lemma_place(list, x@);
        lemma_rank_splits(list, x@, k);
        let out = list.insert(k, x);
        assert forall|i: int, j: int| 0 <= i < j < out.len() implies name_lt(
            (#[trigger] out[i])@,
            (#[trigger] out[j])@,
        ) by {
            let a = if i < k { i } else { i - 1 };
            let b = if j < k { j } else { j - 1 };
            if i != k && j != k {
                assert(out[i] == list[a] && out[j] == list[b]);
            } else if i == k {
                assert(out[j] == list[b]);
                lemma_lt_total(list[b]@, x@);
                assert(!name_lt(list[b]@, x@));
            } else {
                assert(out[i] == list[a]);
            }
        }
        assert forall|y: Seq<char>| name_set(out).contains(y) == name_set(list).insert(
            x@,
        ).contains(y) by {
            if has_name(list, y) {
                let i = choose|i: int| 0 <= i < list.len() && (#[trigger] list[i])@ == y;
                if i < k {
                    assert(out[i]@ == y);
                } else {
                    assert(out[i + 1]@ == y);
                }
            }
            if y == x@ {
                assert(out[k]@ == y);
            }
            if has_name(out, y) {
                let i = choose|i: int| 0 <= i < out.len() && (#[trigger] out[i])@ == y;
                if i < k {
                    assert(list[i]@ == y);
                } else if i > k {
                    assert(list[i - 1]@ == y);
                }
            }
        }
        assert(name_set(out) =~= name_set(list).insert(x@));
    }
}

/// The place of a name in a sorted list.
proof fn lemma_place(list: Seq<String>, x: Seq<char>) -> (k: int)
    requires
        strictly_sorted(list),
    ensures
        0 <= k <= list.len(),
        forall|i: int| 0 <= i < k ==> name_lt((#[trigger] list[i])@, x),
        forall|i: int| k <= i < list.len() ==> !name_lt((#[trigger] list[i])@, x),
    decreases list.len(),
{
    if list.len() == 0 {
        0
    } else {
        let rest = list.drop_last();
        assert forall|i: int, j: int| 0 <= i < j < rest.len() implies name_lt(
            (#[trigger] rest[i])@,
            (#[trigger] rest[j])@,
        ) by {
            assert(rest[i] == list[i] && rest[j] == list[j]);
        }
        let k = lemma_place(rest, x);
        assert forall|i: int| 0 <= i < k implies name_lt((#[trigger] list[i])@, x) by {
            assert(rest[i] == list[i]);
        }
        assert forall|i: int| k <= i < rest.len() implies !name_lt((#[trigger] list[i])@, x) by {
            assert(rest[i] == list[i]);
        }
        if k == rest.len() && name_lt(list.last()@, x) {
            k + 1
        } else {
            if name_lt(list.last()@, x) {
                assert(rest[k] == list[k]);
                lemma_lt_transitive(list[k]@, list.last()@, x);
            }
            k
        }
    }
}

/// A sorted list of names is strictly sorted and holds the same names.
pub proof fn sorted_names_is_sorted(more: Seq<String>)
    ensures
        strictly_sorted(sorted_names(more)),
        name_set(sorted_names(more)) == name_set(more),
    decreases more.len(),
{
    if more.len() == 0 {
        assert(name_set(sorted_names(more)) =~= name_set(more));
    } else {
        sorted_names_is_sorted(more.drop_last());
        lemma_insert_name(sorted_names(more.drop_last()), more.last());
        lemma_push_name(more.drop_last(), more.last());
        assert(more.drop_last().push(more.last()) =~= more);
    }
}

/// The names of a list, sorted, each once.
pub fn sort_names(more: &Vec<String>) -> (r: Vec<String>)
    ensures
        r@ == sorted_names(more@),
{
    let mut out: Vec<String> = Vec::new();
    let mut i: usize = 0;
    while i < more.len()
        invariant
            i <= more.len(),
            out@ == sorted_names(more@.take(i as int)),
        decreases more.len() - i,
    {
        proof {
            sorted_names_is_sorted(more@.take(i as int));
            assert(more@.take(i + 1).drop_last() =~= more@.take(i as int));
        }
        insert_sorted(&mut out, &more[i]);
        i = i + 1;
    }
    assert(more@.take(i as int) =~= more@);
    out
}

} // verus!
