//! What is proved of tuples of integers: a field that is read is the value that was
//! put there.
use crate::applying::goes_on;
use crate::ir::{Atom, Field, Type, ValueLayout};
use crate::layout::FieldRegion;
use crate::meaning::{extends, ready, run, word, Machine};
use crate::objects::{pointer_count, scalar_count, FieldVal};
use crate::programs::{atom_word, Vars};
use crate::running::{lemma_atom_word, models};
use crate::shape::{env_ready, lemma_atom, lemma_atom_ready, lemma_cell, lemma_extends};
use crate::state::St;
use crate::target::{Cmd, Val};
use std::rc::Rc;
use vstd::prelude::*;

verus! {

/// A layout of one scalar cell.
pub open spec fn one_cell(layout: ValueLayout) -> bool {
    layout.scalar_only() && layout.scalar_cells == 1
}

/// A field of one scalar cell.
pub open spec fn plain_field(f: Field) -> bool {
    one_cell(f.layout) && !(f.value is Str)
}

/// The fields as they are put into an object.
pub open spec fn put_vals(st: St, fields: Seq<Field>) -> Seq<FieldVal> {
    Seq::new(
        fields.len(),
        |i: int| FieldVal {
            value: st.atom(fields[i].value)->Ok_0.1,
            region: FieldRegion::Scalar { cells: 1 },
        },
    )
}

proof fn lemma_field_vals(st: St, fields: Seq<Field>, i: nat, done: Seq<FieldVal>)
    requires
        i <= fields.len(),
        forall|k: int| 0 <= k < fields.len() ==> plain_field(#[trigger] fields[k]),
        st.field_vals(fields, i, done) is Ok,
    ensures
        forall|k: int| i <= k < fields.len() ==> st.atom((#[trigger] fields[k]).value) is Ok,
        st.field_vals(fields, i, done)->Ok_0.0 == st,
        st.field_vals(fields, i, done)->Ok_0.1 == done + put_vals(st, fields).skip(i as int),
    decreases fields.len() - i,
{
    let vals = put_vals(st, fields);
    if i < fields.len() {
        assert(plain_field(fields[i as int]));
        lemma_atom(st, fields[i as int].value);
        assert(vals[i as int].value == st.atom(fields[i as int].value)->Ok_0.1);
        lemma_field_vals(st, fields, i + 1, done.push(vals[i as int]));
        assert(done.push(vals[i as int]) + vals.skip((i + 1) as int) =~= done + vals.skip(i as int));
    } else {
        assert(done + vals.skip(i as int) =~= done);
    }
}

/// Fields of one scalar cell each.
pub open spec fn all_cells(vals: Seq<FieldVal>) -> bool {
    forall|i: int|
        0 <= i < vals.len() ==> (#[trigger] vals[i]).region == (FieldRegion::Scalar { cells: 1 })
}

proof fn lemma_cell_counts(vals: Seq<FieldVal>, n: nat)
    requires
        all_cells(vals),
        n <= vals.len(),
    ensures
        scalar_count(vals, n) == n,
        pointer_count(vals, n) == 0,
    decreases n,
{
    if n > 0 {
        lemma_cell_counts(vals, (n - 1) as nat);
        assert(vals[n - 1].region == (FieldRegion::Scalar { cells: 1 }));
    }
}

/// The objects once the first `n` fields were put into the one at `obj`.
pub open spec fn with_fields(
    m: Machine,
    vals: Seq<FieldVal>,
    n: nat,
    obj: u64,
    objects: Map<(u64, u64), u64>,
) -> Map<(u64, u64), u64>
    decreases n,
{
    if n == 0 {
        objects
    } else {
        with_fields(m, vals, (n - 1) as nat, obj, objects).insert(
            (obj, (n - 1) as u64),
            m.value(vals[n - 1].value),
        )
    }
}

proof fn lemma_set_len(st: St, obj: Val, vals: Seq<FieldVal>, i: nat)
    requires
        i <= vals.len(),
        all_cells(vals),
        st.set_fields(obj, vals, i) is Ok,
    ensures
        st.set_fields(obj, vals, i)->Ok_0.script.len() == st.script.len() + 4 * (vals.len() - i),
        extends(st.set_fields(obj, vals, i)->Ok_0.script, st.script),
        i < vals.len() ==> st.set_fields(obj, vals, i) == st.gc_set_scalar(
            obj,
            i as u64,
            vals[i as int].value,
        ).set_fields(obj, vals, i + 1),
    decreases vals.len() - i,
{
    if i < vals.len() {
        let f = vals[i as int];
        assert(f.region == (FieldRegion::Scalar { cells: 1 }));
        lemma_cell_counts(vals, i);
        let next = st.gc_set_scalar(obj, i as u64, f.value);
        assert(st.set_words(obj, i, seq![f.value], 1) == next) by {
            reveal_with_fuel(St::set_words, 2);
        }
        lemma_set_len(next, obj, vals, i + 1);
        assert(extends(next.script, st.script));
        lemma_extends(st.script, next.script, st.set_fields(obj, vals, i)->Ok_0.script);
    }
}

/// Putting the fields into an object.
proof fn lemma_set_runs(
    start: St,
    st: St,
    obj: Val,
    vals: Seq<FieldVal>,
    i: nat,
    script: Seq<Cmd>,
    m0: Machine,
    m: Machine,
) -> (after: Machine)
    requires
        i <= vals.len(),
        all_cells(vals),
        ready(start, obj),
        forall|k: int| 0 <= k < vals.len() ==> ready(start, (#[trigger] vals[k]).value),
        start.script.len() <= st.script.len(),
        st.set_fields(obj, vals, i) is Ok,
        st.set_fields(obj, vals, i)->Ok_0.script.len() <= u64::MAX,
        extends(script, st.set_fields(obj, vals, i)->Ok_0.script),
        goes_on(m0, m, start.script.len() as int),
        m.objects == with_fields(m0, vals, i, m0.value(obj), m0.objects),
        m.mem == m0.mem,
    ensures
        run(script, st.script.len() as int, m) == run(
            script,
            st.set_fields(obj, vals, i)->Ok_0.script.len() as int,
            after,
        ),
        goes_on(m0, after, start.script.len() as int),
        after.objects == with_fields(m0, vals, vals.len(), m0.value(obj), m0.objects),
        after.mem == m0.mem,
    decreases vals.len() - i,
{
    if i < vals.len() {
        let n = st.script.len() as int;
        let v = vals[i as int].value;
        let end = st.set_fields(obj, vals, i)->Ok_0;
        let next = st.gc_set_scalar(obj, i as u64, v);
        lemma_set_len(st, obj, vals, i);
        lemma_set_len(next, obj, vals, i + 1);
        lemma_extends(next.script, end.script, script);
        assert(script[n] == next.script[n] && script[n + 1] == next.script[n + 1]);
        assert(script[n + 2] == next.script[n + 2] && script[n + 3] == next.script[n + 3]);
        reveal_strlit("llvm.trap");
        reveal_strlit("locus_gc_set_scalar");
        assert("locus_gc_set_scalar"@[1] != "llvm.trap"@[1]);
        let m1 = Machine { args: m.args.push(m.value(obj)), ..m };
        let m2 = Machine { args: m1.args.push(i as u64), ..m1 };
        let m3 = Machine { args: m2.args.push(m.value(v)), ..m2 };
        assert(run(script, n, m) == run(script, n + 1, m1));
        assert(run(script, n + 1, m1) == run(script, n + 2, m2));
        assert(m2.value(v) == m.value(v));
        assert(run(script, n + 2, m2) == run(script, n + 3, m3));
        assert(m3.args =~= seq![m.value(obj), i as u64, m.value(v)]);
        let m4 = Machine {
            objects: m.objects.insert((m.value(obj), i as u64), m.value(v)),
            args: Seq::empty(),
            ..m
        };
        assert(run(script, n + 3, m3) == run(script, n + 4, m4));
        assert(ready(start, v));
        assert(m.value(v) == m0.value(v));
        assert(m.value(obj) == m0.value(obj));
        assert(goes_on(m0, m4, start.script.len() as int));
        lemma_set_runs(start, next, obj, vals, i + 1, script, m0, m4)
    } else {
        m
    }
}

proof fn lemma_with_fields(
    m: Machine,
    vals: Seq<FieldVal>,
    n: nat,
    obj: u64,
    objects: Map<(u64, u64), u64>,
    x: (u64, u64),
)
    requires
        n <= vals.len() <= u64::MAX,
    ensures
        x.0 == obj && x.1 < n ==> with_fields(m, vals, n, obj, objects)[x] == m.value(
            vals[x.1 as int].value,
        ),
        x.0 != obj || x.1 >= n ==> with_fields(m, vals, n, obj, objects)[x] == objects[x],
    decreases n,
{
    if n > 0 {
        lemma_with_fields(m, vals, (n - 1) as nat, obj, objects, x);
    }
}

/// A tuple of integers is an object whose scalar cells hold the words of its fields,
/// in their order. Other objects keep theirs.
pub proof fn a_tuple_holds_its_fields(
    st: St,
    fields: Seq<Field>,
    vars: Vars,
    script: Seq<Cmd>,
    m: Machine,
) -> (after: Machine)
    requires
        forall|k: int| 0 <= k < fields.len() ==> plain_field(#[trigger] fields[k]),
        env_ready(st),
        models(st, m, vars),
        st.tuple(fields) is Ok,
        st.script.len() + 64 <= u64::MAX,
        st.tuple(fields)->Ok_0.0.script.len() <= u64::MAX,
        extends(script, st.tuple(fields)->Ok_0.0.script),
    ensures
        ({
            let (end, obj) = st.tuple(fields)->Ok_0;
            let h = after.value(obj);
            &&& run(script, st.script.len() as int, m) == run(script, end.script.len() as int, after)
            &&& goes_on(m, after, st.script.len() as int)
            &&& after.mem == m.mem
            &&& forall|i: int|
                0 <= i < fields.len() ==> after.objects[(h, i as u64)] == atom_word(
                    (#[trigger] fields[i]).value,
                    vars,
                )
            &&& forall|x: (u64, u64)|
                x.0 != h || x.1 >= fields.len() ==> #[trigger] after.objects[x] == m.objects[x]
        }),
{
    let n = st.script.len() as int;
    let vals = put_vals(st, fields);
    lemma_field_vals(st, fields, 0, Seq::empty());
    assert(Seq::<FieldVal>::empty() + vals.skip(0) =~= vals);
    lemma_cell_counts(vals, vals.len());
    let (begun, obj) = st.gc_alloc(0, fields.len() as u64);
    let end = begun.set_fields(obj, vals, 0)->Ok_0;
    lemma_set_len(begun, obj, vals, 0);
    assert(st.tuple(fields)->Ok_0 == (end, obj));
    lemma_extends(begun.script, end.script, script);
    assert(script[n] == begun.script[n] && script[n + 1] == begun.script[n + 1] && script[n + 2]
        == begun.script[n + 2]);
    reveal_strlit("llvm.trap");
    reveal_strlit("locus_gc_alloc");
    reveal_strlit("locus_gc_get_scalar");
    reveal_strlit("llvm.sadd.with.overflow.i64");
    reveal_strlit("llvm.ssub.with.overflow.i64");
    reveal_strlit("llvm.smul.with.overflow.i64");
    assert("locus_gc_alloc"@[1] != "llvm.trap"@[1]);
    assert("locus_gc_alloc"@[1] != "llvm.sadd.with.overflow.i64"@[1]);
    assert("locus_gc_alloc"@[1] != "llvm.ssub.with.overflow.i64"@[1]);
    assert("locus_gc_alloc"@[1] != "llvm.smul.with.overflow.i64"@[1]);
    assert("locus_gc_alloc"@[9] != "locus_gc_get_scalar"@[9]);
    let m1 = Machine { args: m.args.push(0), ..m };
    let m2 = Machine { args: m1.args.push(fields.len() as u64), ..m1 };
    assert(run(script, n, m) == run(script, n + 1, m1));
    assert(run(script, n + 1, m1) == run(script, n + 2, m2));
    let h = (m.room)(word(m2.args[0] + m2.args[1]), m.store());
    let m3 = m2.back(n + 2, h, m.store());
    assert(run(script, n + 2, m2) == run(script, n + 3, m3));
    assert forall|k: int| 0 <= k < vals.len() implies ready(begun, (#[trigger] vals[k]).value)
        && m3.value(vals[k].value) == atom_word(fields[k].value, vars) by {
        assert(plain_field(fields[k]));
        lemma_atom_ready(st, fields[k].value);
        lemma_atom_word(st, fields[k].value, m, vars);
    }
    let after = lemma_set_runs(begun, begun, obj, vals, 0, script, m3, m3);
    assert(goes_on(m, after, n)) by {
        assert forall|i: u64| i < n implies after.regs[i] == #[trigger] m.regs[i] by {
            assert(m3.regs[i] == m.regs[i]);
        }
    }
    assert(after.value(obj) == h);
    assert forall|i: int| 0 <= i < fields.len() implies after.objects[(h, i as u64)] == atom_word(
        (#[trigger] fields[i]).value,
        vars,
    ) by {
        lemma_with_fields(m3, vals, vals.len(), h, m3.objects, (h, i as u64));
        assert(vals[i].value == st.atom(fields[i].value)->Ok_0.1);
    }
    assert forall|x: (u64, u64)| x.0 != h || x.1 >= fields.len() implies #[trigger] after.objects[x]
        == m.objects[x] by {
        lemma_with_fields(m3, vals, vals.len(), h, m3.objects, x);
    }
    after
}

/// A projection of one scalar cell gives the word that the object holds there.
pub proof fn a_projection_gives_the_field(
    st: St,
    tup: Atom,
    slot: usize,
    layout: ValueLayout,
    ty: Rc<Type>,
    vars: Vars,
    script: Seq<Cmd>,
    m: Machine,
) -> (after: Machine)
    requires
        !(tup is Str),
        one_cell(layout),
        env_ready(st),
        models(st, m, vars),
        st.proj(tup, slot, layout, ty) is Ok,
        st.script.len() + 64 <= u64::MAX,
        extends(script, st.proj(tup, slot, layout, ty)->Ok_0.0.script),
    ensures
        ({
            let (end, v) = st.proj(tup, slot, layout, ty)->Ok_0;
            &&& run(script, st.script.len() as int, m) == run(script, end.script.len() as int, after)
            &&& goes_on(m, after, st.script.len() as int)
            &&& after.store() == m.store()
            &&& after.value(v) == m.objects[(atom_word(tup, vars), slot as u64)]
        }),
{
    let n = st.script.len() as int;
    lemma_cell(st, tup, "managed object handle");
    lemma_atom_word(st, tup, m, vars);
    let obj = st.atom(tup)->Ok_0.1;
    let (end, v) = st.gc_get_scalar(obj, slot as u64);
    assert(st.get_words(obj, slot as nat, 1) == (end, seq![v])) by {
        reveal_with_fuel(St::get_words, 2);
        assert(Seq::<Val>::empty().push(v) =~= seq![v]);
    }
    assert(st.proj(tup, slot, layout, ty)->Ok_0 == (end, v));
    assert(script[n] == end.script[n] && script[n + 1] == end.script[n + 1] && script[n + 2]
        == end.script[n + 2]);
    reveal_strlit("llvm.trap");
    reveal_strlit("locus_gc_get_scalar");
    reveal_strlit("llvm.sadd.with.overflow.i64");
    reveal_strlit("llvm.ssub.with.overflow.i64");
    reveal_strlit("llvm.smul.with.overflow.i64");
    assert("locus_gc_get_scalar"@[1] != "llvm.trap"@[1]);
    assert("locus_gc_get_scalar"@[1] != "llvm.sadd.with.overflow.i64"@[1]);
    assert("locus_gc_get_scalar"@[1] != "llvm.ssub.with.overflow.i64"@[1]);
    assert("locus_gc_get_scalar"@[1] != "llvm.smul.with.overflow.i64"@[1]);
    let m1 = Machine { args: m.args.push(m.value(obj)), ..m };
    let m2 = Machine { args: m1.args.push(slot as u64), ..m1 };
    assert(run(script, n, m) == run(script, n + 1, m1));
    assert(run(script, n + 1, m1) == run(script, n + 2, m2));
    let m3 = m2.back(n + 2, m2.objects[(m2.args[0], m2.args[1])], m2.store());
    assert(run(script, n + 2, m2) == run(script, n + 3, m3));
    m3
}

} // verus!
