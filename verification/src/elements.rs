//! What is proved of arrays of eight-byte elements that go through the runtime: a literal
//! has its elements, a read gives the element, a write replaces it.
use crate::error::{CodegenError, Context};
use crate::floats::{further, lemma_at_once, operand, operand_val, scalar_intrinsic};
use crate::ir::{Atom, Type, ValueLayout};
use crate::lanes::{cell_at_hand, cells_at_hand};
use crate::layout::{elem_layout_of, ArrayElemLayout};
use crate::masks::lemma_prefix;
use crate::meaning::{calls, extends, ready, run, word, Machine};
use crate::state::St;
use crate::storing::{carries_on, lemma_names, lemma_set};
use crate::target::{constant, Cmd, Val};
use std::rc::Rc;
use vstd::prelude::*;

verus! {

/// Elements of the layout are of eight bytes, and no pointers.
pub open spec fn eight_bytes(layout: ValueLayout) -> bool {
    layout.scalar_only() && layout.byte_width == 8
}

/// The number of elements of an array.
pub open spec fn elements(m: Machine, arr: u64) -> u64 {
    m.objects[(arr, 0)]
}

/// An element of an array.
pub open spec fn element(m: Machine, arr: u64, i: int) -> u64 {
    m.objects[(arr, (1 + i) as u64)]
}

proof fn lemma_array_names()
    ensures
        forall|m: Machine, at: int| #[trigger] calls(m, at, "locus_gc_len"@) is None,
        forall|m: Machine, at: int| #[trigger]
            calls(m, at, "locus_gc_array_get_scalar_bytes"@) is None,
        forall|m: Machine, at: int| #[trigger]
            calls(m, at, "locus_gc_array_set_scalar_bytes"@) is None,
        forall|m: Machine, at: int| #[trigger] scalar_intrinsic(m, at, "locus_gc_len"@) is None,
        forall|m: Machine, at: int| #[trigger]
            scalar_intrinsic(m, at, "locus_gc_array_get_scalar_bytes"@) is None,
        forall|m: Machine, at: int| #[trigger]
            scalar_intrinsic(m, at, "locus_gc_array_set_scalar_bytes"@) is None,
        "locus_gc_len"@ != "llvm.trap"@,
        "locus_gc_array_get_scalar_bytes"@ != "llvm.trap"@,
        "locus_gc_array_set_scalar_bytes"@ != "llvm.trap"@,
{
    reveal_strlit("locus_alloc");
    reveal_strlit("locus_gc_scalar_fields_ptr");
    reveal_strlit("locus_gc_set_scalar");
    reveal_strlit("locus_gc_get_scalar");
    reveal_strlit("locus_gc_alloc");
    reveal_strlit("llvm.sadd.with.overflow.i64");
    reveal_strlit("llvm.ssub.with.overflow.i64");
    reveal_strlit("llvm.smul.with.overflow.i64");
    reveal_strlit("llvm.trap");
    reveal_strlit("llvm.floor.f64");
    reveal_strlit("llvm.round.f64");
    reveal_strlit("llvm.sqrt.f64");
    reveal_strlit("llvm.sqrt.f32");
    reveal_strlit("llvm.fma.f64");
    reveal_strlit("llvm.fma.f32");
    reveal_strlit("locus_gc_len");
    reveal_strlit("locus_gc_array_get_scalar_bytes");
    reveal_strlit("locus_gc_array_set_scalar_bytes");
    assert("locus_gc_len"@.len() == 12 && "locus_gc_len"@[1] == 'o');
    assert("locus_gc_array_get_scalar_bytes"@.len() == 31);
    assert("locus_gc_array_set_scalar_bytes"@.len() == 31);
    assert("locus_alloc"@.len() == 11 && "locus_gc_scalar_fields_ptr"@.len() == 26);
    assert("locus_gc_set_scalar"@.len() == 19 && "locus_gc_get_scalar"@.len() == 19);
    assert("llvm.fma.f64"@[1] == 'l' && "llvm.fma.f32"@[1] == 'l');
    assert("llvm.trap"@.len() == 9);
}

/// The length of an array is the number of its elements.
pub proof fn a_length_is_the_number_of_elements(st: St, arr: Atom, script: Seq<Cmd>, m: Machine) -> (after:
    Machine)
    requires
        st.script.len() + 64 <= u64::MAX,
        cell_at_hand(st, arr),
        st.borrowed(arr) is None,
        m.args.len() == 0,
        st.len_of(arr) matches Ok((end, _)) ==> extends(script, end.script),
    ensures
        st.len_of(arr) matches Ok((end, v)) && carries_on(
            script,
            st.script.len() as int,
            m,
            end.script.len() as int,
            after,
        ) && after.value(v) == elements(m, operand(st, m, arr)) && after.store() == m.store(),
{
    lemma_at_once(st, m, arr, "array handle");
    lemma_array_names();
    let n = st.script.len() as int;
    let end = st.len_of(arr)->Ok_0.0;
    let h = operand(st, m, arr);
    assert(script[n] == end.script[n] && script[n + 1] == end.script[n + 1]);
    let m1 = Machine { args: m.args.push(h), ..m };
    let after = Machine { args: Seq::empty(), ..m1.set(n + 1, elements(m, h)) };
    assert(m.args =~= Seq::<u64>::empty());
    assert(run(script, n, m) == run(script, n + 1, m1));
    assert(further(script, n + 1, m1) == Some(after)) by {
        reveal(further);
    }
    assert(run(script, n + 1, m1) == run(script, n + 2, after));
    after
}

/// What is read at an index inside an array is the element of that index.
pub proof fn an_array_read_through_the_runtime_gives_the_element(
    st: St,
    arr: Atom,
    idx: Atom,
    layout: ValueLayout,
    ty: Rc<Type>,
    script: Seq<Cmd>,
    m: Machine,
) -> (after: Machine)
    requires
        st.script.len() + 64 <= u64::MAX,
        cell_at_hand(st, arr),
        cell_at_hand(st, idx),
        eight_bytes(layout),
        st.borrowed(arr) is None,
        m.args.len() == 0,
        operand(st, m, idx) < elements(m, operand(st, m, arr)) < 0x8000_0000_0000_0000,
        st.array_get(arr, idx, layout, ty) matches Ok((end, _)) ==> extends(script, end.script),
    ensures
        st.array_get(arr, idx, layout, ty) matches Ok((end, v)) && carries_on(
            script,
            st.script.len() as int,
            m,
            end.script.len() as int,
            after,
        ) && after.value(v) == element(m, operand(st, m, arr), operand(st, m, idx) as int)
            && after.store() == m.store(),
{
    lemma_at_once(st, m, arr, "array handle");
    lemma_at_once(st, m, idx, "array index");
    lemma_array_names();
    let n = st.script.len() as int;
    let end = st.array_get(arr, idx, layout, ty)->Ok_0.0;
    let h = operand(st, m, arr);
    let i = operand(st, m, idx);
    assert(script[n] == end.script[n] && script[n + 1] == end.script[n + 1] && script[n + 2]
        == end.script[n + 2] && script[n + 3] == end.script[n + 3]);
    let m1 = Machine { args: m.args.push(h), ..m };
    let m2 = Machine { args: m1.args.push(i), ..m1 };
    let m3 = Machine { args: m2.args.push(8), ..m2 };
    let after = Machine { args: Seq::empty(), ..m3.set(n + 3, element(m, h, i as int)) };
    assert(m.args =~= Seq::<u64>::empty());
    assert(run(script, n, m) == run(script, n + 1, m1));
    assert(run(script, n + 1, m1) == run(script, n + 2, m2));
    assert(run(script, n + 2, m2) == run(script, n + 3, m3));
    assert(further(script, n + 3, m3) == Some(after)) by {
        reveal(further);
    }
    assert(run(script, n + 3, m3) == run(script, n + 4, after));
    after
}

/// One element is written.
proof fn lemma_written(st: St, arr: Val, index: Val, v: Val, script: Seq<Cmd>, m: Machine) -> (after:
    Machine)
    requires
        st.script.len() + 16 <= u64::MAX,
        v.ty is I64,
        m.args.len() == 0,
        m.value(index) < elements(m, m.value(arr)) < 0x8000_0000_0000_0000,
        extends(
            script,
            st.arg(arr).arg(index).arg(constant(8)).arg(v).call_void(
                "locus_gc_array_set_scalar_bytes",
            ).script,
        ),
    ensures
        carries_on(script, st.script.len() as int, m, st.script.len() as int + 5, after),
        after.objects == m.objects.insert(
            (m.value(arr), (1 + m.value(index)) as u64),
            m.value(v),
        ),
        after.mem == m.mem,
        after.regs == m.regs,
{
    lemma_array_names();
    let n = st.script.len() as int;
    let end = st.arg(arr).arg(index).arg(constant(8)).arg(v).call_void(
        "locus_gc_array_set_scalar_bytes",
    );
    assert(script[n] == end.script[n] && script[n + 1] == end.script[n + 1] && script[n + 2]
        == end.script[n + 2] && script[n + 3] == end.script[n + 3] && script[n + 4]
        == end.script[n + 4]);
    let m1 = Machine { args: m.args.push(m.value(arr)), ..m };
    let m2 = Machine { args: m1.args.push(m.value(index)), ..m1 };
    let m3 = Machine { args: m2.args.push(8), ..m2 };
    let m4 = Machine { args: m3.args.push(m.value(v)), ..m3 };
    let after = Machine {
        objects: m.objects.insert((m.value(arr), (1 + m.value(index)) as u64), m.value(v)),
        args: Seq::empty(),
        ..m4
    };
    assert(m.args =~= Seq::<u64>::empty());
    assert(run(script, n, m) == run(script, n + 1, m1));
    assert(run(script, n + 1, m1) == run(script, n + 2, m2));
    assert(run(script, n + 2, m2) == run(script, n + 3, m3));
    assert(run(script, n + 3, m3) == run(script, n + 4, m4));
    assert(further(script, n + 4, m4) == Some(after)) by {
        reveal(further);
    }
    assert(run(script, n + 4, m4) == run(script, n + 5, after));
    after
}

/// What is written at an index inside an array is its element then; every other element
/// and every other array stays.
pub proof fn an_array_write_through_the_runtime_replaces_the_element(
    st: St,
    arr: Atom,
    idx: Atom,
    val: Atom,
    layout: ValueLayout,
    script: Seq<Cmd>,
    m: Machine,
) -> (after: Machine)
    requires
        st.script.len() + 64 <= u64::MAX,
        cell_at_hand(st, arr),
        cell_at_hand(st, idx),
        cell_at_hand(st, val),
        eight_bytes(layout),
        st.borrowed(arr) is None,
        m.args.len() == 0,
        operand(st, m, idx) < elements(m, operand(st, m, arr)) < 0x8000_0000_0000_0000,
        st.array_set(arr, idx, val, layout) matches Ok((end, _)) ==> extends(script, end.script),
    ensures
        st.array_set(arr, idx, val, layout) matches Ok((end, v)) && carries_on(
            script,
            st.script.len() as int,
            m,
            end.script.len() as int,
            after,
        ) && element(after, operand(st, m, arr), operand(st, m, idx) as int) == operand(st, m, val)
            && (forall|h: u64, i: u64|
            h != operand(st, m, arr) || i != operand(st, m, idx) + 1 ==> #[trigger] after.objects[(
                h,
                i,
            )] == m.objects[(h, i)]) && after.mem == m.mem,
{
    lemma_at_once(st, m, arr, "array handle");
    lemma_at_once(st, m, idx, "array index");
    lemma_at_once(st, m, val, "array element");
    lemma_written(
        st,
        operand_val(st, arr),
        operand_val(st, idx),
        operand_val(st, val),
        script,
        m,
    )
}

// ── literals ─────────────────────────────────────────────────────────────
proof fn lemma_elems_len(st: St, arr: Val, vs: Seq<Val>, i: nat)
    requires
        forall|k: int| 0 <= k < vs.len() ==> (#[trigger] vs[k]).ty is I64,
        i <= vs.len(),
    ensures
        st.store_elems(arr, vs, i, 8, 1) matches Ok(end) && end.script.len() == st.script.len() + 5
            * (vs.len() - i) && extends(end.script, st.script),
    decreases vs.len() - i,
{
    if i < vs.len() {
        assert(vs[i as int].ty is I64);
        let next = st.store_elem(arr, constant(i as u64), vs[i as int], 8, 1)->Ok_0;
        assert(extends(next.script, st.script));
        lemma_elems_len(next, arr, vs, i + 1);
        let end = next.store_elems(arr, vs, i + 1, 8, 1)->Ok_0;
        lemma_prefix(end.script, st, next);
    }
}

/// The elements from position `i` on are written.
proof fn lemma_elems(st: St, arr: Val, vs: Seq<Val>, i: nat, script: Seq<Cmd>, m: Machine) -> (after:
    Machine)
    requires
        forall|k: int| 0 <= k < vs.len() ==> (#[trigger] vs[k]).ty is I64,
        i <= vs.len(),
        vs.len() < 0x4000_0000_0000_0000,
        st.script.len() + 5 * (vs.len() - i) + 16 <= u64::MAX,
        m.args.len() == 0,
        elements(m, m.value(arr)) == vs.len(),
        extends(script, st.store_elems(arr, vs, i, 8, 1)->Ok_0.script),
    ensures
        carries_on(
            script,
            st.script.len() as int,
            m,
            st.script.len() as int + 5 * (vs.len() - i),
            after,
        ),
        after.mem == m.mem,
        after.regs == m.regs,
        elements(after, m.value(arr)) == vs.len(),
        forall|k: int|
            i <= k < vs.len() ==> element(after, m.value(arr), k) == m.value(#[trigger] vs[k]),
        forall|k: int|
            0 <= k < i ==> #[trigger] element(after, m.value(arr), k) == element(
                m,
                m.value(arr),
                k,
            ),
    decreases vs.len() - i,
{
    if i < vs.len() {
        let v = vs[i as int];
        let at = constant(i as u64);
        assert(v.ty is I64);
        let next = st.store_elem(arr, at, v, 8, 1)->Ok_0;
        lemma_elems_len(next, arr, vs, i + 1);
        let end = next.store_elems(arr, vs, i + 1, 8, 1)->Ok_0;
        lemma_prefix(script, next, end);
        let m1 = lemma_written(st, arr, at, v, script, m);
        let h = m.value(arr);
        assert(m1.value(arr) == h);
        let after = lemma_elems(next, arr, vs, i + 1, script, m1);
        assert forall|k: int| i <= k < vs.len() implies element(after, h, k) == m.value(
            #[trigger] vs[k],
        ) by {
            if k == i {
                assert(element(after, h, k) == element(m1, h, k));
            } else {
                assert(m1.value(vs[k]) == m.value(vs[k]));
            }
        }
        assert forall|k: int| 0 <= k < i implies #[trigger] element(after, h, k) == element(
            m,
            h,
            k,
        ) by {
            assert(element(after, h, k) == element(m1, h, k));
        }
        after
    } else {
        m
    }
}

proof fn lemma_vals(st: St, m: Machine, elems: Seq<Atom>, i: nat, done: Seq<Val>)
    requires
        cells_at_hand(st, elems),
        i <= elems.len(),
        done.len() == i,
    ensures
        st.atom_vals(elems, i, done) matches Ok((end, vs)) && end == st && vs.len() == elems.len()
            && (forall|k: int|
            i <= k < vs.len() ==> (#[trigger] vs[k]).ty is I64 && ready(st, vs[k]) && m.value(
                vs[k],
            ) == operand(st, m, elems[k])) && (forall|k: int| 0 <= k < i ==> vs[k] == done[k]),
    decreases elems.len() - i,
{
    if i < elems.len() {
        assert(cell_at_hand(st, elems[i as int]));
        lemma_at_once(st, m, elems[i as int], "array element");
        lemma_vals(st, m, elems, i + 1, done.push(operand_val(st, elems[i as int])));
    }
}

/// An array literal is an array of as many elements as it lists, which are these in their
/// order; it is found room for them and for their number.
#[verifier::rlimit(40)]
#[verifier::spinoff_prover]
pub proof fn an_array_literal_has_its_elements(
    st: St,
    elems: Seq<Atom>,
    layout: ValueLayout,
    script: Seq<Cmd>,
    m: Machine,
) -> (after: Machine)
    requires
        st.script.len() + 5 * elems.len() + 64 <= u64::MAX,
        cells_at_hand(st, elems),
        8 * elems.len() <= usize::MAX,
        eight_bytes(layout),
        m.args.len() == 0,
        st.array_lit(elems, layout) matches Ok((end, _)) ==> extends(script, end.script),
    ensures
        st.array_lit(elems, layout) matches Ok((end, v)) && carries_on(
            script,
            st.script.len() as int,
            m,
            end.script.len() as int,
            after,
        ) && after.value(v) == (m.room)((1 + elems.len()) as u64, m.store()) && elements(
            after,
            after.value(v),
        ) == elems.len() && (forall|i: int|
            0 <= i < elems.len() ==> element(after, after.value(v), i) == operand(
                st,
                m,
                #[trigger] elems[i],
            )),
{
    lemma_vals(st, m, elems, 0, Seq::empty());
    let vs = st.atom_vals(elems, 0, Seq::empty())->Ok_0.1;
    let size = (1 + elems.len()) as u64;
    let (st1, arr) = st.gc_alloc(0, size);
    let st2 = st1.gc_set_scalar(arr, 0, constant(vs.len() as u64));
    lemma_elems_len(st2, arr, vs, 0);
    let end = st2.store_elems(arr, vs, 0, 8, 1)->Ok_0;
    lemma_literal_is(st, elems, layout, vs);
    assert(extends(st2.script, st1.script));
    lemma_prefix(script, st2, end);
    lemma_prefix(script, st1, st2);
    let m3 = lemma_room_found(st, size, script, m);
    let m4 = lemma_set(st1, arr, 0, constant(vs.len() as u64), script, m3);
    let after = lemma_elems(st2, arr, vs, 0, script, m4);
    assert forall|i: int| 0 <= i < elems.len() implies element(after, after.value(arr), i)
        == operand(st, m, #[trigger] elems[i]) by {
        assert(ready(st, vs[i]));
        assert(m4.value(vs[i]) == m.value(vs[i]));
        assert(element(after, m4.value(arr), i) == m4.value(vs[i]));
    }
    after
}

proof fn lemma_literal_is(st: St, elems: Seq<Atom>, layout: ValueLayout, vs: Seq<Val>)
    requires
        eight_bytes(layout),
        8 * elems.len() <= usize::MAX,
        st.atom_vals(elems, 0, Seq::empty()) == Ok::<(St, Seq<Val>), CodegenError>((st, vs)),
        vs.len() == elems.len(),
        forall|k: int| 0 <= k < vs.len() ==> (#[trigger] vs[k]).ty is I64,
    ensures
        ({
            let (st1, arr) = st.gc_alloc(0, (1 + elems.len()) as u64);
            let st2 = st1.gc_set_scalar(arr, 0, constant(vs.len() as u64));
            st.array_lit(elems, layout) == Ok::<(St, Val), CodegenError>(
                (st2.store_elems(arr, vs, 0, 8, 1)->Ok_0, arr),
            )
        }),
{
    let n = elems.len();
    assert(elem_layout_of(layout, n as usize, Context::Phrase("array element")) == Ok::<
        ArrayElemLayout,
        CodegenError,
    >(ArrayElemLayout::Scalar { stride: 8, data_cells: n as u64, elem_cells: 1 })) by {
        assert(crate::ir::cells_for(8 * n as int) == n);
        assert(crate::ir::cells_for(8) == 1);
    }
    let (st1, arr) = st.gc_alloc(0, (1 + n) as u64);
    let st2 = st1.gc_set_scalar(arr, 0, constant(vs.len() as u64));
    lemma_elems_len(st2, arr, vs, 0);
    assert(st.array_lit(elems, layout) == st.scalar_array(vs, 8, n as u64, 1));
}

proof fn lemma_room_found(st: St, size: u64, script: Seq<Cmd>, m: Machine) -> (after: Machine)
    requires
        st.script.len() + 16 <= u64::MAX,
        m.args.len() == 0,
        extends(script, st.gc_alloc(0, size).0.script),
    ensures
        carries_on(script, st.script.len() as int, m, st.script.len() as int + 3, after),
        after.value(st.gc_alloc(0, size).1) == (m.room)(size, m.store()),
        after.store() == m.store(),
{
    lemma_names();
    let n = st.script.len() as int;
    let st1 = st.gc_alloc(0, size).0;
    assert(script[n] == st1.script[n] && script[n + 1] == st1.script[n + 1] && script[n + 2]
        == st1.script[n + 2]);
    let m1 = Machine { args: m.args.push(0), ..m };
    let m2 = Machine { args: m1.args.push(size), ..m1 };
    assert(word(0u64 + size) == size);
    let m3 = m2.back(n + 2, (m.room)(size, m.store()), m.store());
    assert(m.args =~= Seq::<u64>::empty());
    assert(m2.store() == m.store());
    assert(run(script, n, m) == run(script, n + 1, m1));
    assert(run(script, n + 1, m1) == run(script, n + 2, m2));
    assert(run(script, n + 2, m2) == run(script, n + 3, m3));
    m3
}

} // verus!
