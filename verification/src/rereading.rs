//! What is proved of what is written and read again: mutable locals, raw memory, and
//! the elements of arrays that a loop borrows.
use crate::applying::goes_on;
use crate::arith::mem_ty;
use crate::arrays::elem_mask;
use crate::calls::held_as;
use crate::error::CodegenError;
use crate::ir::{target, Atom, MemWidth, Type, ValueLayout};
use crate::lambdas::in_scope;
use crate::meaning::{
    a_written_element_is_read_back, addressable, an_array_read_gives_the_element,
    an_array_write_replaces_the_element, elem_read, elem_written, extends, in_bounds, in_memory,
    low_bits, packs, ready, roomy, run, signed, writes, yields, Machine,
};
use crate::shape::{env_ready, lemma_atom_ready, lemma_cell, lemma_extends};
use crate::standing::slot_of;
use crate::state::{RawArray, Scope, St};
use crate::target::{constant, Cmd, Id, Title, Ty, Val};
use std::rc::Rc;
use vstd::prelude::*;

verus! {

// ── mutable locals ───────────────────────────────────────────────────────
/// A mutable local that is written and then read has the word that was written, and one
/// of another name, whose slot is another, keeps its own.
pub proof fn a_mutable_local_reads_its_last_write(
    st: St,
    name: String,
    val: Atom,
    script: Seq<Cmd>,
    m: Machine,
) -> (after: Machine)
    requires
        !(val is Str),
        env_ready(st),
        st.slot_store(name, val) is Ok,
        st.script.len() + 8 <= u64::MAX,
        extends(script, st.slot_store(name, val)->Ok_0.0.slot_load(name)->Ok_0.0.script),
    ensures
        ({
            let mid = st.slot_store(name, val)->Ok_0.0;
            let (end, v) = mid.slot_load(name)->Ok_0;
            &&& mid.slot_load(name) is Ok
            &&& run(script, st.script.len() as int, m) == run(
                script,
                end.script.len() as int,
                after,
            )
            &&& after.value(v) == m.value(st.atom(val)->Ok_0.1)
            &&& forall|other: Seq<char>|
                (#[trigger] st.cx.slots.get(other)) is Some && m.value(slot_of(st, other)) != m.value(
                    slot_of(st, name@),
                ) ==> after.mem[m.value(slot_of(st, other))] == m.mem[m.value(slot_of(st, other))]
            &&& end.cx.slots == st.cx.slots
        }),
{
    let n = st.script.len() as int;
    lemma_cell(st, val, "mutable-local assignment");
    let mid = st.slot_store(name, val)->Ok_0.0;
    let (end, v) = mid.slot_load(name)->Ok_0;
    let slot = slot_of(st, name@);
    let w = m.value(st.atom(val)->Ok_0.1);
    assert(script[n] == end.script[n] && script[n + 1] == end.script[n + 1]);
    let m1 = Machine { mem: m.mem.insert(m.value(slot), w), ..m };
    assert(run(script, n, m) == run(script, n + 1, m1));
    assert(m1.value(slot) == m.value(slot));
    let after = m1.set(n + 1, w);
    assert(run(script, n + 1, m1) == run(script, n + 2, after));
    after
}

/// A mutable local that was just declared has its first value, whatever a local of its
/// name holds around it; nothing but its own slot was written to.
pub proof fn a_mutable_local_begins_with_its_first_value(
    st: St,
    name: String,
    init: Atom,
    script: Seq<Cmd>,
    m: Machine,
) -> (after: Machine)
    requires
        !(init is Str),
        env_ready(st),
        st.slot_init(name, init) is Ok,
        st.script.len() + 8 <= u64::MAX,
        extends(script, st.slot_init(name, init)->Ok_0.0.slot_load(name)->Ok_0.0.script),
    ensures
        ({
            let mid = st.slot_init(name, init)->Ok_0.0;
            let (end, v) = mid.slot_load(name)->Ok_0;
            &&& mid.slot_load(name) is Ok
            &&& run(script, st.script.len() as int, m) == run(
                script,
                end.script.len() as int,
                after,
            )
            &&& after.value(v) == m.value(st.atom(init)->Ok_0.1)
            &&& forall|x: u64|
                x != (m.room)(8, m.store()) ==> #[trigger] after.mem[x] == m.mem[x]
            &&& forall|other: Seq<char>|
                other != name@ ==> #[trigger] end.cx.slots.get(other) == st.cx.slots.get(other)
        }),
{
    let n = st.script.len() as int;
    lemma_cell(st, init, "mutable-local initializer");
    lemma_atom_ready(st, init);
    let mid = st.slot_init(name, init)->Ok_0.0;
    let (end, v) = mid.slot_load(name)->Ok_0;
    let val = st.atom(init)->Ok_0.1;
    let w = m.value(val);
    let at = (m.room)(8, m.store());
    assert(script[n] == end.script[n] && script[n + 1] == end.script[n + 1] && script[n + 2]
        == end.script[n + 2]);
    let m1 = m.found(n);
    assert(run(script, n, m) == run(script, n + 1, m1));
    assert(m1.value(val) == w);
    let m2 = Machine { mem: m1.mem.insert(at, w), ..m1 };
    assert(run(script, n + 1, m1) == run(script, n + 2, m2));
    let after = m2.set(n + 2, w);
    assert(run(script, n + 2, m2) == run(script, n + 3, after));
    after
}

// ── raw memory ───────────────────────────────────────────────────────────
/// What is read of an address after a write of the same width is the low bits of what
/// was written.
#[verifier::rlimit(60)]
#[verifier::spinoff_prover]
pub proof fn a_peek_gives_back_the_last_poke(
    st: St,
    w: MemWidth,
    addr: Atom,
    val: Atom,
    script: Seq<Cmd>,
    m: Machine,
) -> (after: Machine)
    requires
        !(addr is Str),
        !(val is Str),
        env_ready(st),
        st.poke(w, addr, val) is Ok,
        st.script.len() + 16 <= u64::MAX,
        extends(script, st.poke(w, addr, val)->Ok_0.0.peek(w, addr)->Ok_0.0.script),
    ensures
        ({
            let mid = st.poke(w, addr, val)->Ok_0.0;
            let (end, v) = mid.peek(w, addr)->Ok_0;
            &&& mid.peek(w, addr) is Ok
            &&& run(script, st.script.len() as int, m) == run(
                script,
                end.script.len() as int,
                after,
            )
            &&& after.value(v) == low_bits(m.value(st.atom(val)->Ok_0.1), mem_ty(w))
            &&& forall|x: u64|
                x != m.value(st.atom(addr)->Ok_0.1) ==> #[trigger] after.mem[x] == m.mem[x]
        }),
{
    let n = st.script.len() as int;
    lemma_pair(st, addr, val);
    let a = st.atom(addr)->Ok_0.1;
    let v0 = st.atom(val)->Ok_0.1;
    lemma_atom_ready(st, addr);
    lemma_atom_ready(st, val);
    let mid = st.poke(w, addr, val)->Ok_0.0;
    assert(mid.cx == st.cx);
    assert(mid.atom(addr) == Ok::<(St, Val), CodegenError>((mid, a)));
    let (end, v) = mid.peek(w, addr)->Ok_0;
    let at = m.value(a);
    let low = low_bits(m.value(v0), mem_ty(w));
    let ptr = Val { id: Id::Reg(n as u64), ty: Ty::Ptr };
    let m1 = m.set(n, at);
    if w is W64 {
        assert(script[n] == end.script[n] && script[n + 1] == end.script[n + 1] && script[n + 2]
            == end.script[n + 2] && script[n + 3] == end.script[n + 3]);
        let m2 = Machine { mem: m.mem.insert(at, low), ..m1 };
        let m3 = m2.set(n + 2, at);
        let after = m3.set(n + 3, low);
        assert(run(script, n, m) == run(script, n + 1, m1));
        assert(m1.value(v0) == m.value(v0));
        assert(run(script, n + 1, m1) == run(script, n + 2, m2));
        assert(m2.value(a) == at);
        assert(run(script, n + 2, m2) == run(script, n + 3, m3));
        assert(run(script, n + 3, m3) == run(script, n + 4, after));
        after
    } else {
        assert(script[n] == end.script[n] && script[n + 1] == end.script[n + 1] && script[n + 2]
            == end.script[n + 2] && script[n + 3] == end.script[n + 3] && script[n + 4]
            == end.script[n + 4] && script[n + 5] == end.script[n + 5]);
        let m2 = m1.set(n + 1, low);
        let m3 = Machine { mem: m.mem.insert(at, low), ..m2 };
        let m4 = m3.set(n + 3, at);
        let m5 = m4.set(n + 4, low);
        let after = m5.set(n + 5, low);
        assert(low_bits(low, mem_ty(w)) == low);
        assert(run(script, n, m) == run(script, n + 1, m1));
        assert(m1.value(v0) == m.value(v0));
        assert(run(script, n + 1, m1) == run(script, n + 2, m2));
        assert(m2.value(ptr) == at);
        assert(run(script, n + 2, m2) == run(script, n + 3, m3));
        assert(m3.value(a) == at);
        assert(run(script, n + 3, m3) == run(script, n + 4, m4));
        assert(run(script, n + 4, m4) == run(script, n + 5, m5));
        assert(run(script, n + 5, m5) == run(script, n + 6, after));
        after
    }
}

proof fn lemma_pair(st: St, a: Atom, b: Atom)
    requires
        !(a is Str),
        !(b is Str),
        st.cell_pair(a, b, "memory operand") is Ok,
    ensures
        st.atom(a) is Ok,
        st.atom(b) is Ok,
        st.atom(a)->Ok_0.1.ty is I64,
        st.cell_pair(a, b, "memory operand") == Ok::<(St, (Val, Val)), CodegenError>(
            (st, (st.atom(a)->Ok_0.1, st.atom(b)->Ok_0.1)),
        ),
{
    lemma_cell(st, a, "memory operand");
    lemma_cell(st, b, "memory operand");
}

// ── arrays that a loop borrows ───────────────────────────────────────────
/// The length of the array that a handle names.
pub open spec fn length_of(m: Machine, h: u64) -> int {
    signed(m.mem[(m.fields)(h)])
}

/// An element of the array that a handle names.
pub open spec fn element_of(m: Machine, h: u64, i: int, stride: u64) -> u64 {
    elem_read(m.mem, (m.fields)(h), i, stride)
}

/// What was borrowed is there: of each array its payload and its length.
pub open spec fn borrows_hold(st: St, raws: Scope<RawArray>, m: Machine) -> bool {
    forall|x: Seq<char>| #[trigger]
        raws.get(x) matches Some(raw) ==> {
            &&& ready(st, raw.base)
            &&& ready(st, raw.len)
            &&& ready(st, raw.arr)
            &&& m.value(raw.base) == (m.fields)(m.value(raw.arr))
            &&& m.value(raw.len) == m.mem[m.value(raw.base)]
        }
}

/// The handle that a variable stands for.
pub open spec fn handle_of(st: St, m: Machine, x: Seq<char>) -> u64 {
    m.value(st.cx.env.get(x)->0.value)
}

/// Behind the code that borrows arrays their payloads and lengths are there, each under
/// the name of the array that is in scope.
pub proof fn borrowing_fetches_the_arrays_in_scope(
    st: St,
    names: Seq<String>,
    i: nat,
    raws: Rc<Scope<RawArray>>,
    script: Seq<Cmd>,
    m: Machine,
) -> (after: Machine)
    requires
        i <= names.len(),
        env_ready(st),
        borrows_hold(st, *raws, m),
        m.args.len() == 0,
        st.borrow_arrays(names, i, raws) is Ok,
        st.borrow_arrays(names, i, raws)->Ok_0.0.script.len() + 64 <= u64::MAX,
        extends(script, st.borrow_arrays(names, i, raws)->Ok_0.0.script),
    ensures
        ({
            let (end, all) = st.borrow_arrays(names, i, raws)->Ok_0;
            &&& end.cx == st.cx
            &&& run(script, st.script.len() as int, m) == run(
                script,
                end.script.len() as int,
                after,
            )
            &&& goes_on(m, after, st.script.len() as int)
            &&& after.store() == m.store()
            &&& after.fields == m.fields
            &&& borrows_hold(end, *all, after)
            &&& forall|k: int|
                i <= k < names.len() ==> held_as(
                    *all,
                    (#[trigger] names[k])@,
                    st.cx.env.get(names[k]@)->0.value,
                )
            &&& forall|x: Seq<char>, v: Val|
                st.cx.env.get(x) matches Some(e) && e.value == v && #[trigger] held_as(*raws, x, v)
                    ==> held_as(*all, x, v)
        }),
    decreases names.len() - i,
{
    lemma_borrow_len(st, names, i, raws);
    if i >= names.len() {
        m
    } else {
        let n = st.script.len() as int;
        let name = names[i as int];
        let h = in_scope(st, name@);
        let (end, all) = st.borrow_arrays(names, i, raws)->Ok_0;
        if held_as(target(raws), name@, h) {
            borrowing_fetches_the_arrays_in_scope(st, names, i + 1, raws, script, m)
        } else {
            let (s1, base) = st.arg(h).call(
                "locus_gc_scalar_fields_ptr",
                Ty::Ptr,
                "locus_gc_scalar_fields_ptr",
            );
            let (s2, len) = s1.load_as(
                Ty::I64,
                base,
                Title::Var { before: "", name, after: ".len" },
            );
            let raw = RawArray { base, len, arr: h };
            let more = Rc::new(Scope::More { name, item: raw, rest: raws });
            lemma_borrow_len(s2, names, i + 1, more);
            lemma_extends(s2.script, end.script, script);
            assert(script[n] == s2.script[n] && script[n + 1] == s2.script[n + 1] && script[n + 2]
                == s2.script[n + 2]);
            let handle = m.value(h);
            let at = (m.fields)(handle);
            let m1 = Machine { args: m.args.push(handle), ..m };
            let m2 = m1.back(n + 1, at, m.store());
            let m3 = m2.set(n + 2, m.mem[at]);
            assert(m1.args.len() == 1 && m1.args[0] == handle);
            lemma_names();
            assert(run(script, n, m) == run(script, n + 1, m1));
            assert(run(script, n + 1, m1) == run(script, n + 2, m2));
            assert(run(script, n + 2, m2) == run(script, n + 3, m3));
            assert(ready(st, h));
            assert(borrows_hold(s2, *more, m3)) by {
                assert forall|x: Seq<char>| #[trigger] (*more).get(x) matches Some(r) ==> {
                    &&& ready(s2, r.base)
                    &&& ready(s2, r.len)
                    &&& ready(s2, r.arr)
                    &&& m3.value(r.base) == (m3.fields)(m3.value(r.arr))
                    &&& m3.value(r.len) == m3.mem[m3.value(r.base)]
                } by {
                    if x != name@ {
                        assert((*more).get(x) == (*raws).get(x));
                        if let Some(r) = (*raws).get(x) {
                            assert(m3.value(r.base) == m.value(r.base));
                            assert(m3.value(r.len) == m.value(r.len));
                            assert(m3.value(r.arr) == m.value(r.arr));
                        }
                    }
                }
            }
            assert(held_as(*more, name@, h));
            let after = borrowing_fetches_the_arrays_in_scope(s2, names, i + 1, more, script, m3);
            assert(goes_on(m, after, n)) by {
                assert forall|k: u64| k < n implies after.regs[k] == #[trigger] m.regs[k] by {
                    assert(m3.regs[k] == m.regs[k]);
                }
            }
            assert forall|k: int| i <= k < names.len() implies held_as(
                *all,
                (#[trigger] names[k])@,
                st.cx.env.get(names[k]@)->0.value,
            ) by {
                if k == i {
                    assert(held_as(*more, name@, h));
                }
            }
            assert forall|x: Seq<char>, v: Val|
                st.cx.env.get(x) matches Some(e) && e.value == v && #[trigger] held_as(*raws, x, v) implies held_as(
                *all,
                x,
                v,
            ) by {
                if x != name@ {
                    assert((*more).get(x) == (*raws).get(x));
                }
                assert(held_as(*more, x, v));
            }
            after
        }
    }
}

proof fn lemma_names()
    ensures
        "locus_gc_scalar_fields_ptr"@ != "llvm.trap"@,
        "locus_gc_scalar_fields_ptr"@ != "locus_alloc"@,
{
    reveal_strlit("locus_gc_scalar_fields_ptr");
    reveal_strlit("llvm.trap");
    reveal_strlit("locus_alloc");
    assert("locus_gc_scalar_fields_ptr"@.len() != "llvm.trap"@.len());
    assert("locus_gc_scalar_fields_ptr"@.len() != "locus_alloc"@.len());
}

proof fn lemma_borrow_len(st: St, names: Seq<String>, i: nat, raws: Rc<Scope<RawArray>>)
    requires
        st.borrow_arrays(names, i, raws) is Ok,
    ensures
        st.script.len() <= st.borrow_arrays(names, i, raws)->Ok_0.0.script.len(),
        extends(st.borrow_arrays(names, i, raws)->Ok_0.0.script, st.script),
        st.borrow_arrays(names, i, raws)->Ok_0.0.cx == st.cx,
    decreases names.len() - i,
{
    if i < names.len() {
        let name = names[i as int];
        let h = in_scope(st, name@);
        if held_as(target(raws), name@, h) {
            lemma_borrow_len(st, names, i + 1, raws);
        } else {
            let (s1, base) = st.arg(h).call(
                "locus_gc_scalar_fields_ptr",
                Ty::Ptr,
                "locus_gc_scalar_fields_ptr",
            );
            let (s2, len) = s1.load_as(
                Ty::I64,
                base,
                Title::Var { before: "", name, after: ".len" },
            );
            let raw = RawArray { base, len, arr: h };
            let more = Rc::new(Scope::More { name, item: raw, rest: raws });
            lemma_borrow_len(s2, names, i + 1, more);
            assert(extends(s2.script, st.script));
            lemma_extends(
                st.script,
                s2.script,
                st.borrow_arrays(names, i, raws)->Ok_0.0.script,
            );
        }
    }
}

/// What the laws of elements take for granted: the array is borrowed under the name it
/// has in scope, it lies in memory, and a check is left out only for an index in its
/// bounds.
pub open spec fn reaches(
    st: St,
    arr: String,
    idx: Atom,
    i: Val,
    layout: ValueLayout,
    m: Machine,
) -> bool {
    let stride = layout.byte_width as u64;
    let h = handle_of(st, m, arr@);
    &&& roomy(st)
    &&& packs(stride)
    &&& layout.scalar_only()
    &&& !layout.single_pointer()
    &&& env_ready(st)
    &&& borrows_hold(st, *st.cx.raws, m)
    &&& st.borrowed(Atom::Var(arr)) is Some
    &&& st.cell(Atom::Var(arr), "array handle") is Ok
    &&& st.cell(idx, "array index") == Ok::<(St, Val), CodegenError>((st, i))
    &&& ready(st, i)
    &&& in_memory((m.fields)(h), length_of(m, h), stride)
    &&& st.in_bounds(arr@, idx) ==> 0 <= signed(m.value(i)) < length_of(m, h)
}

/// Inside a loop that borrowed an array, an element that is read by the array's name is
/// that element of the array that the name stands for; an index outside it traps.
pub proof fn an_element_is_read_by_the_name_of_its_array(
    st: St,
    arr: String,
    idx: Atom,
    i: Val,
    layout: ValueLayout,
    ty: Rc<Type>,
    script: Seq<Cmd>,
    m: Machine,
)
    requires
        reaches(st, arr, idx, i, layout, m),
        extends(script, st.array_get(Atom::Var(arr), idx, layout, ty)->Ok_0.0.script),
    ensures
        match st.array_get(Atom::Var(arr), idx, layout, ty) {
            Ok((end, v)) => if 0 <= signed(m.value(i)) < length_of(m, handle_of(st, m, arr@)) {
                yields(
                    script,
                    st.script.len() as int,
                    m,
                    end.script.len() as int,
                    v,
                    element_of(
                        m,
                        handle_of(st, m, arr@),
                        signed(m.value(i)),
                        layout.byte_width as u64,
                    ),
                )
            } else {
                run(script, st.script.len() as int, m) is Trap
            },
            Err(_) => false,
        },
{
    let a = Atom::Var(arr);
    let stride = layout.byte_width as u64;
    let raw = st.borrowed(a)->0;
    lemma_cell(st, a, "array handle");
    assert(st.cx.raws.get(arr@) == Some(raw));
    assert(m.value(raw.base) == (m.fields)(handle_of(st, m, arr@)));
    let proved = st.in_bounds(arr@, idx);
    assert(addressable(st, raw, idx, i, stride, proved, m));
    assert(st.array_get(a, idx, layout, ty) == st.borrowed_get(raw, idx, stride, proved));
    an_array_read_gives_the_element(st, raw, idx, i, stride, proved, script, m);
}

/// The code replaced one element of an array, and left the others.
pub open spec fn replaced(before: Machine, after: Machine, h: u64, i: int, v: u64, stride: u64) -> bool {
    &&& after.fields == before.fields
    &&& length_of(after, h) == length_of(before, h)
    &&& element_of(after, h, i, stride) == v & elem_mask(stride)
    &&& forall|j: int|
        0 <= j < length_of(before, h) && j != i ==> #[trigger] element_of(after, h, j, stride)
            == element_of(before, h, j, stride)
}

/// Inside a loop that borrowed an array, an element that is written by the array's name
/// is replaced in the array that the name stands for, and read back so; the others stay,
/// and an index outside the array traps.
pub proof fn an_element_is_written_by_the_name_of_its_array(
    st: St,
    arr: String,
    idx: Atom,
    i: Val,
    val: Atom,
    v: Val,
    layout: ValueLayout,
    script: Seq<Cmd>,
    m: Machine,
)
    requires
        reaches(st, arr, idx, i, layout, m),
        ready(st, v),
        st.cell(val, "array element") == Ok::<(St, Val), CodegenError>((st, v)),
        extends(script, st.array_set(Atom::Var(arr), idx, val, layout)->Ok_0.0.script),
    ensures
        match st.array_set(Atom::Var(arr), idx, val, layout) {
            Ok((end, _)) => {
                let h = handle_of(st, m, arr@);
                let x = signed(m.value(i));
                let stride = layout.byte_width as u64;
                let mem = elem_written(m.mem, (m.fields)(h), x, m.value(v), stride);
                if 0 <= x < length_of(m, h) {
                    &&& writes(
                        script,
                        st.script.len() as int,
                        m,
                        end.script.len() as int,
                        mem,
                    )
                    &&& replaced(m, (Machine { mem, ..m }), h, x, m.value(v), stride)
                } else {
                    run(script, st.script.len() as int, m) is Trap
                }
            },
            Err(_) => false,
        },
{
    let a = Atom::Var(arr);
    let stride = layout.byte_width as u64;
    let raw = st.borrowed(a)->0;
    let h = handle_of(st, m, arr@);
    let x = signed(m.value(i));
    let base = (m.fields)(h);
    let len = length_of(m, h);
    lemma_cell(st, a, "array handle");
    assert(st.cx.raws.get(arr@) == Some(raw));
    assert(m.value(raw.base) == base);
    let proved = st.in_bounds(arr@, idx);
    assert(addressable(st, raw, idx, i, stride, proved, m));
    assert(st.array_set(a, idx, val, layout) == match st.borrowed_set(raw, idx, val, stride, proved) {
        Err(e) => Err(e),
        Ok(s) => Ok((s, constant(0))),
    });
    an_array_write_replaces_the_element(st, raw, idx, i, val, v, stride, proved, script, m);
    if 0 <= x < len {
        let mem = elem_written(m.mem, base, x, m.value(v), stride);
        let after = Machine { mem, ..m };
        a_written_element_is_read_back(m.mem, base, len, x, x, m.value(v), stride);
        lemma_length_kept(m.mem, base, len, x, m.value(v), stride);
        assert forall|j: int| 0 <= j < len && j != x implies #[trigger] element_of(after, h, j, stride)
            == element_of(m, h, j, stride) by {
            a_written_element_is_read_back(m.mem, base, len, x, j, m.value(v), stride);
        }
    }
}

/// The length in front of the payload is not part of an element.
proof fn lemma_length_kept(mem: Map<u64, u64>, base: u64, len: int, i: int, v: u64, stride: u64)
    requires
        packs(stride),
        in_memory(base, len, stride),
        0 <= i < len,
    ensures
        elem_written(mem, base, i, v, stride)[base] == mem[base],
{
    crate::meaning::lemma_elem_in_memory(base, len, i, stride);
}

} // verus!
