//! What is proved of vectors in arrays: a load gives adjacent elements, and a store goes to
//! where the load reads.
use crate::error::CodegenError;
use crate::floats::{further, lane_bits, lemma_at_once, operand, operand_val, width};
use crate::ir::{target, Atom, Type, VectorShape};
use crate::lanes::{cell_at_hand, class_of};
use crate::masks::lemma_prefix;
use crate::meaning::{
    a_vector_access_stays_inside_the_array, extends, inside, keeps, ready, run, signed, word,
    Machine,
};
use crate::simd::lane_bytes;
use crate::state::St;
use crate::target::{Cmd, Val};
use std::rc::Rc;
use vstd::prelude::*;

verus! {

/// The bytes of an element.
pub open spec fn element_bytes(elem: Type) -> int {
    if elem is Float32 {
        4
    } else {
        8
    }
}

/// Where the length of an array lies, and its elements behind it.
pub open spec fn payload_of(st: St, m: Machine, arr: Atom) -> u64 {
    (m.fields)(operand(st, m, arr))
}

/// The number of elements of an array.
pub open spec fn length_of(st: St, m: Machine, arr: Atom) -> u64 {
    m.mem[payload_of(st, m, arr)]
}

/// Where an element lies.
pub open spec fn element_at(st: St, m: Machine, arr: Atom, elem: Type, i: int) -> int {
    payload_of(st, m, arr) + 8 + i * element_bytes(elem)
}

/// The array lies in memory as a whole.
pub open spec fn lies_in_memory(st: St, m: Machine, arr: Atom, elem: Type) -> bool {
    let len = signed(length_of(st, m, arr));
    0 <= len && element_at(st, m, arr, elem, len) <= u64::MAX
}

proof fn lemma_payload(st: St, arr: Atom, script: Seq<Cmd>, m: Machine) -> (after: Machine)
    requires
        st.script.len() + 16 <= u64::MAX,
        cell_at_hand(st, arr),
        st.borrowed(arr) is None,
        m.args.len() == 0,
        extends(script, st.payload(arr)->Ok_0.0.script),
    ensures
        st.payload(arr) matches Ok((end, (base, len))) && end.script.len() == st.script.len() + 3
            && end.cx == st.cx && extends(end.script, st.script) && ready(end, base) && ready(
            end,
            len,
        ) && run(script, st.script.len() as int, m) == run(
            script,
            st.script.len() as int + 3,
            after,
        ) && keeps(m, after, st.script.len() as int) && after.value(base) == payload_of(st, m, arr)
            && after.value(len) == length_of(st, m, arr),
{
    lemma_at_once(st, m, arr, "array handle");
    reveal_strlit("locus_alloc");
    reveal_strlit("locus_gc_scalar_fields_ptr");
    reveal_strlit("llvm.trap");
    assert("locus_alloc"@.len() == 11 && "locus_gc_scalar_fields_ptr"@.len() == 26
        && "llvm.trap"@.len() == 9);
    let n = st.script.len() as int;
    let h = operand_val(st, arr);
    let end = st.payload(arr)->Ok_0.0;
    assert(script[n] == end.script[n] && script[n + 1] == end.script[n + 1] && script[n + 2]
        == end.script[n + 2]);
    let base = payload_of(st, m, arr);
    let m1 = Machine { args: m.args.push(m.value(h)), ..m };
    let m2 = m1.back(n + 1, base, m.store());
    let after = m2.set(n + 2, m.mem[base]);
    assert(m.args =~= Seq::<u64>::empty());
    assert(m2.args =~= m.args);
    assert(run(script, n, m) == run(script, n + 1, m1));
    assert(run(script, n + 1, m1) == run(script, n + 2, m2));
    assert(run(script, n + 2, m2) == run(script, n + 3, after));
    after
}

/// The address of the lanes at an element: behind the check that all of them lie inside
/// the array, it is the address of the element.
#[verifier::rlimit(40)]
proof fn lemma_lanes_at(
    st: St,
    shape: VectorShape,
    elem: Rc<Type>,
    arr: Atom,
    idx: Atom,
    script: Seq<Cmd>,
    m: Machine,
) -> (after: Machine)
    requires
        st.script.len() + 128 <= u64::MAX,
        *elem is Float || *elem is Float32,
        cell_at_hand(st, arr),
        cell_at_hand(st, idx),
        st.borrowed(arr) is None,
        m.args.len() == 0,
        lies_in_memory(st, m, arr, *elem),
        extends(script, st.lanes_ptr(shape, elem, arr, idx)->Ok_0.0.script),
    ensures
        st.lanes_ptr(shape, elem, arr, idx) matches Ok((end, ptr)) && st.script.len()
            <= end.script.len() && end.script.len() <= st.script.len() + 32 && ready(end, ptr)
            && extends(end.script, st.script) && if inside(
            operand(st, m, idx),
            shape.lane_count() as u64,
            length_of(st, m, arr),
        ) {
            &&& run(script, st.script.len() as int, m) == run(
                script,
                end.script.len() as int,
                after,
            )
            &&& keeps(m, after, st.script.len() as int)
            &&& after.value(ptr) == element_at(st, m, arr, *elem, operand(st, m, idx) as int)
        } else {
            run(script, st.script.len() as int, m) is Trap
        },
{
    let n = st.script.len() as int;
    let bytes = lane_bytes(elem)->Ok_0 as u64;
    let lanes = shape.lane_count() as u64;
    let (st1, (base, len)) = st.payload(arr)->Ok_0;
    lemma_at_once(st, m, arr, "array handle");
    assert(st.payload(arr) is Ok);
    assert(cell_at_hand(st1, idx));
    lemma_at_once(st, m, idx, "vector array index");
    lemma_at_once(st1, m, idx, "vector array index");
    let i = operand_val(st, idx);
    let guarded = st1.lanes_guard(i, lanes, len);
    let (end, ptr) = guarded.lanes_place(base, i, bytes);
    assert(st.lanes_ptr(shape, elem, arr, idx) == Ok::<(St, Val), CodegenError>((end, ptr)));
    assert(extends(end.script, st1.script));
    lemma_prefix(script, st1, end);
    let m1 = lemma_payload(st, arr, script, m);
    lemma_prefix(end.script, st, st1);
    assert(m1.value(i) == operand(st, m, idx));
    a_vector_access_stays_inside_the_array(st1, base, i, lanes, bytes, len, script, m1);
    if inside(m1.value(i), lanes, m1.value(len)) {
        let w = (m1.value(base) + 8 + m1.value(i) * bytes) as u64;
        let after = choose|after: Machine| #[trigger]
            keeps(m1, after, n + 3) && after.value(ptr) == w && run(script, n + 3, m1) == run(
                script,
                end.script.len() as int,
                after,
            );
        let x = m1.value(i) as int;
        let top = signed(m1.value(len));
        assert(x * bytes <= top * bytes) by (nonlinear_arith)
            requires
                0 <= x <= top,
                0 <= bytes,
        ;
        assert(keeps(m, after, n)) by {
            assert forall|k: u64| k < n implies after.regs[k] == #[trigger] m.regs[k] by {
                assert(m1.regs[k] == m.regs[k]);
            }
        }
        after
    } else {
        m
    }
}

/// A vector that is loaded at an index has adjacent elements of the array in its lanes,
/// from that index on; the code traps unless all of them lie inside the array.
#[verifier::rlimit(40)]
pub proof fn a_vector_load_gives_adjacent_elements(
    st: St,
    shape: VectorShape,
    elem: Rc<Type>,
    arr: Atom,
    idx: Atom,
    script: Seq<Cmd>,
    m: Machine,
) -> (after: Machine)
    requires
        st.script.len() + 128 <= u64::MAX,
        *elem is Float || *elem is Float32,
        cell_at_hand(st, arr),
        cell_at_hand(st, idx),
        st.borrowed(arr) is None,
        m.args.len() == 0,
        lies_in_memory(st, m, arr, *elem),
        st.vector_load(shape, elem, arr, idx) matches Ok((end, _)) ==> extends(script, end.script),
    ensures
        st.vector_load(shape, elem, arr, idx) matches Ok((end, v)) && width(v.ty)
            == shape.lane_count() && if inside(
            operand(st, m, idx),
            shape.lane_count() as u64,
            length_of(st, m, arr),
        ) {
            &&& run(script, st.script.len() as int, m) == run(
                script,
                end.script.len() as int,
                after,
            )
            &&& keeps(m, after, st.script.len() as int)
            &&& forall|i: u64|
                i < shape.lane_count() ==> #[trigger] after.vector(v)[i] == lane_bits(
                    m.mem[element_at(st, m, arr, *elem, operand(st, m, idx) + i) as u64],
                    class_of(*elem),
                )
        } else {
            run(script, st.script.len() as int, m) is Trap
        },
{
    let n = st.script.len() as int;
    lemma_lanes_ok(st, shape, elem, arr, idx);
    let (st1, ptr) = st.lanes_ptr(shape, elem, arr, idx)->Ok_0;
    let (end, v) = st.vector_load(shape, elem, arr, idx)->Ok_0;
    assert(extends(end.script, st1.script));
    lemma_prefix(script, st1, end);
    let mid = lemma_lanes_at(st, shape, elem, arr, idx, script, m);
    let x = operand(st, m, idx);
    let lanes = shape.lane_count() as u64;
    if inside(x, lanes, length_of(st, m, arr)) {
        let k = st1.script.len() as int;
        assert(script[k] == end.script[k]);
        reveal(further);
        let after = further(script, k, mid)->0;
        assert(run(script, k, mid) == run(script, k + 1, after));
        assert forall|i: u64| i < shape.lane_count() implies #[trigger] after.vector(v)[i]
            == lane_bits(
            m.mem[element_at(st, m, arr, *elem, x + i) as u64],
            class_of(*elem),
        ) by {
            let size = element_bytes(target(elem));
            let at = element_at(st, m, arr, target(elem), x as int);
            let top = signed(length_of(st, m, arr));
            assert((x + i) * size == x * size + i * size) by (nonlinear_arith);
            assert((x + i) * size <= top * size) by (nonlinear_arith)
                requires
                    0 <= x + i <= top,
                    0 <= size,
            ;
            assert(word(at + i * size) == (at + i * size) as u64);
        }
        after
    } else {
        m
    }
}

proof fn lemma_lanes_ok(st: St, shape: VectorShape, elem: Rc<Type>, arr: Atom, idx: Atom)
    requires
        *elem is Float || *elem is Float32,
        cell_at_hand(st, arr),
        cell_at_hand(st, idx),
        st.borrowed(arr) is None,
    ensures
        st.lanes_ptr(shape, elem, arr, idx) is Ok,
{
    lemma_at_once(st, arbitrary(), arr, "array handle");
    let st1 = st.payload(arr)->Ok_0.0;
    assert(cell_at_hand(st1, idx));
    lemma_at_once(st1, arbitrary(), idx, "vector array index");
}

/// A vector that is stored at an index goes to the address of the element of that index:
/// there a load of the same index reads it. The code traps unless all lanes lie inside the
/// array.
#[verifier::rlimit(40)]
pub proof fn a_vector_store_goes_where_a_load_reads(
    st: St,
    shape: VectorShape,
    elem: Rc<Type>,
    arr: Atom,
    idx: Atom,
    value: Atom,
    script: Seq<Cmd>,
    m: Machine,
) -> (after: Machine)
    requires
        st.script.len() + 128 <= u64::MAX,
        *elem is Float || *elem is Float32,
        cell_at_hand(st, arr),
        cell_at_hand(st, idx),
        crate::lanes::vector_at_hand(st, value, *elem),
        st.borrowed(arr) is None,
        m.args.len() == 0,
        lies_in_memory(st, m, arr, *elem),
        st.vector_store(shape, elem, arr, idx, value) matches Ok((end, _)) ==> extends(
            script,
            end.script,
        ),
    ensures
        st.vector_store(shape, elem, arr, idx, value) matches Ok((end, v)) && st.script.len()
            < end.script.len() && (end.script.last() matches Cmd::Store { ptr, val, .. } && val
            == operand_val(st, value) && if inside(
            operand(st, m, idx),
            shape.lane_count() as u64,
            length_of(st, m, arr),
        ) {
            &&& run(script, st.script.len() as int, m) == run(
                script,
                end.script.len() - 1,
                after,
            )
            &&& keeps(m, after, st.script.len() as int)
            &&& after.value(ptr) == element_at(st, m, arr, *elem, operand(st, m, idx) as int)
        } else {
            run(script, st.script.len() as int, m) is Trap
        }),
{
    lemma_at_once(st, m, value, "vector operand");
    lemma_lanes_ok(st, shape, elem, arr, idx);
    let (st1, ptr) = st.lanes_ptr(shape, elem, arr, idx)->Ok_0;
    let (end, v) = st.vector_store(shape, elem, arr, idx, value)->Ok_0;
    assert(extends(end.script, st1.script));
    lemma_prefix(script, st1, end);
    lemma_lanes_at(st, shape, elem, arr, idx, script, m)
}

} // verus!
