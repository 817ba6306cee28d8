//! What is proved of the code for vectors: it works lane by lane.
use crate::error::CodegenError;
use crate::floats::{
    at_once, float_meaning, float_relation, further, lane_bits, lanes_of, lemma_at_once,
    lemma_names_apart, operand, operand_val, runtime_array, scalar_intrinsic, total, vector_ending,
    width, Floats,
};
use crate::heap::vector_ty;
use crate::ir::{target, Atom, BinOp, FloatMathOp, MaskReduceOp, Type, VectorShape};
use crate::masks::{is_mask, lemma_passes, lemma_prefix, passes};
use crate::meaning::{calls, extends, flag, ready, roomy, run, Lanes, Machine};
use crate::simd::{intrinsic_name, VectorIntrinsic};
use crate::state::St;
use crate::target::{Cmd, FloatOp, Id, Ty, Val};
use std::rc::Rc;
use vstd::prelude::*;

verus! {

/// The class of the lanes that a vector of a type has.
pub open spec fn class_of(elem: Type) -> Ty {
    if elem is Float32 {
        Ty::F32
    } else {
        Ty::F64
    }
}

/// The operand is a vector of floats of a type.
pub open spec fn vector_at_hand(st: St, a: Atom, elem: Type) -> bool {
    &&& at_once(st, a)
    &&& elem is Float32 && operand_val(st, a).ty is VecF32 || elem is Float && operand_val(st, a).ty
        is VecF64
}

/// The operand is a cell.
pub open spec fn cell_at_hand(st: St, a: Atom) -> bool {
    at_once(st, a) && operand_val(st, a).ty is I64
}

/// The lanes of an operand.
pub open spec fn operand_lanes(st: St, m: Machine, a: Atom) -> Lanes {
    m.vector(operand_val(st, a))
}

proof fn lemma_vector_kept(st: St, v: Val, m: Machine, after: Machine)
    requires
        ready(st, v),
        after.wide == m.wide,
        forall|i: u64| i < st.script.len() ==> after.lanes[i] == #[trigger] m.lanes[i],
    ensures
        after.vector(v) == m.vector(v),
{
}

// ── operations and comparisons ───────────────────────────────────────────
/// An arithmetic operation on two vectors gives, in every lane, what the operation means
/// on that lane of the left and that lane of the right operand; no other operation has
/// code.
pub proof fn a_vector_operation_works_lane_by_lane(
    st: St,
    op: BinOp,
    elem: Rc<Type>,
    a: Atom,
    b: Atom,
    script: Seq<Cmd>,
    m: Machine,
) -> (after: Machine)
    requires
        roomy(st),
        vector_at_hand(st, a, *elem),
        vector_at_hand(st, b, *elem),
        st.vector_bin(op, elem, a, b) matches Ok((end, _)) ==> extends(script, end.script),
    ensures
        if op is Add || op is Sub || op is Mul || op is Div {
            st.vector_bin(op, elem, a, b) matches Ok((end, v)) && passes(
                script,
                st.script.len() as int,
                m,
                end.script.len() as int,
                after,
            ) && v.ty == operand_val(st, a).ty && forall|i: u64|
                i < width(v.ty) ==> Some(#[trigger] after.vector(v)[i]) == float_meaning(
                    m.floats,
                    op,
                    class_of(*elem),
                    operand_lanes(st, m, a)[i],
                    operand_lanes(st, m, b)[i],
                )
        } else {
            st.vector_bin(op, elem, a, b) == Err::<(St, Val), CodegenError>(
                CodegenError::NotAVectorOp(op),
            )
        },
{
    lemma_at_once(st, m, a, "vector operand");
    lemma_at_once(st, m, b, "vector operand");
    reveal(further);
    let n = st.script.len() as int;
    if op is Add || op is Sub || op is Mul || op is Div {
        let (end, v) = st.vector_bin(op, elem, a, b)->Ok_0;
        assert(script[n] == end.script[n]);
        let after = further(script, n, m)->0;
        assert(run(script, n, m) == run(script, n + 1, after));
        after
    } else {
        m
    }
}

/// A comparison of two vectors gives a mask that holds, in every lane, what the comparison
/// means on that lane of the left and that lane of the right operand; no other operation
/// has code.
pub proof fn a_vector_comparison_works_lane_by_lane(
    st: St,
    op: BinOp,
    shape: VectorShape,
    elem: Rc<Type>,
    a: Atom,
    b: Atom,
    script: Seq<Cmd>,
    m: Machine,
) -> (after: Machine)
    requires
        roomy(st),
        vector_at_hand(st, a, *elem),
        vector_at_hand(st, b, *elem),
        width(operand_val(st, a).ty) == shape.lane_count(),
        st.vector_compare(op, shape, elem, a, b) matches Ok((end, _)) ==> extends(
            script,
            end.script,
        ),
    ensures
        if op is Eq || op is Ne || op is Lt || op is Le || op is Gt || op is Ge {
            st.vector_compare(op, shape, elem, a, b) matches Ok((end, v)) && passes(
                script,
                st.script.len() as int,
                m,
                end.script.len() as int,
                after,
            ) && v.ty == Ty::Mask(shape.lane_count() as u32) && forall|i: u64|
                i < shape.lane_count() ==> #[trigger] after.vector(v)[i] == flag(
                    float_relation(
                        op,
                        class_of(*elem),
                        operand_lanes(st, m, a)[i],
                        operand_lanes(st, m, b)[i],
                    )->0,
                )
        } else {
            st.vector_compare(op, shape, elem, a, b) == Err::<(St, Val), CodegenError>(
                CodegenError::NotAVectorComparison(op),
            )
        },
{
    lemma_at_once(st, m, a, "vector operand");
    lemma_at_once(st, m, b, "vector operand");
    reveal(further);
    let n = st.script.len() as int;
    if op is Eq || op is Ne || op is Lt || op is Le || op is Gt || op is Ge {
        let (end, v) = st.vector_compare(op, shape, elem, a, b)->Ok_0;
        assert(script[n] == end.script[n]);
        let after = further(script, n, m)->0;
        assert(run(script, n, m) == run(script, n + 1, after));
        after
    } else {
        m
    }
}

/// A selection has, in every lane, that of the first vector where the mask holds and
/// that of the second where it does not.
pub proof fn a_selection_goes_by_its_mask(
    st: St,
    shape: VectorShape,
    elem: Rc<Type>,
    mask: Atom,
    yes: Atom,
    no: Atom,
    script: Seq<Cmd>,
    m: Machine,
) -> (after: Machine)
    requires
        roomy(st),
        at_once(st, mask),
        operand_val(st, mask).ty is Mask,
        vector_at_hand(st, yes, *elem),
        vector_at_hand(st, no, *elem),
        st.vector_select(shape, elem, mask, yes, no) matches Ok((end, _)) ==> extends(
            script,
            end.script,
        ),
    ensures
        st.vector_select(shape, elem, mask, yes, no) matches Ok((end, v)) && passes(
            script,
            st.script.len() as int,
            m,
            end.script.len() as int,
            after,
        ) && v.ty == operand_val(st, yes).ty && forall|i: u64|
            i < width(v.ty) ==> #[trigger] after.vector(v)[i] == (if operand_lanes(st, m, mask)[i]
                != 0 {
                operand_lanes(st, m, yes)[i]
            } else {
                operand_lanes(st, m, no)[i]
            }),
{
    lemma_at_once(st, m, mask, "vector mask");
    lemma_at_once(st, m, yes, "vector operand");
    lemma_at_once(st, m, no, "vector operand");
    reveal(further);
    let n = st.script.len() as int;
    let (end, v) = st.vector_select(shape, elem, mask, yes, no)->Ok_0;
    assert(script[n] == end.script[n]);
    let after = further(script, n, m)->0;
    assert(run(script, n, m) == run(script, n + 1, after));
    after
}

// ── making vectors and taking them apart ─────────────────────────────────
/// A cell becomes a lane: its bits, or the low half of them.
proof fn lemma_lane_made(st: St, c: Val, elem: Rc<Type>, label: &'static str, script: Seq<Cmd>, m: Machine) -> (after:
    Machine)
    requires
        st.script.len() + 8 <= u64::MAX,
        *elem is Float || *elem is Float32,
        c.ty is I64,
        extends(script, st.cell_to_lane(c, elem, label)->Ok_0.0.script),
    ensures
        st.cell_to_lane(c, elem, label) matches Ok((end, v)) && end.script.len()
            <= st.script.len() + 2 && end.cx == st.cx && extends(end.script, st.script) && ready(
            end,
            v,
        ) && passes(script, st.script.len() as int, m, end.script.len() as int, after)
            && after.value(v) == lane_bits(m.value(c), class_of(*elem)) && after.lanes == m.lanes,
{
    reveal(further);
    let n = st.script.len() as int;
    let (end, v) = st.cell_to_lane(c, elem, label)->Ok_0;
    assert(script[n] == end.script[n]);
    let w = lane_bits(m.value(c), class_of(target(elem)));
    let m1 = m.set(n, w);
    assert(run(script, n, m) == run(script, n + 1, m1));
    if target(elem) is Float {
        m1
    } else {
        assert(script[n + 1] == end.script[n + 1]);
        let after = m1.set(n + 1, w);
        assert(run(script, n + 1, m1) == run(script, n + 2, after));
        after
    }
}

/// A lane becomes a cell of its bits.
proof fn lemma_lane_taken(st: St, x: Val, elem: Rc<Type>, label: &'static str, script: Seq<Cmd>, m: Machine) -> (after:
    Machine)
    requires
        st.script.len() + 8 <= u64::MAX,
        *elem is Float || *elem is Float32,
        x.ty == class_of(*elem),
        extends(script, st.lane_to_cell(x, elem, label)->Ok_0.0.script),
    ensures
        st.lane_to_cell(x, elem, label) matches Ok((end, v)) && end.script.len()
            <= st.script.len() + 2 && passes(
            script,
            st.script.len() as int,
            m,
            end.script.len() as int,
            after,
        ) && after.value(v) == m.value(x) && v.ty is I64,
{
    reveal(further);
    let n = st.script.len() as int;
    let (end, v) = st.lane_to_cell(x, elem, label)->Ok_0;
    assert(script[n] == end.script[n]);
    let w = m.value(x);
    let m1 = m.set(n, w);
    assert(run(script, n, m) == run(script, n + 1, m1));
    if target(elem) is Float {
        m1
    } else {
        assert(script[n + 1] == end.script[n + 1]);
        let after = m1.set(n + 1, w);
        assert(run(script, n + 1, m1) == run(script, n + 2, after));
        after
    }
}

/// One lane of a vector as a cell is the lane of that position.
pub proof fn an_extracted_lane_is_that_of_its_position(
    st: St,
    vector: Atom,
    lane: usize,
    elem: Rc<Type>,
    script: Seq<Cmd>,
    m: Machine,
) -> (after: Machine)
    requires
        roomy(st),
        vector_at_hand(st, vector, *elem),
        st.vector_extract(vector, lane, elem) matches Ok((end, _)) ==> extends(script, end.script),
    ensures
        st.vector_extract(vector, lane, elem) matches Ok((end, v)) && passes(
            script,
            st.script.len() as int,
            m,
            end.script.len() as int,
            after,
        ) && after.value(v) == operand_lanes(st, m, vector)[lane as u64] && v.ty is I64,
{
    lemma_at_once(st, m, vector, "vector operand");
    let n = st.script.len() as int;
    let vec = operand_val(st, vector);
    let cmd = Cmd::Extract { vec, lane: lane as u64, label: "vec.extract" };
    let (st1, x) = st.def(cmd, class_of(target(elem)));
    let (end, v) = st1.lane_to_cell(x, elem, "vec.extract.cell")->Ok_0;
    assert(st.vector_extract(vector, lane, elem) == st1.lane_to_cell(x, elem, "vec.extract.cell"));
    assert(end.script[n] == cmd);
    assert(script[n] == end.script[n]);
    let m1 = m.set(n, m.vector(vec)[lane as u64]);
    assert(run(script, n, m) == run(script, n + 1, m1));
    let after = lemma_lane_taken(st1, x, elem, "vec.extract.cell", script, m1);
    lemma_passes(script, n, m, n + 1, m1, end.script.len() as int, after);
    after
}

/// The operands are cells.
pub open spec fn cells_at_hand(st: St, elems: Seq<Atom>) -> bool {
    forall|i: int| 0 <= i < elems.len() ==> cell_at_hand(st, #[trigger] elems[i])
}

proof fn lemma_fill_len(st: St, vec: Val, elems: Seq<Atom>, i: nat, elem: Rc<Type>)
    requires
        *elem is Float || *elem is Float32,
        cells_at_hand(st, elems),
    ensures
        st.fill_lanes(vec, elems, i, elem) matches Ok((end, v)) && st.script.len()
            <= end.script.len() && extends(end.script, st.script) && v.ty == vec.ty,
    decreases elems.len() - i,
{
    if i < elems.len() {
        assert(cell_at_hand(st, elems[i as int]));
        let c = operand_val(st, elems[i as int]);
        let (st1, lane) = st.cell_to_lane(c, elem, "vec.lane")->Ok_0;
        let (st2, next) = st1.insert_lane(vec, lane, i as u64, "vec.ins");
        assert(extends(st2.script, st.script));
        assert(cells_at_hand(st2, elems)) by {
            assert forall|j: int| 0 <= j < elems.len() implies cell_at_hand(st2, #[trigger] elems[j]) by {
                assert(cell_at_hand(st, elems[j]));
            }
        }
        lemma_fill_len(st2, next, elems, i + 1, elem);
        let end = st2.fill_lanes(next, elems, i + 1, elem)->Ok_0.0;
        lemma_prefix(end.script, st, st2);
    }
}

/// The lanes from position `i` on are filled, each with its operand.
#[verifier::rlimit(40)]
proof fn lemma_filled(
    st: St,
    vec: Val,
    elems: Seq<Atom>,
    i: nat,
    elem: Rc<Type>,
    script: Seq<Cmd>,
    m: Machine,
) -> (after: Machine)
    requires
        *elem is Float || *elem is Float32,
        cells_at_hand(st, elems),
        elems.len() <= 8,
        st.script.len() + 3 * (elems.len() - i) + 8 <= u64::MAX,
        i == 0 || ready(st, vec),
        extends(script, st.fill_lanes(vec, elems, i, elem)->Ok_0.0.script),
    ensures
        st.fill_lanes(vec, elems, i, elem) matches Ok((end, v)) && passes(
            script,
            st.script.len() as int,
            m,
            end.script.len() as int,
            after,
        ) && (forall|j: u64|
            i <= j < elems.len() ==> #[trigger] after.vector(v)[j] == lane_bits(
                operand(st, m, elems[j as int]),
                class_of(*elem),
            )) && (forall|j: u64| j < i ==> #[trigger] after.vector(v)[j] == m.vector(vec)[j]),
    decreases elems.len() - i,
{
    let n = st.script.len() as int;
    lemma_fill_len(st, vec, elems, i, elem);
    if i >= elems.len() {
        m
    } else {
        let a = elems[i as int];
        assert(cell_at_hand(st, a));
        lemma_at_once(st, m, a, "vector lane");
        let c = operand_val(st, a);
        let (st1, lane) = st.cell_to_lane(c, elem, "vec.lane")->Ok_0;
        let k = st1.script.len() as int;
        let cmd = Cmd::Insert { vec, elem: lane, lane: i as u64, label: "vec.ins" };
        let (st2, next) = st1.insert_lane(vec, lane, i as u64, "vec.ins");
        assert(extends(st2.script, st.script) && extends(st2.script, st1.script));
        assert(cells_at_hand(st2, elems)) by {
            assert forall|j: int| 0 <= j < elems.len() implies cell_at_hand(st2, #[trigger] elems[j]) by {
                assert(cell_at_hand(st, elems[j]));
            }
        }
        lemma_fill_len(st2, next, elems, i + 1, elem);
        let (end, v) = st2.fill_lanes(next, elems, i + 1, elem)->Ok_0;
        assert(st.fill_lanes(vec, elems, i, elem) == st2.fill_lanes(next, elems, i + 1, elem));
        lemma_prefix(script, st2, end);
        lemma_prefix(script, st1, st2);
        let m1 = lemma_lane_made(st, c, elem, "vec.lane", script, m);
        assert(script[k] == st2.script[k]);
        let lanes = m1.vector(vec).insert(i as u64, m1.value(lane));
        let m2 = m1.made(k, lanes);
        assert(run(script, k, m1) == run(script, k + 1, m2));
        assert(passes(script, k, m1, k + 1, m2));
        lemma_passes(script, n, m, k, m1, k + 1, m2);
        let after = lemma_filled(st2, next, elems, i + 1, elem, script, m2);
        lemma_passes(script, n, m, k + 1, m2, end.script.len() as int, after);
        assert(m2.vector(next) == lanes);
        assert forall|j: u64| i <= j < elems.len() implies #[trigger] after.vector(v)[j] == lane_bits(
            operand(st, m, elems[j as int]),
            class_of(*elem),
        ) by {
            assert(cell_at_hand(st, elems[j as int]));
            if j == i {
                assert(j < i + 1);
            } else {
                assert(operand(st2, m2, elems[j as int]) == operand(st, m, elems[j as int]));
            }
        }
        assert forall|j: u64| j < i implies #[trigger] after.vector(v)[j] == m.vector(vec)[j] by {
            assert(after.vector(v)[j] == m2.vector(next)[j]);
            lemma_vector_kept(st, vec, m, m1);
        }
        after
    }
}

/// A vector literal has, in every lane, the element of that position.
pub proof fn a_vector_literal_has_its_elements(
    st: St,
    shape: VectorShape,
    elem: Rc<Type>,
    elems: Seq<Atom>,
    script: Seq<Cmd>,
    m: Machine,
) -> (after: Machine)
    requires
        roomy(st),
        *elem is Float || *elem is Float32,
        cells_at_hand(st, elems),
        st.vector_lit(shape, elem, elems) matches Ok((end, _)) ==> extends(script, end.script),
    ensures
        if elems.len() == shape.lane_count() {
            st.vector_lit(shape, elem, elems) matches Ok((end, v)) && passes(
                script,
                st.script.len() as int,
                m,
                end.script.len() as int,
                after,
            ) && width(v.ty) == elems.len() && forall|i: u64|
                i < elems.len() ==> #[trigger] after.vector(v)[i] == lane_bits(
                    operand(st, m, elems[i as int]),
                    class_of(*elem),
                )
        } else {
            st.vector_lit(shape, elem, elems) == Err::<(St, Val), CodegenError>(
                CodegenError::LaneCount(shape, elems.len() as usize),
            )
        },
{
    if elems.len() == shape.lane_count() {
        let vec = Val { id: Id::Undef, ty: vector_ty(shape, elem)->Ok_0 };
        lemma_fill_len(st, vec, elems, 0, elem);
        lemma_filled(st, vec, elems, 0, elem, script, m)
    } else {
        m
    }
}

proof fn lemma_splat_len(st: St, vec: Val, lane: Val, n: nat)
    ensures
        st.splat_lanes(vec, lane, n).0.script.len() == st.script.len() + n,
        st.splat_lanes(vec, lane, n).0.cx == st.cx,
        extends(st.splat_lanes(vec, lane, n).0.script, st.script),
        st.splat_lanes(vec, lane, n).1.ty == vec.ty,
        n > 0 ==> st.splat_lanes(vec, lane, n).1.id == Id::Reg((st.script.len() + n - 1) as u64),
    decreases n,
{
    if n > 0 {
        lemma_splat_len(st, vec, lane, (n - 1) as nat);
        let (before, v) = st.splat_lanes(vec, lane, (n - 1) as nat);
        let end = st.splat_lanes(vec, lane, n).0;
        assert(extends(end.script, before.script));
        lemma_prefix(end.script, st, before);
    }
}

proof fn lemma_splatted(st: St, vec: Val, lane: Val, n: nat, script: Seq<Cmd>, m: Machine) -> (after:
    Machine)
    requires
        n <= 8,
        st.script.len() + 16 <= u64::MAX,
        ready(st, lane),
        extends(script, st.splat_lanes(vec, lane, n).0.script),
    ensures
        passes(script, st.script.len() as int, m, st.script.len() as int + n, after),
        after.regs == m.regs,
        after.params == m.params,
        forall|i: u64|
            i < n ==> #[trigger] after.vector(st.splat_lanes(vec, lane, n).1)[i] == m.value(lane),
    decreases n,
{
    if n == 0 {
        m
    } else {
        let k = st.script.len() + n - 1;
        let (before, v) = st.splat_lanes(vec, lane, (n - 1) as nat);
        let (end, w) = st.splat_lanes(vec, lane, n);
        lemma_splat_len(st, vec, lane, (n - 1) as nat);
        lemma_splat_len(st, vec, lane, n);
        assert(extends(end.script, before.script));
        lemma_prefix(script, before, end);
        let mid = lemma_splatted(st, vec, lane, (n - 1) as nat, script, m);
        assert(script[k] == end.script[k]);
        let after = mid.made(k, mid.vector(v).insert((n - 1) as u64, mid.value(lane)));
        assert(run(script, k, mid) == run(script, k + 1, after));
        lemma_passes(script, st.script.len() as int, m, k, mid, k + 1, after);
        after
    }
}

/// A splat has its one value in every lane.
pub proof fn a_splat_has_its_value_in_every_lane(
    st: St,
    shape: VectorShape,
    elem: Rc<Type>,
    value: Atom,
    script: Seq<Cmd>,
    m: Machine,
) -> (after: Machine)
    requires
        roomy(st),
        *elem is Float || *elem is Float32,
        cell_at_hand(st, value),
        st.vector_splat(shape, elem, value) matches Ok((end, _)) ==> extends(script, end.script),
    ensures
        st.vector_splat(shape, elem, value) matches Ok((end, v)) && passes(
            script,
            st.script.len() as int,
            m,
            end.script.len() as int,
            after,
        ) && width(v.ty) == shape.lane_count() && forall|i: u64|
            i < shape.lane_count() ==> #[trigger] after.vector(v)[i] == lane_bits(
                operand(st, m, value),
                class_of(*elem),
            ),
{
    let n = st.script.len() as int;
    lemma_at_once(st, m, value, "vector lane");
    let c = operand_val(st, value);
    let vec = Val { id: Id::Undef, ty: vector_ty(shape, elem)->Ok_0 };
    let (st1, lane) = st.cell_to_lane(c, elem, "splat.lane")->Ok_0;
    let (end, v) = st1.splat_lanes(vec, lane, shape.lane_count());
    assert(st.vector_splat(shape, elem, value) == Ok::<(St, Val), CodegenError>((end, v)));
    lemma_splat_len(st1, vec, lane, shape.lane_count());
    lemma_prefix(script, st1, end);
    let m1 = lemma_lane_made(st, c, elem, "splat.lane", script, m);
    let after = lemma_splatted(st1, vec, lane, shape.lane_count(), script, m1);
    lemma_passes(
        script,
        n,
        m,
        st1.script.len() as int,
        m1,
        end.script.len() as int,
        after,
    );
    after
}

// ── masks ────────────────────────────────────────────────────────────────
/// Some of the first `n` lanes holds.
pub open spec fn any_holds(lanes: Lanes, n: nat) -> bool {
    exists|i: u64| i < n && #[trigger] lanes[i] != 0
}

/// All of the first `n` lanes hold.
pub open spec fn all_hold(lanes: Lanes, n: nat) -> bool {
    forall|i: u64| i < n ==> #[trigger] lanes[i] != 0
}

proof fn lemma_mask_lanes(st: St, v: Val, n: nat, script: Seq<Cmd>, m: Machine) -> (after: Machine)
    requires
        n <= 8,
        st.script.len() + 32 <= u64::MAX,
        extends(script, st.mask_lanes(v, n).0.script),
    ensures
        passes(script, st.script.len() as int, m, st.script.len() as int + n, after),
        after.lanes == m.lanes,
        st.mask_lanes(v, n).0.script.len() == st.script.len() + n,
        st.mask_lanes(v, n).0.cx == st.cx,
        extends(st.mask_lanes(v, n).0.script, st.script),
        st.mask_lanes(v, n).1.len() == n,
        forall|i: int|
            0 <= i < n ==> (#[trigger] st.mask_lanes(v, n).1[i]) == (Val {
                id: Id::Reg((st.script.len() + i) as u64),
                ty: Ty::I1,
            }),
        forall|i: int|
            0 <= i < n ==> #[trigger] after.regs[(st.script.len() + i) as u64] == m.vector(
                v,
            )[i as u64],
    decreases n,
{
    if n == 0 {
        m
    } else {
        let k = st.script.len() + n - 1;
        let (before, list) = st.mask_lanes(v, (n - 1) as nat);
        let end = st.mask_lanes(v, n).0;
        assert(extends(end.script, before.script));
        lemma_prefix(script, before, end);
        let mid = lemma_mask_lanes(st, v, (n - 1) as nat, script, m);
        lemma_prefix(end.script, st, before);
        assert(script[k] == end.script[k]);
        let after = mid.set(k, mid.vector(v)[(n - 1) as u64]);
        assert(mid.vector(v) == m.vector(v));
        assert(run(script, k, mid) == run(script, k + 1, after));
        lemma_passes(script, st.script.len() as int, m, k, mid, k + 1, after);
        assert forall|i: int| 0 <= i < n implies #[trigger] after.regs[(st.script.len() + i) as u64]
            == m.vector(v)[i as u64] by {
            if i < n - 1 {
                assert(mid.regs[(st.script.len() + i) as u64] == m.vector(v)[i as u64]);
            }
        }
        after
    }
}

/// The first `n` lanes joined.
pub open spec fn joins(op: MaskReduceOp, lanes: Lanes, n: nat) -> bool {
    match op {
        MaskReduceOp::Any => any_holds(lanes, n),
        MaskReduceOp::All => all_hold(lanes, n),
    }
}

proof fn lemma_joins(op: MaskReduceOp, lanes: Lanes, n: nat)
    requires
        1 <= n <= 8,
        is_mask(lanes, n + 1),
    ensures
        n == 1 ==> flag(joins(op, lanes, 1)) == lanes[0],
        op is Any ==> flag(joins(op, lanes, n + 1)) == flag(joins(op, lanes, n)) | lanes[n as u64],
        op is All ==> flag(joins(op, lanes, n + 1)) == flag(joins(op, lanes, n)) & lanes[n as u64],
{
    let last = lanes[n as u64];
    let before = flag(joins(op, lanes, n));
    assert(last <= 1);
    assert(before <= 1);
    assert(lanes[0] <= 1);
    assert(last <= 1 && before <= 1 ==> (before | last) == (if before == 1 || last == 1 {
        1u64
    } else {
        0
    }) && (before & last) == (if before == 1 && last == 1 {
        1u64
    } else {
        0
    })) by (bit_vector);
    assert(any_holds(lanes, n + 1) == (any_holds(lanes, n) || last != 0)) by {
        if any_holds(lanes, n) {
            let i = choose|i: u64| i < n && #[trigger] lanes[i] != 0;
            assert(i < n + 1 && lanes[i] != 0);
        }
    }
    assert(all_hold(lanes, n + 1) == (all_hold(lanes, n) && last != 0)) by {
        if all_hold(lanes, n) && last != 0 {
            assert forall|i: u64| i < n + 1 implies #[trigger] lanes[i] != 0 by {
                if i < n {
                    assert(lanes[i] != 0);
                }
            }
        }
        if all_hold(lanes, n + 1) {
            assert(lanes[n as u64] != 0);
        }
    }
    if n == 1 {
        if lanes[0] != 0 {
            assert(any_holds(lanes, 1));
        }
    }
}

proof fn lemma_join_lanes(
    st: St,
    op: MaskReduceOp,
    list: Seq<Val>,
    n: nat,
    lanes: Lanes,
    script: Seq<Cmd>,
    m: Machine,
) -> (after: Machine)
    requires
        1 <= n <= list.len(),
        n <= 8,
        st.script.len() + 16 <= u64::MAX,
        is_mask(lanes, list.len()),
        forall|i: int|
            0 <= i < list.len() ==> ready(st, #[trigger] list[i]) && m.value(list[i])
                == lanes[i as u64] && list[i].ty is I1,
        extends(script, st.join_lanes(op, list, n).0.script),
    ensures
        passes(script, st.script.len() as int, m, st.script.len() as int + n - 1, after),
        st.join_lanes(op, list, n).0.script.len() == st.script.len() + n - 1,
        extends(st.join_lanes(op, list, n).0.script, st.script),
        st.join_lanes(op, list, n).1.ty is I1,
        after.value(st.join_lanes(op, list, n).1) == flag(joins(op, lanes, n)),
        ready(st.join_lanes(op, list, n).0, st.join_lanes(op, list, n).1),
    decreases n,
{
    if n <= 1 {
        assert(list[0].ty is I1);
        assert(flag(joins(op, lanes, 1)) == lanes[0]) by {
            assert(lanes[0] <= 1);
            if lanes[0] != 0 {
                assert(any_holds(lanes, 1));
            }
            if all_hold(lanes, 1) {
                assert(lanes[0] != 0);
            }
        }
        m
    } else {
        let k = st.script.len() + n - 2;
        let (before, acc) = st.join_lanes(op, list, (n - 1) as nat);
        let (end, v) = st.join_lanes(op, list, n);
        assert(extends(end.script, before.script));
        lemma_prefix(script, before, end);
        let mid = lemma_join_lanes(st, op, list, (n - 1) as nat, lanes, script, m);
        lemma_prefix(end.script, st, before);
        assert(script[k] == end.script[k]);
        lemma_joins(op, lanes, (n - 1) as nat);
        assert(ready(st, list[n - 1]));
        assert(mid.value(list[n - 1]) == lanes[(n - 1) as u64]);
        let after = mid.set(k, flag(joins(op, lanes, n)));
        assert(run(script, k, mid) == run(script, k + 1, after));
        lemma_passes(script, st.script.len() as int, m, k, mid, k + 1, after);
        after
    }
}

/// Whether any or all lanes of a mask hold comes out as one or zero.
pub proof fn a_mask_is_reduced_to_whether_its_lanes_hold(
    st: St,
    op: MaskReduceOp,
    shape: VectorShape,
    mask: Atom,
    script: Seq<Cmd>,
    m: Machine,
) -> (after: Machine)
    requires
        roomy(st),
        at_once(st, mask),
        operand_val(st, mask).ty is Mask,
        is_mask(operand_lanes(st, m, mask), shape.lane_count()),
        st.mask_reduce(op, shape, mask) matches Ok((end, _)) ==> extends(script, end.script),
    ensures
        st.mask_reduce(op, shape, mask) matches Ok((end, v)) && passes(
            script,
            st.script.len() as int,
            m,
            end.script.len() as int,
            after,
        ) && v.ty is I64 && after.value(v) == flag(
            match op {
                MaskReduceOp::Any => any_holds(operand_lanes(st, m, mask), shape.lane_count()),
                MaskReduceOp::All => all_hold(operand_lanes(st, m, mask), shape.lane_count()),
            },
        ),
{
    lemma_at_once(st, m, mask, "vector mask");
    let v = operand_val(st, mask);
    let k = shape.lane_count();
    let n = st.script.len() as int;
    let lanes = m.vector(v);
    let (st1, list) = st.mask_lanes(v, k);
    let (st2, acc) = st1.join_lanes(op, list, k);
    let (end, r) = st.mask_reduce(op, shape, mask)->Ok_0;
    assert(extends(end.script, st2.script));
    lemma_prefix(script, st2, end);
    lemma_join_len(st1, op, list, k);
    lemma_prefix(script, st1, st2);
    let m1 = lemma_mask_lanes(st, v, k, script, m);
    assert forall|i: int| 0 <= i < list.len() implies ready(st1, #[trigger] list[i]) && m1.value(list[i])
        == lanes[i as u64] && list[i].ty is I1 by {
        assert(m1.regs[(st.script.len() + i) as u64] == lanes[i as u64]);
    }
    let m2 = lemma_join_lanes(st1, op, list, k, lanes, script, m1);
    lemma_passes(script, n, m, st1.script.len() as int, m1, st2.script.len() as int, m2);
    let p = st2.script.len() as int;
    assert(script[p] == end.script[p]);
    let after = m2.set(p, m2.value(acc));
    assert(run(script, p, m2) == run(script, p + 1, after));
    lemma_passes(script, n, m, p, m2, p + 1, after);
    after
}

proof fn lemma_join_len(st: St, op: MaskReduceOp, list: Seq<Val>, n: nat)
    ensures
        extends(st.join_lanes(op, list, n).0.script, st.script),
    decreases n,
{
    if n > 1 {
        lemma_join_len(st, op, list, (n - 1) as nat);
        let before = st.join_lanes(op, list, (n - 1) as nat).0;
        let end = st.join_lanes(op, list, n).0;
        assert(extends(end.script, before.script));
        lemma_prefix(end.script, st, before);
    }
}

// ── floating-point functions ─────────────────────────────────────────────
/// The operand is a vector of a shape and an element type.
pub open spec fn shaped_at_hand(st: St, a: Atom, shape: VectorShape, elem: Type) -> bool {
    &&& at_once(st, a)
    &&& elem is Float32 && operand_val(st, a).ty == Ty::VecF32(shape.lane_count() as u32) || elem
        is Float && operand_val(st, a).ty == Ty::VecF64(shape.lane_count() as u32)
}

/// The names of the intrinsics on vectors are no others.
#[verifier::rlimit(60)]
proof fn lemma_vector_name(f: VectorIntrinsic, shape: VectorShape, elem: Type, ty: Ty)
    requires
        elem is Float32 && ty == Ty::VecF32(shape.lane_count() as u32) || elem is Float && ty
            == Ty::VecF64(shape.lane_count() as u32),
    ensures
        ({
            let name = intrinsic_name(f, shape, class_of(elem))@;
            &&& name == (match f {
                VectorIntrinsic::Sqrt => "llvm.sqrt"@,
                VectorIntrinsic::Fma => "llvm.fma"@,
                VectorIntrinsic::ReduceAdd => "llvm.vector.reduce.fadd"@,
            }) + vector_ending(ty)
            &&& name != "llvm.trap"@
            &&& forall|m: Machine, at: int| #[trigger] calls(m, at, name) is None
            &&& forall|m: Machine, at: int| #[trigger] scalar_intrinsic(m, at, name) is None
            &&& forall|m: Machine, at: int| #[trigger] runtime_array(m, at, name) is None
        }),
{
    reveal_strlit("locus_alloc");
    reveal_strlit("locus_gc_scalar_fields_ptr");
    reveal_strlit("locus_gc_set_scalar");
    reveal_strlit("locus_gc_get_scalar");
    reveal_strlit("locus_gc_alloc");
    reveal_strlit("llvm.sadd.with.overflow.i64");
    reveal_strlit("llvm.ssub.with.overflow.i64");
    reveal_strlit("llvm.smul.with.overflow.i64");
    reveal_strlit("llvm.trap");
    reveal_strlit("llvm.floor.f64");
    reveal_strlit("llvm.round.f64");
    reveal_strlit("llvm.sqrt.f64");
    reveal_strlit("llvm.sqrt.f32");
    reveal_strlit("llvm.fma.f64");
    reveal_strlit("llvm.fma.f32");
    reveal_strlit("locus_gc_len");
    reveal_strlit("locus_gc_array_get_scalar_bytes");
    reveal_strlit("locus_gc_array_set_scalar_bytes");
    assert("locus_gc_len"@.len() == 12);
    assert("locus_gc_array_get_scalar_bytes"@.len() == 31);
    assert("locus_gc_array_set_scalar_bytes"@.len() == 31);
    reveal_strlit("llvm.sqrt");
    reveal_strlit("llvm.fma");
    reveal_strlit("llvm.vector.reduce.fadd");
    reveal_strlit(".v2f32");
    reveal_strlit(".v4f32");
    reveal_strlit(".v8f32");
    reveal_strlit(".v2f64");
    reveal_strlit(".v4f64");
    reveal_strlit(".v8f64");
    reveal_strlit("llvm.sqrt.v2f32");
    reveal_strlit("llvm.sqrt.v4f32");
    reveal_strlit("llvm.sqrt.v8f32");
    reveal_strlit("llvm.sqrt.v2f64");
    reveal_strlit("llvm.sqrt.v4f64");
    reveal_strlit("llvm.sqrt.v8f64");
    reveal_strlit("llvm.fma.v2f32");
    reveal_strlit("llvm.fma.v4f32");
    reveal_strlit("llvm.fma.v8f32");
    reveal_strlit("llvm.fma.v2f64");
    reveal_strlit("llvm.fma.v4f64");
    reveal_strlit("llvm.fma.v8f64");
    reveal_strlit("llvm.vector.reduce.fadd.v2f32");
    reveal_strlit("llvm.vector.reduce.fadd.v4f32");
    reveal_strlit("llvm.vector.reduce.fadd.v8f32");
    reveal_strlit("llvm.vector.reduce.fadd.v2f64");
    reveal_strlit("llvm.vector.reduce.fadd.v4f64");
    reveal_strlit("llvm.vector.reduce.fadd.v8f64");
    let name = intrinsic_name(f, shape, class_of(elem))@;
    match f {
        VectorIntrinsic::Sqrt => {
            assert(name =~= "llvm.sqrt"@ + vector_ending(ty));
            assert(name.len() == 15);
        },
        VectorIntrinsic::Fma => {
            assert(name =~= "llvm.fma"@ + vector_ending(ty));
            assert(name.len() == 14 && name[1] == 'l' && name[6] == 'm');
            assert("locus_gc_alloc"@[1] == 'o');
            assert("llvm.floor.f64"@[6] == 'l' && "llvm.round.f64"@[6] == 'o');
        },
        VectorIntrinsic::ReduceAdd => {
            assert(name =~= "llvm.vector.reduce.fadd"@ + vector_ending(ty));
            assert(name.len() == 29);
        },
    }
}

/// The sum of the lanes of a vector.
proof fn lemma_reduced(
    st: St,
    shape: VectorShape,
    elem: Rc<Type>,
    v: Val,
    label: &'static str,
    script: Seq<Cmd>,
    m: Machine,
) -> (after: Machine)
    requires
        st.script.len() + 16 <= u64::MAX,
        *elem is Float32 && v.ty == Ty::VecF32(shape.lane_count() as u32) || *elem is Float && v.ty
            == Ty::VecF64(shape.lane_count() as u32),
        m.args.len() == 0,
        extends(script, st.reduce_add(shape, elem, v, label)->Ok_0.0.script),
    ensures
        st.reduce_add(shape, elem, v, label) matches Ok((end, r)) && end.script.len()
            == st.script.len() + 3 && end.cx == st.cx && r == (Val {
            id: Id::Reg((st.script.len() + 2) as u64),
            ty: class_of(*elem),
        }) && passes(script, st.script.len() as int, m, st.script.len() as int + 3, after)
            && after.value(r) == total(m.floats, class_of(*elem), m.vector(v), shape.lane_count())
            && after.floats == m.floats,
{
    let n = st.script.len() as int;
    let (end, r) = st.reduce_add(shape, elem, v, label)->Ok_0;
    assert(script[n] == end.script[n] && script[n + 1] == end.script[n + 1] && script[n + 2]
        == end.script[n + 2]);
    lemma_vector_name(VectorIntrinsic::ReduceAdd, shape, target(elem), v.ty);
    let m1 = Machine { args: m.args.push(0), ..m };
    let m2 = Machine { args: m1.args.push(m.value(v)), ..m1 };
    let w = total(m.floats, class_of(target(elem)), m.vector(v), shape.lane_count());
    let after = Machine { args: Seq::empty(), ..m2.set(n + 2, w) };
    assert(m.args =~= Seq::<u64>::empty());
    assert(run(script, n, m) == run(script, n + 1, m1));
    assert(run(script, n + 1, m1) == run(script, n + 2, m2));
    assert(m2.vector(v) == m.vector(v));
    assert(further(script, n + 2, m2) == Some(after)) by {
        reveal(further);
    }
    assert(run(script, n + 2, m2) == run(script, n + 3, after));
    after
}

/// The square root of a scalar.
proof fn lemma_rooted(st: St, v: Val, label: &'static str, script: Seq<Cmd>, m: Machine) -> (after:
    Machine)
    requires
        st.script.len() + 16 <= u64::MAX,
        v.ty is F32 || v.ty is F64,
        m.args.len() == 0,
        extends(script, st.scalar_sqrt(v, label).0.script),
    ensures
        ({
            let (end, r) = st.scalar_sqrt(v, label);
            &&& end.script.len() == st.script.len() + 2
            &&& end.cx == st.cx
            &&& r == (Val { id: Id::Reg((st.script.len() + 1) as u64), ty: v.ty })
            &&& passes(script, st.script.len() as int, m, st.script.len() as int + 2, after)
            &&& after.value(r) == (m.floats.root)(v.ty, m.value(v))
        }),
{
    let n = st.script.len() as int;
    let (end, r) = st.scalar_sqrt(v, label);
    assert(script[n] == end.script[n] && script[n + 1] == end.script[n + 1]);
    lemma_names_apart();
    let m1 = Machine { args: m.args.push(m.value(v)), ..m };
    let after = Machine { args: Seq::empty(), ..m1.set(n + 1, (m.floats.root)(v.ty, m.value(v))) };
    assert(m.args =~= Seq::<u64>::empty());
    assert(run(script, n, m) == run(script, n + 1, m1));
    assert(further(script, n + 1, m1) == Some(after)) by {
        reveal(further);
    }
    assert(run(script, n + 1, m1) == run(script, n + 2, after));
    after
}

/// The square root of a float is the root of its bits.
pub proof fn a_root_is_that_of_its_operand(st: St, ty: Rc<Type>, value: Atom, script: Seq<Cmd>, m: Machine) -> (after:
    Machine)
    requires
        roomy(st),
        *ty is Float || *ty is Float32,
        cell_at_hand(st, value),
        m.args.len() == 0,
        st.math_unary(FloatMathOp::Sqrt, ty, value) matches Ok((end, _)) ==> extends(
            script,
            end.script,
        ),
    ensures
        st.math_unary(FloatMathOp::Sqrt, ty, value) matches Ok((end, v)) && passes(
            script,
            st.script.len() as int,
            m,
            end.script.len() as int,
            after,
        ) && v.ty is I64 && after.value(v) == (m.floats.root)(
            class_of(*ty),
            lane_bits(operand(st, m, value), class_of(*ty)),
        ),
{
    lemma_at_once(st, m, value, "float operand");
    let n = st.script.len() as int;
    let c = operand_val(st, value);
    let labels = if target(ty) is Float {
        ("sqrt.in", "sqrt", "sqrt.bits")
    } else {
        ("sqrt.f32.in", "sqrt.f32", "sqrt.f32.bits")
    };
    let (st1, f) = st.cell_to_lane(c, ty, labels.0)->Ok_0;
    let (st2, r) = st1.scalar_sqrt(f, labels.1);
    let (end, v) = st2.lane_to_cell(r, ty, labels.2)->Ok_0;
    assert(st.math_unary(FloatMathOp::Sqrt, ty, value) == Ok::<(St, Val), CodegenError>((end, v)));
    assert(extends(end.script, st2.script) && extends(st2.script, st1.script));
    lemma_prefix(script, st2, end);
    lemma_prefix(script, st1, st2);
    let m1 = lemma_lane_made(st, c, ty, labels.0, script, m);
    let m2 = lemma_rooted(st1, f, labels.1, script, m1);
    let k = st2.script.len() as int;
    lemma_passes(script, n, m, st1.script.len() as int, m1, k, m2);
    let after = lemma_lane_taken(st2, r, ty, labels.2, script, m2);
    lemma_passes(script, n, m, k, m2, end.script.len() as int, after);
    after
}

/// The square root of a vector is taken lane by lane.
pub proof fn a_root_is_taken_lane_by_lane(
    st: St,
    ty: Rc<Type>,
    shape: VectorShape,
    elem: Rc<Type>,
    value: Atom,
    script: Seq<Cmd>,
    m: Machine,
) -> (after: Machine)
    requires
        roomy(st),
        *ty == Type::Vector(shape, elem),
        shaped_at_hand(st, value, shape, *elem),
        m.args.len() == 0,
        st.math_unary(FloatMathOp::Sqrt, ty, value) matches Ok((end, _)) ==> extends(
            script,
            end.script,
        ),
    ensures
        st.math_unary(FloatMathOp::Sqrt, ty, value) matches Ok((end, v)) && passes(
            script,
            st.script.len() as int,
            m,
            end.script.len() as int,
            after,
        ) && v.ty == operand_val(st, value).ty && forall|i: u64|
            i < shape.lane_count() ==> #[trigger] after.vector(v)[i] == (m.floats.root)(
                class_of(*elem),
                operand_lanes(st, m, value)[i],
            ),
{
    lemma_at_once(st, m, value, "vector operand");
    let n = st.script.len() as int;
    let x = operand_val(st, value);
    let (end, v) = st.math_unary(FloatMathOp::Sqrt, ty, value)->Ok_0;
    assert(script[n] == end.script[n] && script[n + 1] == end.script[n + 1]);
    lemma_vector_name(VectorIntrinsic::Sqrt, shape, target(elem), x.ty);
    let m1 = Machine { args: m.args.push(m.value(x)), ..m };
    assert(m.args =~= Seq::<u64>::empty());
    assert(run(script, n, m) == run(script, n + 1, m1));
    assert(m1.vector(x) == m.vector(x));
    reveal(further);
    let after = further(script, n + 1, m1)->0;
    assert(run(script, n + 1, m1) == run(script, n + 2, after));
    after
}

/// The sum of a vector is that of its lanes in their order.
pub proof fn a_sum_is_that_of_the_lanes(
    st: St,
    ty: Rc<Type>,
    shape: VectorShape,
    elem: Rc<Type>,
    value: Atom,
    script: Seq<Cmd>,
    m: Machine,
) -> (after: Machine)
    requires
        roomy(st),
        *ty == Type::Vector(shape, elem),
        shaped_at_hand(st, value, shape, *elem),
        m.args.len() == 0,
        st.math_unary(FloatMathOp::Sum, ty, value) matches Ok((end, _)) ==> extends(
            script,
            end.script,
        ),
    ensures
        st.math_unary(FloatMathOp::Sum, ty, value) matches Ok((end, v)) && passes(
            script,
            st.script.len() as int,
            m,
            end.script.len() as int,
            after,
        ) && v.ty is I64 && after.value(v) == total(
            m.floats,
            class_of(*elem),
            operand_lanes(st, m, value),
            shape.lane_count(),
        ),
{
    lemma_at_once(st, m, value, "vector operand");
    let n = st.script.len() as int;
    let x = operand_val(st, value);
    let (st1, r) = st.reduce_add(shape, elem, x, "sum")->Ok_0;
    let (end, v) = st1.lane_to_cell(r, elem, "sum.bits")->Ok_0;
    assert(st.math_unary(FloatMathOp::Sum, ty, value) == Ok::<(St, Val), CodegenError>((end, v)));
    assert(extends(end.script, st1.script));
    lemma_prefix(script, st1, end);
    let m1 = lemma_reduced(st, shape, elem, x, "sum", script, m);
    let after = lemma_lane_taken(st1, r, elem, "sum.bits", script, m1);
    lemma_passes(script, n, m, n + 3, m1, end.script.len() as int, after);
    after
}

/// The products of two vectors, lane by lane.
pub open spec fn products(f: Floats, ty: Ty, x: Lanes, y: Lanes, n: nat) -> Lanes {
    lanes_of(n, |i: u64| (f.product)(ty, x[i], y[i]))
}

proof fn lemma_multiplied(
    st: St,
    x: Val,
    y: Val,
    label: &'static str,
    shape: VectorShape,
    elem: Type,
    script: Seq<Cmd>,
    m: Machine,
) -> (after: Machine)
    requires
        st.script.len() + 16 <= u64::MAX,
        elem is Float32 && x.ty == Ty::VecF32(shape.lane_count() as u32) || elem is Float && x.ty
            == Ty::VecF64(shape.lane_count() as u32),
        extends(script, st.fop(FloatOp::Mul, x, y, label).0.script),
    ensures
        passes(script, st.script.len() as int, m, st.script.len() as int + 1, after),
        after.vector(st.fop(FloatOp::Mul, x, y, label).1) == products(
            m.floats,
            class_of(elem),
            m.vector(x),
            m.vector(y),
            shape.lane_count(),
        ),
        after.floats == m.floats,
        after.args == m.args,
{
    let n = st.script.len() as int;
    assert(script[n] == st.fop(FloatOp::Mul, x, y, label).0.script[n]);
    reveal(further);
    let after = further(script, n, m)->0;
    assert(run(script, n, m) == run(script, n + 1, after));
    assert(after.vector(st.fop(FloatOp::Mul, x, y, label).1) =~= products(
        m.floats,
        class_of(elem),
        m.vector(x),
        m.vector(y),
        shape.lane_count(),
    ));
    after
}

/// The dot product of two vectors is the sum of the products of their lanes.
pub proof fn a_dot_product_sums_the_products(
    st: St,
    ty: Rc<Type>,
    shape: VectorShape,
    elem: Rc<Type>,
    a: Atom,
    b: Atom,
    script: Seq<Cmd>,
    m: Machine,
) -> (after: Machine)
    requires
        roomy(st),
        *ty == Type::Vector(shape, elem),
        shaped_at_hand(st, a, shape, *elem),
        shaped_at_hand(st, b, shape, *elem),
        m.args.len() == 0,
        st.math_binary(FloatMathOp::Dot, ty, a, b) matches Ok((end, _)) ==> extends(
            script,
            end.script,
        ),
    ensures
        st.math_binary(FloatMathOp::Dot, ty, a, b) matches Ok((end, v)) && passes(
            script,
            st.script.len() as int,
            m,
            end.script.len() as int,
            after,
        ) && v.ty is I64 && after.value(v) == total(
            m.floats,
            class_of(*elem),
            products(
                m.floats,
                class_of(*elem),
                operand_lanes(st, m, a),
                operand_lanes(st, m, b),
                shape.lane_count(),
            ),
            shape.lane_count(),
        ),
{
    lemma_at_once(st, m, a, "vector operand");
    lemma_at_once(st, m, b, "vector operand");
    let n = st.script.len() as int;
    let x = operand_val(st, a);
    let y = operand_val(st, b);
    let (st1, prod) = st.fop(FloatOp::Mul, x, y, "dot.mul");
    let (st2, r) = st1.reduce_add(shape, elem, prod, "dot")->Ok_0;
    let (end, v) = st2.lane_to_cell(r, elem, "dot.bits")->Ok_0;
    assert(st.math_binary(FloatMathOp::Dot, ty, a, b) == Ok::<(St, Val), CodegenError>((end, v)));
    assert(extends(end.script, st2.script) && extends(st2.script, st1.script));
    lemma_prefix(script, st2, end);
    lemma_prefix(script, st1, st2);
    let m1 = lemma_multiplied(st, x, y, "dot.mul", shape, target(elem), script, m);
    let m2 = lemma_reduced(st1, shape, elem, prod, "dot", script, m1);
    lemma_passes(script, n, m, n + 1, m1, n + 4, m2);
    let after = lemma_lane_taken(st2, r, elem, "dot.bits", script, m2);
    lemma_passes(script, n, m, n + 4, m2, end.script.len() as int, after);
    after
}

/// The length of a vector is the root of the sum of the squares of its lanes.
pub proof fn a_length_is_the_root_of_the_squares(
    st: St,
    ty: Rc<Type>,
    shape: VectorShape,
    elem: Rc<Type>,
    value: Atom,
    script: Seq<Cmd>,
    m: Machine,
) -> (after: Machine)
    requires
        roomy(st),
        *ty == Type::Vector(shape, elem),
        shaped_at_hand(st, value, shape, *elem),
        m.args.len() == 0,
        st.math_unary(FloatMathOp::Length, ty, value) matches Ok((end, _)) ==> extends(
            script,
            end.script,
        ),
    ensures
        st.math_unary(FloatMathOp::Length, ty, value) matches Ok((end, v)) && passes(
            script,
            st.script.len() as int,
            m,
            end.script.len() as int,
            after,
        ) && v.ty is I64 && after.value(v) == (m.floats.root)(
            class_of(*elem),
            total(
                m.floats,
                class_of(*elem),
                products(
                    m.floats,
                    class_of(*elem),
                    operand_lanes(st, m, value),
                    operand_lanes(st, m, value),
                    shape.lane_count(),
                ),
                shape.lane_count(),
            ),
        ),
{
    lemma_at_once(st, m, value, "vector operand");
    let n = st.script.len() as int;
    let x = operand_val(st, value);
    let (st1, sq) = st.fop(FloatOp::Mul, x, x, "length.square");
    let (st2, sum) = st1.reduce_add(shape, elem, sq, "length.sum")->Ok_0;
    let (st3, r) = st2.scalar_sqrt(sum, "length.sqrt");
    let (end, v) = st3.lane_to_cell(r, elem, "length.bits")->Ok_0;
    assert(st.math_unary(FloatMathOp::Length, ty, value) == Ok::<(St, Val), CodegenError>((end, v)));
    assert(extends(end.script, st3.script) && extends(st3.script, st2.script) && extends(
        st2.script,
        st1.script,
    ));
    lemma_prefix(script, st3, end);
    lemma_prefix(script, st2, st3);
    lemma_prefix(script, st1, st2);
    let m1 = lemma_multiplied(st, x, x, "length.square", shape, target(elem), script, m);
    let m2 = lemma_reduced(st1, shape, elem, sq, "length.sum", script, m1);
    lemma_passes(script, n, m, n + 1, m1, n + 4, m2);
    let m3 = lemma_rooted(st2, sum, "length.sqrt", script, m2);
    lemma_passes(script, n, m, n + 4, m2, n + 6, m3);
    let after = lemma_lane_taken(st3, r, elem, "length.bits", script, m3);
    lemma_passes(script, n, m, n + 6, m3, end.script.len() as int, after);
    after
}

/// A fused multiply and add of floats is that of their bits: the first two are
/// multiplied, the third is added.
#[verifier::rlimit(40)]
pub proof fn a_fused_product_is_that_of_its_operands(
    st: St,
    ty: Rc<Type>,
    a: Atom,
    b: Atom,
    c: Atom,
    script: Seq<Cmd>,
    m: Machine,
) -> (after: Machine)
    requires
        roomy(st),
        *ty is Float || *ty is Float32,
        cell_at_hand(st, a),
        cell_at_hand(st, b),
        cell_at_hand(st, c),
        m.args.len() == 0,
        st.math_ternary(FloatMathOp::Fma, ty, a, b, c) matches Ok((end, _)) ==> extends(
            script,
            end.script,
        ),
    ensures
        st.math_ternary(FloatMathOp::Fma, ty, a, b, c) matches Ok((end, v)) && passes(
            script,
            st.script.len() as int,
            m,
            end.script.len() as int,
            after,
        ) && v.ty is I64 && after.value(v) == (m.floats.fused)(
            class_of(*ty),
            lane_bits(operand(st, m, a), class_of(*ty)),
            lane_bits(operand(st, m, b), class_of(*ty)),
            lane_bits(operand(st, m, c), class_of(*ty)),
        ),
{
    lemma_at_once(st, m, a, "float operand");
    lemma_at_once(st, m, b, "float operand");
    lemma_at_once(st, m, c, "float operand");
    let n = st.script.len() as int;
    let (x, y, z) = (operand_val(st, a), operand_val(st, b), operand_val(st, c));
    let labels = if target(ty) is Float {
        ("fma.a", "fma.b", "fma.c", "fma", "fma.bits")
    } else {
        ("fma.f32.a", "fma.f32.b", "fma.f32.c", "fma.f32", "fma.f32.bits")
    };
    let name = if target(ty) is Float {
        "llvm.fma.f64"
    } else {
        "llvm.fma.f32"
    };
    let class = class_of(target(ty));
    let (st1, fx) = st.cell_to_lane(x, ty, labels.0)->Ok_0;
    let (st2, fy) = st1.cell_to_lane(y, ty, labels.1)->Ok_0;
    let (st3, fz) = st2.cell_to_lane(z, ty, labels.2)->Ok_0;
    let st4 = st3.arg(fx).arg(fy).arg(fz);
    let (st5, r) = st4.call(name, class, labels.3);
    let (end, v) = st5.lane_to_cell(r, ty, labels.4)->Ok_0;
    assert(st.math_ternary(FloatMathOp::Fma, ty, a, b, c) == Ok::<(St, Val), CodegenError>((end, v)));
    assert(extends(end.script, st5.script) && extends(st5.script, st3.script) && extends(
        st3.script,
        st2.script,
    ) && extends(st2.script, st1.script));
    lemma_prefix(script, st5, end);
    lemma_prefix(script, st3, st5);
    lemma_prefix(script, st2, st3);
    lemma_prefix(script, st1, st2);
    let m1 = lemma_lane_made(st, x, ty, labels.0, script, m);
    assert(m1.value(y) == m.value(y) && m1.value(z) == m.value(z));
    let m2 = lemma_lane_made(st1, y, ty, labels.1, script, m1);
    assert(m2.value(z) == m.value(z));
    lemma_passes(script, n, m, st1.script.len() as int, m1, st2.script.len() as int, m2);
    let m3 = lemma_lane_made(st2, z, ty, labels.2, script, m2);
    let k = st3.script.len() as int;
    lemma_passes(script, n, m, st2.script.len() as int, m2, k, m3);
    assert(m3.value(fx) == m1.value(fx) && m3.value(fy) == m2.value(fy));
    lemma_names_apart();
    let m4 = Machine { args: m3.args.push(m3.value(fx)), ..m3 };
    let m5 = Machine { args: m4.args.push(m3.value(fy)), ..m4 };
    let m6 = Machine { args: m5.args.push(m3.value(fz)), ..m5 };
    let w = (m3.floats.fused)(class, m3.value(fx), m3.value(fy), m3.value(fz));
    let m7 = Machine { args: Seq::empty(), ..m6.set(k + 3, w) };
    assert(script[k] == st5.script[k] && script[k + 1] == st5.script[k + 1] && script[k + 2]
        == st5.script[k + 2] && script[k + 3] == st5.script[k + 3]);
    assert(m3.args =~= Seq::<u64>::empty());
    assert(run(script, k, m3) == run(script, k + 1, m4));
    assert(run(script, k + 1, m4) == run(script, k + 2, m5));
    assert(run(script, k + 2, m5) == run(script, k + 3, m6));
    assert(further(script, k + 3, m6) == Some(m7)) by {
        reveal(further);
    }
    assert(run(script, k + 3, m6) == run(script, k + 4, m7));
    assert(passes(script, k, m3, k + 4, m7));
    lemma_passes(script, n, m, k, m3, k + 4, m7);
    let after = lemma_lane_taken(st5, r, ty, labels.4, script, m7);
    lemma_passes(script, n, m, k + 4, m7, end.script.len() as int, after);
    after
}

/// A fused multiply and add of vectors works lane by lane.
pub proof fn a_fused_product_works_lane_by_lane(
    st: St,
    ty: Rc<Type>,
    shape: VectorShape,
    elem: Rc<Type>,
    a: Atom,
    b: Atom,
    c: Atom,
    script: Seq<Cmd>,
    m: Machine,
) -> (after: Machine)
    requires
        roomy(st),
        *ty == Type::Vector(shape, elem),
        shaped_at_hand(st, a, shape, *elem),
        shaped_at_hand(st, b, shape, *elem),
        shaped_at_hand(st, c, shape, *elem),
        m.args.len() == 0,
        st.math_ternary(FloatMathOp::Fma, ty, a, b, c) matches Ok((end, _)) ==> extends(
            script,
            end.script,
        ),
    ensures
        st.math_ternary(FloatMathOp::Fma, ty, a, b, c) matches Ok((end, v)) && passes(
            script,
            st.script.len() as int,
            m,
            end.script.len() as int,
            after,
        ) && v.ty == operand_val(st, a).ty && forall|i: u64|
            i < shape.lane_count() ==> #[trigger] after.vector(v)[i] == (m.floats.fused)(
                class_of(*elem),
                operand_lanes(st, m, a)[i],
                operand_lanes(st, m, b)[i],
                operand_lanes(st, m, c)[i],
            ),
{
    lemma_at_once(st, m, a, "vector operand");
    lemma_at_once(st, m, b, "vector operand");
    lemma_at_once(st, m, c, "vector operand");
    let n = st.script.len() as int;
    let (x, y, z) = (operand_val(st, a), operand_val(st, b), operand_val(st, c));
    let (end, v) = st.math_ternary(FloatMathOp::Fma, ty, a, b, c)->Ok_0;
    assert(script[n] == end.script[n] && script[n + 1] == end.script[n + 1] && script[n + 2]
        == end.script[n + 2] && script[n + 3] == end.script[n + 3]);
    lemma_vector_name(VectorIntrinsic::Fma, shape, target(elem), z.ty);
    let m1 = Machine { args: m.args.push(m.value(x)), ..m };
    let m2 = Machine { args: m1.args.push(m.value(y)), ..m1 };
    let m3 = Machine { args: m2.args.push(m.value(z)), ..m2 };
    assert(m.args =~= Seq::<u64>::empty());
    assert(run(script, n, m) == run(script, n + 1, m1));
    assert(run(script, n + 1, m1) == run(script, n + 2, m2));
    assert(run(script, n + 2, m2) == run(script, n + 3, m3));
    assert(m3.vector(x) == m.vector(x) && m3.vector(y) == m.vector(y) && m3.vector(z) == m.vector(
        z,
    ));
    reveal(further);
    let after = further(script, n + 3, m3)->0;
    assert(run(script, n + 3, m3) == run(script, n + 4, after));
    after
}

} // verus!
