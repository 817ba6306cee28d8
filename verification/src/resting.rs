//! What lowering rests on: of the variables in scope, a computation without blocks looks
//! at those alone that it names.
use crate::error::CodegenError;
use crate::heap::vector_ty;
use crate::ir::{
    Atom, BinOp, CallArg, CastOp, Comp, Field, MaskReduceOp, Type, ValueLayout, VectorShape, Width,
};
use crate::layout::{elem_layout_of, ArrayElemLayout};
use crate::objects::{pointer_count, scalar_count, FieldVal};
use crate::state::{EnvVal, Out, RawArray, Scope, St};
use crate::target::{constant, Cmd, Ty, Val};
use std::rc::Rc;
use vstd::prelude::*;

verus! {

/// The variables in scope.
pub type Around = Rc<Scope<EnvVal>>;

/// The operand stands for the same in both scopes.
pub open spec fn alike(a: Atom, x: Around, y: Around) -> bool {
    a matches Atom::Var(name) ==> x.get(name@) == y.get(name@)
}

/// The operands stand for the same in both scopes.
pub open spec fn all_alike(atoms: Seq<Atom>, x: Around, y: Around) -> bool {
    forall|i: int| 0 <= i < atoms.len() ==> alike(#[trigger] atoms[i], x, y)
}

/// The same outcome, with other variables in scope.
pub open spec fn moved(out: Out, env: Around) -> Out {
    match out {
        Ok((st, v)) => Ok((st.in_env(env), v)),
        Err(e) => Err(e),
    }
}

pub open spec fn moved_st(out: Result<St, CodegenError>, env: Around) -> Result<St, CodegenError> {
    match out {
        Ok(st) => Ok(st.in_env(env)),
        Err(e) => Err(e),
    }
}

pub open spec fn moved_with<T>(out: Result<(St, T), CodegenError>, env: Around) -> Result<
    (St, T),
    CodegenError,
> {
    match out {
        Ok((st, v)) => Ok((st.in_env(env), v)),
        Err(e) => Err(e),
    }
}

/// The outcome has the variables in scope that were there before.
pub open spec fn stays<T>(out: Result<(St, T), CodegenError>, st: St) -> bool {
    out matches Ok((end, _)) ==> end.cx.env == st.cx.env
}

// ── cells ────────────────────────────────────────────────────────────────
pub(crate) proof fn lemma_read_cells(st: St, env: Around, ptr: Val, n: nat, slot: &'static str, cell: &'static str)
    ensures
        st.in_env(env).read_cells(ptr, n, slot, cell) == (
            st.read_cells(ptr, n, slot, cell).0.in_env(env),
            st.read_cells(ptr, n, slot, cell).1,
        ),
        st.read_cells(ptr, n, slot, cell).0.cx == st.cx,
    decreases n,
{
    if n > 0 {
        lemma_read_cells(st, env, ptr, (n - 1) as nat, slot, cell);
    }
}

pub(crate) proof fn lemma_write_cells(st: St, env: Around, ptr: Val, vs: Seq<Val>, n: nat, slot: &'static str)
    ensures
        st.in_env(env).write_cells(ptr, vs, n, slot) == st.write_cells(ptr, vs, n, slot).in_env(env),
        st.write_cells(ptr, vs, n, slot).cx == st.cx,
    decreases n,
{
    if n > 0 {
        lemma_write_cells(st, env, ptr, vs, (n - 1) as nat, slot);
    }
}

proof fn lemma_store_elem_words(st: St, env: Around, arr: Val, index: Val, cells: u64, words: Seq<Val>, n: nat)
    ensures
        st.in_env(env).store_elem_words(arr, index, cells, words, n) == st.store_elem_words(
            arr,
            index,
            cells,
            words,
            n,
        ).in_env(env),
        st.store_elem_words(arr, index, cells, words, n).cx == st.cx,
    decreases n,
{
    if n > 0 {
        lemma_store_elem_words(st, env, arr, index, cells, words, (n - 1) as nat);
    }
}

proof fn lemma_value_to_cells(st: St, env: Around, v: Val, cells: u64, context: &'static str)
    ensures
        st.in_env(env).value_to_cells(v, cells, context) == moved_with(
            st.value_to_cells(v, cells, context),
            env,
        ),
        stays(st.value_to_cells(v, cells, context), st),
{
    let (s, ptr) = st.def(Cmd::Alloca { ty: v.ty, label: "scalar.spill" }, Ty::Ptr);
    let s = s.store(ptr, v);
    lemma_read_cells(s, env, ptr, cells as nat, "scalar.spill.slot", "scalar.spill.cell");
}

proof fn lemma_cells_to_value(st: St, env: Around, ty: Rc<Type>, vs: Seq<Val>, context: &'static str)
    ensures
        st.in_env(env).cells_to_value(ty, vs, context) == moved(
            st.cells_to_value(ty, vs, context),
            env,
        ),
        stays(st.cells_to_value(ty, vs, context), st),
{
    if let Type::Vector(shape, elem) = *ty {
        if let Ok(vt) = vector_ty(shape, elem) {
            let (s, ptr) = st.def(Cmd::Alloca { ty: vt, label: "scalar.reload" }, Ty::Ptr);
            lemma_write_cells(s, env, ptr, vs, vs.len(), "scalar.reload.slot");
        }
    }
}

proof fn lemma_store_elem(st: St, env: Around, arr: Val, index: Val, v: Val, stride: u64, cells: u64)
    ensures
        st.in_env(env).store_elem(arr, index, v, stride, cells) == moved_st(
            st.store_elem(arr, index, v, stride, cells),
            env,
        ),
        st.store_elem(arr, index, v, stride, cells) matches Ok(end) ==> end.cx.env == st.cx.env,
{
    lemma_value_to_cells(st, env, v, cells, "array element");
    if let Ok((s, words)) = st.value_to_cells(v, cells, "array element") {
        lemma_store_elem_words(s, env, arr, index, cells, words, words.len());
    }
}

proof fn lemma_store_elems(st: St, env: Around, arr: Val, vs: Seq<Val>, i: nat, stride: u64, cells: u64)
    ensures
        st.in_env(env).store_elems(arr, vs, i, stride, cells) == moved_st(
            st.store_elems(arr, vs, i, stride, cells),
            env,
        ),
        st.store_elems(arr, vs, i, stride, cells) matches Ok(end) ==> end.cx.env == st.cx.env,
    decreases vs.len() - i,
{
    if i < vs.len() {
        lemma_store_elem(st, env, arr, constant(i as u64), vs[i as int], stride, cells);
        if let Ok(s) = st.store_elem(arr, constant(i as u64), vs[i as int], stride, cells) {
            lemma_store_elems(s, env, arr, vs, i + 1, stride, cells);
        }
    }
}

proof fn lemma_scalar_array(st: St, env: Around, vs: Seq<Val>, stride: u64, data_cells: u64, cells: u64)
    ensures
        st.in_env(env).scalar_array(vs, stride, data_cells, cells) == moved(
            st.scalar_array(vs, stride, data_cells, cells),
            env,
        ),
        stays(st.scalar_array(vs, stride, data_cells, cells), st),
{
    let (s, arr) = st.gc_alloc(0, (1 + data_cells) as u64);
    let s = s.gc_set_scalar(arr, 0, constant(vs.len() as u64));
    lemma_store_elems(s, env, arr, vs, 0, stride, cells);
}

// ── operands ─────────────────────────────────────────────────────────────
pub(crate) proof fn lemma_atom(st: St, env: Around, a: Atom)
    requires
        alike(a, st.cx.env, env),
    ensures
        st.in_env(env).atom(a) == moved(st.atom(a), env),
        stays(st.atom(a), st),
{
    if let Atom::Str(s) = a {
        let units = crate::utf16::utf16(s@);
        lemma_scalar_array(
            st,
            env,
            crate::heap::unit_cells(units),
            2,
            crate::ir::cells_for(2 * units.len() as int) as u64,
            1,
        );
    }
}

pub(crate) proof fn lemma_cell(st: St, env: Around, a: Atom, context: &'static str)
    requires
        alike(a, st.cx.env, env),
    ensures
        st.in_env(env).cell(a, context) == moved(st.cell(a, context), env),
        stays(st.cell(a, context), st),
{
    lemma_atom(st, env, a);
}

proof fn lemma_pair(st: St, env: Around, a: Atom, b: Atom, context: &'static str)
    requires
        alike(a, st.cx.env, env),
        alike(b, st.cx.env, env),
    ensures
        st.in_env(env).cell_pair(a, b, context) == moved_with(st.cell_pair(a, b, context), env),
        stays(st.cell_pair(a, b, context), st),
{
    lemma_cell(st, env, a, context);
    if let Ok((s, _)) = st.cell(a, context) {
        lemma_cell(s, env, b, context);
    }
}

proof fn lemma_int_div(st: St, env: Around, a: Val, b: Val)
    ensures
        st.in_env(env).int_div(a, b) == (st.int_div(a, b).0.in_env(env), st.int_div(a, b).1),
        st.in_env(env).int_rem(a, b) == (st.int_rem(a, b).0.in_env(env), st.int_rem(a, b).1),
        st.int_div(a, b).0.cx.env == st.cx.env,
        st.int_rem(a, b).0.cx.env == st.cx.env,
{
}

proof fn lemma_int_bin(st: St, env: Around, op: BinOp, a: Val, b: Val)
    ensures
        st.in_env(env).int_bin(op, a, b) == (
            st.int_bin(op, a, b).0.in_env(env),
            st.int_bin(op, a, b).1,
        ),
        st.int_bin(op, a, b).0.cx.env == st.cx.env,
{
    match op {
        BinOp::Div | BinOp::Mod => lemma_int_div(st, env, a, b),
        BinOp::AddChecked => {},
        BinOp::SubChecked => {},
        BinOp::MulChecked => {},
        _ => {},
    }
}

proof fn lemma_tag_val(st: St, env: Around, v: Val)
    ensures
        st.in_env(env).tag_val(v) == (st.tag_val(v).0.in_env(env), st.tag_val(v).1),
        st.tag_val(v).0.cx.env == st.cx.env,
{
}

proof fn lemma_cast_val(st: St, env: Around, op: CastOp, v: Val)
    ensures
        st.in_env(env).cast_val(op, v) == (st.cast_val(op, v).0.in_env(env), st.cast_val(op, v).1),
        st.cast_val(op, v).0.cx.env == st.cx.env,
{
}

proof fn lemma_float_vals(st: St, env: Around, op: BinOp, a: Val, b: Val)
    ensures
        st.in_env(env).float_bin_vals(op, a, b) == moved(st.float_bin_vals(op, a, b), env),
        stays(st.float_bin_vals(op, a, b), st),
{
}

// ── numbers and memory ───────────────────────────────────────────────────
pub(crate) proof fn lemma_bin(st: St, env: Around, op: BinOp, a: Atom, b: Atom)
    requires
        alike(a, st.cx.env, env),
        alike(b, st.cx.env, env),
    ensures
        st.in_env(env).bin(op, a, b) == moved(st.bin(op, a, b), env),
        stays(st.bin(op, a, b), st),
{
    lemma_pair(st, env, a, b, "integer operand");
    if let Ok((s, (x, y))) = st.cell_pair(a, b, "integer operand") {
        lemma_int_bin(s, env, op, x, y);
    }
}

pub(crate) proof fn lemma_float_bin(st: St, env: Around, op: BinOp, a: Atom, b: Atom)
    requires
        alike(a, st.cx.env, env),
        alike(b, st.cx.env, env),
    ensures
        st.in_env(env).float_bin(op, a, b) == moved(st.float_bin(op, a, b), env),
        stays(st.float_bin(op, a, b), st),
{
    lemma_pair(st, env, a, b, "float operand");
    if let Ok((s, (x, y))) = st.cell_pair(a, b, "float operand") {
        let (s1, fx) = s.cell_to_f64(x, "lhs.f64");
        let (s2, fy) = s1.cell_to_f64(y, "rhs.f64");
        lemma_float_vals(s2, env, op, fx, fy);
    }
}

pub(crate) proof fn lemma_converted(st: St, env: Around, comp: Comp)
    requires
        match comp {
            Comp::Cast(_, a) => alike(a, st.cx.env, env),
            Comp::Tag(a) => alike(a, st.cx.env, env),
            Comp::Untag(a) => alike(a, st.cx.env, env),
            Comp::ToPtr(a) => alike(a, st.cx.env, env),
            Comp::FromPtr(a) => alike(a, st.cx.env, env),
            _ => false,
        },
    ensures
        st.in_env(env).simple(comp) == moved(st.simple(comp), env),
        stays(st.simple(comp), st),
{
    match comp {
        Comp::Cast(op, a) => {
            lemma_cell(st, env, a, "conversion operand");
            if let Ok((s, v)) = st.cell(a, "conversion operand") {
                lemma_cast_val(s, env, op, v);
            }
        },
        Comp::Tag(a) => {
            lemma_cell(st, env, a, "tag operand");
            if let Ok((s, v)) = st.cell(a, "tag operand") {
                lemma_tag_val(s, env, v);
            }
        },
        Comp::Untag(a) => lemma_cell(st, env, a, "untag operand"),
        Comp::ToPtr(a) => lemma_cell(st, env, a, "to_ptr operand"),
        Comp::FromPtr(a) => lemma_cell(st, env, a, "from_ptr operand"),
        _ => {},
    }
}

pub(crate) proof fn lemma_memory(st: St, env: Around, comp: Comp)
    requires
        match comp {
            Comp::Peek(_, a) => alike(a, st.cx.env, env),
            Comp::Poke(_, a, b) => alike(a, st.cx.env, env) && alike(b, st.cx.env, env),
            Comp::Fill(a, b, c) => alike(a, st.cx.env, env) && alike(b, st.cx.env, env) && alike(
                c,
                st.cx.env,
                env,
            ),
            Comp::Copy(a, b, c) => alike(a, st.cx.env, env) && alike(b, st.cx.env, env) && alike(
                c,
                st.cx.env,
                env,
            ),
            _ => false,
        },
    ensures
        st.in_env(env).simple(comp) == moved(st.simple(comp), env),
        stays(st.simple(comp), st),
{
    match comp {
        Comp::Peek(_, a) => lemma_cell(st, env, a, "memory address"),
        Comp::Poke(_, a, b) => lemma_pair(st, env, a, b, "memory operand"),
        Comp::Fill(a, b, c) => {
            lemma_pair(st, env, a, b, "memory operand");
            if let Ok((s, _)) = st.cell_pair(a, b, "memory operand") {
                lemma_cell(s, env, c, "memory operand");
            }
        },
        Comp::Copy(a, b, c) => {
            lemma_pair(st, env, a, b, "memory operand");
            if let Ok((s, _)) = st.cell_pair(a, b, "memory operand") {
                lemma_cell(s, env, c, "memory operand");
            }
        },
        _ => {},
    }
}

// ── vectors ──────────────────────────────────────────────────────────────
proof fn lemma_vector(st: St, env: Around, a: Atom, context: &'static str)
    requires
        alike(a, st.cx.env, env),
    ensures
        st.in_env(env).vector(a, context) == moved(st.vector(a, context), env),
        stays(st.vector(a, context), st),
{
    lemma_atom(st, env, a);
}

proof fn lemma_vectors(st: St, env: Around, a: Atom, b: Atom, context: &'static str)
    requires
        alike(a, st.cx.env, env),
        alike(b, st.cx.env, env),
    ensures
        st.in_env(env).vector_pair(a, b, context) == moved_with(st.vector_pair(a, b, context), env),
        stays(st.vector_pair(a, b, context), st),
{
    lemma_vector(st, env, a, context);
    if let Ok((s, _)) = st.vector(a, context) {
        lemma_vector(s, env, b, context);
    }
}

proof fn lemma_fill_lanes(st: St, env: Around, vec: Val, elems: Seq<Atom>, i: nat, elem: Rc<Type>)
    requires
        all_alike(elems, st.cx.env, env),
    ensures
        st.in_env(env).fill_lanes(vec, elems, i, elem) == moved(
            st.fill_lanes(vec, elems, i, elem),
            env,
        ),
        stays(st.fill_lanes(vec, elems, i, elem), st),
    decreases elems.len() - i,
{
    if i < elems.len() {
        assert(alike(elems[i as int], st.cx.env, env));
        lemma_cell(st, env, elems[i as int], "vector lane");
        if let Ok((s, c)) = st.cell(elems[i as int], "vector lane") {
            if let Ok((s1, lane)) = s.cell_to_lane(c, elem, "vec.lane") {
                let (s2, next) = s1.insert_lane(vec, lane, i as u64, "vec.ins");
                lemma_fill_lanes(s2, env, next, elems, i + 1, elem);
            }
        }
    }
}

proof fn lemma_splat_lanes(st: St, env: Around, vec: Val, lane: Val, n: nat)
    ensures
        st.in_env(env).splat_lanes(vec, lane, n) == (
            st.splat_lanes(vec, lane, n).0.in_env(env),
            st.splat_lanes(vec, lane, n).1,
        ),
        st.splat_lanes(vec, lane, n).0.cx == st.cx,
    decreases n,
{
    if n > 0 {
        lemma_splat_lanes(st, env, vec, lane, (n - 1) as nat);
    }
}

proof fn lemma_mask_lanes(st: St, env: Around, v: Val, n: nat)
    ensures
        st.in_env(env).mask_lanes(v, n) == (
            st.mask_lanes(v, n).0.in_env(env),
            st.mask_lanes(v, n).1,
        ),
        st.mask_lanes(v, n).0.cx == st.cx,
    decreases n,
{
    if n > 0 {
        lemma_mask_lanes(st, env, v, (n - 1) as nat);
    }
}

proof fn lemma_join_lanes(st: St, env: Around, op: MaskReduceOp, lanes: Seq<Val>, n: nat)
    ensures
        st.in_env(env).join_lanes(op, lanes, n) == (
            st.join_lanes(op, lanes, n).0.in_env(env),
            st.join_lanes(op, lanes, n).1,
        ),
        st.join_lanes(op, lanes, n).0.cx == st.cx,
    decreases n,
{
    if n > 1 {
        lemma_join_lanes(st, env, op, lanes, (n - 1) as nat);
    }
}

pub(crate) proof fn lemma_pack_lanes(st: St, env: Around, v: Val, n: nat)
    ensures
        st.in_env(env).pack_lanes(v, n) == (
            st.pack_lanes(v, n).0.in_env(env),
            st.pack_lanes(v, n).1,
        ),
        st.pack_lanes(v, n).0.cx == st.cx,
    decreases n,
{
    if n > 0 {
        lemma_pack_lanes(st, env, v, (n - 1) as nat);
    }
}

proof fn lemma_payload(st: St, env: Around, arr: Atom)
    requires
        alike(arr, st.cx.env, env),
    ensures
        st.in_env(env).payload(arr) == moved_with(st.payload(arr), env),
        stays(st.payload(arr), st),
{
    lemma_cell(st, env, arr, "array handle");
}

proof fn lemma_lanes_ptr(st: St, env: Around, shape: VectorShape, elem: Rc<Type>, arr: Atom, idx: Atom)
    requires
        alike(arr, st.cx.env, env),
        alike(idx, st.cx.env, env),
    ensures
        st.in_env(env).lanes_ptr(shape, elem, arr, idx) == moved(
            st.lanes_ptr(shape, elem, arr, idx),
            env,
        ),
        stays(st.lanes_ptr(shape, elem, arr, idx), st),
{
    lemma_payload(st, env, arr);
    if let Ok((s, _)) = st.payload(arr) {
        lemma_cell(s, env, idx, "vector array index");
    }
}

pub(crate) proof fn lemma_vector_comp(st: St, env: Around, comp: Comp)
    requires
        match comp {
            Comp::VectorLit { elems, .. } => all_alike(elems@, st.cx.env, env),
            Comp::VectorSplat { value, .. } => alike(value, st.cx.env, env),
            Comp::VectorLoad { arr, idx, .. } => alike(arr, st.cx.env, env) && alike(
                idx,
                st.cx.env,
                env,
            ),
            Comp::VectorStore { arr, idx, value, .. } => alike(arr, st.cx.env, env) && alike(
                idx,
                st.cx.env,
                env,
            ) && alike(value, st.cx.env, env),
            Comp::VectorBin { lhs, rhs, .. } => alike(lhs, st.cx.env, env) && alike(
                rhs,
                st.cx.env,
                env,
            ),
            Comp::VectorCompare { lhs, rhs, .. } => alike(lhs, st.cx.env, env) && alike(
                rhs,
                st.cx.env,
                env,
            ),
            Comp::VectorSelect { mask, then_value, else_value, .. } => alike(mask, st.cx.env, env)
                && alike(then_value, st.cx.env, env) && alike(else_value, st.cx.env, env),
            Comp::MaskReduce { mask, .. } => alike(mask, st.cx.env, env),
            Comp::VectorExtract { vector, .. } => alike(vector, st.cx.env, env),
            _ => false,
        },
    ensures
        st.in_env(env).simple(comp) == moved(st.simple(comp), env),
        stays(st.simple(comp), st),
{
    match comp {
        Comp::VectorLit { shape, elem_ty, elems } => {
            if let Ok(vt) = vector_ty(shape, elem_ty) {
                let vec = Val { id: crate::target::Id::Undef, ty: vt };
                lemma_fill_lanes(st, env, vec, elems@, 0, elem_ty);
            }
        },
        Comp::VectorSplat { shape, elem_ty, value } => {
            lemma_cell(st, env, value, "vector lane");
            if let Ok(vt) = vector_ty(shape, elem_ty) {
                if let Ok((s, c)) = st.cell(value, "vector lane") {
                    if let Ok((s1, lane)) = s.cell_to_lane(c, elem_ty, "splat.lane") {
                        let vec = Val { id: crate::target::Id::Undef, ty: vt };
                        lemma_splat_lanes(s1, env, vec, lane, shape.lane_count());
                    }
                }
            }
        },
        Comp::VectorLoad { shape, elem_ty, arr, idx } => {
            lemma_lanes_ptr(st, env, shape, elem_ty, arr, idx);
        },
        Comp::VectorStore { shape, elem_ty, arr, idx, value } => {
            lemma_atom(st, env, value);
            if let Ok((s, _)) = st.atom(value) {
                lemma_lanes_ptr(s, env, shape, elem_ty, arr, idx);
            }
        },
        Comp::VectorBin { lhs, rhs, .. } => lemma_vectors(st, env, lhs, rhs, "vector operand"),
        Comp::VectorCompare { lhs, rhs, .. } => lemma_vectors(st, env, lhs, rhs, "vector operand"),
        Comp::VectorSelect { mask, then_value, else_value, .. } => {
            lemma_vector(st, env, mask, "vector mask");
            if let Ok((s, _)) = st.vector(mask, "vector mask") {
                lemma_vectors(s, env, then_value, else_value, "vector operand");
            }
        },
        Comp::MaskReduce { op, shape, mask } => {
            lemma_vector(st, env, mask, "vector mask");
            if let Ok((s, v)) = st.vector(mask, "vector mask") {
                lemma_mask_lanes(s, env, v, shape.lane_count());
                let (s1, lanes) = s.mask_lanes(v, shape.lane_count());
                lemma_join_lanes(s1, env, op, lanes, shape.lane_count());
            }
        },
        Comp::VectorExtract { vector, .. } => lemma_vector(st, env, vector, "vector operand"),
        _ => {},
    }
}

pub(crate) proof fn lemma_math(st: St, env: Around, comp: Comp)
    requires
        match comp {
            Comp::FloatMathUnary { value, .. } => alike(value, st.cx.env, env),
            Comp::FloatMathBinary { lhs, rhs, .. } => alike(lhs, st.cx.env, env) && alike(
                rhs,
                st.cx.env,
                env,
            ),
            Comp::FloatMathTernary { a, b, c, .. } => alike(a, st.cx.env, env) && alike(
                b,
                st.cx.env,
                env,
            ) && alike(c, st.cx.env, env),
            _ => false,
        },
    ensures
        st.in_env(env).simple(comp) == moved(st.simple(comp), env),
        stays(st.simple(comp), st),
{
    match comp {
        Comp::FloatMathUnary { value, .. } => {
            lemma_cell(st, env, value, "float operand");
            lemma_vector(st, env, value, "vector operand");
        },
        Comp::FloatMathBinary { lhs, rhs, .. } => lemma_vectors(
            st,
            env,
            lhs,
            rhs,
            "vector operand",
        ),
        Comp::FloatMathTernary { a, b, c, .. } => {
            lemma_pair(st, env, a, b, "float operand");
            if let Ok((s, _)) = st.cell_pair(a, b, "float operand") {
                lemma_cell(s, env, c, "float operand");
            }
            lemma_vectors(st, env, a, b, "vector operand");
            if let Ok((s, _)) = st.vector_pair(a, b, "vector operand") {
                lemma_vector(s, env, c, "vector operand");
            }
        },
        _ => {},
    }
}

// ── objects and arrays ───────────────────────────────────────────────────
proof fn lemma_atom_vals(st: St, env: Around, atoms: Seq<Atom>, i: nat, done: Seq<Val>)
    requires
        all_alike(atoms, st.cx.env, env),
    ensures
        st.in_env(env).atom_vals(atoms, i, done) == moved_with(st.atom_vals(atoms, i, done), env),
        stays(st.atom_vals(atoms, i, done), st),
    decreases atoms.len() - i,
{
    if i < atoms.len() {
        assert(alike(atoms[i as int], st.cx.env, env));
        lemma_atom(st, env, atoms[i as int]);
        if let Ok((s, v)) = st.atom(atoms[i as int]) {
            lemma_atom_vals(s, env, atoms, i + 1, done.push(v));
        }
    }
}

proof fn lemma_cell_vals(st: St, env: Around, atoms: Seq<Atom>, i: nat, done: Seq<Val>, context: &'static str)
    requires
        all_alike(atoms, st.cx.env, env),
    ensures
        st.in_env(env).cell_vals(atoms, i, done, context) == moved_with(
            st.cell_vals(atoms, i, done, context),
            env,
        ),
        stays(st.cell_vals(atoms, i, done, context), st),
    decreases atoms.len() - i,
{
    if i < atoms.len() {
        assert(alike(atoms[i as int], st.cx.env, env));
        lemma_cell(st, env, atoms[i as int], context);
        if let Ok((s, v)) = st.cell(atoms[i as int], context) {
            lemma_cell_vals(s, env, atoms, i + 1, done.push(v), context);
        }
    }
}

proof fn lemma_set_handles(st: St, env: Around, arr: Val, vs: Seq<Val>, n: nat)
    ensures
        st.in_env(env).set_handles(arr, vs, n) == st.set_handles(arr, vs, n).in_env(env),
        st.set_handles(arr, vs, n).cx == st.cx,
    decreases n,
{
    if n > 0 {
        lemma_set_handles(st, env, arr, vs, (n - 1) as nat);
    }
}

proof fn lemma_elem_words(st: St, env: Around, arr: Val, index: Val, cells: u64, n: nat)
    ensures
        st.in_env(env).elem_words(arr, index, cells, n) == (
            st.elem_words(arr, index, cells, n).0.in_env(env),
            st.elem_words(arr, index, cells, n).1,
        ),
        st.elem_words(arr, index, cells, n).0.cx == st.cx,
    decreases n,
{
    if n > 0 {
        lemma_elem_words(st, env, arr, index, cells, (n - 1) as nat);
    }
}

proof fn lemma_array_lit(st: St, env: Around, elems: Seq<Atom>, layout: ValueLayout)
    requires
        all_alike(elems, st.cx.env, env),
    ensures
        st.in_env(env).array_lit(elems, layout) == moved(st.array_lit(elems, layout), env),
        stays(st.array_lit(elems, layout), st),
{
    lemma_cell_vals(st, env, elems, 0, Seq::empty(), "array element");
    if let Ok((s, vs)) = st.cell_vals(elems, 0, Seq::empty(), "array element") {
        let (s1, arr) = s.gc_alloc(elems.len() as u64, 1);
        let s2 = s1.gc_set_scalar(arr, 0, constant(elems.len() as u64));
        lemma_set_handles(s2, env, arr, vs, vs.len());
    }
    lemma_atom_vals(st, env, elems, 0, Seq::empty());
    if let Ok((s, vs)) = st.atom_vals(elems, 0, Seq::empty()) {
        if let Ok(ArrayElemLayout::Scalar { stride, data_cells, elem_cells }) = elem_layout_of(
            layout,
            elems.len() as usize,
            crate::error::Context::Phrase("array element"),
        ) {
            lemma_scalar_array(s, env, vs, stride, data_cells, elem_cells);
        }
    }
}

proof fn lemma_borrowed_slot(st: St, env: Around, raw: RawArray, idx: Atom, stride: u64, proved: bool)
    requires
        alike(idx, st.cx.env, env),
    ensures
        st.in_env(env).borrowed_slot(raw, idx, stride, proved) == (match st.borrowed_slot(
            raw,
            idx,
            stride,
            proved,
        ) {
            Ok((s, byte, ptr)) => Ok::<(St, Val, Val), CodegenError>((s.in_env(env), byte, ptr)),
            Err(e) => Err(e),
        }),
        st.borrowed_slot(raw, idx, stride, proved) matches Ok((s, _, _)) ==> s.cx.env == st.cx.env,
{
    lemma_cell(st, env, idx, "array index");
}

proof fn lemma_three_cells(st: St, env: Around, arr: Atom, idx: Atom, val: Atom)
    requires
        alike(arr, st.cx.env, env),
        alike(idx, st.cx.env, env),
        alike(val, st.cx.env, env),
    ensures
        st.in_env(env).three_cells(arr, idx, val) == moved_with(st.three_cells(arr, idx, val), env),
        stays(st.three_cells(arr, idx, val), st),
{
    lemma_cell(st, env, arr, "array handle");
    if let Ok((s, _)) = st.cell(arr, "array handle") {
        lemma_cell(s, env, idx, "array index");
        if let Ok((s1, _)) = s.cell(idx, "array index") {
            lemma_cell(s1, env, val, "array element");
        }
    }
}

#[verifier::rlimit(40)]
proof fn lemma_array_get(st: St, env: Around, arr: Atom, idx: Atom, layout: ValueLayout, ty: Rc<Type>)
    requires
        alike(arr, st.cx.env, env),
        alike(idx, st.cx.env, env),
    ensures
        st.in_env(env).array_get(arr, idx, layout, ty) == moved(
            st.array_get(arr, idx, layout, ty),
            env,
        ),
        stays(st.array_get(arr, idx, layout, ty), st),
{
    lemma_cell(st, env, arr, "array handle");
    if let Ok((s, a)) = st.cell(arr, "array handle") {
        lemma_cell(s, env, idx, "array index");
        if let Ok((s1, i)) = s.cell(idx, "array index") {
            if let Ok(ArrayElemLayout::Scalar { stride, elem_cells, .. }) = elem_layout_of(
                layout,
                0,
                crate::error::Context::Phrase("array element"),
            ) {
                if elem_cells > 1 {
                    lemma_elem_words(s1, env, a, i, elem_cells, elem_cells as nat);
                    let (s2, words) = s1.elem_words(a, i, elem_cells, elem_cells as nat);
                    lemma_cells_to_value(s2, env, ty, words, "array element");
                } else {
                    assert(s1.in_env(env).borrowed(arr) == s1.borrowed(arr));
                    if let Some(raw) = s1.borrowed(arr) {
                        let proved = s1.in_bounds(arr->Var_0@, idx);
                        assert(s1.in_env(env).in_bounds(arr->Var_0@, idx) == proved);
                        lemma_borrowed_slot(s1, env, raw, idx, stride, proved);
                    }
                }
            }
        }
    }
}

#[verifier::rlimit(40)]
proof fn lemma_array_set(st: St, env: Around, arr: Atom, idx: Atom, val: Atom, layout: ValueLayout)
    requires
        alike(arr, st.cx.env, env),
        alike(idx, st.cx.env, env),
        alike(val, st.cx.env, env),
    ensures
        st.in_env(env).array_set(arr, idx, val, layout) == moved(
            st.array_set(arr, idx, val, layout),
            env,
        ),
        stays(st.array_set(arr, idx, val, layout), st),
{
    lemma_three_cells(st, env, arr, idx, val);
    if let Ok(ArrayElemLayout::Scalar { stride, elem_cells, .. }) = elem_layout_of(
        layout,
        0,
        crate::error::Context::Phrase("array element"),
    ) {
        if elem_cells > 1 {
            lemma_cell(st, env, arr, "array handle");
            if let Ok((s, a)) = st.cell(arr, "array handle") {
                lemma_cell(s, env, idx, "array index");
                if let Ok((s1, i)) = s.cell(idx, "array index") {
                    lemma_atom(s1, env, val);
                    if let Ok((s2, v)) = s1.atom(val) {
                        lemma_store_elem(s2, env, a, i, v, stride, elem_cells);
                    }
                }
            }
        } else {
            assert(st.in_env(env).borrowed(arr) == st.borrowed(arr));
            if let Some(raw) = st.borrowed(arr) {
                let proved = st.in_bounds(arr->Var_0@, idx);
                assert(st.in_env(env).in_bounds(arr->Var_0@, idx) == proved);
                lemma_cell(st, env, val, "array element");
                if let Ok((s, v)) = st.cell(val, "array element") {
                    lemma_borrowed_slot(s, env, raw, idx, stride, proved);
                }
            }
        }
    }
}

pub(crate) proof fn lemma_set_words(st: St, env: Around, obj: Val, base: nat, words: Seq<Val>, n: nat)
    ensures
        st.in_env(env).set_words(obj, base, words, n) == st.set_words(obj, base, words, n).in_env(env),
        st.set_words(obj, base, words, n).cx == st.cx,
    decreases n,
{
    if n > 0 {
        lemma_set_words(st, env, obj, base, words, (n - 1) as nat);
    }
}

proof fn lemma_get_words(st: St, env: Around, obj: Val, base: nat, n: nat)
    ensures
        st.in_env(env).get_words(obj, base, n) == (
            st.get_words(obj, base, n).0.in_env(env),
            st.get_words(obj, base, n).1,
        ),
        st.get_words(obj, base, n).0.cx == st.cx,
    decreases n,
{
    if n > 0 {
        lemma_get_words(st, env, obj, base, (n - 1) as nat);
    }
}

/// The fields stand for the same in both scopes.
pub open spec fn fields_alike(fields: Seq<Field>, x: Around, y: Around) -> bool {
    forall|i: int| 0 <= i < fields.len() ==> alike((#[trigger] fields[i]).value, x, y)
}

proof fn lemma_field_vals(st: St, env: Around, fields: Seq<Field>, i: nat, done: Seq<FieldVal>)
    requires
        fields_alike(fields, st.cx.env, env),
    ensures
        st.in_env(env).field_vals(fields, i, done) == moved_with(
            st.field_vals(fields, i, done),
            env,
        ),
        stays(st.field_vals(fields, i, done), st),
    decreases fields.len() - i,
{
    if i < fields.len() {
        let f = fields[i as int];
        assert(alike(f.value, st.cx.env, env));
        lemma_atom(st, env, f.value);
        if let Ok(region) = crate::layout::region_of(
            f.layout,
            crate::error::Context::Phrase("managed object field"),
        ) {
            if let Ok((s, value)) = st.atom(f.value) {
                lemma_field_vals(s, env, fields, i + 1, done.push(FieldVal { value, region }));
            }
        }
    }
}

proof fn lemma_set_fields(st: St, env: Around, obj: Val, fields: Seq<FieldVal>, i: nat)
    ensures
        st.in_env(env).set_fields(obj, fields, i) == moved_st(st.set_fields(obj, fields, i), env),
        st.set_fields(obj, fields, i) matches Ok(end) ==> end.cx.env == st.cx.env,
    decreases fields.len() - i,
{
    if i < fields.len() {
        let f = fields[i as int];
        match f.region {
            crate::layout::FieldRegion::Pointer { word } => {
                let s = st.gc_set_traced(obj, pointer_count(fields, i) as u64, f.value, word);
                lemma_set_fields(s, env, obj, fields, i + 1);
            },
            crate::layout::FieldRegion::Scalar { cells } => {
                lemma_value_to_cells(st, env, f.value, cells, "managed object field");
                if let Ok((s, words)) = st.value_to_cells(f.value, cells, "managed object field") {
                    let base = scalar_count(fields, i);
                    lemma_set_words(s, env, obj, base, words, words.len());
                    let s1 = s.set_words(obj, base, words, words.len());
                    lemma_set_fields(s1, env, obj, fields, i + 1);
                }
            },
        }
    }
}

#[verifier::rlimit(40)]
pub(crate) proof fn lemma_object(st: St, env: Around, comp: Comp)
    requires
        match comp {
            Comp::Tuple(fields) => fields_alike(fields@, st.cx.env, env),
            Comp::ArrayLit { elems, .. } => all_alike(elems@, st.cx.env, env),
            Comp::Proj { tup, .. } => alike(tup, st.cx.env, env),
            Comp::Len(a) => alike(a, st.cx.env, env),
            Comp::ArrayGet { arr, idx, .. } => alike(arr, st.cx.env, env) && alike(
                idx,
                st.cx.env,
                env,
            ),
            Comp::ArraySet { arr, idx, val, .. } => alike(arr, st.cx.env, env) && alike(
                idx,
                st.cx.env,
                env,
            ) && alike(val, st.cx.env, env),
            Comp::SlotInit(_, init) => alike(init, st.cx.env, env),
            Comp::SlotLoad(_) => true,
            Comp::SlotStore(_, val) => alike(val, st.cx.env, env),
            Comp::RefNew(init, _) => alike(init, st.cx.env, env),
            Comp::RefGet(r, _) => alike(r, st.cx.env, env),
            Comp::RefSet(r, val, _) => alike(r, st.cx.env, env) && alike(val, st.cx.env, env),
            _ => false,
        },
    ensures
        st.in_env(env).simple(comp) == moved(st.simple(comp), env),
        stays(st.simple(comp), st),
{
    match comp {
        Comp::Tuple(fields) => {
            lemma_field_vals(st, env, fields@, 0, Seq::empty());
            if let Ok((s, vals)) = st.field_vals(fields@, 0, Seq::empty()) {
                let (s1, obj) = s.gc_alloc(
                    pointer_count(vals, vals.len()) as u64,
                    scalar_count(vals, vals.len()) as u64,
                );
                lemma_set_fields(s1, env, obj, vals, 0);
            }
        },
        Comp::ArrayLit { elems, elem_layout } => lemma_array_lit(st, env, elems@, elem_layout),
        Comp::Proj { tup, slot, layout, ty } => {
            lemma_cell(st, env, tup, "managed object handle");
            if let Ok((s, obj)) = st.cell(tup, "managed object handle") {
                if let Ok(crate::layout::FieldRegion::Scalar { cells }) = crate::layout::region_of(
                    layout,
                    crate::error::Context::Phrase("projected field"),
                ) {
                    lemma_get_words(s, env, obj, slot as nat, cells as nat);
                    let (s1, words) = s.get_words(obj, slot as nat, cells as nat);
                    lemma_cells_to_value(s1, env, ty, words, "projected field");
                }
            }
        },
        Comp::Len(a) => lemma_cell(st, env, a, "array handle"),
        Comp::ArrayGet { arr, idx, elem_layout, elem_ty } => lemma_array_get(
            st,
            env,
            arr,
            idx,
            elem_layout,
            elem_ty,
        ),
        Comp::ArraySet { arr, idx, val, elem_layout } => lemma_array_set(
            st,
            env,
            arr,
            idx,
            val,
            elem_layout,
        ),
        Comp::SlotInit(_, init) => lemma_cell(st, env, init, "mutable-local initializer"),
        Comp::SlotStore(_, val) => lemma_cell(st, env, val, "mutable-local assignment"),
        Comp::RefNew(init, layout) => {
            lemma_atom(st, env, init);
            if let Ok((s, value)) = st.atom(init) {
                if let Ok(crate::layout::FieldRegion::Scalar { cells }) = crate::layout::region_of(
                    layout,
                    crate::error::Context::Phrase("ref cell"),
                ) {
                    let (s1, obj) = s.gc_alloc(0, cells);
                    lemma_value_to_cells(s1, env, value, cells, "ref cell");
                    if let Ok((s2, words)) = s1.value_to_cells(value, cells, "ref cell") {
                        lemma_set_words(s2, env, obj, 0, words, words.len());
                    }
                }
            }
        },
        Comp::RefGet(r, layout) => {
            lemma_cell(st, env, r, "ref handle");
            if let Ok((s, obj)) = st.cell(r, "ref handle") {
                if let Ok(crate::layout::FieldRegion::Scalar { cells }) = crate::layout::region_of(
                    layout,
                    crate::error::Context::Phrase("ref cell"),
                ) {
                    lemma_get_words(s, env, obj, 0, cells as nat);
                    let (s1, words) = s.get_words(obj, 0, cells as nat);
                    lemma_cells_to_value(
                        s1,
                        env,
                        crate::ir::pointer_to(Type::Int),
                        words,
                        "ref cell",
                    );
                }
            }
        },
        Comp::RefSet(r, val, layout) => {
            lemma_cell(st, env, r, "ref handle");
            if let Ok((s, obj)) = st.cell(r, "ref handle") {
                lemma_atom(s, env, val);
                if let Ok((s1, value)) = s.atom(val) {
                    if let Ok(crate::layout::FieldRegion::Scalar { cells }) =
                        crate::layout::region_of(layout, crate::error::Context::Phrase("ref cell")) {
                        lemma_value_to_cells(s1, env, value, cells, "ref cell");
                        if let Ok((s2, words)) = s1.value_to_cells(value, cells, "ref cell") {
                            lemma_set_words(s2, env, obj, 0, words, words.len());
                        }
                    }
                }
            }
        },
        _ => {},
    }
}

// ── calls ────────────────────────────────────────────────────────────────
/// The arguments stand for the same in both scopes.
pub open spec fn args_alike(args: Seq<CallArg>, x: Around, y: Around) -> bool {
    forall|i: int| 0 <= i < args.len() ==> alike((#[trigger] args[i]).value, x, y)
}

proof fn lemma_arg_vals(st: St, env: Around, args: Seq<CallArg>, i: nat, done: Seq<Val>)
    requires
        args_alike(args, st.cx.env, env),
    ensures
        st.in_env(env).arg_vals(args, i, done) == moved_with(st.arg_vals(args, i, done), env),
        stays(st.arg_vals(args, i, done), st),
    decreases args.len() - i,
{
    if i < args.len() {
        let a = args[i as int].value;
        assert(alike(a, st.cx.env, env));
        lemma_atom(st, env, a);
        if let Ok((s, v)) = st.atom(a) {
            lemma_arg_vals(s, env, args, i + 1, done.push(v));
        }
    }
}

proof fn lemma_arg_params(st: St, env: Around, args: Seq<CallArg>, i: nat)
    ensures
        st.in_env(env).arg_params(args, i) == moved_st(st.arg_params(args, i), env),
        st.arg_params(args, i) matches Ok(end) ==> end.cx == st.cx,
    decreases args.len() - i,
{
    if i < args.len() {
        if let Ok(ty) = crate::closures::abi_ty(args[i as int].ty) {
            lemma_arg_params(st.put(Cmd::Param { ty }), env, args, i + 1);
        }
    }
}

proof fn lemma_push_args(st: St, env: Around, vs: Seq<Val>, n: nat)
    ensures
        st.in_env(env).push_args(vs, n) == st.push_args(vs, n).in_env(env),
        st.push_args(vs, n).cx == st.cx,
    decreases n,
{
    if n > 0 {
        lemma_push_args(st, env, vs, (n - 1) as nat);
    }
}

proof fn lemma_apply_one(st: St, env: Around, clos: Val, arg: Val, arg_ty: Rc<Type>, ret_ty: Rc<Type>)
    ensures
        st.in_env(env).apply_one(clos, arg, arg_ty, ret_ty) == moved(
            st.apply_one(clos, arg, arg_ty, ret_ty),
            env,
        ),
        stays(st.apply_one(clos, arg, arg_ty, ret_ty), st),
{
}

proof fn lemma_apply_chain(st: St, env: Around, clos: Val, fun_ty: Rc<Type>, args: Seq<CallArg>, vs: Seq<Val>, i: nat)
    ensures
        st.in_env(env).apply_chain(clos, fun_ty, args, vs, i) == moved(
            st.apply_chain(clos, fun_ty, args, vs, i),
            env,
        ),
        stays(st.apply_chain(clos, fun_ty, args, vs, i), st),
    decreases args.len() - i,
{
    if i < args.len() {
        if let Type::Fun(_, rest, _) = *fun_ty {
            lemma_apply_one(st, env, clos, vs[i as int], args[i as int].ty, rest);
            if let Ok((s, r)) = st.apply_one(clos, vs[i as int], args[i as int].ty, rest) {
                lemma_apply_chain(s, env, r, rest, args, vs, i + 1);
            }
        }
    }
}

proof fn lemma_fast_call(st: St, env: Around, clos: Val, entry: Val, args: Seq<CallArg>, vs: Seq<Val>, ret: Ty)
    ensures
        st.in_env(env).fast_call(clos, entry, args, vs, ret) == moved(
            st.fast_call(clos, entry, args, vs, ret),
            env,
        ),
        stays(st.fast_call(clos, entry, args, vs, ret), st),
{
    let s = st.put(Cmd::Param { ty: crate::closures::env_ty(st.cx.gc) });
    lemma_arg_params(s, env, args, 0);
    if let Ok(s1) = s.arg_params(args, 0) {
        let (s2, fp) = s1.convert(crate::target::Conv::IntToPtr, entry, Ty::Ptr, "fastfp");
        let (s3, e) = if st.cx.gc {
            (s2, clos)
        } else {
            s2.convert(crate::target::Conv::IntToPtr, clos, Ty::Ptr, "fastenv")
        };
        lemma_push_args(s3.arg(e), env, vs, vs.len());
    }
}

#[verifier::rlimit(40)]
proof fn lemma_call_by_arity(st: St, env: Around, clos: Val, args: Seq<CallArg>, vs: Seq<Val>, fun_ty: Rc<Type>, ret: Ty)
    ensures
        st.in_env(env).call_by_arity(clos, args, vs, fun_ty, ret) == moved(
            st.call_by_arity(clos, args, vs, fun_ty, ret),
            env,
        ),
        stays(st.call_by_arity(clos, args, vs, fun_ty, ret), st),
{
    let (s, arity) = st.closure_slot(clos, 2);
    let (s, entry) = s.closure_slot(clos, 1);
    let (s, fast_bb) = s.new_block("call.fast");
    let (s, slow_bb) = s.new_block("call.curried");
    let (s, cont_bb) = s.new_block("call.cont");
    let (s, ok) = s.itest(
        crate::target::IntPred::Eq,
        arity,
        constant(args.len() as u64),
        "call.arity.ok",
    );
    let s = s.cond_br(ok, fast_bb, slow_bb).at(fast_bb);
    lemma_fast_call(s, env, clos, entry, args, vs, ret);
    if let Ok((s1, fast)) = s.fast_call(clos, entry, args, vs, ret) {
        let s2 = s1.br(cont_bb).at(slow_bb);
        lemma_apply_chain(s2, env, clos, fun_ty, args, vs, 0);
    }
}

proof fn lemma_native_params(st: St, env: Around, params: Seq<Width>, n: nat)
    ensures
        st.in_env(env).native_params(params, n) == st.native_params(params, n).in_env(env),
        st.native_params(params, n).cx == st.cx,
    decreases n,
{
    if n > 0 {
        lemma_native_params(st, env, params, (n - 1) as nat);
    }
}

proof fn lemma_native_args(st: St, env: Around, args: Seq<Atom>, params: Seq<Width>, i: nat, done: Seq<Val>)
    requires
        all_alike(args, st.cx.env, env),
    ensures
        st.in_env(env).native_args(args, params, i, done) == moved_with(
            st.native_args(args, params, i, done),
            env,
        ),
        stays(st.native_args(args, params, i, done), st),
    decreases args.len() - i,
{
    if i < args.len() && i < params.len() {
        assert(alike(args[i as int], st.cx.env, env));
        lemma_cell(st, env, args[i as int], "foreign argument");
        if let Ok((s, v)) = st.cell(args[i as int], "foreign argument") {
            let (s1, native) = s.to_native(v, params[i as int]);
            lemma_native_args(s1, env, args, params, i + 1, done.push(native));
        }
    }
}

#[verifier::rlimit(40)]
pub(crate) proof fn lemma_calls(st: St, env: Around, comp: Comp)
    requires
        match comp {
            Comp::App { fun, arg, .. } => alike(fun, st.cx.env, env) && alike(arg, st.cx.env, env),
            Comp::Call { fun, args, .. } => alike(fun, st.cx.env, env) && args_alike(
                args@,
                st.cx.env,
                env,
            ),
            Comp::Foreign(_, args, _) => all_alike(args@, st.cx.env, env),
            _ => false,
        },
    ensures
        st.in_env(env).simple(comp) == moved(st.simple(comp), env),
        stays(st.simple(comp), st),
{
    match comp {
        Comp::App { fun, arg, arg_ty, ret_ty, .. } => {
            lemma_atom(st, env, arg);
            lemma_cell(st, env, fun, "function value");
            if let Ok((s, f)) = st.cell(fun, "function value") {
                lemma_atom(s, env, arg);
                if let Ok((s1, a)) = s.atom(arg) {
                    lemma_apply_one(s1, env, f, a, arg_ty, ret_ty);
                }
            }
        },
        Comp::Call { fun, args, fun_ty, ret_ty } => {
            lemma_cell(st, env, fun, "function value");
            if let Ok((s, clos)) = st.cell(fun, "function value") {
                lemma_arg_vals(s, env, args@, 0, Seq::empty());
                if let Ok((s1, vs)) = s.arg_vals(args@, 0, Seq::empty()) {
                    if let Ok(ret) = crate::closures::abi_ty(ret_ty) {
                        lemma_call_by_arity(s1, env, clos, args@, vs, fun_ty, ret);
                    }
                }
            }
        },
        Comp::Foreign(sym, args, abi) => {
            let s = st.put(Cmd::Declare { name: sym, ret: crate::calls::native_ty(abi.ret) });
            lemma_native_params(s, env, abi.params@, abi.params@.len());
            let s1 = s.native_params(abi.params@, abi.params@.len());
            lemma_native_args(s1, env, args@, abi.params@, 0, Seq::empty());
            if let Ok((s2, vs)) = s1.native_args(args@, abi.params@, 0, Seq::empty()) {
                lemma_push_args(s2, env, vs, vs.len());
            }
        },
        _ => {},
    }
}

} // verus!
