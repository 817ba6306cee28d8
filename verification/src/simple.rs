//! The computations that hold no block.
use crate::error::CodegenError;
use crate::ir::{Atom, Comp, Type};
use crate::state::{agrees, Cg, Out, St};
use crate::target::Val;
use std::rc::Rc;
use vstd::prelude::*;

verus! {

impl St {
    /// Apply a function to one argument. In a clause that is being inlined the
    /// continuation is the identity.
    pub open spec fn app(self, fun: Atom, arg: Atom, arg_ty: Rc<Type>, ret_ty: Rc<Type>) -> Out {
        if fun matches Atom::Var(f) && (self.cx.resume matches Some(k) && k@ == f@) {
            self.atom(arg)
        } else {
            match self.cell(fun, "function value") {
                Err(e) => Err(e),
                Ok((st, f)) => match st.atom(arg) {
                    Err(e) => Err(e),
                    Ok((st, a)) => st.apply_one(f, a, arg_ty, ret_ty),
                },
            }
        }
    }

    /// A computation that holds no block.
    pub open spec fn simple(self, comp: Comp) -> Out {
        match comp {
            Comp::Atom(a) => self.atom(a),
            Comp::Bin(op, a, b) => self.bin(op, a, b),
            Comp::FloatBin(op, a, b) => self.float_bin(op, a, b),
            Comp::Cast(op, a) => self.cast(op, a),
            Comp::Tag(a) => self.tag(a),
            Comp::Untag(a) => self.untag(a),
            Comp::ToPtr(a) => self.to_ptr(a),
            Comp::FromPtr(a) => self.from_ptr(a),
            Comp::FloatMathUnary { op, ty, value } => self.math_unary(op, ty, value),
            Comp::FloatMathBinary { op, ty, lhs, rhs } => self.math_binary(op, ty, lhs, rhs),
            Comp::FloatMathTernary { op, ty, a, b, c } => self.math_ternary(op, ty, a, b, c),
            Comp::VectorLit { shape, elem_ty, elems } => self.vector_lit(shape, elem_ty, elems@),
            Comp::VectorSplat { shape, elem_ty, value } => self.vector_splat(shape, elem_ty, value),
            Comp::VectorLoad { shape, elem_ty, arr, idx } => self.vector_load(
                shape,
                elem_ty,
                arr,
                idx,
            ),
            Comp::VectorStore { shape, elem_ty, arr, idx, value } => self.vector_store(
                shape,
                elem_ty,
                arr,
                idx,
                value,
            ),
            Comp::VectorBin { op, elem_ty, lhs, rhs, .. } => self.vector_bin(op, elem_ty, lhs, rhs),
            Comp::VectorCompare { op, shape, elem_ty, lhs, rhs } => self.vector_compare(
                op,
                shape,
                elem_ty,
                lhs,
                rhs,
            ),
            Comp::VectorSelect { shape, elem_ty, mask, then_value, else_value } => {
                self.vector_select(shape, elem_ty, mask, then_value, else_value)
            },
            Comp::MaskReduce { op, shape, mask } => self.mask_reduce(op, shape, mask),
            Comp::VectorExtract { vector, lane, elem_ty } => self.vector_extract(
                vector,
                lane,
                elem_ty,
            ),
            Comp::App { fun, arg, arg_ty, ret_ty, .. } => self.app(fun, arg, arg_ty, ret_ty),
            Comp::Call { fun, args, fun_ty, ret_ty } => self.call_all(fun, args@, fun_ty, ret_ty),
            Comp::Foreign(sym, args, abi) => self.foreign(sym, args@, abi),
            Comp::Peek(w, addr) => self.peek(w, addr),
            Comp::Poke(w, addr, val) => self.poke(w, addr, val),
            Comp::Fill(dst, byte, count) => self.fill(dst, byte, count),
            Comp::Copy(dst, src, count) => self.copy_bytes(dst, src, count),
            Comp::Tuple(fields) => self.tuple(fields@),
            Comp::ArrayLit { elems, elem_layout } => self.array_lit(elems@, elem_layout),
            Comp::Proj { tup, slot, layout, ty } => self.proj(tup, slot, layout, ty),
            Comp::Len(arr) => self.len_of(arr),
            Comp::ArrayGet { arr, idx, elem_layout, elem_ty } => self.array_get(
                arr,
                idx,
                elem_layout,
                elem_ty,
            ),
            Comp::ArraySet { arr, idx, val, elem_layout } => self.array_set(
                arr,
                idx,
                val,
                elem_layout,
            ),
            Comp::SlotInit(name, init) => self.slot_init(name, init),
            Comp::SlotLoad(name) => self.slot_load(name),
            Comp::SlotStore(name, val) => self.slot_store(name, val),
            Comp::RefNew(init, layout) => self.ref_new(init, layout),
            Comp::RefGet(r, layout) => self.ref_get(r, layout),
            Comp::RefSet(r, val, layout) => self.ref_set(r, val, layout),
            Comp::Extern(_) => Err(CodegenError::Unsupported("Extern")),
            Comp::Quote(_) => Err(CodegenError::Unsupported("Quote")),
            Comp::Letloc(_) => Err(CodegenError::Unsupported("Letloc")),
            Comp::Splice(_) => Err(CodegenError::Unsupported("Splice")),
            Comp::Genlet(_) => Err(CodegenError::Unsupported("Genlet")),
            Comp::If(_, _, _) => Err(CodegenError::Unsupported("If")),
            Comp::Loop { .. } => Err(CodegenError::Unsupported("Loop")),
            Comp::Lam { .. } => Err(CodegenError::Unsupported("Lam")),
            Comp::Perform(_, _) => Err(CodegenError::Unsupported("Perform")),
            Comp::Handle { .. } => Err(CodegenError::Unsupported("Handle")),
        }
    }
}

impl Cg {
    /// Apply a function to one argument.
    fn lower_app(&mut self, fun: &Atom, arg: &Atom, arg_ty: &Rc<Type>, ret_ty: &Rc<Type>) -> (r: Result<
        Val,
        CodegenError,
    >)
        ensures
            agrees(old(self)@.app(*fun, *arg, *arg_ty, *ret_ty), final(self)@, r),
    {
        if let Atom::Var(f) = fun {
            if let Some(k) = &self.cx.resume {
                if *k == *f {
                    return self.lower_atom(arg);
                }
            }
        }
        let f = match self.lower_cell(fun, "function value") {
            Err(e) => {
                return Err(e);
            },
            Ok(f) => f,
        };
        match self.lower_atom(arg) {
            Err(e) => Err(e),
            Ok(a) => self.apply_one_val(f, a, arg_ty, ret_ty),
        }
    }

    /// A computation that holds no block.
    pub(crate) fn lower_simple(&mut self, comp: &Comp) -> (r: Result<Val, CodegenError>)
        ensures
            agrees(old(self)@.simple(*comp), final(self)@, r),
    {
        match comp {
            Comp::Atom(a) => self.lower_atom(a),
            Comp::Bin(op, a, b) => self.lower_bin(*op, a, b),
            Comp::FloatBin(op, a, b) => self.lower_float_bin(*op, a, b),
            Comp::Cast(op, a) => self.lower_cast(*op, a),
            Comp::Tag(a) => self.lower_tag(a),
            Comp::Untag(a) => self.lower_untag(a),
            Comp::ToPtr(a) => self.lower_to_ptr(a),
            Comp::FromPtr(a) => self.lower_from_ptr(a),
            Comp::FloatMathUnary { op, ty, value } => self.lower_float_math_unary(*op, ty, value),
            Comp::FloatMathBinary { op, ty, lhs, rhs } => self.lower_float_math_binary(
                *op,
                ty,
                lhs,
                rhs,
            ),
            Comp::FloatMathTernary { op, ty, a, b, c } => self.lower_float_math_ternary(
                *op,
                ty,
                a,
                b,
                c,
            ),
            Comp::VectorLit { shape, elem_ty, elems } => self.lower_vector_lit(
                *shape,
                elem_ty,
                elems,
            ),
            Comp::VectorSplat { shape, elem_ty, value } => self.lower_vector_splat(
                *shape,
                elem_ty,
                value,
            ),
            Comp::VectorLoad { shape, elem_ty, arr, idx } => self.lower_vector_load(
                *shape,
                elem_ty,
                arr,
                idx,
            ),
            Comp::VectorStore { shape, elem_ty, arr, idx, value } => self.lower_vector_store(
                *shape,
                elem_ty,
                arr,
                idx,
                value,
            ),
            Comp::VectorBin { op, elem_ty, lhs, rhs, .. } => self.lower_vector_bin(
                *op,
                elem_ty,
                lhs,
                rhs,
            ),
            Comp::VectorCompare { op, shape, elem_ty, lhs, rhs } => self.lower_vector_compare(
                *op,
                *shape,
                elem_ty,
                lhs,
                rhs,
            ),
            Comp::VectorSelect { shape, elem_ty, mask, then_value, else_value } => {
                self.lower_vector_select(*shape, elem_ty, mask, then_value, else_value)
            },
            Comp::MaskReduce { op, shape, mask } => self.lower_mask_reduce(*op, *shape, mask),
            Comp::VectorExtract { vector, lane, elem_ty } => self.lower_vector_extract(
                vector,
                *lane,
                elem_ty,
            ),
            Comp::App { fun, arg, arg_ty, ret_ty, .. } => self.lower_app(fun, arg, arg_ty, ret_ty),
            Comp::Call { fun, args, fun_ty, ret_ty } => self.lower_call(fun, args, fun_ty, ret_ty),
            Comp::Foreign(sym, args, abi) => self.lower_foreign(sym, args, abi),
            Comp::Peek(w, addr) => self.lower_peek(*w, addr),
            Comp::Poke(w, addr, val) => self.lower_poke(*w, addr, val),
            Comp::Fill(dst, byte, count) => self.lower_fill(dst, byte, count),
            Comp::Copy(dst, src, count) => self.lower_copy(dst, src, count),
            Comp::Tuple(fields) => self.lower_tuple(fields),
            Comp::ArrayLit { elems, elem_layout } => self.lower_array_lit(elems, *elem_layout),
            Comp::Proj { tup, slot, layout, ty } => self.lower_proj(tup, *slot, *layout, ty),
            Comp::Len(arr) => self.lower_len(arr),
            Comp::ArrayGet { arr, idx, elem_layout, elem_ty } => self.lower_array_get(
                arr,
                idx,
                *elem_layout,
                elem_ty,
            ),
            Comp::ArraySet { arr, idx, val, elem_layout } => self.lower_array_set(
                arr,
                idx,
                val,
                *elem_layout,
            ),
            Comp::SlotInit(name, init) => self.lower_slot_init(name, init),
            Comp::SlotLoad(name) => self.lower_slot_load(name),
            Comp::SlotStore(name, val) => self.lower_slot_store(name, val),
            Comp::RefNew(init, layout) => self.lower_ref_new(init, *layout),
            Comp::RefGet(r, layout) => self.lower_ref_get(r, *layout),
            Comp::RefSet(r, val, layout) => self.lower_ref_set(r, val, *layout),
            Comp::Extern(_) => Err(CodegenError::Unsupported("Extern")),
            Comp::Quote(_) => Err(CodegenError::Unsupported("Quote")),
            Comp::Letloc(_) => Err(CodegenError::Unsupported("Letloc")),
            Comp::Splice(_) => Err(CodegenError::Unsupported("Splice")),
            Comp::Genlet(_) => Err(CodegenError::Unsupported("Genlet")),
            Comp::If(_, _, _) => Err(CodegenError::Unsupported("If")),
            Comp::Loop { .. } => Err(CodegenError::Unsupported("Loop")),
            Comp::Lam { .. } => Err(CodegenError::Unsupported("Lam")),
            Comp::Perform(_, _) => Err(CodegenError::Unsupported("Perform")),
            Comp::Handle { .. } => Err(CodegenError::Unsupported("Handle")),
        }
    }
}

} // verus!
