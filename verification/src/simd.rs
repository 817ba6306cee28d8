//! SIMD vectors and masks, and the floating-point functions.
use crate::error::CodegenError;
use crate::heap::{vector_ty, vector_type};
use crate::ir::{share, Atom, BinOp, FloatMathOp, MaskReduceOp, Type, VectorShape};
use crate::state::{agrees, Cg, Out, St};
use crate::target::{
    const_cell, constant, Cmd, Conv, FloatOp, FloatPred, Id, IntOp, IntPred, Title, Ty, Val,
};
use std::rc::Rc;
use vstd::prelude::*;

verus! {

/// A value that must be a vector or a mask.
pub open spec fn vector_of(v: Val, context: &'static str) -> Result<Val, CodegenError> {
    if v.ty.is_vector() {
        Ok(v)
    } else {
        Err(CodegenError::NotAVector(context))
    }
}

fn expect_vector(v: Val, context: &'static str) -> (r: Result<Val, CodegenError>)
    ensures
        r == vector_of(v, context),
{
    match v.ty {
        Ty::VecF32(_) | Ty::VecF64(_) | Ty::Mask(_) => Ok(v),
        _ => Err(CodegenError::NotAVector(context)),
    }
}

/// The class of a lane.
pub open spec fn lane_ty(elem: Rc<Type>) -> Result<Ty, CodegenError> {
    match *elem {
        Type::Float32 => Ok(Ty::F32),
        Type::Float => Ok(Ty::F64),
        _ => Err(CodegenError::LaneType(elem)),
    }
}

/// The class of a lane.
pub fn lane_float_type(elem: &Rc<Type>) -> (r: Result<Ty, CodegenError>)
    ensures
        r == lane_ty(*elem),
{
    match &**elem {
        Type::Float32 => Ok(Ty::F32),
        Type::Float => Ok(Ty::F64),
        _ => Err(CodegenError::LaneType(share(elem))),
    }
}

/// The bytes between two lanes in an array's payload.
pub open spec fn lane_bytes(elem: Rc<Type>) -> Result<u32, CodegenError> {
    match *elem {
        Type::Float32 => Ok(4),
        Type::Float => Ok(8),
        _ => Err(CodegenError::LaneSize(elem)),
    }
}

/// The bytes between two lanes in an array's payload.
pub fn lane_byte_size(elem: &Rc<Type>) -> (r: Result<u32, CodegenError>)
    ensures
        r == lane_bytes(*elem),
{
    match &**elem {
        Type::Float32 => Ok(4),
        Type::Float => Ok(8),
        _ => Err(CodegenError::LaneSize(share(elem))),
    }
}

/// The vector intrinsics.
#[derive(Clone, Copy, Debug, PartialEq, Eq, Structural)]
pub enum VectorIntrinsic {
    Sqrt,
    Fma,
    ReduceAdd,
}

/// The name of a vector intrinsic, which ends in the lane count and lane type.
pub open spec fn intrinsic_name(f: VectorIntrinsic, shape: VectorShape, lane: Ty) -> &'static str {
    match (f, shape, lane is F32) {
        (VectorIntrinsic::Sqrt, VectorShape::Pair, true) => "llvm.sqrt.v2f32",
        (VectorIntrinsic::Sqrt, VectorShape::Quad, true) => "llvm.sqrt.v4f32",
        (VectorIntrinsic::Sqrt, VectorShape::Oct, true) => "llvm.sqrt.v8f32",
        (VectorIntrinsic::Sqrt, VectorShape::Pair, false) => "llvm.sqrt.v2f64",
        (VectorIntrinsic::Sqrt, VectorShape::Quad, false) => "llvm.sqrt.v4f64",
        (VectorIntrinsic::Sqrt, VectorShape::Oct, false) => "llvm.sqrt.v8f64",
        (VectorIntrinsic::Fma, VectorShape::Pair, true) => "llvm.fma.v2f32",
        (VectorIntrinsic::Fma, VectorShape::Quad, true) => "llvm.fma.v4f32",
        (VectorIntrinsic::Fma, VectorShape::Oct, true) => "llvm.fma.v8f32",
        (VectorIntrinsic::Fma, VectorShape::Pair, false) => "llvm.fma.v2f64",
        (VectorIntrinsic::Fma, VectorShape::Quad, false) => "llvm.fma.v4f64",
        (VectorIntrinsic::Fma, VectorShape::Oct, false) => "llvm.fma.v8f64",
        (VectorIntrinsic::ReduceAdd, VectorShape::Pair, true) => "llvm.vector.reduce.fadd.v2f32",
        (VectorIntrinsic::ReduceAdd, VectorShape::Quad, true) => "llvm.vector.reduce.fadd.v4f32",
        (VectorIntrinsic::ReduceAdd, VectorShape::Oct, true) => "llvm.vector.reduce.fadd.v8f32",
        (VectorIntrinsic::ReduceAdd, VectorShape::Pair, false) => "llvm.vector.reduce.fadd.v2f64",
        (VectorIntrinsic::ReduceAdd, VectorShape::Quad, false) => "llvm.vector.reduce.fadd.v4f64",
        (VectorIntrinsic::ReduceAdd, VectorShape::Oct, false) => "llvm.vector.reduce.fadd.v8f64",
    }
}

/// The name of a vector intrinsic.
pub fn vector_intrinsic(f: VectorIntrinsic, shape: VectorShape, lane: Ty) -> (r: &'static str)
    ensures
        r == intrinsic_name(f, shape, lane),
{
    let single = matches!(lane, Ty::F32);
    match (f, shape, single) {
        (VectorIntrinsic::Sqrt, VectorShape::Pair, true) => "llvm.sqrt.v2f32",
        (VectorIntrinsic::Sqrt, VectorShape::Quad, true) => "llvm.sqrt.v4f32",
        (VectorIntrinsic::Sqrt, VectorShape::Oct, true) => "llvm.sqrt.v8f32",
        (VectorIntrinsic::Sqrt, VectorShape::Pair, false) => "llvm.sqrt.v2f64",
        (VectorIntrinsic::Sqrt, VectorShape::Quad, false) => "llvm.sqrt.v4f64",
        (VectorIntrinsic::Sqrt, VectorShape::Oct, false) => "llvm.sqrt.v8f64",
        (VectorIntrinsic::Fma, VectorShape::Pair, true) => "llvm.fma.v2f32",
        (VectorIntrinsic::Fma, VectorShape::Quad, true) => "llvm.fma.v4f32",
        (VectorIntrinsic::Fma, VectorShape::Oct, true) => "llvm.fma.v8f32",
        (VectorIntrinsic::Fma, VectorShape::Pair, false) => "llvm.fma.v2f64",
        (VectorIntrinsic::Fma, VectorShape::Quad, false) => "llvm.fma.v4f64",
        (VectorIntrinsic::Fma, VectorShape::Oct, false) => "llvm.fma.v8f64",
        (VectorIntrinsic::ReduceAdd, VectorShape::Pair, true) => "llvm.vector.reduce.fadd.v2f32",
        (VectorIntrinsic::ReduceAdd, VectorShape::Quad, true) => "llvm.vector.reduce.fadd.v4f32",
        (VectorIntrinsic::ReduceAdd, VectorShape::Oct, true) => "llvm.vector.reduce.fadd.v8f32",
        (VectorIntrinsic::ReduceAdd, VectorShape::Pair, false) => "llvm.vector.reduce.fadd.v2f64",
        (VectorIntrinsic::ReduceAdd, VectorShape::Quad, false) => "llvm.vector.reduce.fadd.v4f64",
        (VectorIntrinsic::ReduceAdd, VectorShape::Oct, false) => "llvm.vector.reduce.fadd.v8f64",
    }
}

impl St {
    /// An operand that must be a vector or a mask.
    pub open spec fn vector(self, a: Atom, context: &'static str) -> Out {
        match self.atom(a) {
            Err(e) => Err(e),
            Ok((st, v)) => match vector_of(v, context) {
                Err(e) => Err(e),
                Ok(v) => Ok((st, v)),
            },
        }
    }

    /// Two operands that must be vectors.
    pub open spec fn vector_pair(self, a: Atom, b: Atom, context: &'static str) -> Result<
        (St, (Val, Val)),
        CodegenError,
    > {
        match self.vector(a, context) {
            Err(e) => Err(e),
            Ok((st, x)) => match st.vector(b, context) {
                Err(e) => Err(e),
                Ok((st, y)) => Ok((st, (x, y))),
            },
        }
    }

    /// A cell as a lane.
    pub open spec fn cell_to_lane(self, v: Val, elem: Rc<Type>, label: &'static str) -> Out {
        match *elem {
            Type::Float32 => Ok(self.cell_to_f32(v, label)),
            Type::Float => Ok(self.cell_to_f64(v, label)),
            _ => Err(CodegenError::LaneType(elem)),
        }
    }

    /// A lane as a cell.
    pub open spec fn lane_to_cell(self, v: Val, elem: Rc<Type>, label: &'static str) -> Out {
        match *elem {
            Type::Float32 => Ok(self.f32_to_cell(v, label)),
            Type::Float => Ok(self.f64_to_cell(v, label)),
            _ => Err(CodegenError::LaneType(elem)),
        }
    }

    /// A vector with one lane replaced.
    pub open spec fn insert_lane(self, vec: Val, elem: Val, lane: u64, label: &'static str) -> (
        St,
        Val,
    ) {
        self.def(Cmd::Insert { vec, elem, lane, label }, vec.ty)
    }

    /// Fill the lanes from position `i` on.
    pub open spec fn fill_lanes(self, vec: Val, elems: Seq<Atom>, i: nat, elem: Rc<Type>) -> Out
        decreases elems.len() - i,
    {
        if i >= elems.len() {
            Ok((self, vec))
        } else {
            match self.cell(elems[i as int], "vector lane") {
                Err(e) => Err(e),
                Ok((st, c)) => match st.cell_to_lane(c, elem, "vec.lane") {
                    Err(e) => Err(e),
                    Ok((st, lane)) => {
                        let (st, vec) = st.insert_lane(vec, lane, i as u64, "vec.ins");
                        st.fill_lanes(vec, elems, i + 1, elem)
                    },
                },
            }
        }
    }

    /// A vector literal: as many elements as the shape has lanes.
    pub open spec fn vector_lit(self, shape: VectorShape, elem: Rc<Type>, elems: Seq<Atom>) -> Out {
        if elems.len() != shape.lane_count() {
            Err(CodegenError::LaneCount(shape, elems.len() as usize))
        } else {
            match vector_ty(shape, elem) {
                Err(e) => Err(e),
                Ok(vt) => self.fill_lanes(Val { id: Id::Undef, ty: vt }, elems, 0, elem),
            }
        }
    }

    /// Put `lane` into the first `n` lanes.
    pub open spec fn splat_lanes(self, vec: Val, lane: Val, n: nat) -> (St, Val)
        decreases n,
    {
        if n == 0 {
            (self, vec)
        } else {
            let (st, v) = self.splat_lanes(vec, lane, (n - 1) as nat);
            st.insert_lane(v, lane, (n - 1) as u64, "splat.ins")
        }
    }

    /// A vector with one value in every lane.
    pub open spec fn vector_splat(self, shape: VectorShape, elem: Rc<Type>, value: Atom) -> Out {
        match vector_ty(shape, elem) {
            Err(e) => Err(e),
            Ok(vt) => match self.cell(value, "vector lane") {
                Err(e) => Err(e),
                Ok((st, c)) => match st.cell_to_lane(c, elem, "splat.lane") {
                    Err(e) => Err(e),
                    Ok((st, lane)) => Ok(
                        st.splat_lanes(
                            Val { id: Id::Undef, ty: vt },
                            lane,
                            shape.lane_count(),
                        ),
                    ),
                },
            },
        }
    }

    /// The payload address and the length of an array: borrowed for the loop, or
    /// fetched for this one access.
    pub open spec fn payload(self, arr: Atom) -> Result<(St, (Val, Val)), CodegenError> {
        match self.borrowed(arr) {
            Some(raw) => Ok((self, (raw.base, raw.len))),
            None => match self.cell(arr, "array handle") {
                Err(e) => Err(e),
                Ok((st, h)) => {
                    let (st, base) = st.arg(h).call(
                        "locus_gc_scalar_fields_ptr",
                        Ty::Ptr,
                        "locus_gc_scalar_fields_ptr",
                    );
                    let (st, len) = st.load(Ty::I64, base, "vec.arr.len");
                    Ok((st, (base, len)))
                },
            },
        }
    }

    /// A trap unless `lanes` elements from the index on lie inside the array.
    pub open spec fn lanes_guard(self, i: Val, lanes: u64, len: Val) -> St {
        let (st, neg) = self.itest(IntPred::Slt, i, constant(0), "vec.idx.neg");
        let (st, last) = st.iop(IntOp::Sub, len, constant(lanes), "vec.idx.last");
        let (st, past) = st.itest(IntPred::Sgt, i, last, "vec.idx.past");
        let (st, bad) = st.iop(IntOp::Or, neg, past, "vec.idx.bad");
        st.trap_if(bad, "vector.index.trap", "vector.index.cont", "vector.index.abort")
    }

    /// The address of an element of `bytes` bytes, behind the length.
    pub open spec fn lanes_place(self, base: Val, i: Val, bytes: u64) -> (St, Val) {
        let (st, off) = self.iop(IntOp::Mul, i, constant(bytes), "vec.byte");
        let (st, off) = st.iop(IntOp::Add, off, constant(8), "vec.byte.hdr");
        st.gep(Ty::I8, base, off, "vec.elem.ptr")
    }

    /// The address of the lanes at element `idx`. Traps unless the whole vector
    /// lies inside the array: `0 <= idx` and `idx + lanes <= len`.
    pub open spec fn lanes_ptr(self, shape: VectorShape, elem: Rc<Type>, arr: Atom, idx: Atom) -> Out {
        match lane_bytes(elem) {
            Err(e) => Err(e),
            Ok(bytes) => match self.payload(arr) {
                Err(e) => Err(e),
                Ok((st, (base, len))) => match st.cell(idx, "vector array index") {
                    Err(e) => Err(e),
                    Ok((st, i)) => {
                        let st = st.lanes_guard(i, shape.lane_count() as u64, len);
                        Ok(st.lanes_place(base, i, bytes as u64))
                    },
                },
            },
        }
    }

    /// One packed load of adjacent elements, aligned to an element.
    pub open spec fn vector_load(self, shape: VectorShape, elem: Rc<Type>, arr: Atom, idx: Atom) -> Out {
        match vector_ty(shape, elem) {
            Err(e) => Err(e),
            Ok(vt) => match lane_bytes(elem) {
                Err(e) => Err(e),
                Ok(bytes) => match self.lanes_ptr(shape, elem, arr, idx) {
                    Err(e) => Err(e),
                    Ok((st, ptr)) => Ok(
                        st.def(Cmd::Load { ty: vt, ptr, align: bytes, label: Title::Fixed("vec.load") }, vt),
                    ),
                },
            },
        }
    }

    /// One packed store to adjacent elements, aligned to an element.
    pub open spec fn vector_store(
        self,
        shape: VectorShape,
        elem: Rc<Type>,
        arr: Atom,
        idx: Atom,
        value: Atom,
    ) -> Out {
        match lane_bytes(elem) {
            Err(e) => Err(e),
            Ok(bytes) => match self.atom(value) {
                Err(e) => Err(e),
                Ok((st, v)) => match st.lanes_ptr(shape, elem, arr, idx) {
                    Err(e) => Err(e),
                    Ok((st, ptr)) => Ok(
                        (st.put(Cmd::Store { ptr, val: v, align: bytes }), constant(0)),
                    ),
                },
            },
        }
    }

    /// An operation lane by lane.
    pub open spec fn vector_bin(self, op: BinOp, elem: Rc<Type>, a: Atom, b: Atom) -> Out {
        match lane_ty(elem) {
            Err(e) => Err(e),
            Ok(_) => match self.vector_pair(a, b, "vector operand") {
                Err(e) => Err(e),
                Ok((st, (x, y))) => match op {
                    BinOp::Add => Ok(st.fop(FloatOp::Add, x, y, "vadd")),
                    BinOp::Sub => Ok(st.fop(FloatOp::Sub, x, y, "vsub")),
                    BinOp::Mul => Ok(st.fop(FloatOp::Mul, x, y, "vmul")),
                    BinOp::Div => Ok(st.fop(FloatOp::Div, x, y, "vdiv")),
                    _ => Err(CodegenError::NotAVectorOp(op)),
                },
            },
        }
    }

    /// A comparison lane by lane: a mask.
    pub open spec fn vector_compare(
        self,
        op: BinOp,
        shape: VectorShape,
        elem: Rc<Type>,
        a: Atom,
        b: Atom,
    ) -> Out {
        match lane_ty(elem) {
            Err(e) => Err(e),
            Ok(_) => match self.vector_pair(a, b, "vector operand") {
                Err(e) => Err(e),
                Ok((st, (x, y))) => match float_pred(op) {
                    None => Err(CodegenError::NotAVectorComparison(op)),
                    Some(pred) => Ok(
                        st.def(
                            Cmd::FloatTest { pred, a: x, b: y, label: "vcmp" },
                            Ty::Mask(shape.lane_count() as u32),
                        ),
                    ),
                },
            },
        }
    }

    /// Each lane from one of two vectors.
    pub open spec fn vector_select(
        self,
        shape: VectorShape,
        elem: Rc<Type>,
        mask: Atom,
        yes: Atom,
        no: Atom,
    ) -> Out {
        match vector_ty(shape, elem) {
            Err(e) => Err(e),
            Ok(_) => match self.vector(mask, "vector mask") {
                Err(e) => Err(e),
                Ok((st, m)) => match st.vector_pair(yes, no, "vector operand") {
                    Err(e) => Err(e),
                    Ok((st, (y, n))) => Ok(
                        st.def(
                            Cmd::Select { mask: m, yes: y, no: n, label: "vselect" },
                            y.ty,
                        ),
                    ),
                },
            },
        }
    }

    /// The first `n` lanes of a mask.
    pub open spec fn mask_lanes(self, v: Val, n: nat) -> (St, Seq<Val>)
        decreases n,
    {
        if n == 0 {
            (self, Seq::empty())
        } else {
            let (st, lanes) = self.mask_lanes(v, (n - 1) as nat);
            let (st, lane) = st.def(
                Cmd::Extract { vec: v, lane: (n - 1) as u64, label: "mask.lane" },
                Ty::I1,
            );
            (st, lanes.push(lane))
        }
    }

    /// The first `n` lanes joined, given at least one.
    pub open spec fn join_lanes(self, op: MaskReduceOp, lanes: Seq<Val>, n: nat) -> (St, Val)
        decreases n,
    {
        if n <= 1 {
            (self, lanes[0])
        } else {
            let (st, acc) = self.join_lanes(op, lanes, (n - 1) as nat);
            match op {
                MaskReduceOp::Any => st.iop(IntOp::Or, acc, lanes[n - 1], "mask.any"),
                MaskReduceOp::All => st.iop(IntOp::And, acc, lanes[n - 1], "mask.all"),
            }
        }
    }

    /// Whether any or all lanes of a mask hold, as a cell that is 0 or 1.
    pub open spec fn mask_reduce(self, op: MaskReduceOp, shape: VectorShape, mask: Atom) -> Out {
        match self.vector(mask, "vector mask") {
            Err(e) => Err(e),
            Ok((st, v)) => {
                let (st, lanes) = st.mask_lanes(v, shape.lane_count());
                let (st, acc) = st.join_lanes(op, lanes, shape.lane_count());
                Ok(st.convert(Conv::Zext, acc, Ty::I64, "mask.bool"))
            },
        }
    }

    /// One lane of a vector as a cell.
    pub open spec fn vector_extract(self, vector: Atom, lane: usize, elem: Rc<Type>) -> Out {
        match self.vector(vector, "vector operand") {
            Err(e) => Err(e),
            Ok((st, v)) => match lane_ty(elem) {
                Err(e) => Err(e),
                Ok(lt) => {
                    let (st, x) = st.def(
                        Cmd::Extract { vec: v, lane: lane as u64, label: "vec.extract" },
                        lt,
                    );
                    st.lane_to_cell(x, elem, "vec.extract.cell")
                },
            },
        }
    }

    // ── masks as cells ───────────────────────────────────────────────────
    /// The first `n` lanes of a mask as the low bits of a cell.
    pub open spec fn pack_lanes(self, v: Val, n: nat) -> (St, Val)
        decreases n,
    {
        if n == 0 {
            (self, constant(0))
        } else {
            let i = (n - 1) as u64;
            let (st, acc) = self.pack_lanes(v, (n - 1) as nat);
            let (st, lane) = st.def(
                Cmd::Extract { vec: v, lane: i, label: "mask.pack.lane" },
                Ty::I1,
            );
            let (st, bit) = st.convert(Conv::Zext, lane, Ty::I64, "mask.pack.bit");
            let (st, up) = if i == 0 {
                (st, bit)
            } else {
                st.iop(IntOp::Shl, bit, constant(i), "mask.pack.shl")
            };
            st.iop(IntOp::Or, acc, up, "mask.pack.or")
        }
    }

    /// A mask whose first `n` lanes are the low bits of a cell.
    pub open spec fn unpack_lanes(self, cell: Val, shape: VectorShape, n: nat) -> (St, Val)
        decreases n,
    {
        if n == 0 {
            (self, Val { id: Id::Undef, ty: Ty::Mask(shape.lane_count() as u32) })
        } else {
            let i = (n - 1) as u64;
            let (st, vec) = self.unpack_lanes(cell, shape, (n - 1) as nat);
            let (st, down) = if i == 0 {
                (st, cell)
            } else {
                st.iop(IntOp::LShr, cell, constant(i), "mask.unpack.shr")
            };
            let (st, bit) = st.iop(IntOp::And, down, constant(1), "mask.unpack.and");
            let (st, lane) = st.convert(Conv::Trunc, bit, Ty::I1, "mask.unpack.bit");
            st.insert_lane(vec, lane, i, "mask.unpack.ins")
        }
    }

    // ── floating-point functions ─────────────────────────────────────────
    /// The sum of the lanes, from positive zero.
    pub open spec fn reduce_add(
        self,
        shape: VectorShape,
        elem: Rc<Type>,
        v: Val,
        label: &'static str,
    ) -> Out {
        match lane_ty(elem) {
            Err(e) => Err(e),
            Ok(lt) => Ok(
                self.arg(Val { id: Id::FloatZero, ty: lt }).arg(v).call(
                    intrinsic_name(VectorIntrinsic::ReduceAdd, shape, lt),
                    lt,
                    label,
                ),
            ),
        }
    }

    /// The square root of a scalar.
    pub open spec fn scalar_sqrt(self, v: Val, label: &'static str) -> (St, Val) {
        if v.ty is F32 {
            self.arg(v).call("llvm.sqrt.f32", Ty::F32, label)
        } else {
            self.arg(v).call("llvm.sqrt.f64", Ty::F64, label)
        }
    }

    /// A floating-point function of one operand.
    pub open spec fn math_unary(self, op: FloatMathOp, ty: Rc<Type>, value: Atom) -> Out {
        match op {
            FloatMathOp::Sqrt => match *ty {
                Type::Float => match self.cell(value, "float operand") {
                    Err(e) => Err(e),
                    Ok((st, c)) => {
                        let (st, f) = st.cell_to_f64(c, "sqrt.in");
                        let (st, r) = st.scalar_sqrt(f, "sqrt");
                        Ok(st.f64_to_cell(r, "sqrt.bits"))
                    },
                },
                Type::Float32 => match self.cell(value, "float operand") {
                    Err(e) => Err(e),
                    Ok((st, c)) => {
                        let (st, f) = st.cell_to_f32(c, "sqrt.f32.in");
                        let (st, r) = st.scalar_sqrt(f, "sqrt.f32");
                        Ok(st.f32_to_cell(r, "sqrt.f32.bits"))
                    },
                },
                Type::Vector(shape, elem) => match self.vector(value, "vector operand") {
                    Err(e) => Err(e),
                    Ok((st, v)) => match lane_ty(elem) {
                        Err(e) => Err(e),
                        Ok(lt) => Ok(
                            st.arg(v).call(
                                intrinsic_name(VectorIntrinsic::Sqrt, shape, lt),
                                v.ty,
                                "vec.unary",
                            ),
                        ),
                    },
                },
                _ => Err(CodegenError::MathType(op, ty)),
            },
            FloatMathOp::Sum => match *ty {
                Type::Vector(shape, elem) => match self.vector(value, "vector operand") {
                    Err(e) => Err(e),
                    Ok((st, v)) => match st.reduce_add(shape, elem, v, "sum") {
                        Err(e) => Err(e),
                        Ok((st, r)) => st.lane_to_cell(r, elem, "sum.bits"),
                    },
                },
                _ => Err(CodegenError::MathType(op, ty)),
            },
            FloatMathOp::Length => match *ty {
                Type::Vector(shape, elem) => match self.vector(value, "vector operand") {
                    Err(e) => Err(e),
                    Ok((st, v)) => {
                        let (st, sq) = st.fop(FloatOp::Mul, v, v, "length.square");
                        match st.reduce_add(shape, elem, sq, "length.sum") {
                            Err(e) => Err(e),
                            Ok((st, sum)) => {
                                let (st, r) = st.scalar_sqrt(sum, "length.sqrt");
                                st.lane_to_cell(r, elem, "length.bits")
                            },
                        }
                    },
                },
                _ => Err(CodegenError::MathType(op, ty)),
            },
            _ => Err(CodegenError::NotUnaryMath(op)),
        }
    }

    /// A floating-point function of two operands: the dot product.
    pub open spec fn math_binary(self, op: FloatMathOp, ty: Rc<Type>, a: Atom, b: Atom) -> Out {
        match op {
            FloatMathOp::Dot => match *ty {
                Type::Vector(shape, elem) => match self.vector_pair(a, b, "vector operand") {
                    Err(e) => Err(e),
                    Ok((st, (x, y))) => {
                        let (st, prod) = st.fop(FloatOp::Mul, x, y, "dot.mul");
                        match st.reduce_add(shape, elem, prod, "dot") {
                            Err(e) => Err(e),
                            Ok((st, r)) => st.lane_to_cell(r, elem, "dot.bits"),
                        }
                    },
                },
                _ => Err(CodegenError::MathType(op, ty)),
            },
            _ => Err(CodegenError::NotBinaryMath(op)),
        }
    }

    /// A floating-point function of three operands: multiply and add.
    pub open spec fn math_ternary(self, op: FloatMathOp, ty: Rc<Type>, a: Atom, b: Atom, c: Atom) -> Out {
        match op {
            FloatMathOp::Fma => match *ty {
                Type::Float => match self.cell_pair(a, b, "float operand") {
                    Err(e) => Err(e),
                    Ok((st, (x, y))) => match st.cell(c, "float operand") {
                        Err(e) => Err(e),
                        Ok((st, z)) => {
                            let (st, fx) = st.cell_to_f64(x, "fma.a");
                            let (st, fy) = st.cell_to_f64(y, "fma.b");
                            let (st, fz) = st.cell_to_f64(z, "fma.c");
                            let (st, r) = st.arg(fx).arg(fy).arg(fz).call(
                                "llvm.fma.f64",
                                Ty::F64,
                                "fma",
                            );
                            Ok(st.f64_to_cell(r, "fma.bits"))
                        },
                    },
                },
                Type::Float32 => match self.cell_pair(a, b, "float operand") {
                    Err(e) => Err(e),
                    Ok((st, (x, y))) => match st.cell(c, "float operand") {
                        Err(e) => Err(e),
                        Ok((st, z)) => {
                            let (st, fx) = st.cell_to_f32(x, "fma.f32.a");
                            let (st, fy) = st.cell_to_f32(y, "fma.f32.b");
                            let (st, fz) = st.cell_to_f32(z, "fma.f32.c");
                            let (st, r) = st.arg(fx).arg(fy).arg(fz).call(
                                "llvm.fma.f32",
                                Ty::F32,
                                "fma.f32",
                            );
                            Ok(st.f32_to_cell(r, "fma.f32.bits"))
                        },
                    },
                },
                Type::Vector(shape, elem) => match self.vector_pair(a, b, "vector operand") {
                    Err(e) => Err(e),
                    Ok((st, (x, y))) => match st.vector(c, "vector operand") {
                        Err(e) => Err(e),
                        Ok((st, z)) => match lane_ty(elem) {
                            Err(e) => Err(e),
                            Ok(lt) => Ok(
                                st.arg(x).arg(y).arg(z).call(
                                    intrinsic_name(VectorIntrinsic::Fma, shape, lt),
                                    x.ty,
                                    "vec.ternary",
                                ),
                            ),
                        },
                    },
                },
                _ => Err(CodegenError::MathType(op, ty)),
            },
            _ => Err(CodegenError::NotTernaryMath(op)),
        }
    }
}

/// The ordered comparison of an operator, if it is one.
pub open spec fn float_pred(op: BinOp) -> Option<FloatPred> {
    match op {
        BinOp::Eq => Some(FloatPred::Oeq),
        BinOp::Ne => Some(FloatPred::One),
        BinOp::Lt => Some(FloatPred::Olt),
        BinOp::Le => Some(FloatPred::Ole),
        BinOp::Gt => Some(FloatPred::Ogt),
        BinOp::Ge => Some(FloatPred::Oge),
        _ => None,
    }
}

fn float_pred_of(op: BinOp) -> (r: Option<FloatPred>)
    ensures
        r == float_pred(op),
{
    match op {
        BinOp::Eq => Some(FloatPred::Oeq),
        BinOp::Ne => Some(FloatPred::One),
        BinOp::Lt => Some(FloatPred::Olt),
        BinOp::Le => Some(FloatPred::Ole),
        BinOp::Gt => Some(FloatPred::Ogt),
        BinOp::Ge => Some(FloatPred::Oge),
        _ => None,
    }
}

impl Cg {
    pub(crate) fn lower_vector(&mut self, a: &Atom, context: &'static str) -> (r: Result<
        Val,
        CodegenError,
    >)
        ensures
            agrees(old(self)@.vector(*a, context), final(self)@, r),
    {
        match self.lower_atom(a) {
            Err(e) => Err(e),
            Ok(v) => expect_vector(v, context),
        }
    }

    fn lower_vector_pair(&mut self, a: &Atom, b: &Atom, context: &'static str) -> (r: Result<
        (Val, Val),
        CodegenError,
    >)
        ensures
            match old(self)@.vector_pair(*a, *b, context) {
                Ok((st, p)) => final(self)@ == st && r == Ok::<(Val, Val), CodegenError>(p),
                Err(e) => r == Err::<(Val, Val), CodegenError>(e),
            },
    {
        let x = match self.lower_vector(a, context) {
            Err(e) => {
                return Err(e);
            },
            Ok(x) => x,
        };
        match self.lower_vector(b, context) {
            Err(e) => Err(e),
            Ok(y) => Ok((x, y)),
        }
    }

    fn scalar_cell_to_lane(&mut self, v: Val, elem: &Rc<Type>, label: &'static str) -> (r: Result<
        Val,
        CodegenError,
    >)
        ensures
            agrees(old(self)@.cell_to_lane(v, *elem, label), final(self)@, r),
    {
        match &**elem {
            Type::Float32 => Ok(self.cell_to_f32(v, label)),
            Type::Float => Ok(self.cell_to_f64(v, label)),
            _ => Err(CodegenError::LaneType(share(elem))),
        }
    }

    fn lane_to_scalar_cell(&mut self, v: Val, elem: &Rc<Type>, label: &'static str) -> (r: Result<
        Val,
        CodegenError,
    >)
        ensures
            agrees(old(self)@.lane_to_cell(v, *elem, label), final(self)@, r),
    {
        match &**elem {
            Type::Float32 => Ok(self.f32_to_cell(v, label)),
            Type::Float => Ok(self.f64_to_cell(v, label)),
            _ => Err(CodegenError::LaneType(share(elem))),
        }
    }

    fn insert_lane(&mut self, vec: Val, elem: Val, lane: u64, label: &'static str) -> (r: Val)
        ensures
            (final(self)@, r) == old(self)@.insert_lane(vec, elem, lane, label),
    {
        self.def(Cmd::Insert { vec, elem, lane, label }, vec.ty)
    }

    fn fill_lanes(&mut self, vec: Val, elems: &Vec<Atom>, elem: &Rc<Type>) -> (r: Result<
        Val,
        CodegenError,
    >)
        ensures
            agrees(old(self)@.fill_lanes(vec, elems@, 0, *elem), final(self)@, r),
    {
        let mut cur = vec;
        let mut i: usize = 0;
        while i < elems.len()
            invariant
                i <= elems.len(),
                self@.fill_lanes(cur, elems@, i as nat, *elem) == old(self)@.fill_lanes(
                    vec,
                    elems@,
                    0,
                    *elem,
                ),
            decreases elems.len() - i,
        {
            let c = match self.lower_cell(&elems[i], "vector lane") {
                Err(e) => {
                    return Err(e);
                },
                Ok(c) => c,
            };
            let lane = match self.scalar_cell_to_lane(c, elem, "vec.lane") {
                Err(e) => {
                    return Err(e);
                },
                Ok(lane) => lane,
            };
            cur = self.insert_lane(cur, lane, i as u64, "vec.ins");
            i = i + 1;
        }
        Ok(cur)
    }

    /// A vector literal.
    pub(crate) fn lower_vector_lit(
        &mut self,
        shape: VectorShape,
        elem: &Rc<Type>,
        elems: &Vec<Atom>,
    ) -> (r: Result<Val, CodegenError>)
        ensures
            agrees(old(self)@.vector_lit(shape, *elem, elems@), final(self)@, r),
    {
        if elems.len() != shape.lanes() {
            return Err(CodegenError::LaneCount(shape, elems.len()));
        }
        match vector_type(shape, elem) {
            Err(e) => Err(e),
            Ok(vt) => self.fill_lanes(Val { id: Id::Undef, ty: vt }, elems, elem),
        }
    }

    fn splat_lanes(&mut self, vec: Val, lane: Val, n: usize) -> (r: Val)
        ensures
            (final(self)@, r) == old(self)@.splat_lanes(vec, lane, n as nat),
    {
        let mut cur = vec;
        let mut i: usize = 0;
        while i < n
            invariant
                i <= n,
                (self@, cur) == old(self)@.splat_lanes(vec, lane, i as nat),
            decreases n - i,
        {
            cur = self.insert_lane(cur, lane, i as u64, "splat.ins");
            i = i + 1;
        }
        cur
    }

    /// A vector with one value in every lane.
    pub(crate) fn lower_vector_splat(
        &mut self,
        shape: VectorShape,
        elem: &Rc<Type>,
        value: &Atom,
    ) -> (r: Result<Val, CodegenError>)
        ensures
            agrees(old(self)@.vector_splat(shape, *elem, *value), final(self)@, r),
    {
        let vt = match vector_type(shape, elem) {
            Err(e) => {
                return Err(e);
            },
            Ok(vt) => vt,
        };
        let c = match self.lower_cell(value, "vector lane") {
            Err(e) => {
                return Err(e);
            },
            Ok(c) => c,
        };
        match self.scalar_cell_to_lane(c, elem, "splat.lane") {
            Err(e) => Err(e),
            Ok(lane) => Ok(
                self.splat_lanes(Val { id: Id::Undef, ty: vt }, lane, shape.lanes()),
            ),
        }
    }

    fn scalar_payload_base_and_len(&mut self, arr: &Atom) -> (r: Result<(Val, Val), CodegenError>)
        ensures
            match old(self)@.payload(*arr) {
                Ok((st, p)) => final(self)@ == st && r == Ok::<(Val, Val), CodegenError>(p),
                Err(e) => r == Err::<(Val, Val), CodegenError>(e),
            },
    {
        if let Some(raw) = self.borrowed(arr) {
            return Ok((raw.base, raw.len));
        }
        match self.lower_cell(arr, "array handle") {
            Err(e) => Err(e),
            Ok(h) => {
                self.arg(h);
                let base = self.call(
                    "locus_gc_scalar_fields_ptr",
                    Ty::Ptr,
                    "locus_gc_scalar_fields_ptr",
                );
                let len = self.load(Ty::I64, base, "vec.arr.len");
                Ok((base, len))
            },
        }
    }

    /// The address of the lanes at an element.
    fn vector_array_elem_ptr(
        &mut self,
        shape: VectorShape,
        elem: &Rc<Type>,
        arr: &Atom,
        idx: &Atom,
    ) -> (r: Result<Val, CodegenError>)
        ensures
            agrees(old(self)@.lanes_ptr(shape, *elem, *arr, *idx), final(self)@, r),
    {
        let bytes: u32 = match lane_byte_size(elem) {
            Err(e) => {
                return Err(e);
            },
            Ok(bytes) => bytes,
        };
        let (base, len) = match self.scalar_payload_base_and_len(arr) {
            Err(e) => {
                return Err(e);
            },
            Ok(p) => p,
        };
        let i = match self.lower_cell(idx, "vector array index") {
            Err(e) => {
                return Err(e);
            },
            Ok(i) => i,
        };
        let neg = self.itest(IntPred::Slt, i, const_cell(0), "vec.idx.neg");
        let last = self.iop(IntOp::Sub, len, const_cell(shape.lanes() as u64), "vec.idx.last");
        let past = self.itest(IntPred::Sgt, i, last, "vec.idx.past");
        let bad = self.iop(IntOp::Or, neg, past, "vec.idx.bad");
        self.trap_if(bad, "vector.index.trap", "vector.index.cont", "vector.index.abort");
        let off = self.iop(IntOp::Mul, i, const_cell(bytes as u64), "vec.byte");
        let off = self.iop(IntOp::Add, off, const_cell(8), "vec.byte.hdr");
        Ok(self.gep(Ty::I8, base, off, "vec.elem.ptr"))
    }

    /// One packed load.
    pub(crate) fn lower_vector_load(
        &mut self,
        shape: VectorShape,
        elem: &Rc<Type>,
        arr: &Atom,
        idx: &Atom,
    ) -> (r: Result<Val, CodegenError>)
        ensures
            agrees(old(self)@.vector_load(shape, *elem, *arr, *idx), final(self)@, r),
    {
        let vt = match vector_type(shape, elem) {
            Err(e) => {
                return Err(e);
            },
            Ok(vt) => vt,
        };
        let bytes: u32 = match lane_byte_size(elem) {
            Err(e) => {
                return Err(e);
            },
            Ok(bytes) => bytes,
        };
        match self.vector_array_elem_ptr(shape, elem, arr, idx) {
            Err(e) => Err(e),
            Ok(ptr) => Ok(
                self.def(Cmd::Load { ty: vt, ptr, align: bytes, label: Title::Fixed("vec.load") }, vt),
            ),
        }
    }

    /// One packed store.
    pub(crate) fn lower_vector_store(
        &mut self,
        shape: VectorShape,
        elem: &Rc<Type>,
        arr: &Atom,
        idx: &Atom,
        value: &Atom,
    ) -> (r: Result<Val, CodegenError>)
        ensures
            agrees(old(self)@.vector_store(shape, *elem, *arr, *idx, *value), final(self)@, r),
    {
        let bytes: u32 = match lane_byte_size(elem) {
            Err(e) => {
                return Err(e);
            },
            Ok(bytes) => bytes,
        };
        let v = match self.lower_atom(value) {
            Err(e) => {
                return Err(e);
            },
            Ok(v) => v,
        };
        match self.vector_array_elem_ptr(shape, elem, arr, idx) {
            Err(e) => Err(e),
            Ok(ptr) => {
                self.put(Cmd::Store { ptr, val: v, align: bytes });
                Ok(const_cell(0))
            },
        }
    }

    /// An operation lane by lane.
    pub(crate) fn lower_vector_bin(&mut self, op: BinOp, elem: &Rc<Type>, a: &Atom, b: &Atom) -> (r: Result<
        Val,
        CodegenError,
    >)
        ensures
            agrees(old(self)@.vector_bin(op, *elem, *a, *b), final(self)@, r),
    {
        match lane_float_type(elem) {
            Err(e) => {
                return Err(e);
            },
            Ok(_) => {},
        }
        let (x, y) = match self.lower_vector_pair(a, b, "vector operand") {
            Err(e) => {
                return Err(e);
            },
            Ok(p) => p,
        };
        match op {
            BinOp::Add => Ok(self.fop(FloatOp::Add, x, y, "vadd")),
            BinOp::Sub => Ok(self.fop(FloatOp::Sub, x, y, "vsub")),
            BinOp::Mul => Ok(self.fop(FloatOp::Mul, x, y, "vmul")),
            BinOp::Div => Ok(self.fop(FloatOp::Div, x, y, "vdiv")),
            _ => Err(CodegenError::NotAVectorOp(op)),
        }
    }

    /// A comparison lane by lane.
    pub(crate) fn lower_vector_compare(
        &mut self,
        op: BinOp,
        shape: VectorShape,
        elem: &Rc<Type>,
        a: &Atom,
        b: &Atom,
    ) -> (r: Result<Val, CodegenError>)
        ensures
            agrees(old(self)@.vector_compare(op, shape, *elem, *a, *b), final(self)@, r),
    {
        match lane_float_type(elem) {
            Err(e) => {
                return Err(e);
            },
            Ok(_) => {},
        }
        let (x, y) = match self.lower_vector_pair(a, b, "vector operand") {
            Err(e) => {
                return Err(e);
            },
            Ok(p) => p,
        };
        match float_pred_of(op) {
            None => Err(CodegenError::NotAVectorComparison(op)),
            Some(pred) => Ok(
                self.def(
                    Cmd::FloatTest { pred, a: x, b: y, label: "vcmp" },
                    Ty::Mask(shape.lanes() as u32),
                ),
            ),
        }
    }

    /// Each lane from one of two vectors.
    pub(crate) fn lower_vector_select(
        &mut self,
        shape: VectorShape,
        elem: &Rc<Type>,
        mask: &Atom,
        yes: &Atom,
        no: &Atom,
    ) -> (r: Result<Val, CodegenError>)
        ensures
            agrees(old(self)@.vector_select(shape, *elem, *mask, *yes, *no), final(self)@, r),
    {
        match vector_type(shape, elem) {
            Err(e) => {
                return Err(e);
            },
            Ok(_) => {},
        }
        let m = match self.lower_vector(mask, "vector mask") {
            Err(e) => {
                return Err(e);
            },
            Ok(m) => m,
        };
        match self.lower_vector_pair(yes, no, "vector operand") {
            Err(e) => Err(e),
            Ok((y, n)) => Ok(
                self.def(Cmd::Select { mask: m, yes: y, no: n, label: "vselect" }, y.ty),
            ),
        }
    }

    fn mask_lanes(&mut self, v: Val, n: usize) -> (r: Vec<Val>)
        ensures
            (final(self)@, r@) == old(self)@.mask_lanes(v, n as nat),
            r@.len() == n,
    {
        let mut out: Vec<Val> = Vec::new();
        let mut i: usize = 0;
        while i < n
            invariant
                i <= n,
                out@.len() == i,
                (self@, out@) == old(self)@.mask_lanes(v, i as nat),
            decreases n - i,
        {
            let lane = self.def(
                Cmd::Extract { vec: v, lane: i as u64, label: "mask.lane" },
                Ty::I1,
            );
            out.push(lane);
            i = i + 1;
        }
        out
    }

    fn join_lanes(&mut self, op: MaskReduceOp, lanes: &Vec<Val>) -> (r: Val)
        requires
            lanes@.len() >= 1,
        ensures
            (final(self)@, r) == old(self)@.join_lanes(op, lanes@, lanes@.len()),
    {
        let mut acc = lanes[0];
        let mut i: usize = 1;
        while i < lanes.len()
            invariant
                1 <= i <= lanes.len(),
                (self@, acc) == old(self)@.join_lanes(op, lanes@, i as nat),
            decreases lanes.len() - i,
        {
            acc = match op {
                MaskReduceOp::Any => self.iop(IntOp::Or, acc, lanes[i], "mask.any"),
                MaskReduceOp::All => self.iop(IntOp::And, acc, lanes[i], "mask.all"),
            };
            i = i + 1;
        }
        acc
    }

    /// Whether any or all lanes of a mask hold.
    pub(crate) fn lower_mask_reduce(
        &mut self,
        op: MaskReduceOp,
        shape: VectorShape,
        mask: &Atom,
    ) -> (r: Result<Val, CodegenError>)
        ensures
            agrees(old(self)@.mask_reduce(op, shape, *mask), final(self)@, r),
    {
        match self.lower_vector(mask, "vector mask") {
            Err(e) => Err(e),
            Ok(v) => {
                let lanes = self.mask_lanes(v, shape.lanes());
                let acc = self.join_lanes(op, &lanes);
                Ok(self.convert(Conv::Zext, acc, Ty::I64, "mask.bool"))
            },
        }
    }

    /// One lane of a vector.
    pub(crate) fn lower_vector_extract(&mut self, vector: &Atom, lane: usize, elem: &Rc<Type>) -> (r: Result<
        Val,
        CodegenError,
    >)
        ensures
            agrees(old(self)@.vector_extract(*vector, lane, *elem), final(self)@, r),
    {
        let v = match self.lower_vector(vector, "vector operand") {
            Err(e) => {
                return Err(e);
            },
            Ok(v) => v,
        };
        match lane_float_type(elem) {
            Err(e) => Err(e),
            Ok(lt) => {
                let x = self.def(
                    Cmd::Extract { vec: v, lane: lane as u64, label: "vec.extract" },
                    lt,
                );
                self.lane_to_scalar_cell(x, elem, "vec.extract.cell")
            },
        }
    }

    /// A mask as a cell.
    pub(crate) fn pack_mask_to_cell(&mut self, v: Val, shape: VectorShape) -> (r: Val)
        ensures
            (final(self)@, r) == old(self)@.pack_lanes(v, shape.lane_count()),
    {
        let n: usize = shape.lanes();
        let mut acc = const_cell(0);
        let mut i: usize = 0;
        while i < n
            invariant
                i <= n,
                n <= 8,
                (self@, acc) == old(self)@.pack_lanes(v, i as nat),
            decreases n - i,
        {
            let lane = self.def(
                Cmd::Extract { vec: v, lane: i as u64, label: "mask.pack.lane" },
                Ty::I1,
            );
            let bit = self.convert(Conv::Zext, lane, Ty::I64, "mask.pack.bit");
            let up = if i == 0 {
                bit
            } else {
                self.iop(IntOp::Shl, bit, const_cell(i as u64), "mask.pack.shl")
            };
            acc = self.iop(IntOp::Or, acc, up, "mask.pack.or");
            i = i + 1;
        }
        acc
    }

    /// A cell as a mask.
    pub(crate) fn unpack_mask_from_cell(&mut self, cell: Val, shape: VectorShape) -> (r: Val)
        ensures
            (final(self)@, r) == old(self)@.unpack_lanes(cell, shape, shape.lane_count()),
    {
        let n: usize = shape.lanes();
        let mut vec = Val { id: Id::Undef, ty: Ty::Mask(n as u32) };
        let mut i: usize = 0;
        while i < n
            invariant
                i <= n,
                n <= 8,
                n == shape.lane_count(),
                (self@, vec) == old(self)@.unpack_lanes(cell, shape, i as nat),
            decreases n - i,
        {
            let down = if i == 0 {
                cell
            } else {
                self.iop(IntOp::LShr, cell, const_cell(i as u64), "mask.unpack.shr")
            };
            let bit = self.iop(IntOp::And, down, const_cell(1), "mask.unpack.and");
            let lane = self.convert(Conv::Trunc, bit, Ty::I1, "mask.unpack.bit");
            vec = self.insert_lane(vec, lane, i as u64, "mask.unpack.ins");
            i = i + 1;
        }
        vec
    }

    fn call_vector_reduce_fadd(
        &mut self,
        shape: VectorShape,
        elem: &Rc<Type>,
        v: Val,
        label: &'static str,
    ) -> (r: Result<Val, CodegenError>)
        ensures
            agrees(old(self)@.reduce_add(shape, *elem, v, label), final(self)@, r),
    {
        match lane_float_type(elem) {
            Err(e) => Err(e),
            Ok(lt) => {
                self.arg(Val { id: Id::FloatZero, ty: lt });
                self.arg(v);
                Ok(
                    self.call(
                        vector_intrinsic(VectorIntrinsic::ReduceAdd, shape, lt),
                        lt,
                        label,
                    ),
                )
            },
        }
    }

    fn scalar_sqrt(&mut self, v: Val, label: &'static str) -> (r: Val)
        ensures
            (final(self)@, r) == old(self)@.scalar_sqrt(v, label),
    {
        self.arg(v);
        match v.ty {
            Ty::F32 => self.call("llvm.sqrt.f32", Ty::F32, label),
            _ => self.call("llvm.sqrt.f64", Ty::F64, label),
        }
    }

    fn lower_sqrt(&mut self, ty: &Rc<Type>, value: &Atom) -> (r: Result<Val, CodegenError>)
        ensures
            agrees(old(self)@.math_unary(FloatMathOp::Sqrt, *ty, *value), final(self)@, r),
    {
        match &**ty {
            Type::Float => match self.lower_cell(value, "float operand") {
                Err(e) => Err(e),
                Ok(c) => {
                    let f = self.cell_to_f64(c, "sqrt.in");
                    let r = self.scalar_sqrt(f, "sqrt");
                    Ok(self.f64_to_cell(r, "sqrt.bits"))
                },
            },
            Type::Float32 => match self.lower_cell(value, "float operand") {
                Err(e) => Err(e),
                Ok(c) => {
                    let f = self.cell_to_f32(c, "sqrt.f32.in");
                    let r = self.scalar_sqrt(f, "sqrt.f32");
                    Ok(self.f32_to_cell(r, "sqrt.f32.bits"))
                },
            },
            Type::Vector(shape, elem) => match self.lower_vector(value, "vector operand") {
                Err(e) => Err(e),
                Ok(v) => match lane_float_type(elem) {
                    Err(e) => Err(e),
                    Ok(lt) => {
                        self.arg(v);
                        Ok(
                            self.call(
                                vector_intrinsic(VectorIntrinsic::Sqrt, *shape, lt),
                                v.ty,
                                "vec.unary",
                            ),
                        )
                    },
                },
            },
            _ => Err(CodegenError::MathType(FloatMathOp::Sqrt, share(ty))),
        }
    }

    fn lower_sum(&mut self, ty: &Rc<Type>, value: &Atom) -> (r: Result<Val, CodegenError>)
        ensures
            agrees(old(self)@.math_unary(FloatMathOp::Sum, *ty, *value), final(self)@, r),
    {
        match &**ty {
            Type::Vector(shape, elem) => match self.lower_vector(value, "vector operand") {
                Err(e) => Err(e),
                Ok(v) => match self.call_vector_reduce_fadd(*shape, elem, v, "sum") {
                    Err(e) => Err(e),
                    Ok(r) => self.lane_to_scalar_cell(r, elem, "sum.bits"),
                },
            },
            _ => Err(CodegenError::MathType(FloatMathOp::Sum, share(ty))),
        }
    }

    fn lower_length(&mut self, ty: &Rc<Type>, value: &Atom) -> (r: Result<Val, CodegenError>)
        ensures
            agrees(old(self)@.math_unary(FloatMathOp::Length, *ty, *value), final(self)@, r),
    {
        match &**ty {
            Type::Vector(shape, elem) => match self.lower_vector(value, "vector operand") {
                Err(e) => Err(e),
                Ok(v) => {
                    let sq = self.fop(FloatOp::Mul, v, v, "length.square");
                    match self.call_vector_reduce_fadd(*shape, elem, sq, "length.sum") {
                        Err(e) => Err(e),
                        Ok(sum) => {
                            let r = self.scalar_sqrt(sum, "length.sqrt");
                            self.lane_to_scalar_cell(r, elem, "length.bits")
                        },
                    }
                },
            },
            _ => Err(CodegenError::MathType(FloatMathOp::Length, share(ty))),
        }
    }

    /// A floating-point function of one operand.
    pub(crate) fn lower_float_math_unary(
        &mut self,
        op: FloatMathOp,
        ty: &Rc<Type>,
        value: &Atom,
    ) -> (r: Result<Val, CodegenError>)
        ensures
            agrees(old(self)@.math_unary(op, *ty, *value), final(self)@, r),
    {
        match op {
            FloatMathOp::Sqrt => self.lower_sqrt(ty, value),
            FloatMathOp::Sum => self.lower_sum(ty, value),
            FloatMathOp::Length => self.lower_length(ty, value),
            _ => Err(CodegenError::NotUnaryMath(op)),
        }
    }

    /// A floating-point function of two operands.
    pub(crate) fn lower_float_math_binary(
        &mut self,
        op: FloatMathOp,
        ty: &Rc<Type>,
        a: &Atom,
        b: &Atom,
    ) -> (r: Result<Val, CodegenError>)
        ensures
            agrees(old(self)@.math_binary(op, *ty, *a, *b), final(self)@, r),
    {
        match op {
            FloatMathOp::Dot => match &**ty {
                Type::Vector(shape, elem) => {
                    match self.lower_vector_pair(a, b, "vector operand") {
                        Err(e) => Err(e),
                        Ok((x, y)) => {
                            let prod = self.fop(FloatOp::Mul, x, y, "dot.mul");
                            match self.call_vector_reduce_fadd(*shape, elem, prod, "dot") {
                                Err(e) => Err(e),
                                Ok(r) => self.lane_to_scalar_cell(r, elem, "dot.bits"),
                            }
                        },
                    }
                },
                _ => Err(CodegenError::MathType(op, share(ty))),
            },
            _ => Err(CodegenError::NotBinaryMath(op)),
        }
    }

    /// A floating-point function of three operands.
    pub(crate) fn lower_float_math_ternary(
        &mut self,
        op: FloatMathOp,
        ty: &Rc<Type>,
        a: &Atom,
        b: &Atom,
        c: &Atom,
    ) -> (r: Result<Val, CodegenError>)
        ensures
            agrees(old(self)@.math_ternary(op, *ty, *a, *b, *c), final(self)@, r),
    {
        if op != FloatMathOp::Fma {
            return Err(CodegenError::NotTernaryMath(op));
        }
        match &**ty {
            Type::Float => {
                let (x, y) = match self.lower_pair(a, b, "float operand") {
                    Err(e) => {
                        return Err(e);
                    },
                    Ok(p) => p,
                };
                let z = match self.lower_cell(c, "float operand") {
                    Err(e) => {
                        return Err(e);
                    },
                    Ok(z) => z,
                };
                let fx = self.cell_to_f64(x, "fma.a");
                let fy = self.cell_to_f64(y, "fma.b");
                let fz = self.cell_to_f64(z, "fma.c");
                self.arg(fx);
                self.arg(fy);
                self.arg(fz);
                let r = self.call("llvm.fma.f64", Ty::F64, "fma");
                Ok(self.f64_to_cell(r, "fma.bits"))
            },
            Type::Float32 => {
                let (x, y) = match self.lower_pair(a, b, "float operand") {
                    Err(e) => {
                        return Err(e);
                    },
                    Ok(p) => p,
                };
                let z = match self.lower_cell(c, "float operand") {
                    Err(e) => {
                        return Err(e);
                    },
                    Ok(z) => z,
                };
                let fx = self.cell_to_f32(x, "fma.f32.a");
                let fy = self.cell_to_f32(y, "fma.f32.b");
                let fz = self.cell_to_f32(z, "fma.f32.c");
                self.arg(fx);
                self.arg(fy);
                self.arg(fz);
                let r = self.call("llvm.fma.f32", Ty::F32, "fma.f32");
                Ok(self.f32_to_cell(r, "fma.f32.bits"))
            },
            Type::Vector(shape, elem) => {
                let (x, y) = match self.lower_vector_pair(a, b, "vector operand") {
                    Err(e) => {
                        return Err(e);
                    },
                    Ok(p) => p,
                };
                let z = match self.lower_vector(c, "vector operand") {
                    Err(e) => {
                        return Err(e);
                    },
                    Ok(z) => z,
                };
                match lane_float_type(elem) {
                    Err(e) => Err(e),
                    Ok(lt) => {
                        self.arg(x);
                        self.arg(y);
                        self.arg(z);
                        Ok(
                            self.call(
                                vector_intrinsic(VectorIntrinsic::Fma, *shape, lt),
                                x.ty,
                                "vec.ternary",
                            ),
                        )
                    },
                }
            },
            _ => Err(CodegenError::MathType(op, share(ty))),
        }
    }
}

} // verus!
