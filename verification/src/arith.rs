//! Integer and float operations, conversions, tagged words and raw memory.
//!
//! Every value that is not a vector rides in one 64-bit cell: a float as its
//! bits, a truth value as 0 or 1.
use crate::error::CodegenError;
use crate::ir::{Atom, BinOp, CastOp, MemWidth};
use crate::state::{agrees, Cg, Out, St};
use crate::target::{
    const_cell, constant, Cmd, Conv, FloatOp, FloatPred, IntOp, IntPred, Ty, Val,
};
use vstd::prelude::*;

verus! {

/// The cell of the least integer.
pub open spec fn min_cell() -> Val {
    constant(0x8000_0000_0000_0000)
}

/// The cell of minus one.
pub open spec fn minus_one_cell() -> Val {
    constant(u64::MAX)
}

/// Two operands as cells.
pub type Pair = Result<(St, (Val, Val)), CodegenError>;

impl St {
    /// Two operands as cells.
    pub open spec fn cell_pair(self, a: Atom, b: Atom, context: &'static str) -> Pair {
        match self.cell(a, context) {
            Err(e) => Err(e),
            Ok((st, x)) => match st.cell(b, context) {
                Err(e) => Err(e),
                Ok((st, y)) => Ok((st, (x, y))),
            },
        }
    }

    /// A comparison, widened to a cell that is 0 or 1.
    pub open spec fn compare(
        self,
        pred: IntPred,
        a: Val,
        b: Val,
        label: &'static str,
        wide: &'static str,
    ) -> (St, Val) {
        let (st, c) = self.itest(pred, a, b, label);
        st.convert(Conv::Zext, c, Ty::I64, wide)
    }

    /// Division: traps on a zero divisor, and on the least integer by minus one.
    pub open spec fn int_div(self, a: Val, b: Val) -> (St, Val) {
        let (st, zero) = self.itest(IntPred::Eq, b, constant(0), "div.zero");
        let (st, least) = st.itest(IntPred::Eq, a, min_cell(), "div.lhs_min");
        let (st, minus) = st.itest(IntPred::Eq, b, minus_one_cell(), "div.rhs_minus_one");
        let (st, over) = st.iop(IntOp::And, least, minus, "div.overflow");
        let (st, bad) = st.iop(IntOp::Or, zero, over, "div.invalid");
        let st = st.trap_if(bad, "div.trap", "div.cont", "div.abort");
        st.iop(IntOp::SDiv, a, b, "sdiv")
    }

    /// Remainder: traps where division does.
    pub open spec fn int_rem(self, a: Val, b: Val) -> (St, Val) {
        let (st, zero) = self.itest(IntPred::Eq, b, constant(0), "rem.zero");
        let (st, least) = st.itest(IntPred::Eq, a, min_cell(), "rem.lhs_min");
        let (st, minus) = st.itest(IntPred::Eq, b, minus_one_cell(), "rem.rhs_minus_one");
        let (st, over) = st.iop(IntOp::And, least, minus, "rem.overflow");
        let (st, bad) = st.iop(IntOp::Or, zero, over, "rem.invalid");
        let st = st.trap_if(bad, "rem.trap", "rem.cont", "rem.abort");
        st.iop(IntOp::SRem, a, b, "srem")
    }

    /// Checked arithmetic: traps on overflow.
    pub open spec fn checked_int(self, intrinsic: &'static str, a: Val, b: Val) -> (St, Val) {
        let (st, pair) = self.arg(a).arg(b).call(intrinsic, Ty::Checked, "checked");
        let (st, value) = st.def(
            Cmd::Part { pair, index: 0, label: "checked.value" },
            Ty::I64,
        );
        let (st, over) = st.def(
            Cmd::Part { pair, index: 1, label: "checked.overflow" },
            Ty::I1,
        );
        (st.trap_if(over, "overflow.trap", "overflow.cont", "overflow.abort"), value)
    }

    /// An integer operation on two cells.
    pub open spec fn int_bin(self, op: BinOp, a: Val, b: Val) -> (St, Val) {
        match op {
            BinOp::Add | BinOp::AddWrap => self.iop(IntOp::Add, a, b, "add"),
            BinOp::Sub | BinOp::SubWrap => self.iop(IntOp::Sub, a, b, "sub"),
            BinOp::Mul | BinOp::MulWrap => self.iop(IntOp::Mul, a, b, "mul"),
            BinOp::Div => self.int_div(a, b),
            BinOp::Mod => self.int_rem(a, b),
            BinOp::AddChecked => self.checked_int("llvm.sadd.with.overflow.i64", a, b),
            BinOp::SubChecked => self.checked_int("llvm.ssub.with.overflow.i64", a, b),
            BinOp::MulChecked => self.checked_int("llvm.smul.with.overflow.i64", a, b),
            BinOp::And => self.iop(IntOp::And, a, b, "and"),
            BinOp::Or => self.iop(IntOp::Or, a, b, "or"),
            BinOp::Xor => self.iop(IntOp::Xor, a, b, "xor"),
            BinOp::Shl => self.iop(IntOp::Shl, a, b, "shl"),
            BinOp::Shr => self.iop(IntOp::AShr, a, b, "shr"),
            BinOp::Eq => self.compare(IntPred::Eq, a, b, "eq", "eqw"),
            BinOp::Ne => self.compare(IntPred::Ne, a, b, "ne", "new"),
            BinOp::Lt => self.compare(IntPred::Slt, a, b, "lt", "ltw"),
            BinOp::Le => self.compare(IntPred::Sle, a, b, "le", "lew"),
            BinOp::Gt => self.compare(IntPred::Sgt, a, b, "gt", "gtw"),
            BinOp::Ge => self.compare(IntPred::Sge, a, b, "ge", "gew"),
        }
    }

    /// An integer operation.
    pub open spec fn bin(self, op: BinOp, a: Atom, b: Atom) -> Out {
        match self.cell_pair(a, b, "integer operand") {
            Err(e) => Err(e),
            Ok((st, (x, y))) => Ok(st.int_bin(op, x, y)),
        }
    }

    // ── floats ───────────────────────────────────────────────────────────
    pub open spec fn cell_to_f64(self, v: Val, label: &'static str) -> (St, Val) {
        self.convert(Conv::Bits, v, Ty::F64, label)
    }

    pub open spec fn f64_to_cell(self, v: Val, label: &'static str) -> (St, Val) {
        self.convert(Conv::Bits, v, Ty::I64, label)
    }

    /// The low 32 bits of a cell as a float.
    pub open spec fn cell_to_f32(self, v: Val, label: &'static str) -> (St, Val) {
        let (st, bits) = self.convert(Conv::Trunc, v, Ty::I32, "f32.bits");
        st.convert(Conv::Bits, bits, Ty::F32, label)
    }

    /// A 32-bit float in the low bits of a cell, zeros above.
    pub open spec fn f32_to_cell(self, v: Val, label: &'static str) -> (St, Val) {
        let (st, bits) = self.convert(Conv::Bits, v, Ty::I32, "f32.bits");
        st.convert(Conv::Zext, bits, Ty::I64, label)
    }

    /// A float operation whose result is a float.
    pub open spec fn float_arith(
        self,
        op: FloatOp,
        a: Val,
        b: Val,
        label: &'static str,
        bits: &'static str,
    ) -> (St, Val) {
        let (st, r) = self.fop(op, a, b, label);
        st.f64_to_cell(r, bits)
    }

    /// A float comparison, widened to a cell that is 0 or 1.
    pub open spec fn float_compare(
        self,
        pred: FloatPred,
        a: Val,
        b: Val,
        label: &'static str,
        wide: &'static str,
    ) -> (St, Val) {
        let (st, c) = self.def(Cmd::FloatTest { pred, a, b, label }, Ty::I1);
        st.convert(Conv::Zext, c, Ty::I64, wide)
    }

    /// A float operation on two floats, if the operation is one.
    pub open spec fn float_bin_vals(self, op: BinOp, a: Val, b: Val) -> Out {
        match op {
            BinOp::Add => Ok(self.float_arith(FloatOp::Add, a, b, "fadd", "fadd.bits")),
            BinOp::Sub => Ok(self.float_arith(FloatOp::Sub, a, b, "fsub", "fsub.bits")),
            BinOp::Mul => Ok(self.float_arith(FloatOp::Mul, a, b, "fmul", "fmul.bits")),
            BinOp::Div => Ok(self.float_arith(FloatOp::Div, a, b, "fdiv", "fdiv.bits")),
            BinOp::Eq => Ok(self.float_compare(FloatPred::Oeq, a, b, "feq", "feqw")),
            BinOp::Ne => Ok(self.float_compare(FloatPred::One, a, b, "fne", "fnew")),
            BinOp::Lt => Ok(self.float_compare(FloatPred::Olt, a, b, "flt", "fltw")),
            BinOp::Le => Ok(self.float_compare(FloatPred::Ole, a, b, "fle", "flew")),
            BinOp::Gt => Ok(self.float_compare(FloatPred::Ogt, a, b, "fgt", "fgtw")),
            BinOp::Ge => Ok(self.float_compare(FloatPred::Oge, a, b, "fge", "fgew")),
            _ => Err(CodegenError::NotAFloatOp(op)),
        }
    }

    /// A float operation.
    pub open spec fn float_bin(self, op: BinOp, a: Atom, b: Atom) -> Out {
        match self.cell_pair(a, b, "float operand") {
            Err(e) => Err(e),
            Ok((st, (x, y))) => {
                let (st, fx) = st.cell_to_f64(x, "lhs.f64");
                let (st, fy) = st.cell_to_f64(y, "rhs.f64");
                st.float_bin_vals(op, fx, fy)
            },
        }
    }

    /// A numeric conversion of a cell.
    pub open spec fn cast_val(self, op: CastOp, v: Val) -> (St, Val) {
        match op {
            CastOp::ToFloat => {
                let (st, f) = self.convert(Conv::SiToFp, v, Ty::F64, "sitofp");
                st.f64_to_cell(f, "sitofp.bits")
            },
            CastOp::Floor => {
                let (st, f) = self.cell_to_f64(v, "floor.in");
                let (st, r) = st.arg(f).call("llvm.floor.f64", Ty::F64, "floor");
                st.convert(Conv::FpToSi, r, Ty::I64, "floor.i64")
            },
            CastOp::Round => {
                let (st, f) = self.cell_to_f64(v, "round.in");
                let (st, r) = st.arg(f).call("llvm.round.f64", Ty::F64, "round");
                st.convert(Conv::FpToSi, r, Ty::I64, "round.i64")
            },
            CastOp::ToFloat32 => {
                let (st, f) = self.cell_to_f64(v, "tof32.in");
                let (st, r) = st.convert(Conv::FpTrunc, f, Ty::F32, "fptrunc");
                st.f32_to_cell(r, "f32.cell")
            },
            CastOp::FromFloat32 => {
                let (st, f) = self.cell_to_f32(v, "fromf32.in");
                let (st, r) = st.convert(Conv::FpExt, f, Ty::F64, "fpext");
                st.f64_to_cell(r, "f64.cell")
            },
        }
    }

    /// A numeric conversion.
    pub open spec fn cast(self, op: CastOp, a: Atom) -> Out {
        match self.cell(a, "conversion operand") {
            Err(e) => Err(e),
            Ok((st, v)) => Ok(st.cast_val(op, v)),
        }
    }

    // ── representation-polymorphic words ─────────────────────────────────
    /// Tag a cell: shift it left by two. Traps if shifting back does not give
    /// the value again, so on every value that needs more than 62 bits.
    pub open spec fn tag_val(self, v: Val) -> (St, Val) {
        let (st, up) = self.iop(IntOp::Shl, v, constant(2), "tag.shl");
        let (st, back) = st.iop(IntOp::AShr, up, constant(2), "tag.check");
        let (st, over) = st.itest(IntPred::Ne, back, v, "tag.overflow");
        (st.trap_if(over, "tag.i62.trap", "tag.i62.cont", "tag.i62.abort"), up)
    }

    /// Untag a word: shift it right by two, keeping the sign.
    pub open spec fn untag_val(self, v: Val) -> (St, Val) {
        self.iop(IntOp::AShr, v, constant(2), "untag.ashr")
    }

    pub open spec fn tag(self, a: Atom) -> Out {
        match self.cell(a, "tag operand") {
            Err(e) => Err(e),
            Ok((st, v)) => Ok(st.tag_val(v)),
        }
    }

    pub open spec fn untag(self, a: Atom) -> Out {
        match self.cell(a, "untag operand") {
            Err(e) => Err(e),
            Ok((st, v)) => Ok(st.untag_val(v)),
        }
    }

    /// The object word of a handle.
    pub open spec fn to_ptr(self, a: Atom) -> Out {
        match self.cell(a, "to_ptr operand") {
            Err(e) => Err(e),
            Ok((st, v)) => Ok(st.arg(v).call("locus_gc_to_ptr", Ty::I64, "locus_gc_to_ptr")),
        }
    }

    /// A fresh handle for an object word.
    pub open spec fn from_ptr(self, a: Atom) -> Out {
        match self.cell(a, "from_ptr operand") {
            Err(e) => Err(e),
            Ok((st, v)) => Ok(st.arg(v).call("locus_gc_from_ptr", Ty::I64, "locus_gc_from_ptr")),
        }
    }

    // ── raw memory ───────────────────────────────────────────────────────
    /// Load from an address, zeros above the width.
    pub open spec fn peek(self, w: MemWidth, addr: Atom) -> Out {
        match self.cell(addr, "memory address") {
            Err(e) => Err(e),
            Ok((st, a)) => {
                let (st, ptr) = st.convert(Conv::IntToPtr, a, Ty::Ptr, "peek.ptr");
                let (st, v) = st.load(mem_ty(w), ptr, "peek.val");
                if w is W64 {
                    Ok((st, v))
                } else {
                    Ok(st.convert(Conv::Zext, v, Ty::I64, "peek.zext"))
                }
            },
        }
    }

    /// Store the low bits of a cell at an address.
    pub open spec fn poke(self, w: MemWidth, addr: Atom, val: Atom) -> Out {
        match self.cell_pair(addr, val, "memory operand") {
            Err(e) => Err(e),
            Ok((st, (a, v))) => {
                let (st, ptr) = st.convert(Conv::IntToPtr, a, Ty::Ptr, "poke.ptr");
                let (st, low) = if w is W64 {
                    (st, v)
                } else {
                    st.convert(Conv::Trunc, v, mem_ty(w), "poke.val")
                };
                Ok((st.store(ptr, low), constant(0)))
            },
        }
    }

    /// Set `count` bytes to the low byte of `byte`.
    pub open spec fn fill(self, dst: Atom, byte: Atom, count: Atom) -> Out {
        match self.cell_pair(dst, byte, "memory operand") {
            Err(e) => Err(e),
            Ok((st, (d, b))) => match st.cell(count, "memory operand") {
                Err(e) => Err(e),
                Ok((st, n)) => {
                    let (st, ptr) = st.convert(Conv::IntToPtr, d, Ty::Ptr, "fill.ptr");
                    let (st, low) = st.convert(Conv::Trunc, b, Ty::I8, "fill.byte");
                    Ok((st.put(Cmd::Memset { dst: ptr, byte: low, count: n }), constant(0)))
                },
            },
        }
    }

    /// Copy `count` bytes; the two ranges may overlap.
    pub open spec fn copy_bytes(self, dst: Atom, src: Atom, count: Atom) -> Out {
        match self.cell_pair(dst, src, "memory operand") {
            Err(e) => Err(e),
            Ok((st, (d, s))) => match st.cell(count, "memory operand") {
                Err(e) => Err(e),
                Ok((st, n)) => {
                    let (st, to) = st.convert(Conv::IntToPtr, d, Ty::Ptr, "copy.dst");
                    let (st, from) = st.convert(Conv::IntToPtr, s, Ty::Ptr, "copy.src");
                    Ok((st.put(Cmd::Memmove { dst: to, src: from, count: n }), constant(0)))
                },
            },
        }
    }
}

/// The integer of a memory width.
pub open spec fn mem_ty(w: MemWidth) -> Ty {
    match w {
        MemWidth::W8 => Ty::I8,
        MemWidth::W16 => Ty::I16,
        MemWidth::W32 => Ty::I32,
        MemWidth::W64 => Ty::I64,
    }
}

/// The integer of a memory width.
pub fn mem_int_type(w: MemWidth) -> (r: Ty)
    ensures
        r == mem_ty(w),
{
    match w {
        MemWidth::W8 => Ty::I8,
        MemWidth::W16 => Ty::I16,
        MemWidth::W32 => Ty::I32,
        MemWidth::W64 => Ty::I64,
    }
}

impl Cg {
    pub(crate) fn lower_pair(&mut self, a: &Atom, b: &Atom, context: &'static str) -> (r: Result<
        (Val, Val),
        CodegenError,
    >)
        ensures
            match old(self)@.cell_pair(*a, *b, context) {
                Ok((st, p)) => final(self)@ == st && r == Ok::<(Val, Val), CodegenError>(p),
                Err(e) => r == Err::<(Val, Val), CodegenError>(e),
            },
    {
        let x = match self.lower_cell(a, context) {
            Err(e) => {
                return Err(e);
            },
            Ok(x) => x,
        };
        match self.lower_cell(b, context) {
            Err(e) => Err(e),
            Ok(y) => Ok((x, y)),
        }
    }

    fn compare(
        &mut self,
        pred: IntPred,
        a: Val,
        b: Val,
        label: &'static str,
        wide: &'static str,
    ) -> (r: Val)
        ensures
            (final(self)@, r) == old(self)@.compare(pred, a, b, label, wide),
    {
        let c = self.itest(pred, a, b, label);
        self.convert(Conv::Zext, c, Ty::I64, wide)
    }

    fn lower_int_div(&mut self, a: Val, b: Val) -> (r: Val)
        ensures
            (final(self)@, r) == old(self)@.int_div(a, b),
    {
        let zero = self.itest(IntPred::Eq, b, const_cell(0), "div.zero");
        let least = self.itest(IntPred::Eq, a, const_cell(0x8000_0000_0000_0000), "div.lhs_min");
        let minus = self.itest(IntPred::Eq, b, const_cell(u64::MAX), "div.rhs_minus_one");
        let over = self.iop(IntOp::And, least, minus, "div.overflow");
        let bad = self.iop(IntOp::Or, zero, over, "div.invalid");
        self.trap_if(bad, "div.trap", "div.cont", "div.abort");
        self.iop(IntOp::SDiv, a, b, "sdiv")
    }

    fn lower_int_rem(&mut self, a: Val, b: Val) -> (r: Val)
        ensures
            (final(self)@, r) == old(self)@.int_rem(a, b),
    {
        let zero = self.itest(IntPred::Eq, b, const_cell(0), "rem.zero");
        let least = self.itest(IntPred::Eq, a, const_cell(0x8000_0000_0000_0000), "rem.lhs_min");
        let minus = self.itest(IntPred::Eq, b, const_cell(u64::MAX), "rem.rhs_minus_one");
        let over = self.iop(IntOp::And, least, minus, "rem.overflow");
        let bad = self.iop(IntOp::Or, zero, over, "rem.invalid");
        self.trap_if(bad, "rem.trap", "rem.cont", "rem.abort");
        self.iop(IntOp::SRem, a, b, "srem")
    }

    fn lower_checked_int(&mut self, intrinsic: &'static str, a: Val, b: Val) -> (r: Val)
        ensures
            (final(self)@, r) == old(self)@.checked_int(intrinsic, a, b),
    {
        self.arg(a);
        self.arg(b);
        let pair = self.call(intrinsic, Ty::Checked, "checked");
        let value = self.def(Cmd::Part { pair, index: 0, label: "checked.value" }, Ty::I64);
        let over = self.def(Cmd::Part { pair, index: 1, label: "checked.overflow" }, Ty::I1);
        self.trap_if(over, "overflow.trap", "overflow.cont", "overflow.abort");
        value
    }

    fn int_bin(&mut self, op: BinOp, a: Val, b: Val) -> (r: Val)
        ensures
            (final(self)@, r) == old(self)@.int_bin(op, a, b),
    {
        match op {
            BinOp::Add | BinOp::AddWrap => self.iop(IntOp::Add, a, b, "add"),
            BinOp::Sub | BinOp::SubWrap => self.iop(IntOp::Sub, a, b, "sub"),
            BinOp::Mul | BinOp::MulWrap => self.iop(IntOp::Mul, a, b, "mul"),
            BinOp::Div => self.lower_int_div(a, b),
            BinOp::Mod => self.lower_int_rem(a, b),
            BinOp::AddChecked => self.lower_checked_int("llvm.sadd.with.overflow.i64", a, b),
            BinOp::SubChecked => self.lower_checked_int("llvm.ssub.with.overflow.i64", a, b),
            BinOp::MulChecked => self.lower_checked_int("llvm.smul.with.overflow.i64", a, b),
            BinOp::And => self.iop(IntOp::And, a, b, "and"),
            BinOp::Or => self.iop(IntOp::Or, a, b, "or"),
            BinOp::Xor => self.iop(IntOp::Xor, a, b, "xor"),
            BinOp::Shl => self.iop(IntOp::Shl, a, b, "shl"),
            BinOp::Shr => self.iop(IntOp::AShr, a, b, "shr"),
            BinOp::Eq => self.compare(IntPred::Eq, a, b, "eq", "eqw"),
            BinOp::Ne => self.compare(IntPred::Ne, a, b, "ne", "new"),
            BinOp::Lt => self.compare(IntPred::Slt, a, b, "lt", "ltw"),
            BinOp::Le => self.compare(IntPred::Sle, a, b, "le", "lew"),
            BinOp::Gt => self.compare(IntPred::Sgt, a, b, "gt", "gtw"),
            BinOp::Ge => self.compare(IntPred::Sge, a, b, "ge", "gew"),
        }
    }

    /// An integer operation.
    pub(crate) fn lower_bin(&mut self, op: BinOp, a: &Atom, b: &Atom) -> (r: Result<
        Val,
        CodegenError,
    >)
        ensures
            agrees(old(self)@.bin(op, *a, *b), final(self)@, r),
    {
        match self.lower_pair(a, b, "integer operand") {
            Err(e) => Err(e),
            Ok((x, y)) => Ok(self.int_bin(op, x, y)),
        }
    }

    pub(crate) fn cell_to_f64(&mut self, v: Val, label: &'static str) -> (r: Val)
        ensures
            (final(self)@, r) == old(self)@.cell_to_f64(v, label),
    {
        self.convert(Conv::Bits, v, Ty::F64, label)
    }

    pub(crate) fn f64_to_cell(&mut self, v: Val, label: &'static str) -> (r: Val)
        ensures
            (final(self)@, r) == old(self)@.f64_to_cell(v, label),
    {
        self.convert(Conv::Bits, v, Ty::I64, label)
    }

    pub(crate) fn cell_to_f32(&mut self, v: Val, label: &'static str) -> (r: Val)
        ensures
            (final(self)@, r) == old(self)@.cell_to_f32(v, label),
    {
        let bits = self.convert(Conv::Trunc, v, Ty::I32, "f32.bits");
        self.convert(Conv::Bits, bits, Ty::F32, label)
    }

    pub(crate) fn f32_to_cell(&mut self, v: Val, label: &'static str) -> (r: Val)
        ensures
            (final(self)@, r) == old(self)@.f32_to_cell(v, label),
    {
        let bits = self.convert(Conv::Bits, v, Ty::I32, "f32.bits");
        self.convert(Conv::Zext, bits, Ty::I64, label)
    }

    fn float_arith(
        &mut self,
        op: FloatOp,
        a: Val,
        b: Val,
        label: &'static str,
        bits: &'static str,
    ) -> (r: Val)
        ensures
            (final(self)@, r) == old(self)@.float_arith(op, a, b, label, bits),
    {
        let r = self.fop(op, a, b, label);
        self.f64_to_cell(r, bits)
    }

    fn float_compare(
        &mut self,
        pred: FloatPred,
        a: Val,
        b: Val,
        label: &'static str,
        wide: &'static str,
    ) -> (r: Val)
        ensures
            (final(self)@, r) == old(self)@.float_compare(pred, a, b, label, wide),
    {
        let c = self.def(Cmd::FloatTest { pred, a, b, label }, Ty::I1);
        self.convert(Conv::Zext, c, Ty::I64, wide)
    }

    fn float_bin_vals(&mut self, op: BinOp, a: Val, b: Val) -> (r: Result<Val, CodegenError>)
        ensures
            agrees(old(self)@.float_bin_vals(op, a, b), final(self)@, r),
    {
        match op {
            BinOp::Add => Ok(self.float_arith(FloatOp::Add, a, b, "fadd", "fadd.bits")),
            BinOp::Sub => Ok(self.float_arith(FloatOp::Sub, a, b, "fsub", "fsub.bits")),
            BinOp::Mul => Ok(self.float_arith(FloatOp::Mul, a, b, "fmul", "fmul.bits")),
            BinOp::Div => Ok(self.float_arith(FloatOp::Div, a, b, "fdiv", "fdiv.bits")),
            BinOp::Eq => Ok(self.float_compare(FloatPred::Oeq, a, b, "feq", "feqw")),
            BinOp::Ne => Ok(self.float_compare(FloatPred::One, a, b, "fne", "fnew")),
            BinOp::Lt => Ok(self.float_compare(FloatPred::Olt, a, b, "flt", "fltw")),
            BinOp::Le => Ok(self.float_compare(FloatPred::Ole, a, b, "fle", "flew")),
            BinOp::Gt => Ok(self.float_compare(FloatPred::Ogt, a, b, "fgt", "fgtw")),
            BinOp::Ge => Ok(self.float_compare(FloatPred::Oge, a, b, "fge", "fgew")),
            _ => Err(CodegenError::NotAFloatOp(op)),
        }
    }

    /// A float operation.
    pub(crate) fn lower_float_bin(&mut self, op: BinOp, a: &Atom, b: &Atom) -> (r: Result<
        Val,
        CodegenError,
    >)
        ensures
            agrees(old(self)@.float_bin(op, *a, *b), final(self)@, r),
    {
        match self.lower_pair(a, b, "float operand") {
            Err(e) => Err(e),
            Ok((x, y)) => {
                let fx = self.cell_to_f64(x, "lhs.f64");
                let fy = self.cell_to_f64(y, "rhs.f64");
                self.float_bin_vals(op, fx, fy)
            },
        }
    }

    fn cast_val(&mut self, op: CastOp, v: Val) -> (r: Val)
        ensures
            (final(self)@, r) == old(self)@.cast_val(op, v),
    {
        match op {
            CastOp::ToFloat => {
                let f = self.convert(Conv::SiToFp, v, Ty::F64, "sitofp");
                self.f64_to_cell(f, "sitofp.bits")
            },
            CastOp::Floor => {
                let f = self.cell_to_f64(v, "floor.in");
                self.arg(f);
                let r = self.call("llvm.floor.f64", Ty::F64, "floor");
                self.convert(Conv::FpToSi, r, Ty::I64, "floor.i64")
            },
            CastOp::Round => {
                let f = self.cell_to_f64(v, "round.in");
                self.arg(f);
                let r = self.call("llvm.round.f64", Ty::F64, "round");
                self.convert(Conv::FpToSi, r, Ty::I64, "round.i64")
            },
            CastOp::ToFloat32 => {
                let f = self.cell_to_f64(v, "tof32.in");
                let r = self.convert(Conv::FpTrunc, f, Ty::F32, "fptrunc");
                self.f32_to_cell(r, "f32.cell")
            },
            CastOp::FromFloat32 => {
                let f = self.cell_to_f32(v, "fromf32.in");
                let r = self.convert(Conv::FpExt, f, Ty::F64, "fpext");
                self.f64_to_cell(r, "f64.cell")
            },
        }
    }

    /// A numeric conversion.
    pub(crate) fn lower_cast(&mut self, op: CastOp, a: &Atom) -> (r: Result<Val, CodegenError>)
        ensures
            agrees(old(self)@.cast(op, *a), final(self)@, r),
    {
        match self.lower_cell(a, "conversion operand") {
            Err(e) => Err(e),
            Ok(v) => Ok(self.cast_val(op, v)),
        }
    }

    /// Tag a cell.
    pub(crate) fn lower_tag(&mut self, a: &Atom) -> (r: Result<Val, CodegenError>)
        ensures
            agrees(old(self)@.tag(*a), final(self)@, r),
    {
        match self.lower_cell(a, "tag operand") {
            Err(e) => Err(e),
            Ok(v) => {
                let up = self.iop(IntOp::Shl, v, const_cell(2), "tag.shl");
                let back = self.iop(IntOp::AShr, up, const_cell(2), "tag.check");
                let over = self.itest(IntPred::Ne, back, v, "tag.overflow");
                self.trap_if(over, "tag.i62.trap", "tag.i62.cont", "tag.i62.abort");
                Ok(up)
            },
        }
    }

    /// Untag a word.
    pub(crate) fn lower_untag(&mut self, a: &Atom) -> (r: Result<Val, CodegenError>)
        ensures
            agrees(old(self)@.untag(*a), final(self)@, r),
    {
        match self.lower_cell(a, "untag operand") {
            Err(e) => Err(e),
            Ok(v) => Ok(self.iop(IntOp::AShr, v, const_cell(2), "untag.ashr")),
        }
    }

    /// The object word of a handle.
    pub(crate) fn lower_to_ptr(&mut self, a: &Atom) -> (r: Result<Val, CodegenError>)
        ensures
            agrees(old(self)@.to_ptr(*a), final(self)@, r),
    {
        match self.lower_cell(a, "to_ptr operand") {
            Err(e) => Err(e),
            Ok(v) => {
                self.arg(v);
                Ok(self.call("locus_gc_to_ptr", Ty::I64, "locus_gc_to_ptr"))
            },
        }
    }

    /// A fresh handle for an object word.
    pub(crate) fn lower_from_ptr(&mut self, a: &Atom) -> (r: Result<Val, CodegenError>)
        ensures
            agrees(old(self)@.from_ptr(*a), final(self)@, r),
    {
        match self.lower_cell(a, "from_ptr operand") {
            Err(e) => Err(e),
            Ok(v) => {
                self.arg(v);
                Ok(self.call("locus_gc_from_ptr", Ty::I64, "locus_gc_from_ptr"))
            },
        }
    }

    /// Load from an address.
    pub(crate) fn lower_peek(&mut self, w: MemWidth, addr: &Atom) -> (r: Result<Val, CodegenError>)
        ensures
            agrees(old(self)@.peek(w, *addr), final(self)@, r),
    {
        match self.lower_cell(addr, "memory address") {
            Err(e) => Err(e),
            Ok(a) => {
                let ptr = self.convert(Conv::IntToPtr, a, Ty::Ptr, "peek.ptr");
                let v = self.load(mem_int_type(w), ptr, "peek.val");
                if w == MemWidth::W64 {
                    Ok(v)
                } else {
                    Ok(self.convert(Conv::Zext, v, Ty::I64, "peek.zext"))
                }
            },
        }
    }

    /// Store at an address.
    pub(crate) fn lower_poke(&mut self, w: MemWidth, addr: &Atom, val: &Atom) -> (r: Result<
        Val,
        CodegenError,
    >)
        ensures
            agrees(old(self)@.poke(w, *addr, *val), final(self)@, r),
    {
        match self.lower_pair(addr, val, "memory operand") {
            Err(e) => Err(e),
            Ok((a, v)) => {
                let ptr = self.convert(Conv::IntToPtr, a, Ty::Ptr, "poke.ptr");
                let low = if w == MemWidth::W64 {
                    v
                } else {
                    self.convert(Conv::Trunc, v, mem_int_type(w), "poke.val")
                };
                self.store(ptr, low);
                Ok(const_cell(0))
            },
        }
    }

    /// Set bytes.
    pub(crate) fn lower_fill(&mut self, dst: &Atom, byte: &Atom, count: &Atom) -> (r: Result<
        Val,
        CodegenError,
    >)
        ensures
            agrees(old(self)@.fill(*dst, *byte, *count), final(self)@, r),
    {
        let (d, b) = match self.lower_pair(dst, byte, "memory operand") {
            Err(e) => {
                return Err(e);
            },
            Ok(p) => p,
        };
        match self.lower_cell(count, "memory operand") {
            Err(e) => Err(e),
            Ok(n) => {
                let ptr = self.convert(Conv::IntToPtr, d, Ty::Ptr, "fill.ptr");
                let low = self.convert(Conv::Trunc, b, Ty::I8, "fill.byte");
                self.put(Cmd::Memset { dst: ptr, byte: low, count: n });
                Ok(const_cell(0))
            },
        }
    }

    /// Copy bytes.
    pub(crate) fn lower_copy(&mut self, dst: &Atom, src: &Atom, count: &Atom) -> (r: Result<
        Val,
        CodegenError,
    >)
        ensures
            agrees(old(self)@.copy_bytes(*dst, *src, *count), final(self)@, r),
    {
        let (d, s) = match self.lower_pair(dst, src, "memory operand") {
            Err(e) => {
                return Err(e);
            },
            Ok(p) => p,
        };
        match self.lower_cell(count, "memory operand") {
            Err(e) => Err(e),
            Ok(n) => {
                let to = self.convert(Conv::IntToPtr, d, Ty::Ptr, "copy.dst");
                let from = self.convert(Conv::IntToPtr, s, Ty::Ptr, "copy.src");
                self.put(Cmd::Memmove { dst: to, src: from, count: n });
                Ok(const_cell(0))
            },
        }
    }
}

} // verus!
