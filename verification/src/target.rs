//! The builder commands that make up a lowered module.
//!
//! A module is a [`Cmd`] list: what to ask of an LLVM builder, in order. The
//! position of a command names what it defines, so register 7 is the value of
//! the command at position 7, and block 4 the block appended there.
use vstd::prelude::*;

verus! {

/// The class of a value.
#[derive(Clone, Copy, Debug, PartialEq, Eq, Structural)]
pub enum Ty {
    I1,
    I8,
    I16,
    I32,
    /// A cell: an integer, a handle, or the bits of a float.
    I64,
    F32,
    F64,
    Ptr,
    /// A vector of 32-bit lanes.
    VecF32(u32),
    /// A vector of 64-bit lanes.
    VecF64(u32),
    /// A vector of truth values.
    Mask(u32),
    /// The value and the overflow flag of a checked operation.
    Checked,
    Void,
}

impl Ty {
    /// A vector or a mask.
    pub open spec fn is_vector(self) -> bool {
        self is VecF32 || self is VecF64 || self is Mask
    }
}

/// Where a value comes from.
#[derive(Clone, Copy, Debug, PartialEq, Eq, Structural)]
pub enum Id {
    /// A 64-bit constant.
    Const(u64),
    /// An undefined vector.
    Undef,
    /// Positive zero.
    FloatZero,
    /// The value of the command at this position.
    Reg(u64),
    /// A parameter of the function at position `func`.
    Param { func: u64, index: u32 },
    /// The address of the function at this position.
    Func(u64),
}

/// An operand.
#[derive(Clone, Copy, Debug, PartialEq, Eq, Structural)]
pub struct Val {
    pub id: Id,
    pub ty: Ty,
}

/// A 64-bit constant as an operand.
pub open spec fn constant(n: u64) -> Val {
    Val { id: Id::Const(n), ty: Ty::I64 }
}

/// A 64-bit constant as an operand.
pub fn const_cell(n: u64) -> (r: Val)
    ensures
        r == constant(n),
{
    Val { id: Id::Const(n), ty: Ty::I64 }
}

/// An integer operation.
#[derive(Clone, Copy, Debug, PartialEq, Eq, Structural)]
pub enum IntOp {
    Add,
    Sub,
    Mul,
    SDiv,
    SRem,
    UDiv,
    URem,
    And,
    Or,
    Xor,
    Shl,
    LShr,
    AShr,
}

/// An integer comparison.
#[derive(Clone, Copy, Debug, PartialEq, Eq, Structural)]
pub enum IntPred {
    Eq,
    Ne,
    Slt,
    Sle,
    Sgt,
    Sge,
}

/// A floating-point operation, on one value or lane by lane.
#[derive(Clone, Copy, Debug, PartialEq, Eq, Structural)]
pub enum FloatOp {
    Add,
    Sub,
    Mul,
    Div,
}

/// An ordered floating-point comparison.
#[derive(Clone, Copy, Debug, PartialEq, Eq, Structural)]
pub enum FloatPred {
    Oeq,
    One,
    Olt,
    Ole,
    Ogt,
    Oge,
}

/// A conversion.
#[derive(Clone, Copy, Debug, PartialEq, Eq, Structural)]
pub enum Conv {
    Trunc,
    Zext,
    Sext,
    /// Reinterpret the bits.
    Bits,
    SiToFp,
    FpToSi,
    FpTrunc,
    FpExt,
    IntToPtr,
    PtrToInt,
}

/// The name of a function that a module defines.
#[derive(Debug)]
pub enum FuncName {
    /// The entry of a program.
    Main,
    /// A lifted lambda.
    Lam(u64),
    /// The uncurried entry of a lambda chain.
    Fast(u64),
    /// An exported function, by its symbol.
    Export(String),
}

/// A function that a module calls by name.
#[derive(Debug)]
pub enum Callee {
    /// A runtime function or an intrinsic.
    Known(&'static str),
    /// A foreign function.
    Foreign(String),
}

/// What a value is called: a fixed text, or one around the name of a variable.
#[derive(Debug)]
pub enum Title {
    Fixed(&'static str),
    Var { before: &'static str, name: String, after: &'static str },
}

impl Title {
    pub open spec fn text(self) -> Seq<char> {
        match self {
            Title::Fixed(text) => text@,
            Title::Var { before, name, after } => before@ + name@ + after@,
        }
    }

    /// The whole text.
    pub fn to_text(&self) -> (r: String)
        ensures
            r@ == self.text(),
    {
        match self {
            Title::Fixed(text) => (*text).to_owned(),
            Title::Var { before, name, after } => (*before).to_owned().concat(name).concat(after),
        }
    }
}

/// One builder command.
#[allow(inconsistent_fields)]
#[derive(Debug)]
pub enum Cmd {
    /// Add a function; its parameters follow.
    Func { name: FuncName, ret: Ty },
    /// Declare a foreign function, unless the module has the name already; its
    /// parameters follow.
    Declare { name: String, ret: Ty },
    /// The next parameter of the function just added or declared.
    Param { ty: Ty },
    /// Append a block to the function at `func`.
    Block { func: u64, label: &'static str },
    /// Go on at the end of the block at `block`.
    At { block: u64 },
    Int { op: IntOp, a: Val, b: Val, label: &'static str },
    IntTest { pred: IntPred, a: Val, b: Val, label: &'static str },
    Float { op: FloatOp, a: Val, b: Val, label: &'static str },
    FloatTest { pred: FloatPred, a: Val, b: Val, label: &'static str },
    Convert { op: Conv, a: Val, ty: Ty, label: &'static str },
    /// Load a value; `align` is 0 for the type's own alignment.
    Load { ty: Ty, ptr: Val, align: u32, label: Title },
    /// Store a value; `align` is 0 for the type's own alignment.
    Store { ptr: Val, val: Val, align: u32 },
    /// The address of element `index` of an array of `elem`.
    Gep { elem: Ty, base: Val, index: Val, label: &'static str },
    /// A stack slot at this point.
    Alloca { ty: Ty, label: &'static str },
    /// A stack slot of one cell at the start of the function's first block.
    EntryAlloca { func: u64, label: Title },
    /// One lane of a vector.
    Extract { vec: Val, lane: u64, label: &'static str },
    /// A vector with one lane replaced.
    Insert { vec: Val, elem: Val, lane: u64, label: &'static str },
    /// One part of a checked result.
    Part { pair: Val, index: u32, label: &'static str },
    Select { mask: Val, yes: Val, no: Val, label: &'static str },
    Memset { dst: Val, byte: Val, count: Val },
    Memmove { dst: Val, src: Val, count: Val },
    /// The next argument of the call that follows.
    Arg { val: Val },
    Call { callee: Callee, ret: Ty, label: &'static str },
    CallPtr { ptr: Val, ret: Ty, label: &'static str },
    Phi { ty: Ty, label: Title },
    /// One incoming edge of the phi at `phi`.
    Incoming { phi: u64, val: Val, from: u64 },
    Br { to: u64 },
    CondBr { cond: Val, yes: u64, no: u64 },
    Ret { val: Val },
    Unreachable,
}

/// A lowered module.
#[derive(Debug)]
pub struct Module {
    pub name: &'static str,
    pub script: Vec<Cmd>,
}

} // verus!
