//! What the code generator reports when it cannot lower a program.
use crate::ir::{BinOp, FloatMathOp, Label, Shape, Type, ValueLayout, VectorShape};
use std::rc::Rc;
use vstd::prelude::*;

verus! {

/// The part of a program an error is about.
#[derive(Debug)]
pub enum Context {
    /// A fixed phrase.
    Phrase(&'static str),
    /// A variable that a closure captures.
    Captured(String),
}

/// Why a program was not lowered.
#[derive(Debug)]
pub enum CodegenError {
    UnknownLayout(Context),
    MixedField(Context, ValueLayout),
    MixedLayout(Context, ValueLayout),
    LoopVarUnknown(String),
    LoopVarWord(String),
    LoopVarMixed(String, ValueLayout),
    ArrayStride(Context, usize),
    ArraySizeOverflow(Context),
    PerformNotCaptured,
    NotACell(&'static str),
    VectorElem(VectorShape, Rc<Type>),
    NotMultiCell(&'static str, usize, Rc<Type>),
    UnboundVariable(String),
    TooManyCells,
    Unsupported(&'static str),
    EmptyCall,
    NotAFunction,
    UnboundArray(String),
    UnboundCapture(String),
    CaptureValue(String),
    CaptureNotACell(String),
    MissingMaskCell(String),
    MissingCell(String),
    CaptureCount(String, u64, usize),
    NotAFloatOp(BinOp),
    NotAVector(&'static str),
    LaneType(Rc<Type>),
    LaneSize(Rc<Type>),
    LaneCount(VectorShape, usize),
    NotAVectorOp(BinOp),
    NotAVectorComparison(BinOp),
    MathType(FloatMathOp, Rc<Type>),
    NotUnaryMath(FloatMathOp),
    NotBinaryMath(FloatMathOp),
    NotTernaryMath(FloatMathOp),
    PointerRefNew,
    PointerRefGet,
    PointerRefSet,
    SlotRead(String),
    SlotWrite(String),
    InlineDepth,
    /// A clause in which the operation it handles comes up again.
    ClauseAgain(Label),
    TooManyFunctions,
    LoopArity(usize, usize),
    LoopNeedsGc,
    UnhandledEffect(Label),
    ClauseShape(Label, Shape),
    NoExit,
    NotAnExitCode,
}

} // verus!
