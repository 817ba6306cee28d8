//! What the code generator's errors say.
use crate::error::{CodegenError, Context};
use crate::ir::{BinOp, FloatMathOp, Label, Shape, Type, ValueLayout};
use crate::text::{count, decimal, number};
use vstd::prelude::*;
use vstd::string::*;

verus! {

impl BinOp {
    /// How the operation is written.
    pub open spec fn sign(self) -> &'static str {
        match self {
            BinOp::Add => "+",
            BinOp::Sub => "-",
            BinOp::Mul => "*",
            BinOp::Div => "/",
            BinOp::Mod => "%",
            BinOp::AddWrap => "+%",
            BinOp::SubWrap => "-%",
            BinOp::MulWrap => "*%",
            BinOp::AddChecked => "+?",
            BinOp::SubChecked => "-?",
            BinOp::MulChecked => "*?",
            BinOp::And => "&",
            BinOp::Or => "|",
            BinOp::Xor => "^",
            BinOp::Shl => "<<",
            BinOp::Shr => ">>",
            BinOp::Eq => "==",
            BinOp::Ne => "!=",
            BinOp::Lt => "<",
            BinOp::Le => "<=",
            BinOp::Gt => ">",
            BinOp::Ge => ">=",
        }
    }

    /// How the operation is written.
    pub fn symbol(&self) -> (r: &'static str)
        ensures
            r == self.sign(),
    {
        match self {
            BinOp::Add => "+",
            BinOp::Sub => "-",
            BinOp::Mul => "*",
            BinOp::Div => "/",
            BinOp::Mod => "%",
            BinOp::AddWrap => "+%",
            BinOp::SubWrap => "-%",
            BinOp::MulWrap => "*%",
            BinOp::AddChecked => "+?",
            BinOp::SubChecked => "-?",
            BinOp::MulChecked => "*?",
            BinOp::And => "&",
            BinOp::Or => "|",
            BinOp::Xor => "^",
            BinOp::Shl => "<<",
            BinOp::Shr => ">>",
            BinOp::Eq => "==",
            BinOp::Ne => "!=",
            BinOp::Lt => "<",
            BinOp::Le => "<=",
            BinOp::Gt => ">",
            BinOp::Ge => ">=",
        }
    }
}

impl FloatMathOp {
    /// How the operation is written.
    pub open spec fn sign(self) -> &'static str {
        match self {
            FloatMathOp::Sqrt => "sqrt",
            FloatMathOp::Sum => "sum",
            FloatMathOp::Length => "length",
            FloatMathOp::Dot => "dot",
            FloatMathOp::Fma => "fma",
        }
    }

    /// How the operation is written.
    pub fn symbol(&self) -> (r: &'static str)
        ensures
            r == self.sign(),
    {
        match self {
            FloatMathOp::Sqrt => "sqrt",
            FloatMathOp::Sum => "sum",
            FloatMathOp::Length => "length",
            FloatMathOp::Dot => "dot",
            FloatMathOp::Fma => "fma",
        }
    }
}

impl Label {
    /// How the label is written.
    pub open spec fn text(self) -> Seq<char> {
        match self {
            Label::World(x) => x@,
            Label::User(x) => x@,
            Label::Exn(x) => "exn "@ + x@,
            Label::Gc => "gc"@,
            Label::St => "st"@,
            Label::Insert => "insert"@,
        }
    }

    /// How the label is written.
    pub fn to_text(&self) -> (r: String)
        ensures
            r@ == self.text(),
    {
        match self {
            Label::World(x) => x.clone(),
            Label::User(x) => x.clone(),
            Label::Exn(x) => "exn ".to_owned().concat(x),
            Label::Gc => "gc".to_owned(),
            Label::St => "st".to_owned(),
            Label::Insert => "insert".to_owned(),
        }
    }
}

impl Shape {
    pub open spec fn sign(self) -> &'static str {
        match self {
            Shape::Tail => "Tail",
            Shape::Abort => "Abort",
            Shape::OneShot => "OneShot",
            Shape::Multi => "Multi",
        }
    }

    /// The name of the shape.
    pub fn name(&self) -> (r: &'static str)
        ensures
            r == self.sign(),
    {
        match self {
            Shape::Tail => "Tail",
            Shape::Abort => "Abort",
            Shape::OneShot => "OneShot",
            Shape::Multi => "Multi",
        }
    }
}

impl Type {
    /// How the type is written.
    pub open spec fn text(self) -> Seq<char>
        decreases self,
    {
        match self {
            Type::Int => "Int"@,
            Type::Float => "Float"@,
            Type::Float32 => "Float32"@,
            Type::Bool => "Bool"@,
            Type::Unit => "Unit"@,
            Type::Str => "String"@,
            Type::Var(x) => x@,
            Type::Fun(a, b, _) => "("@ + a.text() + " -> "@ + b.text() + ")"@,
            Type::Vector(shape, elem) => shape.label() + "["@ + elem.text() + "]"@,
            Type::Mask(shape) => "Mask["@ + shape.label() + "]"@,
            Type::Named(x) => x@,
        }
    }

    /// How the type is written.
    pub fn to_text(&self) -> (r: String)
        ensures
            r@ == self.text(),
        decreases self,
    {
        match self {
            Type::Int => "Int".to_owned(),
            Type::Float => "Float".to_owned(),
            Type::Float32 => "Float32".to_owned(),
            Type::Bool => "Bool".to_owned(),
            Type::Unit => "Unit".to_owned(),
            Type::Str => "String".to_owned(),
            Type::Var(x) => x.clone(),
            Type::Fun(a, b, _) => {
                let a = a.to_text();
                let b = b.to_text();
                "(".to_owned().concat(&a).concat(" -> ").concat(&b).concat(")")
            },
            Type::Vector(shape, elem) => {
                let elem = elem.to_text();
                shape.name().to_owned().concat("[").concat(&elem).concat("]")
            },
            Type::Mask(shape) => "Mask[".to_owned().concat(shape.name()).concat("]"),
            Type::Named(x) => x.clone(),
        }
    }
}

impl ValueLayout {
    /// The cells of a layout, as an error gives them.
    pub open spec fn cells_text(self) -> Seq<char> {
        "p"@ + decimal(self.pointer_cells as nat) + " s"@ + decimal(self.scalar_cells as nat)
    }

    fn cells_message(&self) -> (r: String)
        ensures
            r@ == self.cells_text(),
    {
        let pointers = number(self.pointer_cells);
        let scalars = number(self.scalar_cells);
        "p".to_owned().concat(&pointers).concat(" s").concat(&scalars)
    }
}

impl Context {
    /// How the context is written.
    pub open spec fn text(self) -> Seq<char> {
        match self {
            Context::Phrase(p) => p@,
            Context::Captured(x) => captured_text(x@),
        }
    }

    fn message(&self) -> (r: String)
        ensures
            r@ == self.text(),
    {
        match self {
            Context::Phrase(p) => (*p).to_owned(),
            Context::Captured(x) => captured_message(x),
        }
    }
}

/// A captured variable, as an error names it.
pub open spec fn captured_text(name: Seq<char>) -> Seq<char> {
    "captured variable `"@ + name + "`"@
}

fn captured_message(name: &String) -> (r: String)
    ensures
        r@ == captured_text(name@),
{
    "captured variable `".to_owned().concat(name).concat("`")
}

/// An accumulator, as an error names it.
pub open spec fn accumulator_text(name: Seq<char>) -> Seq<char> {
    "codegen: loop accumulator `"@ + name + "` has "@
}

fn accumulator_message(name: &String) -> (r: String)
    ensures
        r@ == accumulator_text(name@),
{
    "codegen: loop accumulator `".to_owned().concat(name).concat("` has ")
}

impl CodegenError {
    /// What the error says.
    pub open spec fn text(self) -> Seq<char> {
        match self {
            CodegenError::UnknownLayout(context) => "codegen: unknown storage layout for "@ + context.text(),
            CodegenError::MixedField(context, layout) => "codegen: "@ + context.text() + " has unsupported mixed layout "@ + layout.cells_text() + " ("@ + decimal(layout.byte_width as nat) + " bytes, align "@ + decimal(layout.align as nat) + "); mixed pointer/scalar values need first-class value packing"@,
            CodegenError::MixedLayout(context, layout) => "codegen: "@ + context.text() + " has unsupported mixed layout "@ + layout.cells_text(),
            CodegenError::LoopVarUnknown(name) => accumulator_text(name@) + "unknown storage layout"@,
            CodegenError::LoopVarWord(name) => accumulator_text(name@) + "repr-polymorphic word layout; instantiate it before handle-root lowering"@,
            CodegenError::LoopVarMixed(name, layout) => accumulator_text(name@) + "unsupported mixed layout "@ + layout.cells_text(),
            CodegenError::ArrayStride(context, bytes) => "codegen: "@ + context.text() + " uses unsupported scalar array stride "@ + decimal(bytes as nat) + " bytes"@,
            CodegenError::ArraySizeOverflow(context) => "codegen: "@ + context.text() + " byte size overflow"@,
            CodegenError::PerformNotCaptured => "codegen: this one-/multi-shot handler performs its effect inside a branch, a nested handler, or a function — capturing a continuation across those is a later slice"@,
            CodegenError::NotACell(context) => "codegen: "@ + context@ + " requires a scalar cell; SIMD vector/mask values cannot cross this boundary yet"@,
            CodegenError::VectorElem(shape, ty) => "codegen: "@ + shape.label() + "["@ + ty.text() + "] vectors are not supported yet"@,
            CodegenError::NotMultiCell(context, cells, ty) => "codegen: "@ + context@ + " reassembles "@ + decimal(cells as nat) + " cells but `"@ + ty.text() + "` is not a multi-cell vector"@,
            CodegenError::UnboundVariable(name) => "codegen: unbound variable `"@ + name@ + "`"@,
            CodegenError::TooManyCells => "codegen: more cells than can be counted"@,
            CodegenError::Unsupported(what) => "codegen (v2): unsupported computation: "@ + what@,
            CodegenError::EmptyCall => "codegen: empty saturated call"@,
            CodegenError::NotAFunction => "codegen: curried fallback head is not a function"@,
            CodegenError::UnboundArray(name) => "codegen: unbound array `"@ + name@ + "` in loop"@,
            CodegenError::UnboundCapture(name) => "codegen: unbound "@ + captured_text(name@),
            CodegenError::CaptureValue(name) => "codegen: "@ + captured_text(name@) + " has unsupported value/type combination for closure capture"@,
            CodegenError::CaptureNotACell(name) => "codegen: "@ + captured_text(name@) + " requires a scalar cell; SIMD vector/mask values cannot cross this boundary yet"@,
            CodegenError::MissingMaskCell(name) => "codegen: missing mask capture cell for "@ + captured_text(name@),
            CodegenError::MissingCell(name) => "codegen: missing capture cell for "@ + captured_text(name@),
            CodegenError::CaptureCount(name, expected, got) => "codegen: "@ + captured_text(name@) + " expected "@ + decimal(expected as nat) + " capture cells, got "@ + decimal(got as nat),
            CodegenError::NotAFloatOp(op) => "codegen: `"@ + op.sign()@ + "` is not a Float operation"@,
            CodegenError::NotAVector(context) => "codegen: "@ + context@ + " requires a SIMD vector/mask value"@,
            CodegenError::LaneType(ty) => "codegen: vector lane type `"@ + ty.text() + "` is unsupported"@,
            CodegenError::LaneSize(ty) => "codegen: vector lane type `"@ + ty.text() + "` has no array element size"@,
            CodegenError::LaneCount(shape, got) => "codegen: "@ + shape.label() + " vector expects "@ + decimal(shape.lane_count() as nat) + " lanes, got "@ + decimal(got as nat),
            CodegenError::NotAVectorOp(op) => "codegen: `"@ + op.sign()@ + "` is not a supported vector operation"@,
            CodegenError::NotAVectorComparison(op) => "codegen: `"@ + op.sign()@ + "` is not a supported vector comparison"@,
            CodegenError::MathType(op, ty) => "codegen: `"@ + op.sign()@ + "` does not support `"@ + ty.text() + "`"@,
            CodegenError::NotUnaryMath(op) => "codegen: `"@ + op.sign()@ + "` is not unary floating math"@,
            CodegenError::NotBinaryMath(op) => "codegen: `"@ + op.sign()@ + "` is not binary floating math"@,
            CodegenError::NotTernaryMath(op) => "codegen: `"@ + op.sign()@ + "` is not ternary floating math"@,
            CodegenError::PointerRefNew => "codegen: a pointer-typed `Ref` cell needs the GC write barrier (Sprint 3); sema should have rejected it (RN-E0247)"@,
            CodegenError::PointerRefGet => "codegen: pointer-typed `Ref` read is Sprint 3 (RN-E0247)"@,
            CodegenError::PointerRefSet => "codegen: pointer-typed `Ref` write needs the barrier (Sprint 3)"@,
            CodegenError::SlotRead(name) => "codegen: read of mutable local `"@ + name@ + "` with no live slot"@,
            CodegenError::SlotWrite(name) => "codegen: assignment to mutable local `"@ + name@ + "` with no live slot"@,
            CodegenError::InlineDepth => "codegen: handler clauses are nested too deeply to inline"@,
            CodegenError::ClauseAgain(label) => "codegen: the clause for `"@ + label.text() + "` performs its own operation"@,
            CodegenError::TooManyFunctions => "codegen: more functions than can be numbered"@,
            CodegenError::LoopArity(vars, steps) => "codegen: loop has "@ + decimal(vars as nat) + " accumulator(s), but "@ + decimal(steps as nat) + " step expression(s)"@,
            CodegenError::LoopNeedsGc => "codegen: handle loop accumulators require the GC runtime"@,
            CodegenError::UnhandledEffect(label) => "codegen: unhandled effect `"@ + label.text() + "` — no handler in scope, and there is no native runtime (output is the `console_writeln` prelude)"@,
            CodegenError::ClauseShape(label, shape) => "codegen: handler for `"@ + label.text() + "` is "@ + shape.sign()@ + " — only tail / abort lower yet"@,
            CodegenError::NoExit => "codegen: abort clause installed without an exit block"@,
            CodegenError::NotAnExitCode => "codegen: program result requires a scalar cell — a SIMD vector is not a valid process exit code. Reduce it to a scalar before the program returns: project a lane (e.g. `fromFloat32 (v.x)`), reduce a mask with `any`/`all`, sum the lanes (`sum v`), or `storeQuad`/`storePair`/`storeOct` the vector into an out-array and return a scalar"@,
        }
    }

    /// What the error says.
    pub fn message(&self) -> (r: String)
        ensures
            r@ == self.text(),
    {
        match self {
            CodegenError::UnknownLayout(context) => {
                let part1 = context.message();
                "codegen: unknown storage layout for ".to_owned().concat(&part1)
            },
            CodegenError::MixedField(context, layout) => {
                let part1 = context.message();
                let part2 = layout.cells_message();
                let part3 = number(layout.byte_width);
                let part4 = number(layout.align);
                "codegen: ".to_owned().concat(&part1).concat(" has unsupported mixed layout ").concat(&part2).concat(" (").concat(&part3).concat(" bytes, align ").concat(&part4).concat("); mixed pointer/scalar values need first-class value packing")
            },
            CodegenError::MixedLayout(context, layout) => {
                let part1 = context.message();
                let part2 = layout.cells_message();
                "codegen: ".to_owned().concat(&part1).concat(" has unsupported mixed layout ").concat(&part2)
            },
            CodegenError::LoopVarUnknown(name) => {
                let part1 = accumulator_message(name);
                part1.concat("unknown storage layout")
            },
            CodegenError::LoopVarWord(name) => {
                let part1 = accumulator_message(name);
                part1.concat("repr-polymorphic word layout; instantiate it before handle-root lowering")
            },
            CodegenError::LoopVarMixed(name, layout) => {
                let part1 = accumulator_message(name);
                let part2 = layout.cells_message();
                part1.concat("unsupported mixed layout ").concat(&part2)
            },
            CodegenError::ArrayStride(context, bytes) => {
                let part1 = context.message();
                let part2 = number(*bytes);
                "codegen: ".to_owned().concat(&part1).concat(" uses unsupported scalar array stride ").concat(&part2).concat(" bytes")
            },
            CodegenError::ArraySizeOverflow(context) => {
                let part1 = context.message();
                "codegen: ".to_owned().concat(&part1).concat(" byte size overflow")
            },
            CodegenError::PerformNotCaptured => "codegen: this one-/multi-shot handler performs its effect inside a branch, a nested handler, or a function — capturing a continuation across those is a later slice".to_owned(),
            CodegenError::NotACell(context) => "codegen: ".to_owned().concat(context).concat(" requires a scalar cell; SIMD vector/mask values cannot cross this boundary yet"),
            CodegenError::VectorElem(shape, ty) => {
                let part2 = ty.to_text();
                "codegen: ".to_owned().concat(shape.name()).concat("[").concat(&part2).concat("] vectors are not supported yet")
            },
            CodegenError::NotMultiCell(context, cells, ty) => {
                let part2 = number(*cells);
                let part3 = ty.to_text();
                "codegen: ".to_owned().concat(context).concat(" reassembles ").concat(&part2).concat(" cells but `").concat(&part3).concat("` is not a multi-cell vector")
            },
            CodegenError::UnboundVariable(name) => "codegen: unbound variable `".to_owned().concat(name).concat("`"),
            CodegenError::TooManyCells => "codegen: more cells than can be counted".to_owned(),
            CodegenError::Unsupported(what) => "codegen (v2): unsupported computation: ".to_owned().concat(what),
            CodegenError::EmptyCall => "codegen: empty saturated call".to_owned(),
            CodegenError::NotAFunction => "codegen: curried fallback head is not a function".to_owned(),
            CodegenError::UnboundArray(name) => "codegen: unbound array `".to_owned().concat(name).concat("` in loop"),
            CodegenError::UnboundCapture(name) => {
                let part1 = captured_message(name);
                "codegen: unbound ".to_owned().concat(&part1)
            },
            CodegenError::CaptureValue(name) => {
                let part1 = captured_message(name);
                "codegen: ".to_owned().concat(&part1).concat(" has unsupported value/type combination for closure capture")
            },
            CodegenError::CaptureNotACell(name) => {
                let part1 = captured_message(name);
                "codegen: ".to_owned().concat(&part1).concat(" requires a scalar cell; SIMD vector/mask values cannot cross this boundary yet")
            },
            CodegenError::MissingMaskCell(name) => {
                let part1 = captured_message(name);
                "codegen: missing mask capture cell for ".to_owned().concat(&part1)
            },
            CodegenError::MissingCell(name) => {
                let part1 = captured_message(name);
                "codegen: missing capture cell for ".to_owned().concat(&part1)
            },
            CodegenError::CaptureCount(name, expected, got) => {
                let part1 = captured_message(name);
                let part2 = count(*expected);
                let part3 = number(*got);
                "codegen: ".to_owned().concat(&part1).concat(" expected ").concat(&part2).concat(" capture cells, got ").concat(&part3)
            },
            CodegenError::NotAFloatOp(op) => "codegen: `".to_owned().concat(op.symbol()).concat("` is not a Float operation"),
            CodegenError::NotAVector(context) => "codegen: ".to_owned().concat(context).concat(" requires a SIMD vector/mask value"),
            CodegenError::LaneType(ty) => {
                let part1 = ty.to_text();
                "codegen: vector lane type `".to_owned().concat(&part1).concat("` is unsupported")
            },
            CodegenError::LaneSize(ty) => {
                let part1 = ty.to_text();
                "codegen: vector lane type `".to_owned().concat(&part1).concat("` has no array element size")
            },
            CodegenError::LaneCount(shape, got) => {
                let part2 = number(shape.lanes());
                let part3 = number(*got);
                "codegen: ".to_owned().concat(shape.name()).concat(" vector expects ").concat(&part2).concat(" lanes, got ").concat(&part3)
            },
            CodegenError::NotAVectorOp(op) => "codegen: `".to_owned().concat(op.symbol()).concat("` is not a supported vector operation"),
            CodegenError::NotAVectorComparison(op) => "codegen: `".to_owned().concat(op.symbol()).concat("` is not a supported vector comparison"),
            CodegenError::MathType(op, ty) => {
                let part2 = ty.to_text();
                "codegen: `".to_owned().concat(op.symbol()).concat("` does not support `").concat(&part2).concat("`")
            },
            CodegenError::NotUnaryMath(op) => "codegen: `".to_owned().concat(op.symbol()).concat("` is not unary floating math"),
            CodegenError::NotBinaryMath(op) => "codegen: `".to_owned().concat(op.symbol()).concat("` is not binary floating math"),
            CodegenError::NotTernaryMath(op) => "codegen: `".to_owned().concat(op.symbol()).concat("` is not ternary floating math"),
            CodegenError::PointerRefNew => "codegen: a pointer-typed `Ref` cell needs the GC write barrier (Sprint 3); sema should have rejected it (RN-E0247)".to_owned(),
            CodegenError::PointerRefGet => "codegen: pointer-typed `Ref` read is Sprint 3 (RN-E0247)".to_owned(),
            CodegenError::PointerRefSet => "codegen: pointer-typed `Ref` write needs the barrier (Sprint 3)".to_owned(),
            CodegenError::SlotRead(name) => "codegen: read of mutable local `".to_owned().concat(name).concat("` with no live slot"),
            CodegenError::SlotWrite(name) => "codegen: assignment to mutable local `".to_owned().concat(name).concat("` with no live slot"),
            CodegenError::InlineDepth => "codegen: handler clauses are nested too deeply to inline".to_owned(),
            CodegenError::ClauseAgain(label) => {
                let part1 = label.to_text();
                "codegen: the clause for `".to_owned().concat(&part1).concat("` performs its own operation")
            },
            CodegenError::TooManyFunctions => "codegen: more functions than can be numbered".to_owned(),
            CodegenError::LoopArity(vars, steps) => {
                let part1 = number(*vars);
                let part2 = number(*steps);
                "codegen: loop has ".to_owned().concat(&part1).concat(" accumulator(s), but ").concat(&part2).concat(" step expression(s)")
            },
            CodegenError::LoopNeedsGc => "codegen: handle loop accumulators require the GC runtime".to_owned(),
            CodegenError::UnhandledEffect(label) => {
                let part1 = label.to_text();
                "codegen: unhandled effect `".to_owned().concat(&part1).concat("` — no handler in scope, and there is no native runtime (output is the `console_writeln` prelude)")
            },
            CodegenError::ClauseShape(label, shape) => {
                let part1 = label.to_text();
                "codegen: handler for `".to_owned().concat(&part1).concat("` is ").concat(shape.name()).concat(" — only tail / abort lower yet")
            },
            CodegenError::NoExit => "codegen: abort clause installed without an exit block".to_owned(),
            CodegenError::NotAnExitCode => "codegen: program result requires a scalar cell — a SIMD vector is not a valid process exit code. Reduce it to a scalar before the program returns: project a lane (e.g. `fromFloat32 (v.x)`), reduce a mask with `any`/`all`, sum the lanes (`sum v`), or `storeQuad`/`storePair`/`storeOct` the vector into an out-array and return a scalar".to_owned(),
        }
    }
}

} // verus!
