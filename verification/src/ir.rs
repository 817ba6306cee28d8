//! The A-normal-form program that the back end lowers.
//!
//! Every operand is an [`Atom`]; every computation a [`Comp`]; a block of
//! bindings ending in a computation an [`Ir`]. Sub-programs are shared through
//! `Rc`, so the selective continuation-passing rewrite can reuse them.
use std::rc::Rc;
use vstd::prelude::*;

verus! {

/// Another pointer to the same allocation.
///
/// Trusted: `std::rc::Rc::clone`, which "makes a clone of the `Rc` pointer",
/// so the result points to the value that the argument points to.
#[verifier::external_body]
pub(crate) fn share<T>(rc: &Rc<T>) -> (r: Rc<T>)
    ensures
        r == *rc,
{
    Rc::clone(rc)
}

/// A pointer to `value`: a pointer is identified with what it points to.
pub open spec fn pointer_to<T>(value: T) -> Rc<T> {
    Rc::new(value)
}

/// What a pointer points to.
pub open spec fn target<T>(r: Rc<T>) -> T {
    *r
}

/// A pointer to a new allocation that holds `value`.
pub(crate) fn allocate<T>(value: T) -> (r: Rc<T>)
    ensures
        r == pointer_to(value),
        *r == value,
{
    Rc::new(value)
}

/// The number of lanes of a SIMD value.
#[derive(Clone, Copy, Debug, PartialEq, Eq, Structural)]
pub enum VectorShape {
    Pair,
    Quad,
    Oct,
}

impl VectorShape {
    /// How many lanes a value of this shape has.
    pub open spec fn lane_count(self) -> nat {
        match self {
            VectorShape::Pair => 2,
            VectorShape::Quad => 4,
            VectorShape::Oct => 8,
        }
    }

    /// How many lanes a value of this shape has.
    pub fn lanes(self) -> (n: usize)
        ensures
            n == self.lane_count(),
    {
        match self {
            VectorShape::Pair => 2,
            VectorShape::Quad => 4,
            VectorShape::Oct => 8,
        }
    }

    /// The surface name of the shape.
    pub open spec fn label(self) -> Seq<char> {
        match self {
            VectorShape::Pair => "Pair"@,
            VectorShape::Quad => "Quad"@,
            VectorShape::Oct => "Oct"@,
        }
    }

    /// The surface name of the shape.
    pub fn name(self) -> (r: &'static str)
        ensures
            r@ == self.label(),
    {
        match self {
            VectorShape::Pair => "Pair",
            VectorShape::Quad => "Quad",
            VectorShape::Oct => "Oct",
        }
    }
}

/// One effect label.
#[derive(Debug)]
pub enum Label {
    /// An operation on the outside world.
    World(String),
    /// An effect the program declares.
    User(String),
    /// An exception.
    Exn(String),
    /// The managed heap.
    Gc,
    /// Mutable state.
    St,
    /// Code insertion.
    Insert,
}

impl Label {
    /// Two labels are the same label: the same kind and the same name.
    pub open spec fn same(self, other: Label) -> bool {
        match (self, other) {
            (Label::World(a), Label::World(b)) => a@ == b@,
            (Label::User(a), Label::User(b)) => a@ == b@,
            (Label::Exn(a), Label::Exn(b)) => a@ == b@,
            (Label::Gc, Label::Gc) => true,
            (Label::St, Label::St) => true,
            (Label::Insert, Label::Insert) => true,
            _ => false,
        }
    }

    /// An equal label.
    pub fn copy(&self) -> (r: Label)
        ensures
            r == *self,
    {
        match self {
            Label::World(x) => Label::World(x.clone()),
            Label::User(x) => Label::User(x.clone()),
            Label::Exn(x) => Label::Exn(x.clone()),
            Label::Gc => Label::Gc,
            Label::St => Label::St,
            Label::Insert => Label::Insert,
        }
    }

    /// Whether two labels are the same label.
    pub fn is(&self, other: &Label) -> (r: bool)
        ensures
            r == self.same(*other),
    {
        match (self, other) {
            (Label::World(a), Label::World(b)) => *a == *b,
            (Label::User(a), Label::User(b)) => *a == *b,
            (Label::Exn(a), Label::Exn(b)) => *a == *b,
            (Label::Gc, Label::Gc) => true,
            (Label::St, Label::St) => true,
            (Label::Insert, Label::Insert) => true,
            _ => false,
        }
    }
}

/// An effect row: the labels a computation may perform.
#[derive(Debug)]
pub struct Row {
    pub labels: Vec<Label>,
}

impl Row {
    /// The row mentions the managed heap.
    pub open spec fn mentions_gc(self) -> bool {
        exists|i: int| 0 <= i < self.labels.len() && (#[trigger] self.labels[i]) is Gc
    }

    /// Whether the row mentions the managed heap.
    pub fn has_gc(&self) -> (r: bool)
        ensures
            r == self.mentions_gc(),
    {
        let mut i: usize = 0;
        while i < self.labels.len()
            invariant
                i <= self.labels.len(),
                forall|j: int| 0 <= j < i ==> !((#[trigger] self.labels[j]) is Gc),
            decreases self.labels.len() - i,
        {
            if let Label::Gc = &self.labels[i] {
                return true;
            }
            i = i + 1;
        }
        false
    }
}

/// A type, as far as the back end looks at one.
#[derive(Debug)]
pub enum Type {
    Int,
    Float,
    Float32,
    Bool,
    Unit,
    Str,
    /// A type variable.
    Var(String),
    /// A function: argument, result and the effects of a call.
    Fun(Rc<Type>, Rc<Type>, Rc<Row>),
    /// A SIMD vector of lanes of one type.
    Vector(VectorShape, Rc<Type>),
    /// A SIMD mask.
    Mask(VectorShape),
    /// Any other type, by its text.
    Named(String),
}

/// How a value is stored: traced pointer cells, untraced scalar cells, and the
/// bytes the scalar part takes.
#[derive(Clone, Copy, Debug, PartialEq, Eq, Structural)]
pub struct ValueLayout {
    pub pointer_cells: usize,
    pub scalar_cells: usize,
    pub byte_width: usize,
    pub align: usize,
    /// Whether the representation is decided.
    pub known: bool,
    /// Whether the one pointer cell holds a representation-polymorphic word.
    pub word: bool,
}

/// The number of 8-byte cells that hold `bytes` bytes.
pub open spec fn cells_for(bytes: int) -> int {
    (bytes + 7) / 8
}

impl ValueLayout {
    /// One traced pointer cell (a handle, or a word cell).
    pub open spec fn single_pointer(self) -> bool {
        self.known && self.pointer_cells == 1 && self.scalar_cells == 0
    }

    /// One or more untraced scalar cells and no pointer cell.
    pub open spec fn scalar_only(self) -> bool {
        self.known && self.pointer_cells == 0 && self.scalar_cells >= 1
    }

    /// The pointer cell holds a word that is stored and read verbatim.
    pub open spec fn word_cell_only(self) -> bool {
        self.single_pointer() && self.word
    }

    /// Some cell is traced by the collector.
    pub open spec fn gc_reachable(self) -> bool {
        self.pointer_cells > 0
    }

    /// Whether this is one traced pointer cell.
    pub fn is_single_pointer_cell(self) -> (r: bool)
        ensures
            r == self.single_pointer(),
    {
        self.known && self.pointer_cells == 1 && self.scalar_cells == 0
    }

    /// Whether this is untraced scalar cells only.
    pub fn is_scalar_only(self) -> (r: bool)
        ensures
            r == self.scalar_only(),
    {
        self.known && self.pointer_cells == 0 && self.scalar_cells >= 1
    }

    /// Whether this is a word cell.
    pub fn is_word_cell(self) -> (r: bool)
        ensures
            r == self.word_cell_only(),
    {
        self.is_single_pointer_cell() && self.word
    }

    /// Whether the collector traces some cell.
    pub fn is_gc_reachable(self) -> (r: bool)
        ensures
            r == self.gc_reachable(),
    {
        self.pointer_cells > 0
    }

    /// A scalar value of `width` bytes: as many cells as hold it.
    pub fn scalar_bytes(width: usize, align: usize) -> (r: ValueLayout)
        ensures
            r.pointer_cells == 0,
            r.scalar_cells == cells_for(width as int),
            r.byte_width == width,
            r.align == align,
            r.known,
            !r.word,
    {
        let cells: usize = width / 8 + if width % 8 == 0 { 0 } else { 1 };
        ValueLayout {
            pointer_cells: 0,
            scalar_cells: cells,
            byte_width: width,
            align,
            known: true,
            word: false,
        }
    }

    /// The layout of one scalar cell.
    pub open spec fn scalar_cell_layout() -> ValueLayout {
        ValueLayout {
            pointer_cells: 0,
            scalar_cells: 1,
            byte_width: 8,
            align: 8,
            known: true,
            word: false,
        }
    }

    /// One scalar cell.
    pub fn scalar_cell() -> (r: ValueLayout)
        ensures
            r == Self::scalar_cell_layout(),
    {
        ValueLayout {
            pointer_cells: 0,
            scalar_cells: 1,
            byte_width: 8,
            align: 8,
            known: true,
            word: false,
        }
    }

    /// The layout of one handle.
    pub open spec fn pointer_cell_layout() -> ValueLayout {
        ValueLayout {
            pointer_cells: 1,
            scalar_cells: 0,
            byte_width: 8,
            align: 8,
            known: true,
            word: false,
        }
    }

    /// One handle.
    pub fn pointer_cell() -> (r: ValueLayout)
        ensures
            r == Self::pointer_cell_layout(),
    {
        ValueLayout {
            pointer_cells: 1,
            scalar_cells: 0,
            byte_width: 8,
            align: 8,
            known: true,
            word: false,
        }
    }

    /// One traced cell whose word is stored verbatim.
    pub fn word_cell() -> (r: ValueLayout)
        ensures
            r == (ValueLayout { word: true, ..Self::pointer_cell_layout() }),
    {
        ValueLayout {
            pointer_cells: 1,
            scalar_cells: 0,
            byte_width: 8,
            align: 8,
            known: true,
            word: true,
        }
    }

    /// One cell whose representation is not decided.
    pub fn unknown_scalar_cell() -> (r: ValueLayout)
        ensures
            r == (ValueLayout { known: false, ..Self::scalar_cell_layout() }),
    {
        ValueLayout {
            pointer_cells: 0,
            scalar_cells: 1,
            byte_width: 8,
            align: 8,
            known: false,
            word: false,
        }
    }
}

/// A trivial operand.
#[derive(Debug)]
pub enum Atom {
    Int(i64),
    /// The bits of a 64-bit float.
    Float(u64),
    Bool(bool),
    Unit,
    Str(String),
    Var(String),
}

impl Atom {
    /// An equal atom.
    pub fn copy(&self) -> (r: Atom)
        ensures
            r == *self,
    {
        match self {
            Atom::Int(n) => Atom::Int(*n),
            Atom::Float(bits) => Atom::Float(*bits),
            Atom::Bool(b) => Atom::Bool(*b),
            Atom::Unit => Atom::Unit,
            Atom::Str(s) => Atom::Str(s.clone()),
            Atom::Var(x) => Atom::Var(x.clone()),
        }
    }
}

/// A primitive binary operation.
#[derive(Clone, Copy, Debug, PartialEq, Eq, Structural)]
pub enum BinOp {
    Add,
    Sub,
    Mul,
    Div,
    Mod,
    AddWrap,
    SubWrap,
    MulWrap,
    AddChecked,
    SubChecked,
    MulChecked,
    And,
    Or,
    Xor,
    Shl,
    Shr,
    Eq,
    Ne,
    Lt,
    Le,
    Gt,
    Ge,
}

/// A numeric conversion.
#[derive(Clone, Copy, Debug, PartialEq, Eq, Structural)]
pub enum CastOp {
    ToFloat,
    Floor,
    Round,
    ToFloat32,
    FromFloat32,
}

/// A floating-point function.
#[derive(Clone, Copy, Debug, PartialEq, Eq, Structural)]
pub enum FloatMathOp {
    Sqrt,
    Sum,
    Length,
    Dot,
    Fma,
}

/// How a mask becomes a truth value.
#[derive(Clone, Copy, Debug, PartialEq, Eq, Structural)]
pub enum MaskReduceOp {
    Any,
    All,
}

/// The width of a raw memory access.
#[derive(Clone, Copy, Debug, PartialEq, Eq, Structural)]
pub enum MemWidth {
    W8,
    W16,
    W32,
    W64,
}

/// The native class of a foreign parameter or result.
#[derive(Clone, Copy, Debug, PartialEq, Eq, Structural)]
pub enum Width {
    I32,
    U32,
    W64,
    F32,
    F64,
}

/// The native signature of a foreign function.
#[derive(Debug)]
pub struct ExternAbi {
    pub params: Vec<Width>,
    pub ret: Width,
}

/// How a handler clause uses its continuation.
#[derive(Clone, Copy, Debug, PartialEq, Eq, Structural)]
pub enum Shape {
    /// Resumes exactly once, in tail position.
    Tail,
    /// Never resumes.
    Abort,
    /// Resumes at most once, not in tail position.
    OneShot,
    /// May resume several times.
    Multi,
}

/// One accumulator of a loop.
#[derive(Debug)]
pub struct LoopVar {
    pub name: String,
    pub ty: Rc<Type>,
    pub layout: ValueLayout,
    pub init: Atom,
}

/// One binding of a block.
#[derive(Debug)]
pub struct IrBind {
    pub name: String,
    pub ty: Rc<Type>,
    pub layout: ValueLayout,
    pub row: Rc<Row>,
    pub comp: Rc<Comp>,
}

/// A block: bindings, then the computation that gives its value.
#[derive(Debug)]
pub enum Ir {
    Block {
        binds: Vec<IrBind>,
        row: Rc<Row>,
        comp: Rc<Comp>,
    },
    Let {
        name: String,
        ty: Rc<Type>,
        layout: ValueLayout,
        row: Rc<Row>,
        comp: Rc<Comp>,
        rest: Rc<Ir>,
    },
    Ret {
        row: Rc<Row>,
        comp: Rc<Comp>,
    },
}

/// The clause of a handler for one operation.
#[derive(Debug)]
pub struct IrOpClause {
    pub op: Label,
    pub arg: String,
    pub arg_ty: Rc<Type>,
    pub arg_layout: ValueLayout,
    pub resume: String,
    pub resume_ty: Rc<Type>,
    pub resume_layout: ValueLayout,
    /// How `body` uses `resume`.
    pub shape: Shape,
    pub body: Rc<Ir>,
}

/// The clause of a handler for the scrutinee's value.
#[derive(Debug)]
pub struct IrRetClause {
    pub var: String,
    pub var_ty: Rc<Type>,
    pub var_layout: ValueLayout,
    pub body: Rc<Ir>,
    pub body_ty: Rc<Type>,
}

/// A handler.
#[derive(Debug)]
pub struct IrHandler {
    pub ops: Rc<Vec<IrOpClause>>,
    pub ret: IrRetClause,
}

/// One field of a tuple or record.
#[derive(Debug)]
pub struct Field {
    pub value: Atom,
    pub layout: ValueLayout,
}

/// One argument of a saturated call.
#[derive(Debug)]
pub struct CallArg {
    pub value: Atom,
    pub ty: Rc<Type>,
}

/// A computation.
#[allow(inconsistent_fields)]
#[derive(Debug)]
pub enum Comp {
    Atom(Atom),
    /// The declaration of a foreign function: it has no value.
    Extern(String),
    /// A call of a foreign function.
    Foreign(String, Vec<Atom>, ExternAbi),
    App {
        fun: Atom,
        arg: Atom,
        arg_ty: Rc<Type>,
        ret_ty: Rc<Type>,
        /// The storage layout of `ret_ty`.
        ret_layout: ValueLayout,
    },
    Call {
        fun: Atom,
        args: Vec<CallArg>,
        fun_ty: Rc<Type>,
        ret_ty: Rc<Type>,
    },
    Bin(BinOp, Atom, Atom),
    FloatBin(BinOp, Atom, Atom),
    Cast(CastOp, Atom),
    Tag(Atom),
    Untag(Atom),
    ToPtr(Atom),
    FromPtr(Atom),
    FloatMathUnary {
        op: FloatMathOp,
        ty: Rc<Type>,
        value: Atom,
    },
    FloatMathBinary {
        op: FloatMathOp,
        ty: Rc<Type>,
        lhs: Atom,
        rhs: Atom,
    },
    FloatMathTernary {
        op: FloatMathOp,
        ty: Rc<Type>,
        a: Atom,
        b: Atom,
        c: Atom,
    },
    VectorLit {
        shape: VectorShape,
        elem_ty: Rc<Type>,
        elems: Vec<Atom>,
    },
    VectorSplat {
        shape: VectorShape,
        elem_ty: Rc<Type>,
        value: Atom,
    },
    VectorLoad {
        shape: VectorShape,
        elem_ty: Rc<Type>,
        arr: Atom,
        idx: Atom,
    },
    VectorStore {
        shape: VectorShape,
        elem_ty: Rc<Type>,
        arr: Atom,
        idx: Atom,
        value: Atom,
    },
    VectorBin {
        op: BinOp,
        shape: VectorShape,
        elem_ty: Rc<Type>,
        lhs: Atom,
        rhs: Atom,
    },
    VectorCompare {
        op: BinOp,
        shape: VectorShape,
        elem_ty: Rc<Type>,
        lhs: Atom,
        rhs: Atom,
    },
    VectorSelect {
        shape: VectorShape,
        elem_ty: Rc<Type>,
        mask: Atom,
        then_value: Atom,
        else_value: Atom,
    },
    MaskReduce {
        op: MaskReduceOp,
        shape: VectorShape,
        mask: Atom,
    },
    VectorExtract {
        vector: Atom,
        lane: usize,
        elem_ty: Rc<Type>,
    },
    If(Atom, Rc<Ir>, Rc<Ir>),
    Loop {
        vars: Vec<LoopVar>,
        cond: Rc<Ir>,
        steps: Vec<Ir>,
        result: Rc<Ir>,
    },
    Lam {
        param: String,
        param_ty: Option<Rc<Type>>,
        param_layout: ValueLayout,
        ret_ty: Rc<Type>,
        body: Rc<Ir>,
    },
    Perform(Label, Atom),
    Handle {
        scrutinee: Rc<Ir>,
        handler: Rc<IrHandler>,
    },
    Peek(MemWidth, Atom),
    Poke(MemWidth, Atom, Atom),
    Fill(Atom, Atom, Atom),
    Copy(Atom, Atom, Atom),
    Tuple(Vec<Field>),
    ArrayLit {
        elems: Vec<Atom>,
        elem_layout: ValueLayout,
    },
    Proj {
        tup: Atom,
        slot: usize,
        layout: ValueLayout,
        ty: Rc<Type>,
    },
    Len(Atom),
    ArrayGet {
        arr: Atom,
        idx: Atom,
        elem_layout: ValueLayout,
        elem_ty: Rc<Type>,
    },
    ArraySet {
        arr: Atom,
        idx: Atom,
        val: Atom,
        elem_layout: ValueLayout,
    },
    SlotInit(String, Atom),
    SlotLoad(String),
    SlotStore(String, Atom),
    RefNew(Atom, ValueLayout),
    RefGet(Atom, ValueLayout),
    RefSet(Atom, Atom, ValueLayout),
    Quote(Rc<Ir>),
    Letloc(Rc<Ir>),
    Splice(Atom),
    Genlet(Atom),
}

} // verus!
