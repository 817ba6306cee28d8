//! What the code generator keeps while it lowers, and the commands it appends.
use crate::error::CodegenError;
use crate::ir::{share, IrOpClause, Label, Row, Type, ValueLayout};
use crate::target::{Callee, Cmd, Conv, FloatOp, Id, IntOp, IntPred, Title, Ty, Val};
use std::rc::Rc;
use vstd::prelude::*;

verus! {

/// Names in scope, the innermost first.
pub enum Scope<T> {
    Empty,
    More { name: String, item: T, rest: Rc<Scope<T>> },
}

impl<T> Scope<T> {
    /// What the name stands for: its innermost entry.
    pub open spec fn get(self, x: Seq<char>) -> Option<T>
        decreases self,
    {
        match self {
            Scope::Empty => None,
            Scope::More { name, item, rest } => if name@ == x {
                Some(item)
            } else {
                rest.get(x)
            },
        }
    }

    /// The entry the name stands for.
    pub fn find(&self, x: &String) -> (r: Option<&T>)
        ensures
            match r {
                Some(item) => self.get(x@) == Some(*item),
                None => self.get(x@) is None,
            },
    {
        let mut cur: &Scope<T> = self;
        loop
            invariant
                cur.get(x@) == self.get(x@),
            decreases cur,
        {
            match cur {
                Scope::Empty => {
                    return None;
                },
                Scope::More { name, item, rest } => {
                    if *name == *x {
                        return Some(item);
                    }
                    cur = rest;
                },
            }
        }
    }
}

/// What a variable stands for.
pub struct EnvVal {
    pub value: Val,
    pub ty: Rc<Type>,
    pub layout: ValueLayout,
}

/// The payload of an array that is borrowed for a loop.
#[derive(Clone, Copy, Debug, PartialEq, Eq, Structural)]
pub struct RawArray {
    /// The address of the length cell in front of the payload.
    pub base: Val,
    pub len: Val,
    /// The array itself: another one of its name is not borrowed.
    pub arr: Val,
}

/// Where an aborting clause goes: the block behind the handler and the slot of
/// the handler's result.
#[derive(Clone, Copy, Debug, PartialEq, Eq, Structural)]
pub struct Exit {
    pub block: u64,
    pub slot: Val,
}

/// The handlers in force, the innermost first.
pub enum Frames {
    Empty,
    More { clauses: Rc<Vec<IrOpClause>>, exit: Option<Exit>, rest: Rc<Frames> },
}

/// The clauses being inlined, the innermost first: the operation of each, and how
/// many handlers are in force outside its own.
pub enum Inlined {
    Empty,
    More { op: Label, outside: u64, rest: Rc<Inlined> },
}

impl Inlined {
    /// The clause for the operation is being inlined.
    pub open spec fn holds(self, op: Label, outside: u64) -> bool
        decreases self,
    {
        match self {
            Inlined::Empty => false,
            Inlined::More { op: o, outside: n, rest } => (n == outside && o.same(op)) || rest.holds(
                op,
                outside,
            ),
        }
    }

    /// Whether the clause for the operation is being inlined.
    pub fn has(&self, op: &Label, outside: u64) -> (r: bool)
        ensures
            r == self.holds(*op, outside),
        decreases self,
    {
        match self {
            Inlined::Empty => false,
            Inlined::More { op: o, outside: n, rest } => (*n == outside && o.is(op)) || rest.has(
                op,
                outside,
            ),
        }
    }
}

/// What the code generator keeps besides the commands.
pub struct Cx {
    /// The function under construction.
    pub func: u64,
    /// The block that takes the next command.
    pub block: u64,
    /// How many functions were lifted.
    pub lifted: u64,
    pub env: Rc<Scope<EnvVal>>,
    pub handlers: Rc<Frames>,
    pub inlined: Rc<Inlined>,
    /// The continuation's name in the clause being inlined: there a call of it
    /// is the identity.
    pub resume: Option<String>,
    /// Whether the program uses the managed heap.
    pub gc: bool,
    /// The arrays borrowed for the loop being lowered.
    pub raws: Rc<Scope<RawArray>>,
    /// The indices proved in bounds, each under the name of its array.
    pub bounds: Rc<Scope<String>>,
    /// The stack slots of the mutable locals.
    pub slots: Rc<Scope<Val>>,
    /// The row without effects.
    pub pure: Rc<Row>,
}

/// The state of the code generator.
pub struct St {
    pub script: Seq<Cmd>,
    pub cx: Cx,
}

/// What lowering something to a value leads to.
pub type Out = Result<(St, Val), CodegenError>;

impl St {
    /// One more command.
    pub open spec fn put(self, cmd: Cmd) -> St {
        St { script: self.script.push(cmd), cx: self.cx }
    }

    /// The position of the next command.
    pub open spec fn here(self) -> u64 {
        self.script.len() as u64
    }

    /// The value of the next command.
    pub open spec fn reg(self, ty: Ty) -> Val {
        Val { id: Id::Reg(self.here()), ty }
    }

    /// One more command that defines a value.
    pub open spec fn def(self, cmd: Cmd, ty: Ty) -> (St, Val) {
        (self.put(cmd), self.reg(ty))
    }

    pub open spec fn iop(self, op: IntOp, a: Val, b: Val, label: &'static str) -> (St, Val) {
        self.def(Cmd::Int { op, a, b, label }, a.ty)
    }

    pub open spec fn itest(self, pred: IntPred, a: Val, b: Val, label: &'static str) -> (St, Val) {
        self.def(Cmd::IntTest { pred, a, b, label }, Ty::I1)
    }

    pub open spec fn fop(self, op: FloatOp, a: Val, b: Val, label: &'static str) -> (St, Val) {
        self.def(Cmd::Float { op, a, b, label }, a.ty)
    }

    pub open spec fn convert(self, op: Conv, a: Val, ty: Ty, label: &'static str) -> (St, Val) {
        self.def(Cmd::Convert { op, a, ty, label }, ty)
    }

    pub open spec fn load(self, ty: Ty, ptr: Val, label: &'static str) -> (St, Val) {
        self.load_as(ty, ptr, Title::Fixed(label))
    }

    pub open spec fn load_as(self, ty: Ty, ptr: Val, label: Title) -> (St, Val) {
        self.def(Cmd::Load { ty, ptr, align: 0, label }, ty)
    }

    pub open spec fn store(self, ptr: Val, val: Val) -> St {
        self.put(Cmd::Store { ptr, val, align: 0 })
    }

    pub open spec fn gep(self, elem: Ty, base: Val, index: Val, label: &'static str) -> (St, Val) {
        self.def(Cmd::Gep { elem, base, index, label }, Ty::Ptr)
    }

    pub open spec fn arg(self, val: Val) -> St {
        self.put(Cmd::Arg { val })
    }

    /// Call a runtime function or intrinsic on the arguments just given.
    pub open spec fn call(self, name: &'static str, ret: Ty, label: &'static str) -> (St, Val) {
        self.def(Cmd::Call { callee: Callee::Known(name), ret, label }, ret)
    }

    /// Call a runtime function that returns nothing.
    pub open spec fn call_void(self, name: &'static str) -> St {
        self.put(Cmd::Call { callee: Callee::Known(name), ret: Ty::Void, label: name })
    }

    /// Append a block to the function under construction.
    pub open spec fn new_block(self, label: &'static str) -> (St, u64) {
        (self.put(Cmd::Block { func: self.cx.func, label }), self.here())
    }

    /// Go on at the end of a block.
    pub open spec fn at(self, block: u64) -> St {
        St { script: self.script.push(Cmd::At { block }), cx: Cx { block, ..self.cx } }
    }

    pub open spec fn br(self, to: u64) -> St {
        self.put(Cmd::Br { to })
    }

    pub open spec fn cond_br(self, cond: Val, yes: u64, no: u64) -> St {
        self.put(Cmd::CondBr { cond, yes, no })
    }

    pub open spec fn phi(self, ty: Ty, label: &'static str) -> (St, Val) {
        self.phi_as(ty, Title::Fixed(label))
    }

    pub open spec fn phi_as(self, ty: Ty, label: Title) -> (St, Val) {
        self.def(Cmd::Phi { ty, label }, ty)
    }

    /// An edge from the current block into a phi.
    pub open spec fn incoming(self, phi: u64, val: Val, from: u64) -> St {
        self.put(Cmd::Incoming { phi, val, from })
    }

    /// Bind a variable.
    pub open spec fn bind(self, name: String, value: Val, ty: Rc<Type>, layout: ValueLayout) -> St {
        St {
            script: self.script,
            cx: Cx {
                env: Rc::new(
                    Scope::More { name, item: EnvVal { value, ty, layout }, rest: self.cx.env },
                ),
                ..self.cx
            },
        }
    }

    /// The same state with other variables in scope.
    pub open spec fn in_env(self, env: Rc<Scope<EnvVal>>) -> St {
        St { script: self.script, cx: Cx { env, ..self.cx } }
    }

    /// Leave the block if `cond` holds, by a trap.
    pub open spec fn trap_if(
        self,
        cond: Val,
        trap: &'static str,
        cont: &'static str,
        abort: &'static str,
    ) -> St {
        let (st, trap_bb) = self.new_block(trap);
        let (st, cont_bb) = st.new_block(cont);
        let st = st.cond_br(cond, trap_bb, cont_bb).at(trap_bb);
        st.put(
            Cmd::Call { callee: Callee::Known("llvm.trap"), ret: Ty::Void, label: abort },
        ).put(Cmd::Unreachable).at(cont_bb)
    }
}

/// The exec result and state are those of the outcome; after an error the state
/// is of no use.
pub open spec fn agrees(out: Out, st: St, r: Result<Val, CodegenError>) -> bool {
    match out {
        Ok((s, v)) => st == s && r == Ok::<Val, CodegenError>(v),
        Err(e) => r == Err::<Val, CodegenError>(e),
    }
}

/// The same for something lowered for its effect.
pub open spec fn agrees_unit(
    out: Result<St, CodegenError>,
    st: St,
    r: Result<(), CodegenError>,
) -> bool {
    match out {
        Ok(s) => st == s && r == Ok::<(), CodegenError>(()),
        Err(e) => r == Err::<(), CodegenError>(e),
    }
}

/// The code generator.
pub struct Cg {
    pub script: Vec<Cmd>,
    pub cx: Cx,
}

impl View for Cg {
    type V = St;

    open spec fn view(&self) -> St {
        St { script: self.script@, cx: self.cx }
    }
}

impl Cg {
    pub(crate) fn put(&mut self, cmd: Cmd)
        ensures
            final(self)@ == old(self)@.put(cmd),
    {
        self.script.push(cmd);
    }

    pub(crate) fn here(&self) -> (r: u64)
        ensures
            r == self@.here(),
    {
        self.script.len() as u64
    }

    pub(crate) fn def(&mut self, cmd: Cmd, ty: Ty) -> (r: Val)
        ensures
            (final(self)@, r) == old(self)@.def(cmd, ty),
    {
        let r = Val { id: Id::Reg(self.here()), ty };
        self.script.push(cmd);
        r
    }

    pub(crate) fn iop(&mut self, op: IntOp, a: Val, b: Val, label: &'static str) -> (r: Val)
        ensures
            (final(self)@, r) == old(self)@.iop(op, a, b, label),
    {
        self.def(Cmd::Int { op, a, b, label }, a.ty)
    }

    pub(crate) fn itest(&mut self, pred: IntPred, a: Val, b: Val, label: &'static str) -> (r: Val)
        ensures
            (final(self)@, r) == old(self)@.itest(pred, a, b, label),
    {
        self.def(Cmd::IntTest { pred, a, b, label }, Ty::I1)
    }

    pub(crate) fn fop(&mut self, op: FloatOp, a: Val, b: Val, label: &'static str) -> (r: Val)
        ensures
            (final(self)@, r) == old(self)@.fop(op, a, b, label),
    {
        self.def(Cmd::Float { op, a, b, label }, a.ty)
    }

    pub(crate) fn convert(&mut self, op: Conv, a: Val, ty: Ty, label: &'static str) -> (r: Val)
        ensures
            (final(self)@, r) == old(self)@.convert(op, a, ty, label),
    {
        self.def(Cmd::Convert { op, a, ty, label }, ty)
    }

    pub(crate) fn load(&mut self, ty: Ty, ptr: Val, label: &'static str) -> (r: Val)
        ensures
            (final(self)@, r) == old(self)@.load(ty, ptr, label),
    {
        self.load_as(ty, ptr, Title::Fixed(label))
    }

    pub(crate) fn load_as(&mut self, ty: Ty, ptr: Val, label: Title) -> (r: Val)
        ensures
            (final(self)@, r) == old(self)@.load_as(ty, ptr, label),
    {
        self.def(Cmd::Load { ty, ptr, align: 0, label }, ty)
    }

    pub(crate) fn store(&mut self, ptr: Val, val: Val)
        ensures
            final(self)@ == old(self)@.store(ptr, val),
    {
        self.put(Cmd::Store { ptr, val, align: 0 })
    }

    pub(crate) fn gep(&mut self, elem: Ty, base: Val, index: Val, label: &'static str) -> (r: Val)
        ensures
            (final(self)@, r) == old(self)@.gep(elem, base, index, label),
    {
        self.def(Cmd::Gep { elem, base, index, label }, Ty::Ptr)
    }

    pub(crate) fn arg(&mut self, val: Val)
        ensures
            final(self)@ == old(self)@.arg(val),
    {
        self.put(Cmd::Arg { val })
    }

    pub(crate) fn call(&mut self, name: &'static str, ret: Ty, label: &'static str) -> (r: Val)
        ensures
            (final(self)@, r) == old(self)@.call(name, ret, label),
    {
        self.def(Cmd::Call { callee: Callee::Known(name), ret, label }, ret)
    }

    pub(crate) fn call_void(&mut self, name: &'static str)
        ensures
            final(self)@ == old(self)@.call_void(name),
    {
        self.put(Cmd::Call { callee: Callee::Known(name), ret: Ty::Void, label: name })
    }

    pub(crate) fn new_block(&mut self, label: &'static str) -> (r: u64)
        ensures
            (final(self)@, r) == old(self)@.new_block(label),
    {
        let r: u64 = self.here();
        self.script.push(Cmd::Block { func: self.cx.func, label });
        r
    }

    pub(crate) fn at(&mut self, block: u64)
        ensures
            final(self)@ == old(self)@.at(block),
    {
        self.script.push(Cmd::At { block });
        self.cx.block = block;
    }

    pub(crate) fn br(&mut self, to: u64)
        ensures
            final(self)@ == old(self)@.br(to),
    {
        self.put(Cmd::Br { to })
    }

    pub(crate) fn cond_br(&mut self, cond: Val, yes: u64, no: u64)
        ensures
            final(self)@ == old(self)@.cond_br(cond, yes, no),
    {
        self.put(Cmd::CondBr { cond, yes, no })
    }

    pub(crate) fn phi(&mut self, ty: Ty, label: &'static str) -> (r: Val)
        ensures
            (final(self)@, r) == old(self)@.phi(ty, label),
    {
        self.phi_as(ty, Title::Fixed(label))
    }

    pub(crate) fn phi_as(&mut self, ty: Ty, label: Title) -> (r: Val)
        ensures
            (final(self)@, r) == old(self)@.phi_as(ty, label),
    {
        self.def(Cmd::Phi { ty, label }, ty)
    }

    pub(crate) fn incoming(&mut self, phi: u64, val: Val, from: u64)
        ensures
            final(self)@ == old(self)@.incoming(phi, val, from),
    {
        self.put(Cmd::Incoming { phi, val, from })
    }

    pub(crate) fn bind(&mut self, name: &String, value: Val, ty: Rc<Type>, layout: ValueLayout)
        ensures
            final(self)@ == old(self)@.bind(*name, value, ty, layout),
    {
        let rest = share(&self.cx.env);
        self.cx.env = Rc::new(
            Scope::More { name: name.clone(), item: EnvVal { value, ty, layout }, rest },
        );
    }

    pub(crate) fn in_env(&mut self, env: Rc<Scope<EnvVal>>)
        ensures
            final(self)@ == old(self)@.in_env(env),
    {
        self.cx.env = env;
    }

    pub(crate) fn trap_if(
        &mut self,
        cond: Val,
        trap: &'static str,
        cont: &'static str,
        abort: &'static str,
    )
        ensures
            final(self)@ == old(self)@.trap_if(cond, trap, cont, abort),
    {
        let trap_bb: u64 = self.new_block(trap);
        let cont_bb: u64 = self.new_block(cont);
        self.cond_br(cond, trap_bb, cont_bb);
        self.at(trap_bb);
        self.put(Cmd::Call { callee: Callee::Known("llvm.trap"), ret: Ty::Void, label: abort });
        self.put(Cmd::Unreachable);
        self.at(cont_bb);
    }
}

/// A value that must be one cell.
pub open spec fn cell_of(v: Val, context: &'static str) -> Result<Val, CodegenError> {
    if v.ty is I64 {
        Ok(v)
    } else {
        Err(CodegenError::NotACell(context))
    }
}

/// A value that must be one cell: a vector or mask cannot cross this boundary.
pub fn expect_cell(v: Val, context: &'static str) -> (r: Result<Val, CodegenError>)
    ensures
        r == cell_of(v, context),
{
    match v.ty {
        Ty::I64 => Ok(v),
        _ => Err(CodegenError::NotACell(context)),
    }
}

} // verus!
