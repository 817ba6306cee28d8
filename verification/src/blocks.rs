//! What the code generator emits for a whole block: bindings, branches, loops,
//! closures and handlers.
//!
//! Inlining a handler's clause, and lowering a handler that was rewritten into
//! continuations, takes one unit of `fuel`; the rest of the recursion is on the
//! program itself.
use crate::analysis::{binds_name, keeps_raw_ptrs, performs_gc, produces_handle};
use crate::captures::{cells_before, traced_before, untraced_before, RESERVED};
use crate::closures::{abi_ty, capture_names, clause_for, env_ty, passed_in_cell};
use crate::cps::cps;
use crate::error::CodegenError;
use crate::freevars::lambda_occ;
use crate::heap::Cells;
use crate::ir::{
    pointer_to, Atom, CallArg, Comp, Ir, IrBind, IrHandler, IrOpClause, Label, LoopVar, Shape, Type,
    ValueLayout,
};
use crate::layout::{storage_of, CaptureInfo, LoopVarStorage};
use crate::loops::{no_step_binds, proved_bound, raw_uses, raw_uses_steps};
use crate::names::{add_names, has_name};
use crate::state::{cell_of, Cx, EnvVal, Exit, Frames, Inlined, Out, RawArray, Scope, St};
use crate::target::{constant, Cmd, Conv, FuncName, Id, IntPred, Title, Ty, Val};
use std::rc::Rc;
use vstd::prelude::*;

verus! {

/// One parameter of a function.
#[derive(Debug)]
pub struct Param {
    pub name: String,
    pub ty: Rc<Type>,
    pub layout: ValueLayout,
}

// ── curried lambdas ──────────────────────────────────────────────────────
/// A parameter type, which is an integer where none is given.
pub open spec fn ty_or_int(ty: Option<Rc<Type>>) -> Rc<Type> {
    match ty {
        Some(t) => t,
        None => pointer_to(Type::Int),
    }
}

/// The lambda that a block is: no bindings in front of it.
pub open spec fn sole_lambda(ir: Ir) -> Option<Rc<Comp>> {
    match ir {
        Ir::Ret { comp, .. } => if *comp is Lam {
            Some(comp)
        } else {
            None
        },
        Ir::Block { binds, comp, .. } => if binds.len() == 0 && *comp is Lam {
            Some(comp)
        } else {
            None
        },
        Ir::Let { .. } => None,
    }
}

/// The parameters of the lambdas that a block nests.
pub open spec fn chain_params(ir: Ir) -> Seq<Param>
    decreases ir,
{
    match sole_lambda(ir) {
        None => Seq::empty(),
        Some(c) => match *c {
            Comp::Lam { param, param_ty, param_layout, body, .. } => seq![
                Param { name: param, ty: ty_or_int(param_ty), layout: param_layout },
            ] + chain_params(*body),
            _ => Seq::empty(),
        },
    }
}

/// The block inside the lambdas that a block nests.
pub open spec fn chain_body(ir: Ir) -> Ir
    decreases ir,
{
    match sole_lambda(ir) {
        None => ir,
        Some(c) => match *c {
            Comp::Lam { body, .. } => chain_body(*body),
            _ => ir,
        },
    }
}

/// The result type of the innermost lambda that a block nests.
pub open spec fn chain_ret(ir: Ir, outer: Rc<Type>) -> Rc<Type>
    decreases ir,
{
    match sole_lambda(ir) {
        None => outer,
        Some(c) => match *c {
            Comp::Lam { ret_ty, body, .. } => chain_ret(*body, ret_ty),
            _ => outer,
        },
    }
}

/// The block inside a chain is the block itself or a part of it.
pub proof fn lemma_chain_body(ir: Ir)
    ensures
        chain_body(ir) == ir || decreases_to!(ir => chain_body(ir)),
    decreases ir,
{
    if let Some(c) = sole_lambda(ir) {
        if let Comp::Lam { body, .. } = crate::ir::target(c) {
            lemma_chain_body(crate::ir::target(body));
        }
    }
}

// ── tail calls ───────────────────────────────────────────────────────────
/// Where a function that calls itself last goes on: the head of its loop.
pub struct Tail {
    /// The function's own name.
    pub own: String,
    pub head: u64,
    /// The phi of each parameter.
    pub phis: Seq<u64>,
    /// Whether the entry takes all arguments at once.
    pub uncurried: bool,
    pub frame: Option<Val>,
    /// Whether the name still stands for the function.
    pub live: bool,
}

impl Tail {
    /// The same loop behind the binding of a name.
    pub open spec fn behind(self, name: Seq<char>) -> Tail {
        Tail { live: self.live && name != self.own@, ..self }
    }

    /// The same loop behind bindings.
    pub open spec fn behind_all(self, binds: Seq<IrBind>) -> Tail {
        Tail { live: self.live && !rebinds(binds, self.own@), ..self }
    }
}

/// Some binding is of this name.
pub open spec fn rebinds(binds: Seq<IrBind>, name: Seq<char>) -> bool {
    exists|i: int| 0 <= i < binds.len() && (#[trigger] binds[i]).name@ == name
}

/// The accumulators that are kept in a root.
pub open spec fn any_root(storages: Seq<LoopVarStorage>) -> bool {
    exists|i: int| 0 <= i < storages.len() && (#[trigger] storages[i]) is HandleRoot
}

/// How the accumulators from position `i` on are carried.
pub open spec fn storages_from(vars: Seq<LoopVar>, i: nat, done: Seq<LoopVarStorage>) -> Result<
    Seq<LoopVarStorage>,
    CodegenError,
>
    decreases vars.len() - i,
{
    if i >= vars.len() {
        Ok(done)
    } else {
        match storage_of(vars[i as int]) {
            Err(e) => Err(e),
            Ok(s) => storages_from(vars, i + 1, done.push(s)),
        }
    }
}

/// Some accumulator that is kept in a root has this name.
pub open spec fn is_root_name(vars: Seq<LoopVar>, storages: Seq<LoopVarStorage>, x: Seq<char>) -> bool {
    exists|i: int|
        0 <= i < vars.len() && i < storages.len() && (#[trigger] storages[i]) is HandleRoot
            && vars[i].name@ == x
}

/// The names that are no rooted accumulator, and that nothing in the loop binds.
pub open spec fn keep_unrooted(
    names: Seq<String>,
    vars: Seq<LoopVar>,
    storages: Seq<LoopVarStorage>,
    cond: Ir,
    steps: Seq<Ir>,
) -> Seq<String>
    decreases names.len(),
{
    if names.len() == 0 {
        Seq::empty()
    } else {
        let rest = keep_unrooted(names.drop_last(), vars, storages, cond, steps);
        if is_root_name(vars, storages, names.last()@) || binds_name(cond, names.last()@)
            || !no_step_binds(steps, names.last()@) {
            rest
        } else {
            rest.push(names.last())
        }
    }
}

/// The arrays that a loop borrows: those its condition and steps reach, if
/// nothing in them can move a heap object.
pub open spec fn loop_arrays(
    vars: Seq<LoopVar>,
    storages: Seq<LoopVarStorage>,
    cond: Ir,
    steps: Vec<Ir>,
) -> Seq<String> {
    if keeps_raw_ptrs(cond) && forall|i: int|
        0 <= i < steps.len() ==> keeps_raw_ptrs(#[trigger] steps[i]) {
        keep_unrooted(
            add_names(Seq::empty(), raw_uses(cond) + raw_uses_steps(steps, steps.len() as nat)),
            vars,
            storages,
            cond,
            steps@,
        )
    } else {
        Seq::empty()
    }
}

/// Some step allocates or yields a handle.
pub open spec fn steps_need_scope(steps: Seq<Ir>) -> bool {
    exists|i: int|
        0 <= i < steps.len() && (performs_gc(#[trigger] steps[i]) || produces_handle(steps[i]))
}

/// Some clause keeps its continuation.
pub open spec fn any_reified(ops: Seq<IrOpClause>) -> bool {
    exists|i: int|
        0 <= i < ops.len() && ((#[trigger] ops[i]).shape is OneShot || ops[i].shape is Multi)
}

/// Some clause drops its continuation.
pub open spec fn any_abort(ops: Seq<IrOpClause>) -> bool {
    exists|i: int| 0 <= i < ops.len() && (#[trigger] ops[i]).shape is Abort
}

/// The operation of the runtime that writes a float.
pub open spec fn writes_float(label: Label) -> bool {
    label matches Label::World(name) && name@ == "console_float"@
}

impl St {
    pub open spec fn with_func(self, func: u64) -> St {
        St { script: self.script, cx: Cx { func, ..self.cx } }
    }

    pub open spec fn with_handlers(self, handlers: Rc<Frames>) -> St {
        St { script: self.script, cx: Cx { handlers, ..self.cx } }
    }

    pub open spec fn with_inlined(self, inlined: Rc<Inlined>) -> St {
        St { script: self.script, cx: Cx { inlined, ..self.cx } }
    }

    pub open spec fn with_resume(self, resume: Option<String>) -> St {
        St { script: self.script, cx: Cx { resume, ..self.cx } }
    }

    pub open spec fn with_raws(self, raws: Rc<Scope<RawArray>>) -> St {
        St { script: self.script, cx: Cx { raws, ..self.cx } }
    }

    pub open spec fn with_bounds(self, bounds: Rc<Scope<String>>) -> St {
        St { script: self.script, cx: Cx { bounds, ..self.cx } }
    }

    pub open spec fn ret(self, v: Val) -> St {
        self.put(Cmd::Ret { val: v })
    }

    /// Return a cell out of a function, leaving its handle scope if it has one.
    pub open spec fn return_cell(self, frame: Option<Val>, v: Val) -> Result<St, CodegenError> {
        match cell_of(v, "function result") {
            Err(e) => Err(e),
            Ok(v) => {
                let (st, r) = self.leave(frame, v);
                Ok(st.ret(r))
            },
        }
    }

    /// Begin a function: its head, its environment parameter and the first
    /// block. The variables of the surroundings are out of scope.
    pub open spec fn begin_func(self, name: FuncName, ret: Ty, params: Seq<Ty>) -> St {
        let func = self.here();
        let st = self.put(Cmd::Func { name, ret }).put(
            Cmd::Param { ty: env_ty(self.cx.gc) },
        ).put_params(params, params.len());
        let st = St {
            script: st.script,
            cx: Cx { lifted: (self.cx.lifted + 1) as u64, func, ..st.cx },
        };
        let (st, entry) = st.new_block("entry");
        st.at(entry).in_env(Rc::new(Scope::Empty))
    }

    /// The first `n` parameter types.
    pub open spec fn put_params(self, params: Seq<Ty>, n: nat) -> St
        decreases n,
    {
        if n == 0 {
            self
        } else {
            self.put_params(params, (n - 1) as nat).put(Cmd::Param { ty: params[n - 1] })
        }
    }

    /// Go back to the surroundings of a function.
    pub open spec fn end_func(self, outer: St) -> St {
        self.in_env(outer.cx.env).with_func(outer.cx.func).at(outer.cx.block)
    }

    /// Bind the parameters from position `i` on.
    pub open spec fn bind_params(self, func: u64, params: Seq<Param>, tys: Seq<Ty>, i: nat) -> St
        decreases params.len() - i,
    {
        if i >= params.len() {
            self
        } else {
            self.bind(
                params[i as int].name,
                Val { id: Id::Param { func, index: (i + 1) as u32 }, ty: tys[i as int] },
                params[i as int].ty,
                params[i as int].layout,
            ).bind_params(func, params, tys, i + 1)
        }
    }

    /// Make a phi of every parameter from position `i` on, at the head of the
    /// function's loop.
    pub open spec fn param_phis(
        self,
        func: u64,
        params: Seq<Param>,
        tys: Seq<Ty>,
        from: u64,
        i: nat,
        done: Seq<u64>,
    ) -> (St, Seq<u64>)
        decreases params.len() - i,
    {
        if i >= params.len() {
            (self, done)
        } else {
            let phi = self.here();
            let (st, v) = self.phi(Ty::I64, "tail.p");
            let seed = Val { id: Id::Param { func, index: (i + 1) as u32 }, ty: tys[i as int] };
            st.incoming(phi, seed, from).bind(
                params[i as int].name,
                v,
                params[i as int].ty,
                params[i as int].layout,
            ).param_phis(func, params, tys, from, i + 1, done.push(phi))
        }
    }

    /// Go on at the head of the loop with the next arguments.
    pub open spec fn jump(self, t: Tail, nexts: Seq<Val>) -> St {
        self.feed(t.phis, nexts, self.cx.block, t.phis.len()).br(t.head)
    }

    /// The first `n` edges into the phis.
    pub open spec fn feed(self, phis: Seq<u64>, vs: Seq<Val>, from: u64, n: nat) -> St
        decreases n,
    {
        if n == 0 {
            self
        } else {
            self.feed(phis, vs, from, (n - 1) as nat).incoming(phis[n - 1], vs[n - 1], from)
        }
    }

    /// The next arguments of a tail call, from position `i` on.
    pub open spec fn next_args(self, args: Seq<CallArg>, i: nat, done: Seq<Val>) -> Result<
        (St, Seq<Val>),
        CodegenError,
    >
        decreases args.len() - i,
    {
        if i >= args.len() {
            Ok((self, done))
        } else {
            match self.cell(args[i as int].value, "tail-recursive argument") {
                Err(e) => Err(e),
                Ok((st, v)) => st.next_args(args, i + 1, done.push(v)),
            }
        }
    }

    // ── closures ─────────────────────────────────────────────────────────
    /// A closure object for the entries, with its captures stored. A function
    /// that names itself is bound to the closure first.
    pub open spec fn build_closure(
        self,
        own: Option<String>,
        fun_ty: Rc<Type>,
        caps: Seq<CaptureInfo>,
        entry: Val,
        fast: Val,
        arity: Val,
    ) -> Out {
        if self.cx.gc {
            let (st, clos) = self.gc_alloc(
                traced_before(caps, caps.len()) as u64,
                (RESERVED + untraced_before(caps, caps.len())) as u64,
            );
            let st = match own {
                Some(name) => st.bind(name, clos, fun_ty, ValueLayout::pointer_cell_layout()),
                None => st,
            };
            let st = st.gc_set_scalar(clos, 0, entry).gc_set_scalar(clos, 1, fast).gc_set_scalar(
                clos,
                2,
                arity,
            );
            match st.store_captures(clos, caps, 0) {
                Err(e) => Err(e),
                Ok(st) => Ok((st, clos)),
            }
        } else if (RESERVED + cells_before(caps, caps.len())) * 8 > u64::MAX {
            Err(CodegenError::TooManyCells)
        } else {
            let (st, block) = self.arg(
                constant(((RESERVED + cells_before(caps, caps.len())) * 8) as u64),
            ).call("locus_alloc", Ty::Ptr, "alloc");
            let (st, clos) = st.convert(Conv::PtrToInt, block, Ty::I64, "clos");
            let st = match own {
                Some(name) => st.bind(name, clos, fun_ty, ValueLayout::scalar_cell_layout()),
                None => st,
            };
            let (st, p) = st.gep(Ty::I64, block, constant(0), "fn.slot");
            let st = st.store(p, entry);
            let (st, p) = st.gep(Ty::I64, block, constant(1), "fast.slot");
            let st = st.store(p, fast);
            let (st, p) = st.gep(Ty::I64, block, constant(2), "fastarity.slot");
            let st = st.store(p, arity);
            match st.store_captures(block, caps, 0) {
                Err(e) => Err(e),
                Ok(st) => Ok((st, clos)),
            }
        }
    }

    /// The address of a function as a cell.
    pub open spec fn func_addr(self, func: u64, label: &'static str) -> (St, Val) {
        self.convert(Conv::PtrToInt, Val { id: Id::Func(func), ty: Ty::Ptr }, Ty::I64, label)
    }

    // ── loops ────────────────────────────────────────────────────────────
    /// The starting values of the accumulators from position `i` on: a rooted
    /// one is put into a root.
    pub open spec fn loop_inits(
        self,
        vars: Seq<LoopVar>,
        storages: Seq<LoopVarStorage>,
        i: nat,
        done: Seq<Val>,
    ) -> Result<(St, Seq<Val>), CodegenError>
        decreases vars.len() - i,
    {
        if i >= vars.len() {
            Ok((self, done))
        } else if storages[i as int] is Scalar {
            match self.atom(vars[i as int].init) {
                Err(e) => Err(e),
                Ok((st, v)) => st.loop_inits(vars, storages, i + 1, done.push(v)),
            }
        } else {
            match self.cell(vars[i as int].init, "loop handle accumulator init") {
                Err(e) => Err(e),
                Ok((st, v)) => {
                    let (st, root) = st.gc_root(v);
                    st.loop_inits(vars, storages, i + 1, done.push(root))
                },
            }
        }
    }

    /// Bind the accumulators from position `i` on at the loop head: a scalar one
    /// to a phi, a rooted one to its root.
    pub open spec fn loop_head(
        self,
        vars: Seq<LoopVar>,
        storages: Seq<LoopVarStorage>,
        inits: Seq<Val>,
        from: u64,
        i: nat,
        phis: Seq<Option<u64>>,
    ) -> (St, Seq<Option<u64>>)
        decreases vars.len() - i,
    {
        if i >= vars.len() {
            (self, phis)
        } else {
            let var = vars[i as int];
            let init = inits[i as int];
            if storages[i as int] is Scalar {
                let phi = self.here();
                let (st, v) = self.phi_as(
                    init.ty,
                    Title::Var { before: "loop.", name: var.name, after: "" },
                );
                st.incoming(phi, init, from).bind(var.name, v, var.ty, var.layout).loop_head(
                    vars,
                    storages,
                    inits,
                    from,
                    i + 1,
                    phis.push(Some(phi)),
                )
            } else {
                self.bind(var.name, init, var.ty, var.layout).loop_head(
                    vars,
                    storages,
                    inits,
                    from,
                    i + 1,
                    phis.push(None),
                )
            }
        }
    }

    /// Put the new values of the rooted accumulators into their roots.
    pub open spec fn set_roots(
        self,
        storages: Seq<LoopVarStorage>,
        roots: Seq<Val>,
        nexts: Seq<Val>,
        n: nat,
    ) -> St
        decreases n,
    {
        if n == 0 {
            self
        } else {
            let st = self.set_roots(storages, roots, nexts, (n - 1) as nat);
            if storages[n - 1] is HandleRoot {
                st.gc_root_set(roots[n - 1], nexts[n - 1]).0
            } else {
                st
            }
        }
    }

    /// The edges from the loop body into the phis.
    pub open spec fn loop_edges(self, phis: Seq<Option<u64>>, nexts: Seq<Val>, from: u64, n: nat) -> St
        decreases n,
    {
        if n == 0 {
            self
        } else {
            let st = self.loop_edges(phis, nexts, from, (n - 1) as nat);
            match phis[n - 1] {
                Some(phi) => st.incoming(phi, nexts[n - 1], from),
                None => st,
            }
        }
    }

    /// Note the index that the loop guard proves in bounds.
    pub open spec fn note_bound(self, bound: Option<(String, String)>) -> St {
        match bound {
            None => self,
            Some((arr, idx)) => self.with_bounds(
                Rc::new(Scope::More { name: arr, item: idx, rest: self.cx.bounds }),
            ),
        }
    }
}

/// What a loop is made of once its head is laid out.
pub struct LoopHead {
    pub storages: Seq<LoopVarStorage>,
    /// The starting value or the root of each accumulator.
    pub inits: Seq<Val>,
    /// The phi of each accumulator that has one.
    pub phis: Seq<Option<u64>>,
    pub head: u64,
    pub body: u64,
    pub exit: u64,
    /// The variables in scope inside the loop.
    pub env: Rc<Scope<EnvVal>>,
}

/// How the parameters from position `i` on are passed.
pub open spec fn param_tys(params: Seq<Param>, i: nat, done: Seq<Ty>) -> Result<
    Seq<Ty>,
    CodegenError,
>
    decreases params.len() - i,
{
    if i >= params.len() {
        Ok(done)
    } else {
        match abi_ty(params[i as int].ty) {
            Err(e) => Err(e),
            Ok(t) => param_tys(params, i + 1, done.push(t)),
        }
    }
}

/// Every parameter is passed in a cell.
pub open spec fn all_in_cells(params: Seq<Param>) -> bool {
    forall|i: int| 0 <= i < params.len() ==> passed_in_cell(*(#[trigger] params[i]).ty)
}

/// All parameters of a lambda chain.
pub open spec fn all_params(lam: Comp) -> Seq<Param> {
    match lam {
        Comp::Lam { param, param_ty, param_layout, body, .. } => seq![
            Param { name: param, ty: ty_or_int(param_ty), layout: param_layout },
        ] + chain_params(*body),
        _ => Seq::empty(),
    }
}

impl St {
    /// Everything in front of the test of a loop: starting values, borrowed
    /// arrays, blocks and accumulators.
    pub open spec fn loop_enter(self, vars: Seq<LoopVar>, cond: Ir, steps: Vec<Ir>) -> Result<
        (St, LoopHead),
        CodegenError,
    > {
        if vars.len() != steps.len() {
            Err(CodegenError::LoopArity(vars.len() as usize, steps.len()))
        } else {
            match storages_from(vars, 0, Seq::empty()) {
                Err(e) => Err(e),
                Ok(storages) => if any_root(storages) && !self.cx.gc {
                    Err(CodegenError::LoopNeedsGc)
                } else {
                    match self.loop_inits(vars, storages, 0, Seq::empty()) {
                        Err(e) => Err(e),
                        Ok((st, inits)) => match st.borrow_arrays(
                            loop_arrays(vars, storages, cond, steps),
                            0,
                            st.cx.raws,
                        ) {
                            Err(e) => Err(e),
                            Ok((st, raws)) => Ok(
                                st.loop_blocks(vars, storages, inits, raws),
                            ),
                        },
                    }
                },
            }
        }
    }

    /// The blocks of a loop, up to its head.
    pub open spec fn loop_blocks(
        self,
        vars: Seq<LoopVar>,
        storages: Seq<LoopVarStorage>,
        inits: Seq<Val>,
        raws: Rc<Scope<RawArray>>,
    ) -> (St, LoopHead) {
        let from = self.cx.block;
        let (st, head) = self.new_block("loop");
        let (st, body) = st.new_block("loop.body");
        let (st, exit) = st.new_block("loop.exit");
        let (st, phis) = st.br(head).with_raws(raws).at(head).loop_head(
            vars,
            storages,
            inits,
            from,
            0,
            Seq::empty(),
        );
        (st, LoopHead { storages, inits, phis, head, body, exit, env: st.cx.env })
    }

    /// The way out of a loop: the edges back to its head, and its exit, where
    /// nothing is borrowed or known any more.
    pub open spec fn loop_close(self, h: LoopHead, nexts: Seq<Val>, outer: St) -> St {
        self.with_bounds(outer.cx.bounds).loop_edges(
            h.phis,
            nexts,
            self.cx.block,
            h.phis.len(),
        ).br(h.head).at(h.exit).with_raws(outer.cx.raws).in_env(h.env)
    }

    /// The handlers with one more in front.
    pub open spec fn push_handler(self, handler: IrHandler, exit: Option<Exit>) -> St {
        self.with_handlers(
            Rc::new(Frames::More { clauses: handler.ops, exit, rest: self.cx.handlers }),
        )
    }

    /// The head of a branch: the test of its condition and its blocks.
    pub open spec fn branch(self, cond: Val, label: &'static str) -> (St, u64, u64) {
        let (st, test) = self.itest(IntPred::Ne, cond, constant(0), label);
        let (st, yes) = st.new_block("then");
        let (st, no) = st.new_block("else");
        (st.cond_br(test, yes, no), yes, no)
    }

    // ── blocks ───────────────────────────────────────────────────────────
    /// A block of code: its bindings, then its result.
    pub open spec fn block(self, fuel: nat, ir: Ir) -> Out
        decreases fuel, ir, 0int,
    {
        match ir {
            Ir::Block { binds, comp, .. } => match self.binds_from(fuel, binds, 0) {
                Err(e) => Err(e),
                Ok(st) => st.comp(fuel, *comp),
            },
            Ir::Let { name, ty, layout, comp, rest, .. } => match self.binding(
                fuel,
                name,
                ty,
                layout,
                *comp,
            ) {
                Err(e) => Err(e),
                Ok(st) => st.block(fuel, *rest),
            },
            Ir::Ret { comp, .. } => self.comp(fuel, *comp),
        }
    }

    /// The bindings from position `i` on.
    pub open spec fn binds_from(self, fuel: nat, binds: Vec<IrBind>, i: nat) -> Result<
        St,
        CodegenError,
    >
        decreases fuel, binds, binds.len() - i,
    {
        if i >= binds.len() {
            Ok(self)
        } else {
            let b = binds[i as int];
            match self.binding(fuel, b.name, b.ty, b.layout, *b.comp) {
                Err(e) => Err(e),
                Ok(st) => st.binds_from(fuel, binds, i + 1),
            }
        }
    }

    /// One binding. A lambda that refers to the name it is bound to is a
    /// recursive function; the declaration of a foreign function binds nothing.
    pub open spec fn binding(
        self,
        fuel: nat,
        name: String,
        ty: Rc<Type>,
        layout: ValueLayout,
        comp: Comp,
    ) -> Result<St, CodegenError>
        decreases fuel, comp, 3int,
    {
        if comp is Extern {
            Ok(self)
        } else {
            let out = if names_itself(comp, name@) {
                self.closure(fuel, Some(name), comp)
            } else {
                self.comp(fuel, comp)
            };
            match out {
                Err(e) => Err(e),
                Ok((st, v)) => Ok(st.bind(name, v, ty, layout)),
            }
        }
    }

    /// A computation.
    pub open spec fn comp(self, fuel: nat, comp: Comp) -> Out
        decreases fuel, comp, 2int,
    {
        match comp {
            Comp::If(..) => self.if_code(fuel, comp),
            Comp::Loop { .. } => self.loop_code(fuel, comp),
            Comp::Lam { .. } => self.closure(fuel, None, comp),
            Comp::Perform(label, arg) => self.perform(fuel, comp),
            Comp::Handle { .. } => self.handle(fuel, comp),
            _ => self.simple(comp),
        }
    }

    /// A branch whose two values meet in a phi.
    pub open spec fn if_code(self, fuel: nat, comp: Comp) -> Out
        decreases fuel, comp, 1int,
    {
        match comp {
            Comp::If(cond, then, els) => match self.cell(cond, "if condition") {
                Err(e) => Err(e),
                Ok((st, c)) => {
                    let env = st.cx.env;
                    let (st, test) = st.itest(IntPred::Ne, c, constant(0), "if.test");
                    let (st, yes) = st.new_block("then");
                    let (st, no) = st.new_block("else");
                    let (st, merge) = st.new_block("merge");
                    let st = st.cond_br(test, yes, no).at(yes);
                    match st.block(fuel, *then) {
                        Err(e) => Err(e),
                        Ok((st, a)) => {
                            let a_end = st.cx.block;
                            match st.br(merge).in_env(env).at(no).block(fuel, *els) {
                                Err(e) => Err(e),
                                Ok((st, b)) => {
                                    let b_end = st.cx.block;
                                    let st = st.br(merge).in_env(env).at(merge);
                                    let phi = st.here();
                                    let (st, v) = st.phi(a.ty, "if.val");
                                    Ok((st.incoming(phi, a, a_end).incoming(phi, b, b_end), v))
                                },
                            }
                        },
                    }
                },
            },
            _ => self.simple(comp),
        }
    }

    // ── loops ────────────────────────────────────────────────────────────
    /// A loop.
    pub open spec fn loop_code(self, fuel: nat, comp: Comp) -> Out
        decreases fuel, comp, 1int,
    {
        match comp {
            Comp::Loop { vars, cond, steps, result } => match self.loop_enter(vars@, *cond, steps) {
                Err(e) => Err(e),
                Ok((st, h)) => match st.loop_test(fuel, *cond, h) {
                    Err(e) => Err(e),
                    Ok(st) => match st.note_bound(
                        proved_bound(vars@, *cond, steps@),
                    ).loop_steps(fuel, steps, h) {
                        Err(e) => Err(e),
                        Ok((st, nexts)) => match st.loop_close(h, nexts, self).block(fuel, *result) {
                            Err(e) => Err(e),
                            Ok((st, v)) => Ok((st.in_env(self.cx.env), v)),
                        },
                    },
                },
            },
            _ => self.simple(comp),
        }
    }

    /// A block inside a loop, in a handle scope of its own where it needs one.
    pub open spec fn loop_block(self, fuel: nat, ir: Ir) -> Out
        decreases fuel, ir, 1int,
    {
        let (st, frame) = self.enter(self.cx.gc && (performs_gc(ir) || produces_handle(ir)));
        match st.block(fuel, ir) {
            Err(e) => Err(e),
            Ok((st, v)) => Ok(st.leave(frame, v)),
        }
    }

    /// The test at the head of a loop; on at its body.
    pub open spec fn loop_test(self, fuel: nat, cond: Ir, h: LoopHead) -> Result<St, CodegenError>
        decreases fuel, cond, 2int,
    {
        match self.loop_block(fuel, cond) {
            Err(e) => Err(e),
            Ok((st, v)) => match cell_of(v, "loop condition") {
                Err(e) => Err(e),
                Ok(v) => {
                    let (st, test) = st.itest(IntPred::Ne, v, constant(0), "loop.test");
                    Ok(st.in_env(h.env).cond_br(test, h.body, h.exit).at(h.body))
                },
            },
        }
    }

    /// The steps of a loop. Where an accumulator is rooted, one handle scope
    /// spans them all and the roots are set at its end.
    pub open spec fn loop_steps(self, fuel: nat, steps: Vec<Ir>, h: LoopHead) -> Cells
        decreases fuel, steps, steps.len() + 1,
    {
        if any_root(h.storages) {
            let (st, frame) = self.enter(self.cx.gc && steps_need_scope(steps@));
            match st.steps_from(fuel, steps, h, 0, Seq::empty()) {
                Err(e) => Err(e),
                Ok((st, nexts)) => {
                    let st = st.set_roots(h.storages, h.inits, nexts, nexts.len());
                    Ok(
                        (
                            match frame {
                                Some(f) => st.gc_leave(f),
                                None => st,
                            },
                            nexts,
                        ),
                    )
                },
            }
        } else {
            self.steps_from(fuel, steps, h, 0, Seq::empty())
        }
    }

    /// The steps from position `i` on, each from the variables of the loop head.
    pub open spec fn steps_from(
        self,
        fuel: nat,
        steps: Vec<Ir>,
        h: LoopHead,
        i: nat,
        done: Seq<Val>,
    ) -> Cells
        decreases fuel, steps, steps.len() - i,
    {
        if i >= steps.len() {
            Ok((self, done))
        } else {
            let out = if any_root(h.storages) {
                self.in_env(h.env).block(fuel, steps[i as int])
            } else {
                self.in_env(h.env).loop_block(fuel, steps[i as int])
            };
            match out {
                Err(e) => Err(e),
                Ok((st, v)) => match next_of(v, h.storages[i as int]) {
                    Err(e) => Err(e),
                    Ok(v) => st.steps_from(fuel, steps, h, i + 1, done.push(v)),
                },
            }
        }
    }

    // ── closures ─────────────────────────────────────────────────────────
    /// A lambda: the function lifted from it, its uncurried entry where it has
    /// one, and the closure.
    pub open spec fn closure(self, fuel: nat, own: Option<String>, lam: Comp) -> Out
        decreases fuel, lam, 1int,
    {
        match lam {
            Comp::Lam { param, param_ty, ret_ty, body, .. } => {
                let fun_ty = pointer_to(Type::Fun(ty_or_int(param_ty), ret_ty, self.cx.pure));
                match self.place_captures(
                    own,
                    fun_ty,
                    capture_names(*body, param@, *self.cx.handlers),
                    0,
                    Seq::empty(),
                ) {
                    Err(e) => Err(e),
                    Ok(caps) => match self.lift(fuel, own, lam, caps) {
                        Err(e) => Err(e),
                        Ok((st, func)) => {
                            let (st, entry) = st.func_addr(func, "fnaddr");
                            match st.fast(fuel, own, lam, caps) {
                                Err(e) => Err(e),
                                Ok((st, fast, arity)) => st.build_closure(
                                    own,
                                    fun_ty,
                                    caps,
                                    entry,
                                    fast,
                                    arity,
                                ),
                            }
                        },
                    },
                }
            },
            _ => self.simple(lam),
        }
    }

    /// The function lifted from a lambda. One that calls itself in tail position
    /// is a loop over its argument.
    pub open spec fn lift(
        self,
        fuel: nat,
        own: Option<String>,
        lam: Comp,
        caps: Seq<CaptureInfo>,
    ) -> Result<(St, u64), CodegenError>
        decreases fuel, lam, 0int,
    {
        match lam {
            Comp::Lam { param, param_ty, param_layout, ret_ty, body } => {
                let ty = ty_or_int(param_ty);
                let func = self.here();
                if self.cx.lifted == u64::MAX {
                    Err(CodegenError::TooManyFunctions)
                } else {
                    match abi_ty(ty) {
                        Err(e) => Err(e),
                        Ok(a) => match abi_ty(ret_ty) {
                            Err(e) => Err(e),
                            Ok(r) => {
                                let arg = Val { id: Id::Param { func, index: 1 }, ty: a };
                                let st = self.begin_func(
                                    FuncName::Lam(self.cx.lifted),
                                    r,
                                    seq![a],
                                ).bind(param, arg, ty, param_layout);
                                match st.enter_function(func, caps) {
                                    Err(e) => Err(e),
                                    Ok((st, frame)) => {
                                        let out = if own is Some && loops_over(*ty, *ret_ty, *body) {
                                            let (st, head) = st.new_block("tail.loop");
                                            let from = st.cx.block;
                                            let st = st.br(head).at(head);
                                            let phi = st.here();
                                            let (st, v) = st.phi(Ty::I64, "tail.arg");
                                            st.incoming(phi, arg, from).bind(
                                                param,
                                                v,
                                                ty,
                                                param_layout,
                                            ).tail(
                                                fuel,
                                                *body,
                                                Tail {
                                                    own: own->0,
                                                    head,
                                                    phis: seq![phi],
                                                    uncurried: false,
                                                    frame,
                                                    live: true,
                                                },
                                            )
                                        } else {
                                            st.plain_body(fuel, *body, frame)
                                        };
                                        match out {
                                            Err(e) => Err(e),
                                            Ok(st) => Ok((st.end_func(self), func)),
                                        }
                                    },
                                }
                            },
                        },
                    }
                }
            },
            _ => Err(CodegenError::NotAFunction),
        }
    }

    /// The handle scope and the captures of a function.
    pub open spec fn enter_function(self, func: u64, caps: Seq<CaptureInfo>) -> Result<
        (St, Option<Val>),
        CodegenError,
    > {
        let (st, frame) = self.enter(self.cx.gc);
        match st.load_captures(
            Val { id: Id::Param { func, index: 0 }, ty: env_ty(self.cx.gc) },
            caps,
            0,
        ) {
            Err(e) => Err(e),
            Ok(st) => Ok((st, frame)),
        }
    }

    /// The body of a function that does not loop.
    pub open spec fn plain_body(self, fuel: nat, body: Ir, frame: Option<Val>) -> Result<
        St,
        CodegenError,
    >
        decreases fuel, body, 1int,
    {
        match self.block(fuel, body) {
            Err(e) => Err(e),
            Ok((st, v)) => {
                let (st, v) = st.leave(frame, v);
                Ok(st.ret(v))
            },
        }
    }

    /// The uncurried entry of a lambda chain: its address and arity, or zeros. A
    /// recursive chain has one only if it can loop.
    pub open spec fn fast(
        self,
        fuel: nat,
        own: Option<String>,
        lam: Comp,
        caps: Seq<CaptureInfo>,
    ) -> Result<(St, Val, Val), CodegenError>
        decreases fuel, lam, 0int,
    {
        match lam {
            Comp::Lam { ret_ty, body, .. } => {
                proof {
                    lemma_chain_body(crate::ir::target(body));
                }
                let params = all_params(lam);
                let inner = chain_body(*body);
                let ret = chain_ret(*body, ret_ty);
                if params.len() < 2 || (own is Some && !(all_in_cells(params) && passed_in_cell(
                    *ret,
                ) && !performs_gc(inner))) {
                    Ok((self, constant(0), constant(0)))
                } else {
                    match self.fast_entry(fuel, own, params, caps, inner, ret) {
                        Err(e) => Err(e),
                        Ok((st, func)) => {
                            let (st, addr) = st.func_addr(func, "fastaddr");
                            Ok((st, addr, constant(params.len() as u64)))
                        },
                    }
                }
            },
            _ => Err(CodegenError::NotAFunction),
        }
    }

    /// The function behind an uncurried entry.
    pub open spec fn fast_entry(
        self,
        fuel: nat,
        own: Option<String>,
        params: Seq<Param>,
        caps: Seq<CaptureInfo>,
        body: Ir,
        ret_ty: Rc<Type>,
    ) -> Result<(St, u64), CodegenError>
        decreases fuel, body, 2int,
    {
        let func = self.here();
        if self.cx.lifted == u64::MAX {
            Err(CodegenError::TooManyFunctions)
        } else {
            match param_tys(params, 0, Seq::empty()) {
                Err(e) => Err(e),
                Ok(tys) => match abi_ty(ret_ty) {
                    Err(e) => Err(e),
                    Ok(r) => match self.begin_func(
                        FuncName::Fast(self.cx.lifted),
                        r,
                        tys,
                    ).bind_params(func, params, tys, 0).enter_function(func, caps) {
                        Err(e) => Err(e),
                        Ok((st, frame)) => {
                            let out = match own {
                                Some(own) => {
                                    let (st, head) = st.new_block("tail.loop");
                                    let from = st.cx.block;
                                    let (st, phis) = st.br(head).at(head).param_phis(
                                        func,
                                        params,
                                        tys,
                                        from,
                                        0,
                                        Seq::empty(),
                                    );
                                    st.tail(
                                        fuel,
                                        body,
                                        Tail { own, head, phis, uncurried: true, frame, live: true },
                                    )
                                },
                                None => st.plain_body(fuel, body, frame),
                            };
                            match out {
                                Err(e) => Err(e),
                                Ok(st) => Ok((st.end_func(self), func)),
                            }
                        },
                    },
                },
            }
        }
    }

    /// The body of a function that loops, as far as it returns or goes on.
    pub open spec fn tail(self, fuel: nat, ir: Ir, t: Tail) -> Result<St, CodegenError>
        decreases fuel, ir, 0int,
    {
        match ir {
            Ir::Block { binds, comp, .. } => match self.binds_from(fuel, binds, 0) {
                Err(e) => Err(e),
                Ok(st) => st.tail_comp(fuel, *comp, t.behind_all(binds@)),
            },
            Ir::Let { name, ty, layout, comp, rest, .. } => match self.binding(
                fuel,
                name,
                ty,
                layout,
                *comp,
            ) {
                Err(e) => Err(e),
                Ok(st) => st.tail(fuel, *rest, t.behind(name@)),
            },
            Ir::Ret { comp, .. } => self.tail_comp(fuel, *comp, t),
        }
    }

    /// A computation in tail position: a call of the function itself goes on at
    /// the head of the loop, anything else returns.
    pub open spec fn tail_comp(self, fuel: nat, comp: Comp, t: Tail) -> Result<St, CodegenError>
        decreases fuel, comp, 4int,
    {
        if calls_itself(comp, t) {
            self.tail_call(comp, t)
        } else if comp is If {
            self.tail_if(fuel, comp, t)
        } else {
            match self.comp(fuel, comp) {
                Err(e) => Err(e),
                Ok((st, v)) => st.return_cell(t.frame, v),
            }
        }
    }

    /// Go on at the head of the loop with the arguments of a call.
    pub open spec fn tail_call(self, comp: Comp, t: Tail) -> Result<St, CodegenError> {
        match comp {
            Comp::App { arg, .. } => match self.cell(arg, "tail-recursive argument") {
                Err(e) => Err(e),
                Ok((st, v)) => Ok(st.jump(t, seq![v])),
            },
            Comp::Call { args, .. } => match self.next_args(args@, 0, Seq::empty()) {
                Err(e) => Err(e),
                Ok((st, nexts)) => Ok(st.jump(t, nexts)),
            },
            _ => Ok(self),
        }
    }

    /// A branch in tail position: its two sides do not meet.
    pub open spec fn tail_if(self, fuel: nat, comp: Comp, t: Tail) -> Result<St, CodegenError>
        decreases fuel, comp, 3int,
    {
        match comp {
            Comp::If(cond, then, els) => match self.cell(cond, "if condition") {
                Err(e) => Err(e),
                Ok((st, c)) => {
                    let env = st.cx.env;
                    let (st, yes, no) = st.branch(c, "ifcond");
                    match st.at(yes).tail(fuel, *then, t) {
                        Err(e) => Err(e),
                        Ok(st) => st.at(no).in_env(env).tail(fuel, *els, t),
                    }
                },
            },
            _ => Ok(self),
        }
    }

    // ── handlers ─────────────────────────────────────────────────────────
    /// An operation: the clause of the innermost handler that has one for it, in
    /// its place. A clause in which its own operation comes up has no end.
    pub open spec fn perform(self, fuel: nat, comp: Comp) -> Out
        decreases fuel, comp, 1int,
    {
        match comp {
            Comp::Perform(label, arg) => match clause_for(*self.cx.handlers, label) {
                None => self.unhandled(label, arg),
                Some((c, exit, outside)) => if self.cx.inlined.holds(label, outside) {
                    Err(CodegenError::ClauseAgain(label))
                } else {
                    match self.atom(arg) {
                        Err(e) => Err(e),
                        Ok((st, v)) => {
                            let st = st.bind(c.arg, v, c.arg_ty, c.arg_layout).with_inlined(
                                Rc::new(
                                    Inlined::More { op: label, outside, rest: self.cx.inlined },
                                ),
                            );
                            if fuel == 0 {
                                Err(CodegenError::InlineDepth)
                            } else {
                                match st.clause((fuel - 1) as nat, label, c, exit) {
                                    Err(e) => Err(e),
                                    Ok((st, v)) => Ok(
                                        (st.with_inlined(self.cx.inlined).in_env(self.cx.env), v),
                                    ),
                                }
                            }
                        },
                    }
                },
            },
            _ => self.simple(comp),
        }
    }

    /// A clause in the place of the operation it handles. Where it resumes last,
    /// its value is that of the operation; where it never resumes, it leaves the
    /// handler.
    pub open spec fn clause(self, fuel: nat, label: Label, c: IrOpClause, exit: Option<Exit>) -> Out
        decreases fuel, c.body, 1int,
    {
        match c.shape {
            Shape::Tail => match self.with_resume(Some(c.resume)).block(fuel, *c.body) {
                Err(e) => Err(e),
                Ok((st, v)) => Ok((st.with_resume(self.cx.resume), v)),
            },
            Shape::Abort => match exit {
                None => Err(CodegenError::NoExit),
                Some(exit) => match self.block(fuel, *c.body) {
                    Err(e) => Err(e),
                    Ok((st, v)) => match st.abort_to(exit, v) {
                        Err(e) => Err(e),
                        Ok(st) => Ok((st, constant(0))),
                    },
                },
            },
            shape => Err(CodegenError::ClauseShape(label, shape)),
        }
    }

    /// An operation that no handler has a clause for.
    pub open spec fn unhandled(self, label: Label, arg: Atom) -> Out {
        if writes_float(label) {
            match self.cell(arg, "float") {
                Err(e) => Err(e),
                Ok((st, bits)) => Ok((st.arg(bits).call_void("locus_write_float"), constant(0))),
            }
        } else {
            Err(CodegenError::UnhandledEffect(label))
        }
    }

    /// Leave a handler with a result; what follows is never reached.
    pub open spec fn abort_to(self, exit: Exit, v: Val) -> Result<St, CodegenError> {
        match cell_of(v, "abort handler result") {
            Err(e) => Err(e),
            Ok(v) => {
                let (st, dead) = self.store(exit.slot, v).br(exit.block).new_block("after.abort");
                Ok(st.at(dead))
            },
        }
    }

    /// A handler.
    pub open spec fn handle(self, fuel: nat, comp: Comp) -> Out
        decreases fuel, comp, 1int,
    {
        match comp {
            Comp::Handle { scrutinee, handler } => if any_reified(handler.ops@) {
                match cps(*scrutinee, *handler, self.cx.pure) {
                    Err(e) => Err(e),
                    Ok(ir) => if fuel == 0 {
                        Err(CodegenError::InlineDepth)
                    } else {
                        match self.with_resume(None).block((fuel - 1) as nat, ir) {
                            Err(e) => Err(e),
                            Ok((st, v)) => Ok((st.with_resume(self.cx.resume), v)),
                        }
                    },
                }
            } else if any_abort(handler.ops@) {
                let (st, slot) = self.def(
                    Cmd::Alloca { ty: Ty::I64, label: "handle.slot" },
                    Ty::Ptr,
                );
                let (st, exit) = st.new_block("handle.exit");
                match st.handled(fuel, comp, Some(Exit { block: exit, slot })) {
                    Err(e) => Err(e),
                    Ok((st, v)) => match cell_of(v, "handler result") {
                        Err(e) => Err(e),
                        Ok(v) => Ok(
                            st.store(slot, v).br(exit).at(exit).load(Ty::I64, slot, "handle.result"),
                        ),
                    },
                }
            } else {
                self.handled(fuel, comp, None)
            },
            _ => self.simple(comp),
        }
    }

    /// What a handler covers, and its return clause.
    pub open spec fn handled(self, fuel: nat, comp: Comp, exit: Option<Exit>) -> Out
        decreases fuel, comp, 0int,
    {
        match comp {
            Comp::Handle { scrutinee, handler } => match self.push_handler(*handler, exit).block(
                fuel,
                *scrutinee,
            ) {
                Err(e) => Err(e),
                Ok((st, v)) => st.with_handlers(self.cx.handlers).bind(
                    handler.ret.var,
                    v,
                    handler.ret.var_ty,
                    handler.ret.var_layout,
                ).block(fuel, *handler.ret.body),
            },
            _ => self.simple(comp),
        }
    }
}

/// A lambda that refers to the name it is bound to.
pub open spec fn names_itself(comp: Comp, name: Seq<char>) -> bool {
    match comp {
        Comp::Lam { param, body, .. } => has_name(lambda_occ(*body, param@), name),
        _ => false,
    }
}

/// A function of one argument that calls itself last can be a loop.
pub open spec fn loops_over(ty: Type, ret: Type, body: Ir) -> bool {
    !performs_gc(body) && passed_in_cell(ty) && passed_in_cell(ret)
}

/// A computation that calls the function it is the last part of, whose name still
/// stands for it.
pub open spec fn calls_itself(comp: Comp, t: Tail) -> bool {
    t.live && match comp {
        Comp::App { fun: Atom::Var(f), .. } => !t.uncurried && f@ == t.own@,
        Comp::Call { fun: Atom::Var(f), args, .. } => t.uncurried && f@ == t.own@ && args.len()
            == t.phis.len(),
        _ => false,
    }
}

/// The next value of an accumulator; a rooted one is a cell.
pub open spec fn next_of(v: Val, storage: LoopVarStorage) -> Result<Val, CodegenError> {
    match storage {
        LoopVarStorage::Scalar => Ok(v),
        LoopVarStorage::HandleRoot => cell_of(v, "loop handle accumulator step"),
    }
}

} // verus!
