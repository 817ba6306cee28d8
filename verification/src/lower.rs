//! The code generator on whole blocks, and the modules it makes of programs and
//! libraries.
use crate::analysis::{
    block_binds_name, block_performs_gc, block_preserves_raw_heap_ptrs, block_produces_gc_handle, keeps_raw_ptrs,
    performs_gc, produces_handle,
};
use crate::blocks::{
    all_in_cells, all_params, any_abort, any_reified, any_root, calls_itself, chain_body, rebinds,
    chain_params, chain_ret, is_root_name, keep_unrooted, loop_arrays, names_itself, next_of,
    param_tys, sole_lambda, steps_need_scope, storages_from, ty_or_int, writes_float, LoopHead,
    Param, Tail,
};
use crate::captures::{cells_before, placed_captures_are_packed, RESERVED};
use crate::closures::{abi_is_scalar_cell, abi_type, captured_names, find_handler, passed_in_cell};
use crate::cps::cps_transform;
use crate::error::CodegenError;
use crate::freevars::free_vars;
use crate::heap::agrees_cells;
use crate::ir::{
    allocate, share, Atom, CallArg, Comp, Ir, IrBind, IrHandler, IrOpClause, Label, LoopVar, Shape,
    Type, ValueLayout,
};
use crate::layout::{loop_var_storage, CaptureInfo, LoopVarStorage};
use crate::loops::{collect_raw_array_uses, proved_loop_array_bounds, raw_uses_steps, steps_leave_free};
use crate::names::{add_names, contains_name, lemma_add_names_concat};
use crate::state::{agrees, agrees_unit, expect_cell, Cg, EnvVal, Exit, Frames, Inlined, RawArray, Scope, St};
use crate::target::{const_cell, Cmd, Conv, FuncName, Id, IntPred, Title, Ty, Val};
use crate::text::is_text;
use std::rc::Rc;
use vstd::prelude::*;

verus! {

broadcast use lemma_add_names_concat;

// ── curried lambdas ──────────────────────────────────────────────────────
/// A parameter type, which is an integer where none is given.
fn param_type(ty: &Option<Rc<Type>>) -> (r: Rc<Type>)
    ensures
        r == ty_or_int(*ty),
{
    match ty {
        Some(t) => share(t),
        None => allocate(Type::Int),
    }
}

/// The lambda that a block is, if it is one.
fn find_sole_lambda(ir: &Ir) -> (r: Option<&Rc<Comp>>)
    ensures
        match r {
            Some(c) => sole_lambda(*ir) == Some(*c) && **c is Lam && decreases_to!(ir => **c),
            None => sole_lambda(*ir) is None,
        },
{
    match ir {
        Ir::Ret { comp, .. } => if matches!(&**comp, Comp::Lam { .. }) {
            Some(comp)
        } else {
            None
        },
        Ir::Block { binds, comp, .. } => if binds.len() == 0 && matches!(&**comp, Comp::Lam { .. }) {
            Some(comp)
        } else {
            None
        },
        Ir::Let { .. } => None,
    }
}

/// Take a chain of lambdas apart: the parameters behind those in `params`, the
/// block inside, and its result type.
fn peel_lam_chain<'a>(ir: &'a Ir, outer: &'a Rc<Type>, params: &mut Vec<Param>) -> (r: (&'a Ir, &'a Rc<Type>))
    ensures
        final(params)@ == old(params)@ + chain_params(*ir),
        *r.0 == chain_body(*ir),
        *r.1 == chain_ret(*ir, *outer),
        *r.0 == *ir || decreases_to!(*ir => *r.0),
    decreases ir,
{
    match find_sole_lambda(ir) {
        None => {
            assert(params@ =~= old(params)@ + chain_params(*ir));
            (ir, outer)
        },
        Some(c) => match &**c {
            Comp::Lam { param, param_ty, param_layout, ret_ty, body } => {
                let ghost first = Param {
                    name: *param,
                    ty: ty_or_int(*param_ty),
                    layout: *param_layout,
                };
                params.push(
                    Param { name: param.clone(), ty: param_type(param_ty), layout: *param_layout },
                );
                assert(params@ == old(params)@.push(first));
                let r = peel_lam_chain(body, ret_ty, params);
                assert(params@ =~= old(params)@ + chain_params(*ir));
                r
            },
            _ => (ir, outer),
        },
    }
}

// ── what the parts of a program ask for ──────────────────────────────────
fn is_any_root(storages: &Vec<LoopVarStorage>) -> (r: bool)
    ensures
        r == any_root(storages@),
{
    let mut i: usize = 0;
    while i < storages.len()
        invariant
            i <= storages.len(),
            forall|j: int| 0 <= j < i ==> !((#[trigger] storages@[j]) is HandleRoot),
        decreases storages.len() - i,
    {
        if let LoopVarStorage::HandleRoot = storages[i] {
            assert(storages@[i as int] is HandleRoot);
            return true;
        }
        i = i + 1;
    }
    false
}

/// How each accumulator is carried.
fn loop_storages(vars: &Vec<LoopVar>) -> (r: Result<Vec<LoopVarStorage>, CodegenError>)
    ensures
        match storages_from(vars@, 0, Seq::empty()) {
            Ok(s) => r matches Ok(v) && v@ == s && s.len() == vars.len(),
            Err(e) => r == Err::<Vec<LoopVarStorage>, CodegenError>(e),
        },
{
    let mut out: Vec<LoopVarStorage> = Vec::new();
    let mut i: usize = 0;
    while i < vars.len()
        invariant
            i <= vars.len(),
            out.len() == i,
            storages_from(vars@, i as nat, out@) == storages_from(vars@, 0, Seq::empty()),
        decreases vars.len() - i,
    {
        match loop_var_storage(&vars[i]) {
            Err(e) => {
                return Err(e);
            },
            Ok(s) => {
                out.push(s);
            },
        }
        i = i + 1;
    }
    Ok(out)
}

fn names_root(vars: &Vec<LoopVar>, storages: &Vec<LoopVarStorage>, x: &String) -> (r: bool)
    ensures
        r == is_root_name(vars@, storages@, x@),
{
    let mut i: usize = 0;
    while i < vars.len() && i < storages.len()
        invariant
            i <= vars.len(),
            i <= storages.len(),
            forall|j: int|
                0 <= j < i ==> !((#[trigger] storages@[j]) is HandleRoot && vars@[j].name@ == x@),
        decreases vars.len() - i,
    {
        if let LoopVarStorage::HandleRoot = storages[i] {
            if vars[i].name == *x {
                assert(storages@[i as int] is HandleRoot);
                return true;
            }
        }
        i = i + 1;
    }
    false
}

fn drop_rooted(
    names: &Vec<String>,
    vars: &Vec<LoopVar>,
    storages: &Vec<LoopVarStorage>,
    cond: &Ir,
    steps: &Vec<Ir>,
) -> (r: Vec<String>)
    ensures
        r@ == keep_unrooted(names@, vars@, storages@, *cond, steps@),
{
    let mut out: Vec<String> = Vec::new();
    let mut i: usize = 0;
    assert(names@.take(0) =~= Seq::<String>::empty());
    while i < names.len()
        invariant
            i <= names.len(),
            out@ == keep_unrooted(names@.take(i as int), vars@, storages@, *cond, steps@),
        decreases names.len() - i,
    {
        assert(names@.take(i + 1).drop_last() =~= names@.take(i as int));
        if !names_root(vars, storages, &names[i]) && !block_binds_name(cond, &names[i])
            && steps_leave_free(steps, &names[i]) {
            out.push(names[i].clone());
        }
        i = i + 1;
    }
    assert(names@.take(names@.len() as int) =~= names@);
    out
}

fn all_keep_raw_ptrs(steps: &Vec<Ir>) -> (r: bool)
    ensures
        r == forall|i: int| 0 <= i < steps.len() ==> keeps_raw_ptrs(#[trigger] steps[i]),
{
    let mut i: usize = 0;
    while i < steps.len()
        invariant
            i <= steps.len(),
            forall|j: int| 0 <= j < i ==> keeps_raw_ptrs(#[trigger] steps@[j]),
        decreases steps.len() - i,
    {
        if !block_preserves_raw_heap_ptrs(&steps[i]) {
            assert(!keeps_raw_ptrs(steps[i as int]));
            return false;
        }
        i = i + 1;
    }
    true
}

fn step_raw_uses(steps: &Vec<Ir>, out: &mut Vec<String>)
    ensures
        final(out)@ == add_names(old(out)@, raw_uses_steps(*steps, steps.len() as nat)),
{
    let mut i: usize = 0;
    while i < steps.len()
        invariant
            i <= steps.len(),
            out@ == add_names(old(out)@, raw_uses_steps(*steps, i as nat)),
        decreases steps.len() - i,
    {
        collect_raw_array_uses(&steps[i], out);
        i = i + 1;
    }
}

/// The arrays that a loop borrows.
fn borrowable(vars: &Vec<LoopVar>, storages: &Vec<LoopVarStorage>, cond: &Ir, steps: &Vec<Ir>) -> (r: Vec<
    String,
>)
    ensures
        r@ == loop_arrays(vars@, storages@, *cond, *steps),
{
    if block_preserves_raw_heap_ptrs(cond) && all_keep_raw_ptrs(steps) {
        let mut names: Vec<String> = Vec::new();
        collect_raw_array_uses(cond, &mut names);
        step_raw_uses(steps, &mut names);
        drop_rooted(&names, vars, storages, cond, steps)
    } else {
        Vec::new()
    }
}

fn needs_scope(ir: &Ir) -> (r: bool)
    ensures
        r == (performs_gc(*ir) || produces_handle(*ir)),
{
    block_performs_gc(ir) || block_produces_gc_handle(ir)
}

fn any_needs_scope(steps: &Vec<Ir>) -> (r: bool)
    ensures
        r == steps_need_scope(steps@),
{
    let mut i: usize = 0;
    while i < steps.len()
        invariant
            i <= steps.len(),
            forall|j: int|
                0 <= j < i ==> !(performs_gc(#[trigger] steps@[j]) || produces_handle(steps@[j])),
        decreases steps.len() - i,
    {
        if needs_scope(&steps[i]) {
            assert(performs_gc(steps@[i as int]) || produces_handle(steps@[i as int]));
            return true;
        }
        i = i + 1;
    }
    false
}

fn has_reified(ops: &Vec<IrOpClause>) -> (r: bool)
    ensures
        r == any_reified(ops@),
{
    let mut i: usize = 0;
    while i < ops.len()
        invariant
            i <= ops.len(),
            forall|j: int|
                0 <= j < i ==> !((#[trigger] ops@[j]).shape is OneShot || ops@[j].shape is Multi),
        decreases ops.len() - i,
    {
        if matches!(ops[i].shape, Shape::OneShot | Shape::Multi) {
            assert(ops@[i as int].shape is OneShot || ops@[i as int].shape is Multi);
            return true;
        }
        i = i + 1;
    }
    false
}

fn has_abort(ops: &Vec<IrOpClause>) -> (r: bool)
    ensures
        r == any_abort(ops@),
{
    let mut i: usize = 0;
    while i < ops.len()
        invariant
            i <= ops.len(),
            forall|j: int| 0 <= j < i ==> !((#[trigger] ops@[j]).shape is Abort),
        decreases ops.len() - i,
    {
        if matches!(ops[i].shape, Shape::Abort) {
            assert(ops@[i as int].shape is Abort);
            return true;
        }
        i = i + 1;
    }
    false
}

fn is_write_float(label: &Label) -> (r: bool)
    ensures
        r == writes_float(*label),
{
    match label {
        Label::World(name) => is_text(name, "console_float"),
        _ => false,
    }
}

fn are_all_in_cells(params: &Vec<Param>) -> (r: bool)
    ensures
        r == all_in_cells(params@),
{
    let mut i: usize = 0;
    while i < params.len()
        invariant
            i <= params.len(),
            forall|j: int| 0 <= j < i ==> passed_in_cell(*(#[trigger] params@[j]).ty),
        decreases params.len() - i,
    {
        if !abi_is_scalar_cell(&params[i].ty) {
            assert(!passed_in_cell(*params@[i as int].ty));
            return false;
        }
        i = i + 1;
    }
    true
}

/// How each parameter is passed.
fn param_types(params: &Vec<Param>) -> (r: Result<Vec<Ty>, CodegenError>)
    ensures
        match param_tys(params@, 0, Seq::empty()) {
            Ok(s) => r matches Ok(v) && v@ == s && s.len() == params.len(),
            Err(e) => r == Err::<Vec<Ty>, CodegenError>(e),
        },
{
    let mut out: Vec<Ty> = Vec::new();
    let mut i: usize = 0;
    while i < params.len()
        invariant
            i <= params.len(),
            out.len() == i,
            param_tys(params@, i as nat, out@) == param_tys(params@, 0, Seq::empty()),
        decreases params.len() - i,
    {
        match abi_type(&params[i].ty) {
            Err(e) => {
                return Err(e);
            },
            Ok(t) => {
                out.push(t);
            },
        }
        i = i + 1;
    }
    Ok(out)
}

fn copy_name(name: &Option<String>) -> (r: Option<String>)
    ensures
        r == *name,
{
    match name {
        Some(x) => Some(x.clone()),
        None => None,
    }
}

/// A lambda refers to the name it is bound to.
fn is_recursive(comp: &Comp, name: &String) -> (r: bool)
    ensures
        r == names_itself(*comp, name@),
{
    match comp {
        Comp::Lam { param, body, .. } => {
            let free = free_vars(body, param);
            contains_name(&free, name)
        },
        _ => false,
    }
}

/// Where a function that loops goes on.
struct TailLoop {
    own: String,
    head: u64,
    phis: Vec<u64>,
    uncurried: bool,
    frame: Option<Val>,
    live: bool,
}

impl View for TailLoop {
    type V = Tail;

    closed spec fn view(&self) -> Tail {
        Tail {
            own: self.own,
            head: self.head,
            phis: self.phis@,
            uncurried: self.uncurried,
            frame: self.frame,
            live: self.live,
        }
    }
}

impl TailLoop {
    /// The same loop, where the name may stand for something else.
    fn with_live(&self, live: bool) -> (r: TailLoop)
        ensures
            r@ == (Tail { live, ..self@ }),
            r.uncurried == self.uncurried,
            r.phis.len() == self.phis.len(),
    {
        let phis = self.phis.clone();
        assert(phis@ =~= self.phis@);
        TailLoop {
            own: self.own.clone(),
            head: self.head,
            phis,
            uncurried: self.uncurried,
            frame: self.frame,
            live,
        }
    }
}

/// Whether some binding is of this name.
fn some_bind_is(binds: &Vec<IrBind>, name: &String) -> (r: bool)
    ensures
        r == rebinds(binds@, name@),
{
    let mut i: usize = 0;
    while i < binds.len()
        invariant
            i <= binds.len(),
            forall|j: int| 0 <= j < i ==> (#[trigger] binds@[j]).name@ != name@,
        decreases binds.len() - i,
    {
        if binds[i].name == *name {
            assert(binds@[i as int].name@ == name@);
            return true;
        }
        i = i + 1;
    }
    false
}

/// A loop whose head is laid out.
struct LoopCode {
    storages: Vec<LoopVarStorage>,
    inits: Vec<Val>,
    phis: Vec<Option<u64>>,
    head: u64,
    body: u64,
    exit: u64,
    env: Rc<Scope<EnvVal>>,
}

impl View for LoopCode {
    type V = LoopHead;

    closed spec fn view(&self) -> LoopHead {
        LoopHead {
            storages: self.storages@,
            inits: self.inits@,
            phis: self.phis@,
            head: self.head,
            body: self.body,
            exit: self.exit,
            env: self.env,
        }
    }
}

fn is_self_call(comp: &Comp, t: &TailLoop) -> (r: bool)
    ensures
        r == calls_itself(*comp, t@),
{
    t.live && match comp {
        Comp::App { fun: Atom::Var(f), .. } => !t.uncurried && *f == t.own,
        Comp::Call { fun: Atom::Var(f), args, .. } => t.uncurried && *f == t.own && args.len()
            == t.phis.len(),
        _ => false,
    }
}

fn expect_next(v: Val, storage: LoopVarStorage) -> (r: Result<Val, CodegenError>)
    ensures
        r == next_of(v, storage),
{
    match storage {
        LoopVarStorage::Scalar => Ok(v),
        LoopVarStorage::HandleRoot => expect_cell(v, "loop handle accumulator step"),
    }
}

impl Cg {
    // ── functions ────────────────────────────────────────────────────────
    fn ret(&mut self, v: Val)
        ensures
            final(self)@ == old(self)@.ret(v),
    {
        self.put(Cmd::Ret { val: v })
    }

    fn put_params(&mut self, params: &Vec<Ty>)
        ensures
            final(self)@ == old(self)@.put_params(params@, params@.len()),
    {
        let mut i: usize = 0;
        while i < params.len()
            invariant
                i <= params.len(),
                self@ == old(self)@.put_params(params@, i as nat),
            decreases params.len() - i,
        {
            self.put(Cmd::Param { ty: params[i] });
            i = i + 1;
        }
    }

    /// Begin a function.
    fn begin_func(&mut self, name: FuncName, ret: Ty, params: &Vec<Ty>)
        requires
            old(self).cx.lifted < u64::MAX,
        ensures
            final(self)@ == old(self)@.begin_func(name, ret, params@),
    {
        let func: u64 = self.here();
        let lifted: u64 = self.cx.lifted + 1;
        self.put(Cmd::Func { name, ret });
        let env = if self.cx.gc {
            Ty::I64
        } else {
            Ty::Ptr
        };
        self.put(Cmd::Param { ty: env });
        self.put_params(params);
        proof {
            lemma_params_cx(
                old(self)@.put(Cmd::Func { name, ret }).put(Cmd::Param { ty: env }),
                params@,
                params@.len(),
            );
        }
        self.cx.lifted = lifted;
        self.cx.func = func;
        let entry: u64 = self.new_block("entry");
        self.at(entry);
        self.in_env(Rc::new(Scope::Empty));
    }

    /// Go back to the surroundings of a function.
    fn end_func(&mut self, env: Rc<Scope<EnvVal>>, func: u64, block: u64)
        ensures
            forall|outer: St|
                outer.cx.env == env && outer.cx.func == func && outer.cx.block == block
                    ==> final(self)@ == #[trigger] old(self)@.end_func(outer),
    {
        self.in_env(env);
        self.cx.func = func;
        self.at(block);
    }

    fn bind_params(&mut self, func: u64, params: &Vec<Param>, tys: &Vec<Ty>)
        requires
            params.len() == tys.len(),
        ensures
            final(self)@ == old(self)@.bind_params(func, params@, tys@, 0),
    {
        let mut i: usize = 0;
        while i < params.len()
            invariant
                i <= params.len(),
                params.len() == tys.len(),
                self@.bind_params(func, params@, tys@, i as nat) == old(self)@.bind_params(
                    func,
                    params@,
                    tys@,
                    0,
                ),
            decreases params.len() - i,
        {
            self.bind(
                &params[i].name,
                Val { id: Id::Param { func, index: (i + 1) as u32 }, ty: tys[i] },
                share(&params[i].ty),
                params[i].layout,
            );
            i = i + 1;
        }
    }

    fn param_phis(&mut self, func: u64, params: &Vec<Param>, tys: &Vec<Ty>, from: u64) -> (r: Vec<
        u64,
    >)
        requires
            params.len() == tys.len(),
        ensures
            (final(self)@, r@) == old(self)@.param_phis(func, params@, tys@, from, 0, Seq::empty()),
    {
        let mut phis: Vec<u64> = Vec::new();
        let mut i: usize = 0;
        while i < params.len()
            invariant
                i <= params.len(),
                params.len() == tys.len(),
                self@.param_phis(func, params@, tys@, from, i as nat, phis@) == old(
                    self,
                )@.param_phis(func, params@, tys@, from, 0, Seq::empty()),
            decreases params.len() - i,
        {
            let phi: u64 = self.here();
            let v = self.phi(Ty::I64, "tail.p");
            let seed = Val { id: Id::Param { func, index: (i + 1) as u32 }, ty: tys[i] };
            self.incoming(phi, seed, from);
            self.bind(&params[i].name, v, share(&params[i].ty), params[i].layout);
            phis.push(phi);
            i = i + 1;
        }
        phis
    }

    fn func_addr(&mut self, func: u64, label: &'static str) -> (r: Val)
        ensures
            (final(self)@, r) == old(self)@.func_addr(func, label),
    {
        self.convert(Conv::PtrToInt, Val { id: Id::Func(func), ty: Ty::Ptr }, Ty::I64, label)
    }

    fn enter_function(&mut self, func: u64, caps: &Vec<CaptureInfo>) -> (r: Result<
        Option<Val>,
        CodegenError,
    >)
        ensures
            match old(self)@.enter_function(func, caps@) {
                Ok((st, frame)) => final(self)@ == st && r == Ok::<Option<Val>, CodegenError>(
                    frame,
                ),
                Err(e) => r == Err::<Option<Val>, CodegenError>(e),
            },
    {
        let gc: bool = self.cx.gc;
        let frame = self.enter_if(gc);
        let ty = if gc {
            Ty::I64
        } else {
            Ty::Ptr
        };
        match self.load_captures_into_env(Val { id: Id::Param { func, index: 0 }, ty }, caps) {
            Err(e) => Err(e),
            Ok(_) => Ok(frame),
        }
    }

    fn return_cell(&mut self, frame: Option<Val>, v: Val) -> (r: Result<(), CodegenError>)
        ensures
            agrees_unit(old(self)@.return_cell(frame, v), final(self)@, r),
    {
        match expect_cell(v, "function result") {
            Err(e) => Err(e),
            Ok(v) => {
                let v = self.return_with_frame(frame, v);
                self.ret(v);
                Ok(())
            },
        }
    }

    fn bind_own(&mut self, own: &Option<String>, v: Val, ty: &Rc<Type>, layout: ValueLayout)
        ensures
            final(self)@ == match *own {
                Some(name) => old(self)@.bind(name, v, *ty, layout),
                None => old(self)@,
            },
    {
        if let Some(name) = own {
            self.bind(name, v, share(ty), layout);
        }
    }

    /// The closure object for the entries.
    fn build_closure(
        &mut self,
        own: &Option<String>,
        fun_ty: &Rc<Type>,
        caps: &Vec<CaptureInfo>,
        entry: Val,
        fast: Val,
        arity: Val,
    ) -> (r: Result<Val, CodegenError>)
        requires
            RESERVED + cells_before(caps@, caps@.len()) <= u64::MAX,
        ensures
            agrees(
                old(self)@.build_closure(*own, *fun_ty, caps@, entry, fast, arity),
                final(self)@,
                r,
            ),
    {
        let (traced, untraced, cells) = Self::closure_cells(caps);
        if self.cx.gc {
            let clos = self.gc_alloc(traced, untraced);
            self.bind_own(own, clos, fun_ty, ValueLayout::pointer_cell());
            self.gc_set_scalar(clos, 0, entry);
            self.gc_set_scalar(clos, 1, fast);
            self.gc_set_scalar(clos, 2, arity);
            match self.store_captures(clos, caps) {
                Err(e) => Err(e),
                Ok(_) => Ok(clos),
            }
        } else {
            self.build_block(own, fun_ty, caps, cells, entry, fast, arity)
        }
    }

    /// The closure block of a program without the managed heap.
    fn build_block(
        &mut self,
        own: &Option<String>,
        fun_ty: &Rc<Type>,
        caps: &Vec<CaptureInfo>,
        cells: u64,
        entry: Val,
        fast: Val,
        arity: Val,
    ) -> (r: Result<Val, CodegenError>)
        requires
            !old(self).cx.gc,
            cells == RESERVED + cells_before(caps@, caps@.len()),
        ensures
            agrees(
                old(self)@.build_closure(*own, *fun_ty, caps@, entry, fast, arity),
                final(self)@,
                r,
            ),
    {
        let bytes: u64 = match cells.checked_mul(8) {
            None => {
                return Err(CodegenError::TooManyCells);
            },
            Some(bytes) => bytes,
        };
        self.arg(const_cell(bytes));
        let block = self.call("locus_alloc", Ty::Ptr, "alloc");
        let clos = self.convert(Conv::PtrToInt, block, Ty::I64, "clos");
        self.bind_own(own, clos, fun_ty, ValueLayout::scalar_cell());
        let p = self.gep(Ty::I64, block, const_cell(0), "fn.slot");
        self.store(p, entry);
        let p = self.gep(Ty::I64, block, const_cell(1), "fast.slot");
        self.store(p, fast);
        let p = self.gep(Ty::I64, block, const_cell(2), "fastarity.slot");
        self.store(p, arity);
        match self.store_captures(block, caps) {
            Err(e) => Err(e),
            Ok(_) => Ok(clos),
        }
    }

    // ── tail calls ───────────────────────────────────────────────────────
    fn jump(&mut self, t: &TailLoop, nexts: &Vec<Val>)
        requires
            nexts.len() == t.phis.len(),
        ensures
            final(self)@ == old(self)@.jump(t@, nexts@),
    {
        let from: u64 = self.cx.block;
        let mut i: usize = 0;
        while i < t.phis.len()
            invariant
                i <= t.phis.len(),
                nexts.len() == t.phis.len(),
                self@ == old(self)@.feed(t.phis@, nexts@, from, i as nat),
            decreases t.phis.len() - i,
        {
            self.incoming(t.phis[i], nexts[i], from);
            i = i + 1;
        }
        self.br(t.head);
    }

    fn next_args(&mut self, args: &Vec<CallArg>) -> (r: Result<Vec<Val>, CodegenError>)
        ensures
            agrees_cells(old(self)@.next_args(args@, 0, Seq::empty()), final(self)@, r),
            r matches Ok(v) ==> v.len() == args.len(),
    {
        let mut out: Vec<Val> = Vec::new();
        let mut i: usize = 0;
        while i < args.len()
            invariant
                i <= args.len(),
                out.len() == i,
                self@.next_args(args@, i as nat, out@) == old(self)@.next_args(
                    args@,
                    0,
                    Seq::empty(),
                ),
            decreases args.len() - i,
        {
            match self.lower_cell(&args[i].value, "tail-recursive argument") {
                Err(e) => {
                    return Err(e);
                },
                Ok(v) => {
                    out.push(v);
                },
            }
            i = i + 1;
        }
        Ok(out)
    }

    fn tail_call(&mut self, comp: &Comp, t: &TailLoop) -> (r: Result<(), CodegenError>)
        requires
            calls_itself(*comp, t@),
            !t.uncurried ==> t.phis.len() == 1,
        ensures
            agrees_unit(old(self)@.tail_call(*comp, t@), final(self)@, r),
    {
        match comp {
            Comp::App { arg, .. } => match self.lower_cell(arg, "tail-recursive argument") {
                Err(e) => Err(e),
                Ok(v) => {
                    let mut nexts: Vec<Val> = Vec::new();
                    nexts.push(v);
                    assert(nexts@ =~= seq![v]);
                    self.jump(t, &nexts);
                    Ok(())
                },
            },
            Comp::Call { args, .. } => match self.next_args(args) {
                Err(e) => Err(e),
                Ok(nexts) => {
                    self.jump(t, &nexts);
                    Ok(())
                },
            },
            _ => Ok(()),
        }
    }

    // ── loops ────────────────────────────────────────────────────────────
    fn loop_inits(&mut self, vars: &Vec<LoopVar>, storages: &Vec<LoopVarStorage>) -> (r: Result<
        Vec<Val>,
        CodegenError,
    >)
        requires
            vars.len() == storages.len(),
        ensures
            agrees_cells(
                old(self)@.loop_inits(vars@, storages@, 0, Seq::empty()),
                final(self)@,
                r,
            ),
            r matches Ok(v) ==> v.len() == vars.len(),
    {
        let mut out: Vec<Val> = Vec::new();
        let mut i: usize = 0;
        while i < vars.len()
            invariant
                i <= vars.len(),
                vars.len() == storages.len(),
                out.len() == i,
                self@.loop_inits(vars@, storages@, i as nat, out@) == old(self)@.loop_inits(
                    vars@,
                    storages@,
                    0,
                    Seq::empty(),
                ),
            decreases vars.len() - i,
        {
            match storages[i] {
                LoopVarStorage::Scalar => match self.lower_atom(&vars[i].init) {
                    Err(e) => {
                        return Err(e);
                    },
                    Ok(v) => {
                        out.push(v);
                    },
                },
                LoopVarStorage::HandleRoot => match self.lower_cell(
                    &vars[i].init,
                    "loop handle accumulator init",
                ) {
                    Err(e) => {
                        return Err(e);
                    },
                    Ok(v) => {
                        let root = self.gc_root(v);
                        out.push(root);
                    },
                },
            }
            i = i + 1;
        }
        Ok(out)
    }

    fn loop_head(
        &mut self,
        vars: &Vec<LoopVar>,
        storages: &Vec<LoopVarStorage>,
        inits: &Vec<Val>,
        from: u64,
    ) -> (r: Vec<Option<u64>>)
        requires
            vars.len() == storages.len(),
            vars.len() == inits.len(),
        ensures
            (final(self)@, r@) == old(self)@.loop_head(
                vars@,
                storages@,
                inits@,
                from,
                0,
                Seq::empty(),
            ),
            r.len() == vars.len(),
    {
        let mut phis: Vec<Option<u64>> = Vec::new();
        let mut i: usize = 0;
        while i < vars.len()
            invariant
                i <= vars.len(),
                vars.len() == storages.len(),
                vars.len() == inits.len(),
                phis.len() == i,
                self@.loop_head(vars@, storages@, inits@, from, i as nat, phis@) == old(
                    self,
                )@.loop_head(vars@, storages@, inits@, from, 0, Seq::empty()),
            decreases vars.len() - i,
        {
            let ty = share(&vars[i].ty);
            match storages[i] {
                LoopVarStorage::Scalar => {
                    let phi: u64 = self.here();
                    let v = self.phi_as(
                        inits[i].ty,
                        Title::Var { before: "loop.", name: vars[i].name.clone(), after: "" },
                    );
                    self.incoming(phi, inits[i], from);
                    self.bind(&vars[i].name, v, ty, vars[i].layout);
                    phis.push(Some(phi));
                },
                LoopVarStorage::HandleRoot => {
                    self.bind(&vars[i].name, inits[i], ty, vars[i].layout);
                    phis.push(None);
                },
            }
            i = i + 1;
        }
        phis
    }

    fn set_roots(&mut self, storages: &Vec<LoopVarStorage>, roots: &Vec<Val>, nexts: &Vec<Val>)
        requires
            storages.len() == nexts.len(),
            roots.len() == nexts.len(),
        ensures
            final(self)@ == old(self)@.set_roots(storages@, roots@, nexts@, nexts@.len()),
    {
        let mut i: usize = 0;
        while i < nexts.len()
            invariant
                i <= nexts.len(),
                storages.len() == nexts.len(),
                roots.len() == nexts.len(),
                self@ == old(self)@.set_roots(storages@, roots@, nexts@, i as nat),
            decreases nexts.len() - i,
        {
            if let LoopVarStorage::HandleRoot = storages[i] {
                let _ = self.gc_root_set(roots[i], nexts[i]);
            }
            i = i + 1;
        }
    }

    fn loop_edges(&mut self, phis: &Vec<Option<u64>>, nexts: &Vec<Val>, from: u64)
        requires
            phis.len() == nexts.len(),
        ensures
            final(self)@ == old(self)@.loop_edges(phis@, nexts@, from, phis@.len()),
    {
        let mut i: usize = 0;
        while i < phis.len()
            invariant
                i <= phis.len(),
                phis.len() == nexts.len(),
                self@ == old(self)@.loop_edges(phis@, nexts@, from, i as nat),
            decreases phis.len() - i,
        {
            if let Some(phi) = phis[i] {
                self.incoming(phi, nexts[i], from);
            }
            i = i + 1;
        }
    }

    fn note_bound(&mut self, bound: Option<(String, String)>)
        ensures
            final(self)@ == old(self)@.note_bound(bound),
    {
        match bound {
            None => {},
            Some((arr, idx)) => {
                let rest = share(&self.cx.bounds);
                self.cx.bounds = Rc::new(Scope::More { name: arr, item: idx, rest });
            },
        }
    }

    fn loop_blocks(
        &mut self,
        vars: &Vec<LoopVar>,
        storages: Vec<LoopVarStorage>,
        inits: Vec<Val>,
        raws: Rc<Scope<RawArray>>,
    ) -> (r: LoopCode)
        requires
            vars.len() == storages.len(),
            vars.len() == inits.len(),
        ensures
            (final(self)@, r@) == old(self)@.loop_blocks(vars@, storages@, inits@, raws),
            r.phis.len() == vars.len(),
            r.storages.len() == vars.len(),
            r.inits.len() == vars.len(),
    {
        let from: u64 = self.cx.block;
        let head: u64 = self.new_block("loop");
        let body: u64 = self.new_block("loop.body");
        let exit: u64 = self.new_block("loop.exit");
        self.br(head);
        self.cx.raws = raws;
        self.at(head);
        let phis = self.loop_head(vars, &storages, &inits, from);
        let env = share(&self.cx.env);
        LoopCode { storages, inits, phis, head, body, exit, env }
    }

    /// Everything in front of the test of a loop.
    fn loop_enter(&mut self, vars: &Vec<LoopVar>, cond: &Ir, steps: &Vec<Ir>) -> (r: Result<
        LoopCode,
        CodegenError,
    >)
        ensures
            match old(self)@.loop_enter(vars@, *cond, *steps) {
                Ok((st, h)) => {
                    &&& final(self)@ == st
                    &&& r matches Ok(code)
                    &&& code@ == h
                    &&& code.phis.len() == steps.len()
                    &&& code.storages.len() == steps.len()
                    &&& code.inits.len() == steps.len()
                },
                Err(e) => r == Err::<LoopCode, CodegenError>(e),
            },
    {
        if vars.len() != steps.len() {
            return Err(CodegenError::LoopArity(vars.len(), steps.len()));
        }
        let storages = match loop_storages(vars) {
            Err(e) => {
                return Err(e);
            },
            Ok(storages) => storages,
        };
        if is_any_root(&storages) && !self.cx.gc {
            return Err(CodegenError::LoopNeedsGc);
        }
        let inits = match self.loop_inits(vars, &storages) {
            Err(e) => {
                return Err(e);
            },
            Ok(inits) => inits,
        };
        let names = borrowable(vars, &storages, cond, steps);
        match self.borrow_raw_scalar_arrays(&names) {
            Err(e) => Err(e),
            Ok(raws) => Ok(self.loop_blocks(vars, storages, inits, raws)),
        }
    }

    /// The way out of a loop.
    fn loop_close(
        &mut self,
        h: &LoopCode,
        nexts: &Vec<Val>,
        bounds: Rc<Scope<String>>,
        raws: Rc<Scope<RawArray>>,
    )
        requires
            h.phis.len() == nexts.len(),
        ensures
            forall|outer: St|
                outer.cx.bounds == bounds && outer.cx.raws == raws ==> final(self)@
                    == #[trigger] old(self)@.loop_close(h@, nexts@, outer),
    {
        self.cx.bounds = bounds;
        let from: u64 = self.cx.block;
        self.loop_edges(&h.phis, nexts, from);
        self.br(h.head);
        self.at(h.exit);
        self.cx.raws = raws;
        self.in_env(share(&h.env));
    }

    // ── handlers ─────────────────────────────────────────────────────────
    fn push_handler(&mut self, handler: &IrHandler, exit: Option<Exit>)
        ensures
            final(self)@ == old(self)@.push_handler(*handler, exit),
    {
        let rest = share(&self.cx.handlers);
        self.cx.handlers = Rc::new(Frames::More { clauses: share(&handler.ops), exit, rest });
    }

    fn branch(&mut self, cond: Val, label: &'static str) -> (r: (u64, u64))
        ensures
            (final(self)@, r.0, r.1) == old(self)@.branch(cond, label),
    {
        let test = self.itest(IntPred::Ne, cond, const_cell(0), label);
        let yes: u64 = self.new_block("then");
        let no: u64 = self.new_block("else");
        self.cond_br(test, yes, no);
        (yes, no)
    }

    fn unhandled(&mut self, label: &Label, arg: &Atom) -> (r: Result<Val, CodegenError>)
        ensures
            agrees(old(self)@.unhandled(*label, *arg), final(self)@, r),
    {
        if is_write_float(label) {
            match self.lower_cell(arg, "float") {
                Err(e) => Err(e),
                Ok(bits) => {
                    self.arg(bits);
                    self.call_void("locus_write_float");
                    Ok(const_cell(0))
                },
            }
        } else {
            Err(CodegenError::UnhandledEffect(label.copy()))
        }
    }

    fn abort_to(&mut self, exit: Exit, v: Val) -> (r: Result<(), CodegenError>)
        ensures
            agrees_unit(old(self)@.abort_to(exit, v), final(self)@, r),
    {
        match expect_cell(v, "abort handler result") {
            Err(e) => Err(e),
            Ok(v) => {
                self.store(exit.slot, v);
                self.br(exit.block);
                let dead: u64 = self.new_block("after.abort");
                self.at(dead);
                Ok(())
            },
        }
    }
}

proof fn lemma_params_cx(st: St, params: Seq<Ty>, n: nat)
    ensures
        st.put_params(params, n).cx == st.cx,
    decreases n,
{
    if n > 0 {
        lemma_params_cx(st, params, (n - 1) as nat);
    }
}

// ── the whole program ────────────────────────────────────────────────────
impl Cg {
    /// A block of code.
    pub(crate) fn lower_block(&mut self, fuel: u64, ir: &Ir) -> (r: Result<Val, CodegenError>)
        ensures
            agrees(old(self)@.block(fuel as nat, *ir), final(self)@, r),
        decreases fuel, ir, 0int,
    {
        match ir {
            Ir::Block { binds, comp, .. } => match self.lower_binds(fuel, binds) {
                Err(e) => Err(e),
                Ok(_) => self.lower_comp(fuel, comp),
            },
            Ir::Let { name, ty, layout, comp, rest, .. } => match self.lower_binding(
                fuel,
                name,
                ty,
                *layout,
                comp,
            ) {
                Err(e) => Err(e),
                Ok(_) => self.lower_block(fuel, rest),
            },
            Ir::Ret { comp, .. } => self.lower_comp(fuel, comp),
        }
    }

    fn lower_binds(&mut self, fuel: u64, binds: &Vec<IrBind>) -> (r: Result<(), CodegenError>)
        ensures
            agrees_unit(old(self)@.binds_from(fuel as nat, *binds, 0), final(self)@, r),
        decreases fuel, binds, 0int,
    {
        let mut i: usize = 0;
        while i < binds.len()
            invariant
                i <= binds.len(),
                self@.binds_from(fuel as nat, *binds, i as nat) == old(self)@.binds_from(
                    fuel as nat,
                    *binds,
                    0,
                ),
            decreases binds.len() - i,
        {
            let b = &binds[i];
            match self.lower_binding(fuel, &b.name, &b.ty, b.layout, &b.comp) {
                Err(e) => {
                    return Err(e);
                },
                Ok(_) => {},
            }
            i = i + 1;
        }
        Ok(())
    }

    /// One binding.
    fn lower_binding(
        &mut self,
        fuel: u64,
        name: &String,
        ty: &Rc<Type>,
        layout: ValueLayout,
        comp: &Comp,
    ) -> (r: Result<(), CodegenError>)
        ensures
            agrees_unit(
                old(self)@.binding(fuel as nat, *name, *ty, layout, *comp),
                final(self)@,
                r,
            ),
        decreases fuel, comp, 3int,
    {
        if matches!(comp, Comp::Extern(_)) {
            return Ok(());
        }
        let out = if is_recursive(comp, name) {
            let own = Some(name.clone());
            self.lower_closure(fuel, &own, comp)
        } else {
            self.lower_comp(fuel, comp)
        };
        match out {
            Err(e) => Err(e),
            Ok(v) => {
                self.bind(name, v, share(ty), layout);
                Ok(())
            },
        }
    }

    /// A computation.
    fn lower_comp(&mut self, fuel: u64, comp: &Comp) -> (r: Result<Val, CodegenError>)
        ensures
            agrees(old(self)@.comp(fuel as nat, *comp), final(self)@, r),
        decreases fuel, comp, 2int,
    {
        match comp {
            Comp::If(..) => self.lower_if(fuel, comp),
            Comp::Loop { .. } => self.lower_loop(fuel, comp),
            Comp::Lam { .. } => {
                let own: Option<String> = None;
                self.lower_closure(fuel, &own, comp)
            },
            Comp::Perform(..) => self.lower_perform(fuel, comp),
            Comp::Handle { .. } => self.lower_handle(fuel, comp),
            _ => self.lower_simple(comp),
        }
    }

    /// A branch whose two values meet in a phi.
    fn lower_if(&mut self, fuel: u64, comp: &Comp) -> (r: Result<Val, CodegenError>)
        ensures
            agrees(old(self)@.if_code(fuel as nat, *comp), final(self)@, r),
        decreases fuel, comp, 1int,
    {
        match comp {
            Comp::If(cond, then, els) => {
                let c = match self.lower_cell(cond, "if condition") {
                    Err(e) => {
                        return Err(e);
                    },
                    Ok(c) => c,
                };
                let test = self.itest(IntPred::Ne, c, const_cell(0), "if.test");
                let yes: u64 = self.new_block("then");
                let no: u64 = self.new_block("else");
                let merge: u64 = self.new_block("merge");
                let env = share(&self.cx.env);
                self.cond_br(test, yes, no);
                self.at(yes);
                let a = match self.lower_block(fuel, then) {
                    Err(e) => {
                        return Err(e);
                    },
                    Ok(a) => a,
                };
                let a_end: u64 = self.cx.block;
                self.br(merge);
                self.in_env(share(&env));
                self.at(no);
                let b = match self.lower_block(fuel, els) {
                    Err(e) => {
                        return Err(e);
                    },
                    Ok(b) => b,
                };
                let b_end: u64 = self.cx.block;
                self.br(merge);
                self.in_env(env);
                self.at(merge);
                let phi: u64 = self.here();
                let v = self.phi(a.ty, "if.val");
                self.incoming(phi, a, a_end);
                self.incoming(phi, b, b_end);
                Ok(v)
            },
            _ => self.lower_simple(comp),
        }
    }

    // ── loops ────────────────────────────────────────────────────────────
    /// A loop.
    fn lower_loop(&mut self, fuel: u64, comp: &Comp) -> (r: Result<Val, CodegenError>)
        ensures
            agrees(old(self)@.loop_code(fuel as nat, *comp), final(self)@, r),
        decreases fuel, comp, 1int,
    {
        match comp {
            Comp::Loop { vars, cond, steps, result } => {
                let env = share(&self.cx.env);
                let raws = share(&self.cx.raws);
                let bounds = share(&self.cx.bounds);
                let h = match self.loop_enter(vars, cond, steps) {
                    Err(e) => {
                        return Err(e);
                    },
                    Ok(h) => h,
                };
                match self.lower_loop_test(fuel, cond, &h) {
                    Err(e) => {
                        return Err(e);
                    },
                    Ok(_) => {},
                }
                self.note_bound(proved_loop_array_bounds(vars, cond, steps));
                let nexts = match self.lower_steps(fuel, steps, &h) {
                    Err(e) => {
                        return Err(e);
                    },
                    Ok(nexts) => nexts,
                };
                self.loop_close(&h, &nexts, bounds, raws);
                match self.lower_block(fuel, result) {
                    Err(e) => Err(e),
                    Ok(v) => {
                        self.in_env(env);
                        Ok(v)
                    },
                }
            },
            _ => self.lower_simple(comp),
        }
    }

    /// A block inside a loop.
    fn lower_loop_block(&mut self, fuel: u64, ir: &Ir) -> (r: Result<Val, CodegenError>)
        ensures
            agrees(old(self)@.loop_block(fuel as nat, *ir), final(self)@, r),
        decreases fuel, ir, 1int,
    {
        let open: bool = self.cx.gc && needs_scope(ir);
        let frame = self.enter_if(open);
        match self.lower_block(fuel, ir) {
            Err(e) => Err(e),
            Ok(v) => Ok(self.return_with_frame(frame, v)),
        }
    }

    fn lower_loop_test(&mut self, fuel: u64, cond: &Ir, h: &LoopCode) -> (r: Result<
        (),
        CodegenError,
    >)
        ensures
            agrees_unit(old(self)@.loop_test(fuel as nat, *cond, h@), final(self)@, r),
        decreases fuel, cond, 2int,
    {
        let v = match self.lower_loop_block(fuel, cond) {
            Err(e) => {
                return Err(e);
            },
            Ok(v) => v,
        };
        match expect_cell(v, "loop condition") {
            Err(e) => Err(e),
            Ok(v) => {
                let test = self.itest(IntPred::Ne, v, const_cell(0), "loop.test");
                self.in_env(share(&h.env));
                self.cond_br(test, h.body, h.exit);
                self.at(h.body);
                Ok(())
            },
        }
    }

    /// The steps of a loop.
    fn lower_steps(&mut self, fuel: u64, steps: &Vec<Ir>, h: &LoopCode) -> (r: Result<
        Vec<Val>,
        CodegenError,
    >)
        requires
            h.storages.len() == steps.len(),
            h.inits.len() == steps.len(),
        ensures
            agrees_cells(old(self)@.loop_steps(fuel as nat, *steps, h@), final(self)@, r),
            r matches Ok(v) ==> v.len() == steps.len(),
        decreases fuel, steps, 1int,
    {
        if is_any_root(&h.storages) {
            let open: bool = self.cx.gc && any_needs_scope(steps);
            let frame = self.enter_if(open);
            match self.lower_each_step(fuel, steps, h, true) {
                Err(e) => Err(e),
                Ok(nexts) => {
                    self.set_roots(&h.storages, &h.inits, &nexts);
                    match frame {
                        Some(f) => {
                            self.gc_leave(f);
                        },
                        None => {},
                    }
                    Ok(nexts)
                },
            }
        } else {
            self.lower_each_step(fuel, steps, h, false)
        }
    }

    fn lower_each_step(&mut self, fuel: u64, steps: &Vec<Ir>, h: &LoopCode, rooted: bool) -> (r: Result<
        Vec<Val>,
        CodegenError,
    >)
        requires
            h.storages.len() == steps.len(),
            rooted == any_root(h.storages@),
        ensures
            agrees_cells(
                old(self)@.steps_from(fuel as nat, *steps, h@, 0, Seq::empty()),
                final(self)@,
                r,
            ),
            r matches Ok(v) ==> v.len() == steps.len(),
        decreases fuel, steps, 0int,
    {
        let mut out: Vec<Val> = Vec::new();
        let mut i: usize = 0;
        while i < steps.len()
            invariant
                i <= steps.len(),
                out.len() == i,
                h.storages.len() == steps.len(),
                rooted == any_root(h.storages@),
                self@.steps_from(fuel as nat, *steps, h@, i as nat, out@) == old(self)@.steps_from(
                    fuel as nat,
                    *steps,
                    h@,
                    0,
                    Seq::empty(),
                ),
            decreases steps.len() - i,
        {
            self.in_env(share(&h.env));
            let step = if rooted {
                self.lower_block(fuel, &steps[i])
            } else {
                self.lower_loop_block(fuel, &steps[i])
            };
            let v = match step {
                Err(e) => {
                    return Err(e);
                },
                Ok(v) => v,
            };
            match expect_next(v, h.storages[i]) {
                Err(e) => {
                    return Err(e);
                },
                Ok(v) => {
                    out.push(v);
                },
            }
            i = i + 1;
        }
        Ok(out)
    }

    // ── closures ─────────────────────────────────────────────────────────
    /// A lambda.
    fn lower_closure(&mut self, fuel: u64, own: &Option<String>, lam: &Comp) -> (r: Result<
        Val,
        CodegenError,
    >)
        ensures
            agrees(old(self)@.closure(fuel as nat, *own, *lam), final(self)@, r),
        decreases fuel, lam, 1int,
    {
        match lam {
            Comp::Lam { param, param_ty, ret_ty, body, .. } => {
                let fun_ty = allocate(
                    Type::Fun(param_type(param_ty), share(ret_ty), share(&self.cx.pure)),
                );
                let names = captured_names(body, param, &self.cx.handlers);
                let caps = match self.capture_layout(own, &fun_ty, &names) {
                    Err(e) => {
                        return Err(e);
                    },
                    Ok(caps) => caps,
                };
                proof {
                    placed_captures_are_packed(self@, *own, fun_ty, names@, 0, Seq::empty());
                }
                let func: u64 = match self.lower_lifted(fuel, own, lam, &caps) {
                    Err(e) => {
                        return Err(e);
                    },
                    Ok(func) => func,
                };
                let entry = self.func_addr(func, "fnaddr");
                match self.lower_fast(fuel, own, lam, &caps) {
                    Err(e) => Err(e),
                    Ok((fast, arity)) => self.build_closure(own, &fun_ty, &caps, entry, fast, arity),
                }
            },
            _ => self.lower_simple(lam),
        }
    }

    /// The function lifted from a lambda.
    fn lower_lifted(
        &mut self,
        fuel: u64,
        own: &Option<String>,
        lam: &Comp,
        caps: &Vec<CaptureInfo>,
    ) -> (r: Result<u64, CodegenError>)
        ensures
            match old(self)@.lift(fuel as nat, *own, *lam, caps@) {
                Ok((st, func)) => final(self)@ == st && r == Ok::<u64, CodegenError>(func),
                Err(e) => r == Err::<u64, CodegenError>(e),
            },
        decreases fuel, lam, 0int,
    {
        match lam {
            Comp::Lam { param, param_ty, param_layout, ret_ty, body } => {
                let ty = param_type(param_ty);
                let func: u64 = self.here();
                let outer_env = share(&self.cx.env);
                let outer_func: u64 = self.cx.func;
                let outer_block: u64 = self.cx.block;
                let lifted: u64 = self.cx.lifted;
                if lifted == u64::MAX {
                    return Err(CodegenError::TooManyFunctions);
                }
                let a = match abi_type(&ty) {
                    Err(e) => {
                        return Err(e);
                    },
                    Ok(a) => a,
                };
                let ret = match abi_type(ret_ty) {
                    Err(e) => {
                        return Err(e);
                    },
                    Ok(ret) => ret,
                };
                let arg = Val { id: Id::Param { func, index: 1 }, ty: a };
                let mut tys: Vec<Ty> = Vec::new();
                tys.push(a);
                assert(tys@ =~= seq![a]);
                self.begin_func(FuncName::Lam(lifted), ret, &tys);
                self.bind(param, arg, share(&ty), *param_layout);
                let frame = match self.enter_function(func, caps) {
                    Err(e) => {
                        return Err(e);
                    },
                    Ok(frame) => frame,
                };
                let looping: bool = !block_performs_gc(body) && abi_is_scalar_cell(&ty)
                    && abi_is_scalar_cell(ret_ty);
                let out = match own {
                    Some(name) if looping => {
                        let head: u64 = self.new_block("tail.loop");
                        let from: u64 = self.cx.block;
                        self.br(head);
                        self.at(head);
                        let phi: u64 = self.here();
                        let v = self.phi(Ty::I64, "tail.arg");
                        self.incoming(phi, arg, from);
                        self.bind(param, v, share(&ty), *param_layout);
                        let mut phis: Vec<u64> = Vec::new();
                        phis.push(phi);
                        assert(phis@ =~= seq![phi]);
                        let t = TailLoop { own: name.clone(), head, phis, uncurried: false, frame, live: true };
                        self.lower_tail_return(fuel, body, &t)
                    },
                    _ => self.lower_plain_body(fuel, body, frame),
                };
                match out {
                    Err(e) => Err(e),
                    Ok(_) => {
                        self.end_func(outer_env, outer_func, outer_block);
                        Ok(func)
                    },
                }
            },
            _ => Err(CodegenError::NotAFunction),
        }
    }

    fn lower_plain_body(&mut self, fuel: u64, body: &Ir, frame: Option<Val>) -> (r: Result<
        (),
        CodegenError,
    >)
        ensures
            agrees_unit(old(self)@.plain_body(fuel as nat, *body, frame), final(self)@, r),
        decreases fuel, body, 1int,
    {
        match self.lower_block(fuel, body) {
            Err(e) => Err(e),
            Ok(v) => {
                let v = self.return_with_frame(frame, v);
                self.ret(v);
                Ok(())
            },
        }
    }

    /// The uncurried entry of a lambda chain.
    fn lower_fast(&mut self, fuel: u64, own: &Option<String>, lam: &Comp, caps: &Vec<CaptureInfo>) -> (r: Result<
        (Val, Val),
        CodegenError,
    >)
        ensures
            match old(self)@.fast(fuel as nat, *own, *lam, caps@) {
                Ok((st, fast, arity)) => final(self)@ == st && r == Ok::<(Val, Val), CodegenError>(
                    (fast, arity),
                ),
                Err(e) => r == Err::<(Val, Val), CodegenError>(e),
            },
        decreases fuel, lam, 0int,
    {
        match lam {
            Comp::Lam { param, param_ty, param_layout, ret_ty, body } => {
                let mut params: Vec<Param> = Vec::new();
                params.push(
                    Param { name: param.clone(), ty: param_type(param_ty), layout: *param_layout },
                );
                let (inner, ret) = peel_lam_chain(body, ret_ty, &mut params);
                assert(params@ =~= all_params(*lam));
                if params.len() < 2 {
                    return Ok((const_cell(0), const_cell(0)));
                }
                if own.is_some() && !(are_all_in_cells(&params) && abi_is_scalar_cell(ret)
                    && !block_performs_gc(inner)) {
                    return Ok((const_cell(0), const_cell(0)));
                }
                match self.emit_fast_entry(fuel, own, &params, caps, inner, ret) {
                    Err(e) => Err(e),
                    Ok(func) => {
                        let addr = self.func_addr(func, "fastaddr");
                        Ok((addr, const_cell(params.len() as u64)))
                    },
                }
            },
            _ => Err(CodegenError::NotAFunction),
        }
    }

    /// The function behind an uncurried entry.
    fn emit_fast_entry(
        &mut self,
        fuel: u64,
        own: &Option<String>,
        params: &Vec<Param>,
        caps: &Vec<CaptureInfo>,
        body: &Ir,
        ret_ty: &Rc<Type>,
    ) -> (r: Result<u64, CodegenError>)
        ensures
            match old(self)@.fast_entry(fuel as nat, *own, params@, caps@, *body, *ret_ty) {
                Ok((st, func)) => final(self)@ == st && r == Ok::<u64, CodegenError>(func),
                Err(e) => r == Err::<u64, CodegenError>(e),
            },
        decreases fuel, body, 2int,
    {
        let func: u64 = self.here();
        let outer_env = share(&self.cx.env);
        let outer_func: u64 = self.cx.func;
        let outer_block: u64 = self.cx.block;
        let lifted: u64 = self.cx.lifted;
        if lifted == u64::MAX {
            return Err(CodegenError::TooManyFunctions);
        }
        let tys = match param_types(params) {
            Err(e) => {
                return Err(e);
            },
            Ok(tys) => tys,
        };
        let ret = match abi_type(ret_ty) {
            Err(e) => {
                return Err(e);
            },
            Ok(ret) => ret,
        };
        self.begin_func(FuncName::Fast(lifted), ret, &tys);
        self.bind_params(func, params, &tys);
        let frame = match self.enter_function(func, caps) {
            Err(e) => {
                return Err(e);
            },
            Ok(frame) => frame,
        };
        let out = match own {
            Some(name) => {
                let head: u64 = self.new_block("tail.loop");
                let from: u64 = self.cx.block;
                self.br(head);
                self.at(head);
                let phis = self.param_phis(func, params, &tys, from);
                let t = TailLoop { own: name.clone(), head, phis, uncurried: true, frame, live: true };
                self.lower_tail_return(fuel, body, &t)
            },
            None => self.lower_plain_body(fuel, body, frame),
        };
        match out {
            Err(e) => Err(e),
            Ok(_) => {
                self.end_func(outer_env, outer_func, outer_block);
                Ok(func)
            },
        }
    }

    /// The body of a function that loops.
    fn lower_tail_return(&mut self, fuel: u64, ir: &Ir, t: &TailLoop) -> (r: Result<
        (),
        CodegenError,
    >)
        requires
            !t.uncurried ==> t.phis.len() == 1,
        ensures
            agrees_unit(old(self)@.tail(fuel as nat, *ir, t@), final(self)@, r),
        decreases fuel, ir, 0int,
    {
        match ir {
            Ir::Block { binds, comp, .. } => match self.lower_binds(fuel, binds) {
                Err(e) => Err(e),
                Ok(_) => {
                    let t = t.with_live(t.live && !some_bind_is(binds, &t.own));
                    self.lower_tail_comp(fuel, comp, &t)
                },
            },
            Ir::Let { name, ty, layout, comp, rest, .. } => match self.lower_binding(
                fuel,
                name,
                ty,
                *layout,
                comp,
            ) {
                Err(e) => Err(e),
                Ok(_) => {
                    let t = t.with_live(t.live && *name != t.own);
                    self.lower_tail_return(fuel, rest, &t)
                },
            },
            Ir::Ret { comp, .. } => self.lower_tail_comp(fuel, comp, t),
        }
    }

    fn lower_tail_comp(&mut self, fuel: u64, comp: &Comp, t: &TailLoop) -> (r: Result<
        (),
        CodegenError,
    >)
        requires
            !t.uncurried ==> t.phis.len() == 1,
        ensures
            agrees_unit(old(self)@.tail_comp(fuel as nat, *comp, t@), final(self)@, r),
        decreases fuel, comp, 4int,
    {
        if is_self_call(comp, t) {
            self.tail_call(comp, t)
        } else if matches!(comp, Comp::If(..)) {
            self.lower_tail_if(fuel, comp, t)
        } else {
            match self.lower_comp(fuel, comp) {
                Err(e) => Err(e),
                Ok(v) => self.return_cell(t.frame, v),
            }
        }
    }

    fn lower_tail_if(&mut self, fuel: u64, comp: &Comp, t: &TailLoop) -> (r: Result<
        (),
        CodegenError,
    >)
        requires
            !t.uncurried ==> t.phis.len() == 1,
        ensures
            agrees_unit(old(self)@.tail_if(fuel as nat, *comp, t@), final(self)@, r),
        decreases fuel, comp, 3int,
    {
        match comp {
            Comp::If(cond, then, els) => {
                let c = match self.lower_cell(cond, "if condition") {
                    Err(e) => {
                        return Err(e);
                    },
                    Ok(c) => c,
                };
                let env = share(&self.cx.env);
                let (yes, no) = self.branch(c, "ifcond");
                self.at(yes);
                match self.lower_tail_return(fuel, then, t) {
                    Err(e) => {
                        return Err(e);
                    },
                    Ok(_) => {},
                }
                self.at(no);
                self.in_env(env);
                self.lower_tail_return(fuel, els, t)
            },
            _ => Ok(()),
        }
    }

    // ── handlers ─────────────────────────────────────────────────────────
    /// An operation.
    fn lower_perform(&mut self, fuel: u64, comp: &Comp) -> (r: Result<Val, CodegenError>)
        ensures
            agrees(old(self)@.perform(fuel as nat, *comp), final(self)@, r),
        decreases fuel, comp, 1int,
    {
        match comp {
            Comp::Perform(label, arg) => match find_handler(&self.cx.handlers, label) {
                None => self.unhandled(label, arg),
                Some((clauses, i, exit, outside)) => {
                    let c = &clauses[i];
                    let inlined = share(&self.cx.inlined);
                    if inlined.has(label, outside) {
                        return Err(CodegenError::ClauseAgain(label.copy()));
                    }
                    let env = share(&self.cx.env);
                    let v = match self.lower_atom(arg) {
                        Err(e) => {
                            return Err(e);
                        },
                        Ok(v) => v,
                    };
                    self.bind(&c.arg, v, share(&c.arg_ty), c.arg_layout);
                    self.cx.inlined = Rc::new(
                        Inlined::More { op: label.copy(), outside, rest: share(&inlined) },
                    );
                    if fuel == 0 {
                        return Err(CodegenError::InlineDepth);
                    }
                    match self.lower_clause(fuel - 1, label, c, exit) {
                        Err(e) => Err(e),
                        Ok(v) => {
                            self.cx.inlined = inlined;
                            self.in_env(env);
                            Ok(v)
                        },
                    }
                },
            },
            _ => self.lower_simple(comp),
        }
    }

    /// A clause in the place of the operation it handles.
    fn lower_clause(&mut self, fuel: u64, label: &Label, c: &IrOpClause, exit: Option<Exit>) -> (r: Result<
        Val,
        CodegenError,
    >)
        ensures
            agrees(old(self)@.clause(fuel as nat, *label, *c, exit), final(self)@, r),
        decreases fuel, c.body, 1int,
    {
        match c.shape {
            Shape::Tail => {
                let resume = copy_name(&self.cx.resume);
                self.cx.resume = Some(c.resume.clone());
                match self.lower_block(fuel, &c.body) {
                    Err(e) => Err(e),
                    Ok(v) => {
                        self.cx.resume = resume;
                        Ok(v)
                    },
                }
            },
            Shape::Abort => match exit {
                None => Err(CodegenError::NoExit),
                Some(exit) => match self.lower_block(fuel, &c.body) {
                    Err(e) => Err(e),
                    Ok(v) => match self.abort_to(exit, v) {
                        Err(e) => Err(e),
                        Ok(_) => Ok(const_cell(0)),
                    },
                },
            },
            shape => Err(CodegenError::ClauseShape(label.copy(), shape)),
        }
    }

    /// A handler.
    fn lower_handle(&mut self, fuel: u64, comp: &Comp) -> (r: Result<Val, CodegenError>)
        ensures
            agrees(old(self)@.handle(fuel as nat, *comp), final(self)@, r),
        decreases fuel, comp, 1int,
    {
        match comp {
            Comp::Handle { scrutinee, handler } => if has_reified(&handler.ops) {
                self.lower_handle_reified(fuel, scrutinee, handler)
            } else if has_abort(&handler.ops) {
                let slot = self.def(Cmd::Alloca { ty: Ty::I64, label: "handle.slot" }, Ty::Ptr);
                let exit: u64 = self.new_block("handle.exit");
                let v = match self.lower_handled(fuel, comp, Some(Exit { block: exit, slot })) {
                    Err(e) => {
                        return Err(e);
                    },
                    Ok(v) => v,
                };
                match expect_cell(v, "handler result") {
                    Err(e) => Err(e),
                    Ok(v) => {
                        self.store(slot, v);
                        self.br(exit);
                        self.at(exit);
                        Ok(self.load(Ty::I64, slot, "handle.result"))
                    },
                }
            } else {
                self.lower_handled(fuel, comp, None)
            },
            _ => self.lower_simple(comp),
        }
    }

    /// What a handler covers, and its return clause.
    fn lower_handled(&mut self, fuel: u64, comp: &Comp, exit: Option<Exit>) -> (r: Result<
        Val,
        CodegenError,
    >)
        ensures
            agrees(old(self)@.handled(fuel as nat, *comp, exit), final(self)@, r),
        decreases fuel, comp, 0int,
    {
        match comp {
            Comp::Handle { scrutinee, handler } => {
                let outer = share(&self.cx.handlers);
                self.push_handler(handler, exit);
                let v = match self.lower_block(fuel, scrutinee) {
                    Err(e) => {
                        return Err(e);
                    },
                    Ok(v) => v,
                };
                self.cx.handlers = outer;
                self.bind(
                    &handler.ret.var,
                    v,
                    share(&handler.ret.var_ty),
                    handler.ret.var_layout,
                );
                self.lower_block(fuel, &handler.ret.body)
            },
            _ => self.lower_simple(comp),
        }
    }

    /// A handler whose clauses keep their continuation.
    fn lower_handle_reified(&mut self, fuel: u64, scrutinee: &Ir, handler: &IrHandler) -> (r: Result<
        Val,
        CodegenError,
    >)
        ensures
            agrees(
                match crate::cps::cps(*scrutinee, *handler, old(self).cx.pure) {
                    Err(e) => Err(e),
                    Ok(ir) => if fuel == 0 {
                        Err(CodegenError::InlineDepth)
                    } else {
                        match old(self)@.with_resume(None).block((fuel - 1) as nat, ir) {
                            Err(e) => Err(e),
                            Ok((st, v)) => Ok((st.with_resume(old(self).cx.resume), v)),
                        }
                    },
                },
                final(self)@,
                r,
            ),
        decreases fuel, scrutinee, 0int,
    {
        let ir = match cps_transform(scrutinee, handler, &self.cx.pure) {
            Err(e) => {
                return Err(e);
            },
            Ok(ir) => ir,
        };
        if fuel == 0 {
            return Err(CodegenError::InlineDepth);
        }
        let resume = copy_name(&self.cx.resume);
        self.cx.resume = None;
        match self.lower_block(fuel - 1, &ir) {
            Err(e) => Err(e),
            Ok(v) => {
                self.cx.resume = resume;
                Ok(v)
            },
        }
    }
}

} // verus!
