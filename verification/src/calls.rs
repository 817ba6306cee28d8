//! Calls: of closures one argument at a time, of closures with all their
//! arguments at once, and of foreign functions.
use crate::closures::{abi_ty, abi_type, env_ty};
use crate::error::CodegenError;
use crate::heap::{agrees_cells, Cells};
use crate::ir::{share, Atom, CallArg, ExternAbi, Type, Width};
use crate::state::{agrees, agrees_unit, cell_of, expect_cell, Cg, Out, RawArray, Scope, St};
use crate::target::{const_cell, constant, Callee, Cmd, Conv, IntPred, Title, Ty, Val};
use std::rc::Rc;
use vstd::prelude::*;

verus! {

/// The native class of a foreign parameter or result.
pub open spec fn native_ty(w: Width) -> Ty {
    match w {
        Width::I32 | Width::U32 => Ty::I32,
        Width::W64 => Ty::I64,
        Width::F32 => Ty::F32,
        Width::F64 => Ty::F64,
    }
}

/// The native class of a foreign parameter or result.
pub fn native_type(w: Width) -> (r: Ty)
    ensures
        r == native_ty(w),
{
    match w {
        Width::I32 | Width::U32 => Ty::I32,
        Width::W64 => Ty::I64,
        Width::F32 => Ty::F32,
        Width::F64 => Ty::F64,
    }
}

impl St {
    // ── closures, one argument at a time ─────────────────────────────────
    /// A reserved slot of a closure.
    pub open spec fn closure_slot(self, clos: Val, slot: u64) -> (St, Val) {
        if self.cx.gc {
            self.gc_get_scalar(clos, slot)
        } else {
            let (st, env) = self.convert(Conv::IntToPtr, clos, Ty::Ptr, "clos");
            let (st, p) = st.gep(Ty::I64, env, constant(slot), "clos.slot");
            st.load(Ty::I64, p, "clos.cell")
        }
    }

    /// Apply a closure to one argument: call its curried entry with the closure
    /// as the environment.
    pub open spec fn apply_one(self, clos: Val, arg: Val, arg_ty: Rc<Type>, ret_ty: Rc<Type>) -> Out {
        match abi_ty(arg_ty) {
            Err(e) => Err(e),
            Ok(a) => match abi_ty(ret_ty) {
                Err(e) => Err(e),
                Ok(r) => {
                    let (st, env, entry) = if self.cx.gc {
                        let (st, entry) = self.gc_get_scalar(clos, 0);
                        (st, clos, entry)
                    } else {
                        let (st, env) = self.convert(Conv::IntToPtr, clos, Ty::Ptr, "clos");
                        let (st, p) = st.gep(Ty::I64, env, constant(0), "fp.slot");
                        let (st, entry) = st.load(Ty::I64, p, "fp.i");
                        (st, env, entry)
                    };
                    let (st, fp) = st.convert(Conv::IntToPtr, entry, Ty::Ptr, "fp");
                    Ok(
                        st.put(Cmd::Param { ty: env_ty(self.cx.gc) }).put(
                            Cmd::Param { ty: a },
                        ).arg(env).arg(arg).def(
                            Cmd::CallPtr { ptr: fp, ret: r, label: "call" },
                            r,
                        ),
                    )
                },
            },
        }
    }

    // ── closures, all arguments at once ──────────────────────────────────
    /// The values of the arguments from position `i` on.
    pub open spec fn arg_vals(self, args: Seq<CallArg>, i: nat, done: Seq<Val>) -> Cells
        decreases args.len() - i,
    {
        if i >= args.len() {
            Ok((self, done))
        } else {
            match self.atom(args[i as int].value) {
                Err(e) => Err(e),
                Ok((st, v)) => st.arg_vals(args, i + 1, done.push(v)),
            }
        }
    }

    /// The parameter types of the uncurried entry, from position `i` on.
    pub open spec fn arg_params(self, args: Seq<CallArg>, i: nat) -> Result<St, CodegenError>
        decreases args.len() - i,
    {
        if i >= args.len() {
            Ok(self)
        } else {
            match abi_ty(args[i as int].ty) {
                Err(e) => Err(e),
                Ok(ty) => self.put(Cmd::Param { ty }).arg_params(args, i + 1),
            }
        }
    }

    /// The first `n` of `vs` as arguments.
    pub open spec fn push_args(self, vs: Seq<Val>, n: nat) -> St
        decreases n,
    {
        if n == 0 {
            self
        } else {
            self.push_args(vs, (n - 1) as nat).arg(vs[n - 1])
        }
    }

    /// Apply a closure to the arguments from position `i` on, one by one.
    pub open spec fn apply_chain(
        self,
        clos: Val,
        fun_ty: Rc<Type>,
        args: Seq<CallArg>,
        vs: Seq<Val>,
        i: nat,
    ) -> Out
        decreases args.len() - i,
    {
        if i >= args.len() {
            Err(CodegenError::EmptyCall)
        } else {
            match *fun_ty {
                Type::Fun(_, rest, _) => match self.apply_one(
                    clos,
                    vs[i as int],
                    args[i as int].ty,
                    rest,
                ) {
                    Err(e) => Err(e),
                    Ok((st, r)) => if i + 1 < args.len() {
                        match cell_of(r, "intermediate closure") {
                            Err(e) => Err(e),
                            Ok(next) => st.apply_chain(next, rest, args, vs, i + 1),
                        }
                    } else {
                        Ok((st, r))
                    },
                },
                _ => Err(CodegenError::NotAFunction),
            }
        }
    }

    /// The direct call of the uncurried entry.
    pub open spec fn fast_call(
        self,
        clos: Val,
        entry: Val,
        args: Seq<CallArg>,
        vs: Seq<Val>,
        ret: Ty,
    ) -> Out {
        match self.put(Cmd::Param { ty: env_ty(self.cx.gc) }).arg_params(args, 0) {
            Err(e) => Err(e),
            Ok(st) => {
                let (st, fp) = st.convert(Conv::IntToPtr, entry, Ty::Ptr, "fastfp");
                let (st, env) = if self.cx.gc {
                    (st, clos)
                } else {
                    st.convert(Conv::IntToPtr, clos, Ty::Ptr, "fastenv")
                };
                Ok(
                    st.arg(env).push_args(vs, vs.len()).def(
                        Cmd::CallPtr { ptr: fp, ret, label: "fastcall" },
                        ret,
                    ),
                )
            },
        }
    }

    /// A saturated call: the uncurried entry directly if the closure's arity is
    /// the number of arguments, else argument by argument.
    pub open spec fn call_all(
        self,
        fun: Atom,
        args: Seq<CallArg>,
        fun_ty: Rc<Type>,
        ret_ty: Rc<Type>,
    ) -> Out {
        match self.cell(fun, "function value") {
            Err(e) => Err(e),
            Ok((st, clos)) => match st.arg_vals(args, 0, Seq::empty()) {
                Err(e) => Err(e),
                Ok((st, vs)) => match abi_ty(ret_ty) {
                    Err(e) => Err(e),
                    Ok(ret) => st.call_by_arity(clos, args, vs, fun_ty, ret),
                },
            },
        }
    }

    /// The two paths of a saturated call and their join.
    pub open spec fn call_by_arity(
        self,
        clos: Val,
        args: Seq<CallArg>,
        vs: Seq<Val>,
        fun_ty: Rc<Type>,
        ret: Ty,
    ) -> Out {
        let (st, arity) = self.closure_slot(clos, 2);
        let (st, entry) = st.closure_slot(clos, 1);
        let (st, fast_bb) = st.new_block("call.fast");
        let (st, slow_bb) = st.new_block("call.curried");
        let (st, cont_bb) = st.new_block("call.cont");
        let (st, ok) = st.itest(
            IntPred::Eq,
            arity,
            constant(args.len() as u64),
            "call.arity.ok",
        );
        let st = st.cond_br(ok, fast_bb, slow_bb).at(fast_bb);
        match st.fast_call(clos, entry, args, vs, ret) {
            Err(e) => Err(e),
            Ok((st, fast)) => {
                let fast_end = st.cx.block;
                let st = st.br(cont_bb).at(slow_bb);
                match st.apply_chain(clos, fun_ty, args, vs, 0) {
                    Err(e) => Err(e),
                    Ok((st, slow)) => {
                        let slow_end = st.cx.block;
                        let st = st.br(cont_bb).at(cont_bb);
                        let phi = st.here();
                        let (st, v) = st.phi(ret, "callret");
                        Ok(
                            (
                                st.incoming(phi, fast, fast_end).incoming(phi, slow, slow_end),
                                v,
                            ),
                        )
                    },
                }
            },
        }
    }

    // ── foreign functions ────────────────────────────────────────────────
    /// The first `n` native parameters.
    pub open spec fn native_params(self, params: Seq<Width>, n: nat) -> St
        decreases n,
    {
        if n == 0 {
            self
        } else {
            self.native_params(params, (n - 1) as nat).put(
                Cmd::Param { ty: native_ty(params[n - 1]) },
            )
        }
    }

    /// A cell as a native argument: narrowed, or its bits as a float.
    pub open spec fn to_native(self, v: Val, w: Width) -> (St, Val) {
        match w {
            Width::I32 | Width::U32 => self.convert(Conv::Trunc, v, Ty::I32, "arg.i32"),
            Width::W64 => (self, v),
            Width::F32 => self.cell_to_f32(v, "arg.f32"),
            Width::F64 => self.cell_to_f64(v, "arg.f64"),
        }
    }

    /// A native result as a cell: extended by its sign or by zeros, or the bits
    /// of a float.
    pub open spec fn from_native(self, v: Val, w: Width) -> (St, Val) {
        match w {
            Width::I32 => self.convert(Conv::Sext, v, Ty::I64, "ret.sext"),
            Width::U32 => self.convert(Conv::Zext, v, Ty::I64, "ret.zext"),
            Width::W64 => (self, v),
            Width::F32 => self.f32_to_cell(v, "ret.f32.cell"),
            Width::F64 => self.f64_to_cell(v, "ret.f64.cell"),
        }
    }

    /// The native arguments from position `i` on: as many as there are both
    /// operands and parameters.
    pub open spec fn native_args(
        self,
        args: Seq<Atom>,
        params: Seq<Width>,
        i: nat,
        done: Seq<Val>,
    ) -> Cells
        decreases args.len() - i,
    {
        if i >= args.len() || i >= params.len() {
            Ok((self, done))
        } else {
            match self.cell(args[i as int], "foreign argument") {
                Err(e) => Err(e),
                Ok((st, v)) => {
                    let (st, native) = st.to_native(v, params[i as int]);
                    st.native_args(args, params, i + 1, done.push(native))
                },
            }
        }
    }

    /// A call of a foreign function by its native signature.
    pub open spec fn foreign(self, sym: String, args: Seq<Atom>, abi: ExternAbi) -> Out {
        let st = self.put(Cmd::Declare { name: sym, ret: native_ty(abi.ret) }).native_params(
            abi.params@,
            abi.params@.len(),
        );
        match st.native_args(args, abi.params@, 0, Seq::empty()) {
            Err(e) => Err(e),
            Ok((st, vs)) => {
                let ret = native_ty(abi.ret);
                let (st, r) = st.push_args(vs, vs.len()).def(
                    Cmd::Call { callee: Callee::Foreign(sym), ret, label: "winapi" },
                    ret,
                );
                Ok(st.from_native(r, abi.ret))
            },
        }
    }

    // ── handle scopes ────────────────────────────────────────────────────
    /// Close a handle scope, if one is open, around a result: a cell is handed
    /// out of the scope, a vector passes through.
    pub open spec fn leave(self, frame: Option<Val>, v: Val) -> (St, Val) {
        match frame {
            None => (self, v),
            Some(f) => if v.ty is I64 {
                self.gc_leave_with(f, v)
            } else {
                (self.gc_leave(f), v)
            },
        }
    }

    /// Open a handle scope if `open`.
    pub open spec fn enter(self, open: bool) -> (St, Option<Val>) {
        if open {
            let (st, f) = self.gc_enter();
            (st, Some(f))
        } else {
            (self, None)
        }
    }

    // ── borrowed arrays ──────────────────────────────────────────────────
    /// Borrow the arrays from position `i` on that are not borrowed yet: fetch
    /// the payload address and the length of each.
    pub open spec fn borrow_arrays(
        self,
        names: Seq<String>,
        i: nat,
        raws: Rc<Scope<RawArray>>,
    ) -> Result<(St, Rc<Scope<RawArray>>), CodegenError>
        decreases names.len() - i,
    {
        if i >= names.len() {
            Ok((self, raws))
        } else {
            match self.cx.env.get(names[i as int]@) {
                None => Err(CodegenError::UnboundArray(names[i as int])),
                Some(var) => if held_as(*raws, names[i as int]@, var.value) {
                    self.borrow_arrays(names, i + 1, raws)
                } else {
                    match cell_of(var.value, "array handle") {
                        Err(e) => Err(e),
                        Ok(h) => {
                            let (st, base) = self.arg(h).call(
                                "locus_gc_scalar_fields_ptr",
                                Ty::Ptr,
                                "locus_gc_scalar_fields_ptr",
                            );
                            let (st, len) = st.load_as(
                                Ty::I64,
                                base,
                                Title::Var { before: "", name: names[i as int], after: ".len" },
                            );
                            st.borrow_arrays(
                                names,
                                i + 1,
                                Rc::new(
                                    Scope::More {
                                        name: names[i as int],
                                        item: RawArray { base, len, arr: h },
                                        rest: raws,
                                    },
                                ),
                            )
                        },
                    }
                },
            }
        }
    }
}

/// The array is borrowed under this name.
pub open spec fn held_as(raws: Scope<RawArray>, name: Seq<char>, arr: Val) -> bool {
    raws.get(name) matches Some(raw) && raw.arr == arr
}

impl Cg {
    /// A reserved slot of a closure.
    fn read_closure_slot(&mut self, clos: Val, slot: u64) -> (r: Val)
        ensures
            (final(self)@, r) == old(self)@.closure_slot(clos, slot),
    {
        if self.cx.gc {
            self.gc_get_scalar(clos, slot)
        } else {
            let env = self.convert(Conv::IntToPtr, clos, Ty::Ptr, "clos");
            let p = self.gep(Ty::I64, env, const_cell(slot), "clos.slot");
            self.load(Ty::I64, p, "clos.cell")
        }
    }

    /// Apply a closure to one argument.
    pub(crate) fn apply_one_val(
        &mut self,
        clos: Val,
        arg: Val,
        arg_ty: &Rc<Type>,
        ret_ty: &Rc<Type>,
    ) -> (r: Result<Val, CodegenError>)
        ensures
            agrees(old(self)@.apply_one(clos, arg, *arg_ty, *ret_ty), final(self)@, r),
    {
        let a = match abi_type(arg_ty) {
            Err(e) => {
                return Err(e);
            },
            Ok(a) => a,
        };
        let r = match abi_type(ret_ty) {
            Err(e) => {
                return Err(e);
            },
            Ok(r) => r,
        };
        let gc = self.cx.gc;
        let (env, entry) = if gc {
            let entry = self.gc_get_scalar(clos, 0);
            (clos, entry)
        } else {
            let env = self.convert(Conv::IntToPtr, clos, Ty::Ptr, "clos");
            let p = self.gep(Ty::I64, env, const_cell(0), "fp.slot");
            let entry = self.load(Ty::I64, p, "fp.i");
            (env, entry)
        };
        let fp = self.convert(Conv::IntToPtr, entry, Ty::Ptr, "fp");
        self.put(Cmd::Param { ty: if gc { Ty::I64 } else { Ty::Ptr } });
        self.put(Cmd::Param { ty: a });
        self.arg(env);
        self.arg(arg);
        Ok(self.def(Cmd::CallPtr { ptr: fp, ret: r, label: "call" }, r))
    }

    fn arg_vals(&mut self, args: &Vec<CallArg>) -> (r: Result<Vec<Val>, CodegenError>)
        ensures
            agrees_cells(old(self)@.arg_vals(args@, 0, Seq::empty()), final(self)@, r),
            r matches Ok(vs) ==> vs@.len() == args@.len(),
    {
        let mut done: Vec<Val> = Vec::new();
        let mut i: usize = 0;
        assert(done@ =~= Seq::empty());
        while i < args.len()
            invariant
                i <= args.len(),
                done@.len() == i,
                self@.arg_vals(args@, i as nat, done@) == old(self)@.arg_vals(
                    args@,
                    0,
                    Seq::empty(),
                ),
            decreases args.len() - i,
        {
            match self.lower_atom(&args[i].value) {
                Err(e) => {
                    return Err(e);
                },
                Ok(v) => {
                    done.push(v);
                },
            }
            i = i + 1;
        }
        Ok(done)
    }

    fn arg_params(&mut self, args: &Vec<CallArg>) -> (r: Result<(), CodegenError>)
        ensures
            agrees_unit(old(self)@.arg_params(args@, 0), final(self)@, r),
    {
        let mut i: usize = 0;
        while i < args.len()
            invariant
                i <= args.len(),
                self@.arg_params(args@, i as nat) == old(self)@.arg_params(args@, 0),
            decreases args.len() - i,
        {
            match abi_type(&args[i].ty) {
                Err(e) => {
                    return Err(e);
                },
                Ok(ty) => {
                    self.put(Cmd::Param { ty });
                },
            }
            i = i + 1;
        }
        Ok(())
    }

    fn push_args(&mut self, vs: &Vec<Val>)
        ensures
            final(self)@ == old(self)@.push_args(vs@, vs@.len()),
    {
        let mut i: usize = 0;
        while i < vs.len()
            invariant
                i <= vs.len(),
                self@ == old(self)@.push_args(vs@, i as nat),
            decreases vs.len() - i,
        {
            self.arg(vs[i]);
            i = i + 1;
        }
    }

    fn apply_chain(&mut self, clos: Val, fun_ty: &Rc<Type>, args: &Vec<CallArg>, vs: &Vec<Val>) -> (r: Result<
        Val,
        CodegenError,
    >)
        requires
            vs@.len() == args@.len(),
        ensures
            agrees(old(self)@.apply_chain(clos, *fun_ty, args@, vs@, 0), final(self)@, r),
    {
        let mut fv = clos;
        let mut ty = share(fun_ty);
        let mut i: usize = 0;
        while i < args.len()
            invariant
                i <= args.len(),
                vs@.len() == args@.len(),
                self@.apply_chain(fv, ty, args@, vs@, i as nat) == old(self)@.apply_chain(
                    clos,
                    *fun_ty,
                    args@,
                    vs@,
                    0,
                ),
            decreases args.len() - i,
        {
            let rest = match &*ty {
                Type::Fun(_, rest, _) => share(rest),
                _ => {
                    return Err(CodegenError::NotAFunction);
                },
            };
            let r = match self.apply_one_val(fv, vs[i], &args[i].ty, &rest) {
                Err(e) => {
                    return Err(e);
                },
                Ok(r) => r,
            };
            if i + 1 < args.len() {
                match expect_cell(r, "intermediate closure") {
                    Err(e) => {
                        return Err(e);
                    },
                    Ok(next) => {
                        fv = next;
                        ty = rest;
                    },
                }
            } else {
                return Ok(r);
            }
            i = i + 1;
        }
        Err(CodegenError::EmptyCall)
    }

    fn fast_call(&mut self, clos: Val, entry: Val, args: &Vec<CallArg>, vs: &Vec<Val>, ret: Ty) -> (r: Result<
        Val,
        CodegenError,
    >)
        ensures
            agrees(old(self)@.fast_call(clos, entry, args@, vs@, ret), final(self)@, r),
    {
        let gc = self.cx.gc;
        self.put(Cmd::Param { ty: if gc { Ty::I64 } else { Ty::Ptr } });
        proof {
            lemma_arg_params_cx(self@, args@, 0);
        }
        match self.arg_params(args) {
            Err(e) => {
                return Err(e);
            },
            Ok(()) => {},
        }
        let fp = self.convert(Conv::IntToPtr, entry, Ty::Ptr, "fastfp");
        let env = if gc {
            clos
        } else {
            self.convert(Conv::IntToPtr, clos, Ty::Ptr, "fastenv")
        };
        self.arg(env);
        self.push_args(vs);
        Ok(self.def(Cmd::CallPtr { ptr: fp, ret, label: "fastcall" }, ret))
    }

    fn call_by_arity(
        &mut self,
        clos: Val,
        args: &Vec<CallArg>,
        vs: &Vec<Val>,
        fun_ty: &Rc<Type>,
        ret: Ty,
    ) -> (r: Result<Val, CodegenError>)
        requires
            vs@.len() == args@.len(),
        ensures
            agrees(old(self)@.call_by_arity(clos, args@, vs@, *fun_ty, ret), final(self)@, r),
    {
        let arity = self.read_closure_slot(clos, 2);
        let entry = self.read_closure_slot(clos, 1);
        let fast_bb: u64 = self.new_block("call.fast");
        let slow_bb: u64 = self.new_block("call.curried");
        let cont_bb: u64 = self.new_block("call.cont");
        let ok = self.itest(
            IntPred::Eq,
            arity,
            const_cell(args.len() as u64),
            "call.arity.ok",
        );
        self.cond_br(ok, fast_bb, slow_bb);
        self.at(fast_bb);
        let fast = match self.fast_call(clos, entry, args, vs, ret) {
            Err(e) => {
                return Err(e);
            },
            Ok(v) => v,
        };
        let fast_end: u64 = self.cx.block;
        self.br(cont_bb);
        self.at(slow_bb);
        let slow = match self.apply_chain(clos, fun_ty, args, vs) {
            Err(e) => {
                return Err(e);
            },
            Ok(v) => v,
        };
        let slow_end: u64 = self.cx.block;
        self.br(cont_bb);
        self.at(cont_bb);
        let phi: u64 = self.here();
        let v = self.phi(ret, "callret");
        self.incoming(phi, fast, fast_end);
        self.incoming(phi, slow, slow_end);
        Ok(v)
    }

    /// A saturated call.
    pub(crate) fn lower_call(
        &mut self,
        fun: &Atom,
        args: &Vec<CallArg>,
        fun_ty: &Rc<Type>,
        ret_ty: &Rc<Type>,
    ) -> (r: Result<Val, CodegenError>)
        ensures
            agrees(old(self)@.call_all(*fun, args@, *fun_ty, *ret_ty), final(self)@, r),
    {
        let clos = match self.lower_cell(fun, "function value") {
            Err(e) => {
                return Err(e);
            },
            Ok(v) => v,
        };
        let vs = match self.arg_vals(args) {
            Err(e) => {
                return Err(e);
            },
            Ok(vs) => vs,
        };
        match abi_type(ret_ty) {
            Err(e) => Err(e),
            Ok(ret) => self.call_by_arity(clos, args, &vs, fun_ty, ret),
        }
    }

    fn native_params(&mut self, params: &Vec<Width>)
        ensures
            final(self)@ == old(self)@.native_params(params@, params@.len()),
    {
        let mut i: usize = 0;
        while i < params.len()
            invariant
                i <= params.len(),
                self@ == old(self)@.native_params(params@, i as nat),
            decreases params.len() - i,
        {
            self.put(Cmd::Param { ty: native_type(params[i]) });
            i = i + 1;
        }
    }

    fn to_native(&mut self, v: Val, w: Width) -> (r: Val)
        ensures
            (final(self)@, r) == old(self)@.to_native(v, w),
    {
        match w {
            Width::I32 | Width::U32 => self.convert(Conv::Trunc, v, Ty::I32, "arg.i32"),
            Width::W64 => v,
            Width::F32 => self.cell_to_f32(v, "arg.f32"),
            Width::F64 => self.cell_to_f64(v, "arg.f64"),
        }
    }

    fn from_native(&mut self, v: Val, w: Width) -> (r: Val)
        ensures
            (final(self)@, r) == old(self)@.from_native(v, w),
    {
        match w {
            Width::I32 => self.convert(Conv::Sext, v, Ty::I64, "ret.sext"),
            Width::U32 => self.convert(Conv::Zext, v, Ty::I64, "ret.zext"),
            Width::W64 => v,
            Width::F32 => self.f32_to_cell(v, "ret.f32.cell"),
            Width::F64 => self.f64_to_cell(v, "ret.f64.cell"),
        }
    }

    fn native_args(&mut self, args: &Vec<Atom>, params: &Vec<Width>) -> (r: Result<
        Vec<Val>,
        CodegenError,
    >)
        ensures
            agrees_cells(
                old(self)@.native_args(args@, params@, 0, Seq::empty()),
                final(self)@,
                r,
            ),
    {
        let mut done: Vec<Val> = Vec::new();
        let mut i: usize = 0;
        assert(done@ =~= Seq::empty());
        while i < args.len() && i < params.len()
            invariant
                i <= args.len(),
                self@.native_args(args@, params@, i as nat, done@) == old(self)@.native_args(
                    args@,
                    params@,
                    0,
                    Seq::empty(),
                ),
            decreases args.len() - i,
        {
            let v = match self.lower_cell(&args[i], "foreign argument") {
                Err(e) => {
                    return Err(e);
                },
                Ok(v) => v,
            };
            let native = self.to_native(v, params[i]);
            done.push(native);
            i = i + 1;
        }
        Ok(done)
    }

    /// A call of a foreign function.
    pub(crate) fn lower_foreign(&mut self, sym: &String, args: &Vec<Atom>, abi: &ExternAbi) -> (r: Result<
        Val,
        CodegenError,
    >)
        ensures
            agrees(old(self)@.foreign(*sym, args@, *abi), final(self)@, r),
    {
        let ret = native_type(abi.ret);
        self.put(Cmd::Declare { name: sym.clone(), ret });
        self.native_params(&abi.params);
        let vs = match self.native_args(args, &abi.params) {
            Err(e) => {
                return Err(e);
            },
            Ok(vs) => vs,
        };
        self.push_args(&vs);
        let r = self.def(
            Cmd::Call { callee: Callee::Foreign(sym.clone()), ret, label: "winapi" },
            ret,
        );
        Ok(self.from_native(r, abi.ret))
    }

    /// Close a handle scope, if one is open, around a result.
    pub(crate) fn return_with_frame(&mut self, frame: Option<Val>, v: Val) -> (r: Val)
        ensures
            (final(self)@, r) == old(self)@.leave(frame, v),
    {
        match frame {
            None => v,
            Some(f) => match v.ty {
                Ty::I64 => self.gc_leave_with(f, v),
                _ => {
                    self.gc_leave(f);
                    v
                },
            },
        }
    }

    /// Open a handle scope if `open`.
    pub(crate) fn enter_if(&mut self, open: bool) -> (r: Option<Val>)
        ensures
            (final(self)@, r) == old(self)@.enter(open),
    {
        if open {
            Some(self.gc_enter())
        } else {
            None
        }
    }

    /// Borrow the arrays that are not borrowed yet.
    pub(crate) fn borrow_raw_scalar_arrays(&mut self, names: &Vec<String>) -> (r: Result<
        Rc<Scope<RawArray>>,
        CodegenError,
    >)
        ensures
            match old(self)@.borrow_arrays(names@, 0, old(self).cx.raws) {
                Ok((st, raws)) => final(self)@ == st && r == Ok::<
                    Rc<Scope<RawArray>>,
                    CodegenError,
                >(raws),
                Err(e) => r == Err::<Rc<Scope<RawArray>>, CodegenError>(e),
            },
    {
        let mut raws = share(&self.cx.raws);
        let mut i: usize = 0;
        while i < names.len()
            invariant
                i <= names.len(),
                self@.borrow_arrays(names@, i as nat, raws) == old(self)@.borrow_arrays(
                    names@,
                    0,
                    old(self).cx.raws,
                ),
            decreases names.len() - i,
        {
            let value = match self.cx.env.find(&names[i]) {
                None => {
                    return Err(CodegenError::UnboundArray(names[i].clone()));
                },
                Some(var) => var.value,
            };
            let held = match raws.find(&names[i]) {
                Some(raw) => raw.arr == value,
                None => false,
            };
            if !held {
                let h = match expect_cell(value, "array handle") {
                    Err(e) => {
                        return Err(e);
                    },
                    Ok(h) => h,
                };
                self.arg(h);
                let base = self.call(
                    "locus_gc_scalar_fields_ptr",
                    Ty::Ptr,
                    "locus_gc_scalar_fields_ptr",
                );
                let len = self.load_as(
                    Ty::I64,
                    base,
                    Title::Var { before: "", name: names[i].clone(), after: ".len" },
                );
                raws = Rc::new(
                    Scope::More {
                        name: names[i].clone(),
                        item: RawArray { base, len, arr: h },
                        rest: raws,
                    },
                );
            }
            i = i + 1;
        }
        Ok(raws)
    }
}

proof fn lemma_arg_params_cx(st: St, args: Seq<CallArg>, i: nat)
    ensures
        st.arg_params(args, i) matches Ok(s) ==> s.cx == st.cx,
    decreases args.len() - i,
{
    if i < args.len() {
        if let Ok(ty) = abi_ty(args[i as int].ty) {
            lemma_arg_params_cx(st.put(Cmd::Param { ty }), args, i + 1);
        }
    }
}

} // verus!
