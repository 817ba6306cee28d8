//! How the code of functions is laid out: what a computation, a block and a function
//! add to a script, and what they leave in place.
use crate::analysis::{comp_has_perform, performs_gc, performs_label};
use crate::applying::{
    call_head, lemma_apply_len, lemma_arg_vals, lemma_call_small, lemma_chain_len, lemma_fast_len,
};
use crate::blocks::{
    all_params, calls_itself, chain_body, chain_params, chain_ret, names_itself, param_tys,
    sole_lambda, LoopHead, Param, Tail,
};
use crate::captures::{cells_of, packed, placed_captures_are_packed};
use crate::closures::{abi_ty, capture_names, env_ty, passed_in_cell};
use crate::currying::{
    env_plain, flat, inner, lemma_bind_plain, lemma_chain_occ, lemma_first_or_rest,
    lemma_load_plain, lemma_params_resume, lemma_plain_kept, lemma_start_resume, plain_param,
    Closed,
};
use crate::error::CodegenError;
use crate::evaluation::{
    bare_block, bind_count, call_args, cell_accumulator, cell_call, cell_var, no_text, seen_with,
    spoken, spoken_block, spoken_rest, spoken_steps,
};
use crate::freevars::{lambda_occ, occ_ir};
use crate::ir::{
    pointer_to, target, Atom, CallArg, Comp, Ir, IrBind, Label, LoopVar, Type, ValueLayout,
};
use crate::lambdas::closure_size;
use crate::layout::{CaptureInfo, LoopVarStorage};
use crate::loops::{raw_uses, raw_uses_binds, raw_uses_comp, raw_uses_steps};
use crate::meaning::extends;
use crate::names::has_name;
use crate::programs::{plain_var, Names};
use crate::scoping::{a_lambda_captures_its_free_variables, cap_names, comes_from};
use crate::shape::{
    all_scalar, if_head, if_turn, lemma_atom, lemma_bin, lemma_cell, lemma_extends,
    lemma_int_bin_len, lemma_loop_len, lemma_of_atom, lemma_of_bare_loop, lemma_of_bin,
    lemma_of_block, lemma_of_if, lemma_of_ir, lemma_of_ret, lemma_of_steps, loop_opened, of_binds,
    of_comp, of_ir, of_steps, LoopParts,
};
use crate::state::St;
use crate::tails::{
    headed, lam_body, lam_param, lemma_headed_len, lemma_next_args, lemma_prologue_start,
    lemma_put_params, loop_entered, names_of, of_tail, of_tail_comp, plain_capture, prologue,
    tail_branch, tail_turn,
};
use crate::target::{constant, Cmd, Conv, FuncName, Id, Title, Ty, Val};
use std::rc::Rc;
use vstd::prelude::*;

verus! {

// ── the parts of code ────────────────────────────────────────────────────
/// The code of a lambda, under its own name where it has one.
#[verifier::opaque]
pub open spec fn closing(st: St, fuel: nat, own: Option<String>, lam: Comp) -> Result<
    (St, Val),
    CodegenError,
> {
    st.closure(fuel, own, lam)
}

/// The function lifted from a lambda.
#[verifier::opaque]
pub open spec fn lifting(
    st: St,
    fuel: nat,
    own: Option<String>,
    lam: Comp,
    caps: Seq<CaptureInfo>,
) -> Result<(St, u64), CodegenError> {
    st.lift(fuel, own, lam, caps)
}

/// The uncurried entry of a lambda.
#[verifier::opaque]
pub open spec fn speeding(
    st: St,
    fuel: nat,
    own: Option<String>,
    lam: Comp,
    caps: Seq<CaptureInfo>,
) -> Result<(St, Val, Val), CodegenError> {
    st.fast(fuel, own, lam, caps)
}

/// The code of what is bound to a name.
pub open spec fn of_bound(st: St, fuel: nat, name: String, comp: Comp) -> Result<
    (St, Val),
    CodegenError,
> {
    if names_itself(comp, name@) {
        closing(st, fuel, Some(name), comp)
    } else {
        of_comp(st, fuel, comp)
    }
}

/// The code of a block from binding `i` on.
pub open spec fn of_rest(st: St, fuel: nat, ir: Ir, i: nat) -> Result<(St, Val), CodegenError> {
    match of_binds(st, fuel, ir->Block_binds, i) {
        Err(e) => Err(e),
        Ok(next) => of_comp(next, fuel, *ir->Block_comp),
    }
}

/// The code of a block in tail position from binding `i` on.
pub open spec fn of_tail_rest(st: St, fuel: nat, ir: Ir, i: nat, t: Tail) -> Result<St, CodegenError> {
    match of_binds(st, fuel, ir->Block_binds, i) {
        Err(e) => Err(e),
        Ok(next) => of_tail_comp(next, fuel, *ir->Block_comp, t.behind_all(ir->Block_binds@)),
    }
}

pub(crate) proof fn lemma_of_bound(
    st: St,
    fuel: nat,
    name: String,
    ty: Rc<Type>,
    layout: ValueLayout,
    comp: Comp,
)
    requires
        !(comp is Extern),
    ensures
        st.binding(fuel, name, ty, layout, comp) == match of_bound(st, fuel, name, comp) {
            Err(e) => Err(e),
            Ok((next, v)) => Ok(next.bind(name, v, ty, layout)),
        },
{
    reveal(of_comp);
    reveal(closing);
}

pub(crate) proof fn lemma_rest_is(st: St, fuel: nat, ir: Ir, i: nat, held: Names, seen: Names)
    requires
        ir is Block,
        spoken_rest(ir, i, held, seen),
    ensures
        i >= ir->Block_binds.len() ==> of_rest(st, fuel, ir, i) == of_comp(
            st,
            fuel,
            *ir->Block_comp,
        ),
        i < ir->Block_binds.len() ==> ({
            let b = ir->Block_binds[i as int];
            of_rest(st, fuel, ir, i) == match of_bound(st, fuel, b.name, *b.comp) {
                Err(e) => Err(e),
                Ok((next, v)) => of_rest(next.bind(b.name, v, b.ty, b.layout), fuel, ir, i + 1),
            }
        }),
{
    reveal(of_binds);
    let binds = ir->Block_binds;
    if i < binds.len() {
        let b = binds[i as int];
        assert(spoken(target(b.comp), held, seen));
        lemma_of_bound(st, fuel, b.name, b.ty, b.layout, target(b.comp));
    }
}

pub(crate) proof fn lemma_tail_rest_is(st: St, fuel: nat, ir: Ir, i: nat, t: Tail, held: Names, seen: Names)
    requires
        ir is Block,
        spoken_rest(ir, i, held, seen),
    ensures
        i >= ir->Block_binds.len() ==> of_tail_rest(st, fuel, ir, i, t) == of_tail_comp(
            st,
            fuel,
            *ir->Block_comp,
            t.behind_all(ir->Block_binds@),
        ),
        i < ir->Block_binds.len() ==> ({
            let b = ir->Block_binds[i as int];
            of_tail_rest(st, fuel, ir, i, t) == match of_bound(st, fuel, b.name, *b.comp) {
                Err(e) => Err(e),
                Ok((next, v)) => of_tail_rest(
                    next.bind(b.name, v, b.ty, b.layout),
                    fuel,
                    ir,
                    i + 1,
                    t,
                ),
            }
        }),
{
    reveal(of_binds);
    let binds = ir->Block_binds;
    if i < binds.len() {
        let b = binds[i as int];
        assert(spoken(target(b.comp), held, seen));
        lemma_of_bound(st, fuel, b.name, b.ty, b.layout, target(b.comp));
    }
}

pub(crate) proof fn lemma_block_is(st: St, fuel: nat, ir: Ir, held: Names, seen: Names)
    requires
        spoken_block(ir, held, seen),
    ensures
        match ir {
            Ir::Block { .. } => of_ir(st, fuel, ir) == of_rest(st, fuel, ir, 0),
            Ir::Let { name, ty, layout, comp, rest, .. } => of_ir(st, fuel, ir) == match of_bound(
                st,
                fuel,
                name,
                *comp,
            ) {
                Err(e) => Err(e),
                Ok((next, v)) => of_ir(next.bind(name, v, ty, layout), fuel, *rest),
            },
            Ir::Ret { comp, .. } => of_ir(st, fuel, ir) == of_comp(st, fuel, *comp),
        },
{
    match ir {
        Ir::Block { .. } => lemma_of_block(st, fuel, ir),
        Ir::Let { name, ty, layout, comp, rest, .. } => {
            reveal(of_ir);
            assert(spoken(target(comp), held, seen));
            lemma_of_bound(st, fuel, name, ty, layout, target(comp));
        },
        Ir::Ret { .. } => lemma_of_ret(st, fuel, ir),
    }
}

pub(crate) proof fn lemma_tail_is(st: St, fuel: nat, ir: Ir, t: Tail, held: Names, seen: Names)
    requires
        spoken_block(ir, held, seen),
    ensures
        match ir {
            Ir::Block { .. } => of_tail(st, fuel, ir, t) == of_tail_rest(st, fuel, ir, 0, t),
            Ir::Let { name, ty, layout, comp, rest, .. } => of_tail(st, fuel, ir, t)
                == match of_bound(st, fuel, name, *comp) {
                Err(e) => Err(e),
                Ok((next, v)) => of_tail(
                    next.bind(name, v, ty, layout),
                    fuel,
                    *rest,
                    t.behind(name@),
                ),
            },
            Ir::Ret { comp, .. } => of_tail(st, fuel, ir, t) == of_tail_comp(st, fuel, *comp, t),
        },
{
    reveal(of_tail);
    match ir {
        Ir::Block { .. } => {
            reveal(of_binds);
            reveal(of_tail_comp);
        },
        Ir::Let { name, ty, layout, comp, rest, .. } => {
            assert(spoken(target(comp), held, seen));
            lemma_of_bound(st, fuel, name, ty, layout, target(comp));
        },
        Ir::Ret { .. } => {
            reveal(of_tail_comp);
        },
    }
}

/// The parts of the code of a call.
pub(crate) proof fn lemma_app_is(st: St, fuel: nat, comp: Comp) -> (r: (Val, Val))
    requires
        comp is App,
        cell_call(comp),
        st.cx.resume is None,
        of_comp(st, fuel, comp) is Ok,
    ensures
        st.atom(comp->App_fun) == Ok::<(St, Val), CodegenError>((st, r.0)),
        st.atom(comp->App_arg) == Ok::<(St, Val), CodegenError>((st, r.1)),
        of_comp(st, fuel, comp) == st.apply_one(
            r.0,
            r.1,
            comp->App_arg_ty,
            comp->App_ret_ty,
        ),
{
    reveal(of_comp);
    assert(no_text(call_args(comp)[0]));
    lemma_cell(st, comp->App_fun, "function value");
    lemma_atom(st, comp->App_arg);
    (st.atom(comp->App_fun)->Ok_0.1, st.atom(comp->App_arg)->Ok_0.1)
}

/// The operands of arguments.
pub open spec fn vals_of(st: St, args: Seq<Atom>) -> Seq<Val> {
    Seq::new(args.len(), |k: int| st.atom(args[k])->Ok_0.1)
}

pub(crate) proof fn lemma_call_is(st: St, fuel: nat, comp: Comp) -> (clos: Val)
    requires
        comp is Call,
        cell_call(comp),
        of_comp(st, fuel, comp) is Ok,
    ensures
        st.atom(comp->Call_fun) == Ok::<(St, Val), CodegenError>((st, clos)),
        forall|k: int|
            0 <= k < call_args(comp).len() ==> st.atom(#[trigger] call_args(comp)[k]) is Ok,
        of_comp(st, fuel, comp) == st.call_by_arity(
            clos,
            comp->Call_args@,
            vals_of(st, call_args(comp)),
            comp->Call_fun_ty,
            Ty::I64,
        ),
{
    reveal(of_comp);
    let args = comp->Call_args@;
    lemma_cell(st, comp->Call_fun, "function value");
    assert forall|k: int| 0 <= k < args.len() implies !((#[trigger] args[k]).value is Str) by {
        assert(no_text(call_args(comp)[k]));
    }
    lemma_arg_vals(st, args, 0, Seq::empty());
    let vs = st.arg_vals(args, 0, Seq::empty())->Ok_0.1;
    assert(vs =~= vals_of(st, call_args(comp)));
    assert forall|k: int| 0 <= k < call_args(comp).len() implies st.atom(
        #[trigger] call_args(comp)[k],
    ) is Ok by {
        assert(st.atom(args[k].value) is Ok);
    }
    st.atom(comp->Call_fun)->Ok_0.1
}

// ── functions ────────────────────────────────────────────────────────────
/// The parts of a function's code.
pub struct FunCode {
    pub name: FuncName,
    pub params: Seq<Param>,
    pub tys: Seq<Ty>,
    pub ret: Ty,
    pub body: Ir,
    /// Behind the parameters and captures.
    pub start: St,
    /// Behind the head of the loop, where the function is one.
    pub first: St,
    pub t: Tail,
    /// Behind the body, where it is no loop, and its value.
    pub mid: St,
    pub v: Val,
    /// Behind the return.
    pub out: St,
}

/// The code of a function has these parts.
pub open spec fn fun_parts(
    st: St,
    fuel: nat,
    own: Option<String>,
    caps: Seq<CaptureInfo>,
    q: FunCode,
) -> bool {
    &&& q.tys.len() == q.params.len()
    &&& forall|k: int| 0 <= k < q.tys.len() ==> #[trigger] q.tys[k] is I64
    &&& prologue(st, q.name, q.ret, q.params, q.tys, caps) == Ok::<
        (St, Option<Val>),
        CodegenError,
    >((q.start, None))
    &&& match own {
        None => {
            &&& of_ir(q.start, fuel, q.body) == Ok::<(St, Val), CodegenError>((q.mid, q.v))
            &&& q.out == q.mid.put(Cmd::Ret { val: q.v })
        },
        Some(o) => {
            &&& headed(q.start, st.here(), q.params, q.tys, q.t.uncurried) == (q.first, q.t.phis)
            &&& q.t.own == o
            &&& q.t.head == q.start.here()
            &&& q.t.frame is None
            &&& q.t.live
            &&& !q.t.uncurried ==> q.params.len() == 1
            &&& of_tail(q.first, fuel, q.body, q.t) == Ok::<St, CodegenError>(q.out)
        },
    }
}

/// The state behind a function.
pub open spec fn behind_fun(st: St, q: FunCode) -> St {
    q.out.in_env(st.cx.env).with_func(st.cx.func).at(st.cx.block)
}

/// A lambda of the programs that are spoken of.
pub open spec fn spoken_lam(lam: Comp, seen: Names) -> bool {
    lam is Lam && spoken(lam, seen, seen)
}

pub(crate) proof fn lemma_chain(lam: Comp, seen: Names)
    requires
        spoken_lam(lam, seen),
    ensures
        ({
            let body = chain_body(lam_body(lam));
            &&& spoken_block(body, seen, seen)
            &&& passed_in_cell(*chain_ret(lam_body(lam), lam->Lam_ret_ty))
            &&& !crate::analysis::performs_gc(body)
            &&& all_params(lam).len() >= 1
            &&& forall|k: int| 0 <= k < all_params(lam).len() ==> plain_param(#[trigger] all_params(lam)[k])
            &&& all_params(lam)[0] == lam_param(lam)
            &&& decreases_to!(lam => body)
        }),
        match sole_lambda(lam_body(lam)) {
            Some(c) => {
                &&& spoken_lam(*c, seen)
                &&& chain_body(lam_body(lam)) == chain_body(lam_body(*c))
                &&& all_params(lam) == seq![lam_param(lam)] + all_params(*c)
                &&& decreases_to!(lam => *c)
            },
            None => chain_body(lam_body(lam)) == lam_body(lam) && all_params(lam) == seq![
                lam_param(lam),
            ],
        },
    decreases lam,
{
    if let Comp::Lam { body, ret_ty, .. } = lam {
        let b = target(body);
        assert(decreases_to!(lam => b));
        match sole_lambda(b) {
            Some(c) => {
                let inner = target(c);
                match b {
                    Ir::Block { binds, comp, .. } => {
                        assert(spoken_rest(b, 0, seen, seen));
                    },
                    _ => {},
                }
                assert(spoken(inner, seen, seen));
                lemma_chain(inner, seen);
                let ps = all_params(lam);
                assert(ps == seq![lam_param(lam)] + all_params(inner));
                assert forall|k: int| 0 <= k < ps.len() implies plain_param(#[trigger] ps[k]) by {
                    if k > 0 {
                        assert(ps[k] == all_params(inner)[k - 1]);
                    }
                }
            },
            None => {
                assert(seq![lam_param(lam)] + Seq::<Param>::empty() =~= seq![lam_param(lam)]);
            },
        }
    }
}

proof fn lemma_all_cells(params: Seq<Param>, i: nat, done: Seq<Ty>)
    requires
        i <= params.len(),
        forall|k: int| 0 <= k < params.len() ==> plain_param(#[trigger] params[k]),
        forall|k: int| 0 <= k < done.len() ==> #[trigger] done[k] is I64,
    ensures
        param_tys(params, i, done) matches Ok(tys) && tys.len() == done.len() + params.len() - i
            && forall|k: int| 0 <= k < tys.len() ==> #[trigger] tys[k] is I64,
    decreases params.len() - i,
{
    if i < params.len() {
        assert(plain_param(params[i as int]));
        lemma_all_cells(params, i + 1, done.push(Ty::I64));
    }
}

pub(crate) proof fn lemma_lifting_is(
    st: St,
    fuel: nat,
    own: Option<String>,
    lam: Comp,
    caps: Seq<CaptureInfo>,
    seen: Names,
) -> (q: FunCode)
    requires
        !st.cx.gc,
        spoken_lam(lam, seen),
        forall|k: int| 0 <= k < caps.len() ==> plain_capture(#[trigger] caps[k]),
        lifting(st, fuel, own, lam, caps) is Ok,
    ensures
        fun_parts(st, fuel, own, caps, q),
        q.params == seq![lam_param(lam)],
        q.body == lam_body(lam),
        !q.t.uncurried,
        lifting(st, fuel, own, lam, caps) == Ok::<(St, u64), CodegenError>(
            (behind_fun(st, q), st.here()),
        ),
{
    reveal(lifting);
    reveal(prologue);
    reveal(headed);
    reveal(of_tail);
    reveal_with_fuel(St::bind_params, 2);
    let params = seq![lam_param(lam)];
    let name = FuncName::Lam(st.cx.lifted);
    let ret = abi_ty(lam->Lam_ret_ty)->Ok_0;
    let tys = seq![abi_ty(lam_param(lam).ty)->Ok_0];
    let (start, frame) = prologue(st, name, ret, params, tys, caps)->Ok_0;
    lemma_prologue_start(st, name, ret, params, tys, caps);
    lemma_of_ir(start, fuel, lam_body(lam));
    let (first, phis) = headed(start, st.here(), params, tys, false);
    match own {
        None => {
            let (mid, v) = of_ir(start, fuel, lam_body(lam))->Ok_0;
            let t = Tail {
                own: arbitrary(),
                head: start.here(),
                phis,
                uncurried: false,
                frame: None,
                live: true,
            };
            FunCode {
                name,
                params,
                tys,
                ret,
                body: lam_body(lam),
                start,
                first,
                t,
                mid,
                v,
                out: mid.put(Cmd::Ret { val: v }),
            }
        },
        Some(o) => {
            let t = Tail { own: o, head: start.here(), phis, uncurried: false, frame, live: true };
            let out = of_tail(first, fuel, lam_body(lam), t)->Ok_0;
            FunCode {
                name,
                params,
                tys,
                ret,
                body: lam_body(lam),
                start,
                first,
                t,
                mid: out,
                v: constant(0),
                out,
            }
        },
    }
}

pub(crate) proof fn lemma_speeding_is(
    st: St,
    fuel: nat,
    own: Option<String>,
    lam: Comp,
    caps: Seq<CaptureInfo>,
    seen: Names,
) -> (q: FunCode)
    requires
        !st.cx.gc,
        spoken_lam(lam, seen),
        forall|k: int| 0 <= k < caps.len() ==> plain_capture(#[trigger] caps[k]),
        speeding(st, fuel, own, lam, caps) is Ok,
    ensures
        all_params(lam).len() < 2 ==> speeding(st, fuel, own, lam, caps) == Ok::<
            (St, Val, Val),
            CodegenError,
        >((st, constant(0), constant(0))),
        all_params(lam).len() >= 2 ==> {
            &&& fun_parts(st, fuel, own, caps, q)
            &&& q.params == all_params(lam)
            &&& q.body == chain_body(lam_body(lam))
            &&& q.t.uncurried
            &&& speeding(st, fuel, own, lam, caps) == Ok::<(St, Val, Val), CodegenError>(
                (
                    behind_fun(st, q).put(
                        Cmd::Convert {
                            op: Conv::PtrToInt,
                            a: Val { id: Id::Func(st.here()), ty: Ty::Ptr },
                            ty: Ty::I64,
                            label: "fastaddr",
                        },
                    ),
                    Val { id: Id::Reg(behind_fun(st, q).script.len() as u64), ty: Ty::I64 },
                    constant(all_params(lam).len() as u64),
                ),
            )
        },
{
    reveal(speeding);
    reveal(prologue);
    reveal(headed);
    reveal(of_tail);
    lemma_chain(lam, seen);
    let params = all_params(lam);
    if params.len() < 2 {
        arbitrary()
    } else {
        let name = FuncName::Fast(st.cx.lifted);
        let body = chain_body(lam_body(lam));
        let ret_ty = chain_ret(lam_body(lam), lam->Lam_ret_ty);
        let ret = abi_ty(ret_ty)->Ok_0;
        let tys = param_tys(params, 0, Seq::empty())->Ok_0;
        lemma_all_cells(params, 0, Seq::empty());
        assert(crate::blocks::all_in_cells(params));
        assert(st.fast_entry(fuel, own, params, caps, body, ret_ty) is Ok);
        let (start, frame) = prologue(st, name, ret, params, tys, caps)->Ok_0;
        lemma_prologue_start(st, name, ret, params, tys, caps);
        lemma_of_ir(start, fuel, body);
        let (first, phis) = headed(start, st.here(), params, tys, true);
        match own {
            None => {
                let (mid, v) = of_ir(start, fuel, body)->Ok_0;
                let t = Tail {
                    own: arbitrary(),
                    head: start.here(),
                    phis,
                    uncurried: true,
                    frame: None,
                    live: true,
                };
                FunCode {
                    name,
                    params,
                    tys,
                    ret,
                    body,
                    start,
                    first,
                    t,
                    mid,
                    v,
                    out: mid.put(Cmd::Ret { val: v }),
                }
            },
            Some(o) => {
                let t = Tail { own: o, head: start.here(), phis, uncurried: true, frame, live: true };
                let out = of_tail(first, fuel, body, t)->Ok_0;
                FunCode { name, params, tys, ret, body, start, first, t, mid: out, v: constant(0), out }
            },
        }
    }
}

// ── captures ─────────────────────────────────────────────────────────────
pub(crate) proof fn lemma_spoken_step(steps: Vec<Ir>, n: nat, i: int, seen: Names)
    requires
        spoken_steps(steps, n, seen),
        0 <= i < n <= steps.len(),
    ensures
        spoken_block(steps[i], seen, seen),
        bare_block(steps[i]),
    decreases n,
{
    if i < n - 1 {
        lemma_spoken_step(steps, (n - 1) as nat, i, seen);
    }
}

proof fn lemma_silent(comp: Comp, held: Names, seen: Names, label: Label)
    requires
        spoken(comp, held, seen),
    ensures
        !comp_has_perform(comp, label),
    decreases comp, 0nat,
{
    match comp {
        Comp::If(_, yes, no) => {
            lemma_silent_block(target(yes), seen, seen, label);
            lemma_silent_block(target(no), seen, seen, label);
        },
        Comp::Lam { body, .. } => lemma_silent_block(target(body), seen, seen, label),
        Comp::Loop { cond, steps, result, .. } => {
            lemma_silent_block(target(cond), seen, seen, label);
            lemma_silent_block(target(result), seen, seen, label);
            assert forall|i: int| 0 <= i < steps.len() implies !performs_label(#[trigger] steps[i], label) by {
                lemma_spoken_step(steps, steps.len() as nat, i, seen);
                lemma_silent_block(steps[i], seen, seen, label);
            }
        },
        _ => {},
    }
}

proof fn lemma_silent_block(ir: Ir, held: Names, seen: Names, label: Label)
    requires
        spoken_block(ir, held, seen),
    ensures
        !performs_label(ir, label),
    decreases ir, bind_count(ir) + 1,
{
    match ir {
        Ir::Block { binds, comp, .. } => {
            lemma_silent_rest(ir, 0, held, seen, label);
        },
        Ir::Let { comp, rest, .. } => {
            lemma_silent(target(comp), held, seen, label);
            lemma_silent_block(target(rest), held, seen_with(target(comp), seen), label);
        },
        Ir::Ret { comp, .. } => lemma_silent(target(comp), held, seen, label),
    }
}

proof fn lemma_silent_rest(ir: Ir, i: nat, held: Names, seen: Names, label: Label)
    requires
        ir is Block,
        spoken_rest(ir, i, held, seen),
    ensures
        forall|k: int|
            i <= k < ir->Block_binds.len() ==> !comp_has_perform(
                *(#[trigger] ir->Block_binds[k]).comp,
                label,
            ),
        !comp_has_perform(*ir->Block_comp, label),
    decreases ir, bind_count(ir) - i,
{
    if let Ir::Block { binds, comp, .. } = ir {
        if i < binds.len() {
            let c = target(binds[i as int].comp);
            lemma_silent(c, held, seen, label);
            lemma_silent_rest(ir, i + 1, held, seen_with(c, seen), label);
        } else {
            lemma_silent(target(comp), held, seen, label);
        }
    }
}

proof fn lemma_raw(comp: Comp, held: Names, seen: Names)
    requires
        spoken(comp, held, seen),
    ensures
        raw_uses_comp(comp) =~= Seq::<String>::empty(),
    decreases comp, 0nat,
{
    match comp {
        Comp::If(_, yes, no) => {
            lemma_raw_block(target(yes), seen, seen);
            lemma_raw_block(target(no), seen, seen);
        },
        Comp::Loop { cond, steps, result, .. } => {
            lemma_raw_block(target(cond), seen, seen);
            lemma_raw_steps(steps, steps.len() as nat, seen);
            lemma_raw_block(target(result), seen, seen);
        },
        _ => {},
    }
}

proof fn lemma_raw_steps(steps: Vec<Ir>, n: nat, seen: Names)
    requires
        spoken_steps(steps, n, seen),
        n <= steps.len(),
    ensures
        raw_uses_steps(steps, n) =~= Seq::<String>::empty(),
    decreases steps, n,
{
    if n > 0 {
        lemma_raw_steps(steps, (n - 1) as nat, seen);
        lemma_raw_block(steps[n - 1], seen, seen);
    }
}

proof fn lemma_raw_block(ir: Ir, held: Names, seen: Names)
    requires
        spoken_block(ir, held, seen),
    ensures
        raw_uses(ir) =~= Seq::<String>::empty(),
    decreases ir, bind_count(ir) + 1,
{
    match ir {
        Ir::Block { binds, comp, .. } => {
            lemma_raw_rest(ir, 0, held, seen);
            lemma_raw_binds(binds, binds.len() as nat);
        },
        Ir::Let { comp, rest, .. } => {
            lemma_raw(target(comp), held, seen);
            lemma_raw_block(target(rest), held, seen_with(target(comp), seen));
        },
        Ir::Ret { comp, .. } => lemma_raw(target(comp), held, seen),
    }
}

proof fn lemma_raw_rest(ir: Ir, i: nat, held: Names, seen: Names)
    requires
        ir is Block,
        spoken_rest(ir, i, held, seen),
    ensures
        forall|k: int|
            i <= k < ir->Block_binds.len() ==> raw_uses_comp(*(#[trigger] ir->Block_binds[k]).comp)
                =~= Seq::<String>::empty(),
        raw_uses_comp(*ir->Block_comp) =~= Seq::<String>::empty(),
    decreases ir, bind_count(ir) - i,
{
    if let Ir::Block { binds, comp, .. } = ir {
        if i < binds.len() {
            let c = target(binds[i as int].comp);
            lemma_raw(c, held, seen);
            lemma_raw_rest(ir, i + 1, held, seen_with(c, seen));
        } else {
            lemma_raw(target(comp), held, seen);
        }
    }
}

proof fn lemma_raw_binds(binds: Vec<IrBind>, n: nat)
    requires
        n <= binds.len(),
        forall|k: int|
            0 <= k < binds.len() ==> raw_uses_comp(*(#[trigger] binds[k]).comp)
                =~= Seq::<String>::empty(),
    ensures
        raw_uses_binds(binds, n) =~= Seq::<String>::empty(),
    decreases n,
{
    if n > 0 {
        lemma_raw_binds(binds, (n - 1) as nat);
        assert(raw_uses_comp(*binds[n - 1].comp) =~= Seq::<String>::empty());
    }
}

/// The parts of a loop.
pub(crate) proof fn lemma_loop_parts(st: St, fuel: nat, comp: Comp, held: Names, seen: Names) -> (p: LoopParts)
    requires
        comp is Loop,
        !st.cx.gc,
        spoken(comp, held, seen),
        of_comp(st, fuel, comp) is Ok,
    ensures
        p.of(st, fuel, comp),
{
    if let Comp::Loop { vars, cond, steps, result } = comp {
        lemma_raw_block(target(cond), seen, seen);
        lemma_raw_steps(steps, steps.len() as nat, seen);
        assert forall|k: int| 0 <= k < comp->Loop_vars@.len() implies plain_var(
            #[trigger] comp->Loop_vars@[k],
        ) by {
            assert(cell_accumulator(vars@[k]));
        }
    }
    lemma_of_bare_loop(st, fuel, comp)
}

proof fn lemma_heads_plain(
    st: St,
    vars: Seq<LoopVar>,
    storages: Seq<LoopVarStorage>,
    inits: Seq<Val>,
    from: u64,
    i: nat,
    phis: Seq<Option<u64>>,
)
    requires
        env_plain(st),
        inits.len() == vars.len(),
        forall|k: int| 0 <= k < inits.len() ==> (#[trigger] inits[k]).ty is I64,
        forall|k: int| 0 <= k < vars.len() ==> cell_accumulator(#[trigger] vars[k]),
    ensures
        env_plain(st.loop_head(vars, storages, inits, from, i, phis).0),
    decreases vars.len() - i,
{
    if i < vars.len() {
        let var = vars[i as int];
        let init = inits[i as int];
        let phi = st.here();
        assert(cell_accumulator(var));
        if storages[i as int] is Scalar {
            let (next, v) = st.phi_as(
                init.ty,
                Title::Var { before: "loop.", name: var.name, after: "" },
            );
            let fed = next.incoming(phi, init, from);
            lemma_plain_kept(st, fed);
            lemma_bind_plain(fed, var.name, v, var.ty, var.layout);
            lemma_heads_plain(
                fed.bind(var.name, v, var.ty, var.layout),
                vars,
                storages,
                inits,
                from,
                i + 1,
                phis.push(Some(phi)),
            );
        } else {
            lemma_bind_plain(st, var.name, init, var.ty, var.layout);
            lemma_heads_plain(
                st.bind(var.name, init, var.ty, var.layout),
                vars,
                storages,
                inits,
                from,
                i + 1,
                phis.push(None),
            );
        }
    }
}

/// The states in which the parts of a loop are lowered.
pub(crate) proof fn lemma_loop_apt(st: St, fuel: nat, comp: Comp, p: LoopParts, held: Names, seen: Names)
    requires
        apt(st),
        spoken(comp, held, seen),
        p.of(st, fuel, comp),
    ensures
        ({
            let (hd, h) = p.head(st, comp);
            &&& apt(hd)
            &&& h.env == hd.cx.env
            &&& hd.cx.slots == st.cx.slots
            &&& p.body(st, comp).cx.env == hd.cx.env
            &&& p.out(st, comp).cx.env == hd.cx.env
        }),
{
    let vars = comp->Loop_vars@;
    let (hd, h) = p.head(st, comp);
    lemma_loop_len(st, fuel, comp, p);
    assert forall|k: int| 0 <= k < p.inits.len() implies (#[trigger] p.inits[k]).ty is I64 by {
        assert(st.atom(vars[k].init) == Ok::<(St, Val), CodegenError>((st, p.inits[k])));
        assert(cell_accumulator(vars[k]));
        lemma_cell_atom(st, vars[k].init);
    }
    let begun = loop_opened(st);
    lemma_plain_kept(st, begun);
    lemma_heads_plain(begun, vars, p.storages, p.inits, st.cx.block, 0, Seq::empty());
    assert(hd == begun.loop_head(vars, p.storages, p.inits, st.cx.block, 0, Seq::empty()).0);
    lemma_close_env(p.s1, h, p.nexts, st);
}

proof fn lemma_close_env(s1: St, h: LoopHead, nexts: Seq<Val>, outer: St)
    ensures
        s1.loop_close(h, nexts, outer).cx.env == h.env,
{
}

/// The code of a lambda has these parts.
pub open spec fn closed_parts(st: St, fuel: nat, own: Option<String>, lam: Comp, p: Closed) -> bool {
    &&& p.fun_ty == pointer_to(Type::Fun(lam_param(lam).ty, lam->Lam_ret_ty, st.cx.pure))
    &&& st.place_captures(
        own,
        p.fun_ty,
        capture_names(lam_body(lam), lam_param(lam).name@, *st.cx.handlers),
        0,
        Seq::empty(),
    ) == Ok::<Seq<CaptureInfo>, CodegenError>(p.caps)
    &&& lifting(st, fuel, own, lam, p.caps) is Ok
    &&& lifting(st, fuel, own, lam, p.caps)->Ok_0.0 == p.made
    &&& p.named == p.made.put(
        Cmd::Convert {
            op: Conv::PtrToInt,
            a: Val { id: Id::Func(lifting(st, fuel, own, lam, p.caps)->Ok_0.1), ty: Ty::Ptr },
            ty: Ty::I64,
            label: "fnaddr",
        },
    )
    &&& p.entry == Val { id: Id::Reg(p.made.script.len() as u64), ty: Ty::I64 }
    &&& speeding(p.named, fuel, own, lam, p.caps) == Ok::<(St, Val, Val), CodegenError>(
        (p.last, p.fast, p.arity),
    )
    &&& p.last.build_closure(own, p.fun_ty, p.caps, p.entry, p.fast, p.arity) is Ok
    &&& p.last.build_closure(own, p.fun_ty, p.caps, p.entry, p.fast, p.arity) == closing(
        st,
        fuel,
        own,
        lam,
    )
}

pub(crate) proof fn lemma_closing_is(st: St, fuel: nat, own: Option<String>, lam: Comp) -> (p: Closed)
    requires
        lam is Lam,
        closing(st, fuel, own, lam) is Ok,
    ensures
        closed_parts(st, fuel, own, lam, p),
{
    reveal(closing);
    reveal(lifting);
    reveal(speeding);
    let fun_ty = pointer_to(Type::Fun(lam_param(lam).ty, lam->Lam_ret_ty, st.cx.pure));
    let caps = st.place_captures(
        own,
        fun_ty,
        capture_names(lam_body(lam), lam_param(lam).name@, target(st.cx.handlers)),
        0,
        Seq::empty(),
    )->Ok_0;
    let (made, func) = st.lift(fuel, own, lam, caps)->Ok_0;
    let (named, entry) = made.func_addr(func, "fnaddr");
    let (last, fast, arity) = named.fast(fuel, own, lam, caps)->Ok_0;
    Closed { fun_ty, caps, made, named, entry, last, fast, arity }
}

/// The captures of a lambda are cells, and none has the name of a parameter.
pub open spec fn caps_fit(st: St, own: Option<String>, lam: Comp, caps: Seq<CaptureInfo>) -> bool {
    &&& forall|k: int| 0 <= k < caps.len() ==> plain_capture(#[trigger] caps[k])
    &&& packed(caps)
    &&& caps.len() <= occ_ir(lam_body(lam), Set::empty().insert(lam_param(lam).name@)).len()
    &&& forall|k: int|
        0 <= k < caps.len() ==> !names_of(all_params(lam)).contains((#[trigger] caps[k]).name@)
}

/// A capture has the name of the function itself, or of a variable in scope.
pub open spec fn caps_in_scope(st: St, own: Option<String>, caps: Seq<CaptureInfo>) -> bool {
    forall|k: int|
        0 <= k < caps.len() ==> (own matches Some(o) && o@ == (#[trigger] caps[k]).name@)
            || st.cx.env.get(caps[k].name@) is Some
}

/// The name of a function that calls itself is not that of a parameter.
pub open spec fn own_fits(own: Option<String>, lam: Comp) -> bool {
    own matches Some(o) ==> names_itself(lam, o@)
}

pub(crate) proof fn lemma_own_name(lam: Comp, x: Seq<char>)
    requires
        lam is Lam,
        has_name(lambda_occ(lam_body(lam), lam_param(lam).name@), x),
    ensures
        !names_of(all_params(lam)).contains(x),
{
    let bound = Set::empty().insert(lam_param(lam).name@);
    lemma_chain_occ(lam_body(lam), bound, x);
    let first = lam_param(lam).name@;
    let rest = names_of(chain_params(lam_body(lam)));
    assert(names_of(all_params(lam)) =~= seq![first] + rest);
    lemma_first_or_rest(first, rest, x);
    assert(bound.contains(first));
}

pub(crate) proof fn lemma_caps_fit(st: St, fuel: nat, own: Option<String>, lam: Comp, p: Closed, seen: Names)
    requires
        spoken_lam(lam, seen),
        env_plain(st),
        closed_parts(st, fuel, own, lam, p),
    ensures
        caps_fit(st, own, lam, p.caps),
        caps_in_scope(st, own, p.caps),
{
    let body = lam_body(lam);
    let param = lam_param(lam).name@;
    assert forall|label: Label| !#[trigger] performs_label(body, label) by {
        lemma_silent_block(body, seen, seen, label);
    }
    a_lambda_captures_its_free_variables(st, own, p.fun_ty, body, param);
    placed_captures_are_packed(
        st,
        own,
        p.fun_ty,
        capture_names(body, param, target(st.cx.handlers)),
        0,
        Seq::empty(),
    );
    assert forall|k: int| 0 <= k < p.caps.len() implies plain_capture(#[trigger] p.caps[k])
        && ((own matches Some(o) && o@ == p.caps[k].name@) || st.cx.env.get(p.caps[k].name@) is Some)
        && !names_of(all_params(lam)).contains(p.caps[k].name@) by {
        assert(comes_from(st, own, p.fun_ty, p.caps[k]));
        assert(cells_of(ValueLayout::pointer_cell_layout()) == 1);
        assert(cap_names(p.caps).contains(p.caps[k].name@));
        lemma_own_name(lam, p.caps[k].name@);
    }
}

// ── how long code is ─────────────────────────────────────────────────────
/// Nothing but code of this kind was added.
pub open spec fn sized(st: St, end: St) -> bool {
    &&& st.script.len() <= end.script.len()
    &&& !end.cx.gc
    &&& end.cx.resume is None
}

/// The mutable locals of these names are the same.
pub open spec fn slots_kept(st: St, end: St, names: Names) -> bool {
    forall|x: Seq<char>|
        names.contains(x) ==> #[trigger] end.cx.slots.get(x) == st.cx.slots.get(x)
}

/// The state in which such code is lowered.
pub open spec fn apt(st: St) -> bool {
    !st.cx.gc && env_plain(st) && st.cx.resume is None
}

/// A variable was bound.
pub open spec fn binds_one(st: St, next: St, name: Seq<char>) -> bool {
    &&& next.cx.env.get(name) is Some
    &&& forall|x: Seq<char>| x != name ==> #[trigger] next.cx.env.get(x) == st.cx.env.get(x)
}

pub(crate) proof fn lemma_bin_scope(st: St, op: crate::ir::BinOp, a: Val, b: Val)
    requires
        a.ty is I64,
    ensures
        st.int_bin(op, a, b).0.cx.slots == st.cx.slots,
        st.int_bin(op, a, b).0.cx.env == st.cx.env,
        st.int_bin(op, a, b).1.ty is I64,
{
}

pub(crate) proof fn lemma_start_env(
    st: St,
    name: FuncName,
    ret: Ty,
    params: Seq<Param>,
    tys: Seq<Ty>,
    caps: Seq<CaptureInfo>,
)
    requires
        !st.cx.gc,
        tys.len() == params.len(),
        forall|k: int| 0 <= k < tys.len() ==> #[trigger] tys[k] is I64,
        forall|k: int| 0 <= k < params.len() ==> plain_param(#[trigger] params[k]),
        forall|k: int| 0 <= k < caps.len() ==> plain_capture(#[trigger] caps[k]),
        prologue(st, name, ret, params, tys, caps) is Ok,
    ensures
        env_plain(prologue(st, name, ret, params, tys, caps)->Ok_0.0),
        prologue(st, name, ret, params, tys, caps)->Ok_0.0.cx.slots == st.cx.slots,
{
    reveal(prologue);
    let func = st.here();
    let begun = st.begin_func(name, ret, tys);
    let named = st.put(Cmd::Func { name, ret }).put(Cmd::Param { ty: env_ty(false) });
    lemma_put_params(named, tys, tys.len());
    assert(env_plain(begun));
    lemma_params_plain(begun, func, params, tys, 0);
    let bound = begun.bind_params(func, params, tys, 0);
    let env = Val { id: Id::Param { func, index: 0 }, ty: env_ty(false) };
    lemma_params_resume(begun, func, params, tys, 0);
    lemma_load_plain(bound, env, caps, 0);
    lemma_load_slots(bound, env, caps, 0);
    lemma_put_slots(named, tys, tys.len());
}

proof fn lemma_put_slots(st: St, tys: Seq<Ty>, n: nat)
    ensures
        st.put_params(tys, n).cx == st.cx,
    decreases n,
{
    if n > 0 {
        lemma_put_slots(st, tys, (n - 1) as nat);
    }
}

proof fn lemma_params_plain(st: St, func: u64, params: Seq<Param>, tys: Seq<Ty>, i: nat)
    requires
        env_plain(st),
        tys.len() == params.len(),
        forall|k: int| 0 <= k < tys.len() ==> #[trigger] tys[k] is I64,
        forall|k: int| 0 <= k < params.len() ==> plain_param(#[trigger] params[k]),
    ensures
        env_plain(st.bind_params(func, params, tys, i)),
        st.bind_params(func, params, tys, i).cx.slots == st.cx.slots,
    decreases params.len() - i,
{
    if i < params.len() {
        let p = params[i as int];
        let v = Val { id: Id::Param { func, index: (i + 1) as u32 }, ty: tys[i as int] };
        assert(plain_param(p));
        lemma_bind_plain(st, p.name, v, p.ty, p.layout);
        lemma_params_plain(st.bind(p.name, v, p.ty, p.layout), func, params, tys, i + 1);
    }
}

proof fn lemma_load_slots(st: St, env: Val, caps: Seq<CaptureInfo>, i: nat)
    requires
        i <= caps.len(),
        !st.cx.gc,
        forall|k: int| 0 <= k < caps.len() ==> plain_capture(#[trigger] caps[k]),
        st.load_captures(env, caps, i) is Ok,
    ensures
        st.load_captures(env, caps, i)->Ok_0.cx.slots == st.cx.slots,
    decreases caps.len() - i,
{
    if i < caps.len() {
        let cap = caps[i as int];
        let (mid, v) = st.load_capture(env, cap)->Ok_0;
        crate::tails::lemma_load_capture(st, env, cap);
        lemma_load_slots(mid.bind(cap.name, v, cap.ty, cap.layout), env, caps, i + 1);
    }
}

proof fn lemma_phis_plain(
    st: St,
    func: u64,
    params: Seq<Param>,
    tys: Seq<Ty>,
    from: u64,
    i: nat,
    done: Seq<u64>,
)
    requires
        env_plain(st),
        forall|k: int| 0 <= k < params.len() ==> plain_param(#[trigger] params[k]),
    ensures
        env_plain(st.param_phis(func, params, tys, from, i, done).0),
        st.param_phis(func, params, tys, from, i, done).0.cx.slots == st.cx.slots,
        st.param_phis(func, params, tys, from, i, done).0.cx.resume == st.cx.resume,
    decreases params.len() - i,
{
    if i < params.len() {
        let p = params[i as int];
        let phi = st.here();
        let (s1, v) = st.phi(Ty::I64, "tail.p");
        let seed = Val { id: Id::Param { func, index: (i + 1) as u32 }, ty: tys[i as int] };
        let s2 = s1.incoming(phi, seed, from);
        assert(plain_param(p));
        lemma_plain_kept(st, s2);
        lemma_bind_plain(s2, p.name, v, p.ty, p.layout);
        lemma_phis_plain(
            s2.bind(p.name, v, p.ty, p.layout),
            func,
            params,
            tys,
            from,
            i + 1,
            done.push(phi),
        );
    }
}

pub(crate) proof fn lemma_headed_env(start: St, func: u64, params: Seq<Param>, tys: Seq<Ty>, uncurried: bool)
    requires
        env_plain(start),
        forall|k: int| 0 <= k < params.len() ==> plain_param(#[trigger] params[k]),
    ensures
        env_plain(headed(start, func, params, tys, uncurried).0),
        headed(start, func, params, tys, uncurried).0.cx.slots == start.cx.slots,
        headed(start, func, params, tys, uncurried).0.cx.resume == start.cx.resume,
{
    reveal(headed);
    let head = loop_entered(start);
    lemma_plain_kept(start, head);
    if uncurried || params.len() != 1 {
        lemma_phis_plain(head, func, params, tys, start.cx.block, 0, Seq::empty());
    } else {
        let p = params[0];
        let (s1, v) = head.phi(Ty::I64, "tail.arg");
        let seed = Val { id: Id::Param { func, index: 1 }, ty: tys[0] };
        let s2 = s1.incoming(head.here(), seed, start.cx.block);
        assert(plain_param(p));
        lemma_plain_kept(start, s2);
        lemma_bind_plain(s2, p.name, v, p.ty, p.layout);
    }
}

/// Commands that neither open a block nor feed a phi were added; variables may have
/// been bound.
pub open spec fn run_on(st: St, end: St) -> bool {
    &&& extends(end.script, st.script)
    &&& st.script.len() <= end.script.len()
    &&& end.cx.gc == st.cx.gc
    &&& end.cx.resume == st.cx.resume
    &&& end.cx.block == st.cx.block
    &&& end.cx.slots == st.cx.slots
    &&& forall|i: int|
        st.script.len() <= i < end.script.len() ==> !(#[trigger] end.script[i] is At)
            && !(end.script[i] is Incoming)
}

/// The code that builds a closure.
pub(crate) proof fn lemma_build(
    st: St,
    own: Option<String>,
    fun_ty: Rc<Type>,
    caps: Seq<CaptureInfo>,
    entry: Val,
    fast: Val,
    arity: Val,
)
    requires
        !st.cx.gc,
        passed_in_cell(*fun_ty),
        forall|k: int| 0 <= k < caps.len() ==> plain_capture(#[trigger] caps[k]),
        env_plain(st),
        st.build_closure(own, fun_ty, caps, entry, fast, arity) is Ok,
    ensures
        ({
            let (end, v) = st.build_closure(own, fun_ty, caps, entry, fast, arity)->Ok_0;
            &&& run_on(st, end)
            &&& v == (Val { id: Id::Reg((st.script.len() + 2) as u64), ty: Ty::I64 })
            &&& st.script.len() + 9 <= end.script.len()
            &&& env_plain(end)
            &&& match own {
                None => end.cx.env == st.cx.env,
                Some(o) => forall|x: Seq<char>|
                    x != o@ ==> #[trigger] end.cx.env.get(x) == st.cx.env.get(x),
            }
        }),
{
    let (end, v) = st.build_closure(own, fun_ty, caps, entry, fast, arity)->Ok_0;
    let size = crate::lambdas::closure_size(caps);
    let (s1, block) = st.arg(constant(size)).call("locus_alloc", Ty::Ptr, "alloc");
    let (s2, c) = s1.convert(Conv::PtrToInt, block, Ty::I64, "clos");
    lemma_plain_kept(st, s2);
    let s3 = match own {
        Some(name) => s2.bind(name, c, fun_ty, ValueLayout::scalar_cell_layout()),
        None => s2,
    };
    if let Some(name) = own {
        assert(cells_of(ValueLayout::scalar_cell_layout()) == 1);
        lemma_bind_plain(s2, name, c, fun_ty, ValueLayout::scalar_cell_layout());
    }
    let (s4, p0) = s3.gep(Ty::I64, block, constant(0), "fn.slot");
    let s5 = s4.store(p0, entry);
    let (s6, p1) = s5.gep(Ty::I64, block, constant(1), "fast.slot");
    let s7 = s6.store(p1, fast);
    let (s8, p2) = s7.gep(Ty::I64, block, constant(2), "fastarity.slot");
    let s9 = s8.store(p2, arity);
    assert(run_on(st, s9));
    assert(s9.cx == s3.cx);
    lemma_plain_kept(s3, s9);
    crate::currying::lemma_store_flat(s9, block, caps, 0);
    assert(crate::currying::flat(s9, end));
    crate::shape::lemma_extends(st.script, s9.script, end.script);
    assert forall|i: int| st.script.len() <= i < end.script.len() implies !(
    #[trigger] end.script[i] is At) && !(end.script[i] is Incoming) by {
        if i < s9.script.len() {
            assert(end.script[i] == s9.script[i]);
        }
    }
    lemma_plain_kept(s9, end);
}

/// An operand is a cell where the variables in scope are.
pub(crate) proof fn lemma_cell_atom(st: St, a: Atom)
    requires
        no_text(a),
        env_plain(st),
        st.atom(a) is Ok,
    ensures
        st.atom(a)->Ok_0.0 == st,
        st.atom(a)->Ok_0.1.ty is I64,
{
    lemma_atom(st, a);
}

pub(crate) proof fn lemma_slot_is(st: St, fuel: nat, comp: Comp)
    requires
        env_plain(st),
        of_comp(st, fuel, comp) is Ok,
        match comp {
            Comp::SlotInit(_, a) => no_text(a),
            Comp::SlotStore(_, a) => no_text(a),
            Comp::SlotLoad(_) => true,
            _ => false,
        },
    ensures
        match comp {
            Comp::SlotInit(name, a) => of_comp(st, fuel, comp) == st.slot_init(name, a) && st.atom(
                a,
            ) is Ok && st.cell(a, "mutable-local initializer") == Ok::<(St, Val), CodegenError>(
                (st, st.atom(a)->Ok_0.1),
            ),
            Comp::SlotStore(name, a) => of_comp(st, fuel, comp) == st.slot_store(name, a)
                && st.atom(a) is Ok && st.cell(a, "mutable-local assignment") == Ok::<
                (St, Val),
                CodegenError,
            >((st, st.atom(a)->Ok_0.1)),
            Comp::SlotLoad(name) => of_comp(st, fuel, comp) == st.slot_load(name),
            _ => true,
        },
{
    reveal(of_comp);
    match comp {
        Comp::SlotInit(_, a) => lemma_cell(st, a, "mutable-local initializer"),
        Comp::SlotStore(_, a) => lemma_cell(st, a, "mutable-local assignment"),
        _ => {},
    }
}

pub(crate) proof fn lemma_lam_is(st: St, fuel: nat, comp: Comp)
    requires
        comp is Lam,
    ensures
        of_comp(st, fuel, comp) == closing(st, fuel, None, comp),
{
    reveal(of_comp);
    reveal(closing);
}

/// How a computation leaves the mutable locals in scope.
pub open spec fn slots_after(st: St, end: St, comp: Comp, seen: Names) -> bool {
    forall|x: Seq<char>|
        seen.contains(x) && !(comp matches Comp::SlotInit(name, _) && name@ == x)
            ==> #[trigger] end.cx.slots.get(x) == st.cx.slots.get(x)
}

pub(crate) proof fn lemma_slots_held(st: St, end: St, comp: Comp, held: Names, seen: Names)
    requires
        slots_after(st, end, comp, seen),
        held.subset_of(seen),
        spoken(comp, held, seen),
    ensures
        slots_kept(st, end, held),
{
    assert forall|x: Seq<char>| held.contains(x) implies #[trigger] end.cx.slots.get(x)
        == st.cx.slots.get(x) by {
        assert(seen.contains(x));
    }
}

pub(crate) proof fn lemma_slots_then(a: St, b: St, c: St, names: Names)
    requires
        slots_kept(a, b, names),
        slots_kept(b, c, names),
    ensures
        slots_kept(a, c, names),
{
    assert forall|x: Seq<char>| names.contains(x) implies #[trigger] c.cx.slots.get(x)
        == a.cx.slots.get(x) by {
        assert(b.cx.slots.get(x) == a.cx.slots.get(x));
    }
}

pub(crate) proof fn lemma_comp_sized(st: St, fuel: nat, comp: Comp, held: Names, seen: Names)
    requires
        apt(st),
        held.subset_of(seen),
        spoken(comp, held, seen),
        of_comp(st, fuel, comp) is Ok,
    ensures
        ({
            let (end, v) = of_comp(st, fuel, comp)->Ok_0;
            &&& sized(st, end)
            &&& end.cx.env == st.cx.env
            &&& v.ty is I64
            &&& slots_after(st, end, comp, seen)
        }),
    decreases comp, 1nat,
{
    match comp {
        Comp::Atom(a) => {
            lemma_of_atom(st, fuel, comp);
            lemma_cell_atom(st, a);
        },
        Comp::Bin(op, a, b) => {
            lemma_of_bin(st, fuel, comp);
            lemma_bin(st, op, a, b);
            lemma_cell_atom(st, a);
            lemma_cell_atom(st, b);
            let x = st.atom(a)->Ok_0.1;
            let y = st.atom(b)->Ok_0.1;
            lemma_int_bin_len(st, op, x, y);
            lemma_bin_scope(st, op, x, y);
        },
        Comp::Loop { cond, steps, result, .. } => {
            let p = lemma_loop_parts(st, fuel, comp, held, seen);
            let (hd, h) = p.head(st, comp);
            let body = p.body(st, comp);
            let out = p.out(st, comp);
            lemma_loop_len(st, fuel, comp, p);
            lemma_loop_apt(st, fuel, comp, p, held, seen);
            lemma_block_sized(hd, fuel, target(cond), seen, seen);
            lemma_plain_kept(hd, body);
            lemma_plain_kept(hd, body.in_env(h.env));
            lemma_steps_sized(body, fuel, steps, h, 0, Seq::empty(), seen);
            lemma_plain_kept(hd, out);
            lemma_block_sized(out, fuel, target(result), seen, seen);
            lemma_slots_then(st, p.c1, p.s1, seen);
            lemma_slots_then(st, p.s1, p.r1, seen);
        },
        Comp::If(c, yes, no) => {
            let (cv, t1, a, e1, b) = lemma_of_if(st, fuel, comp);
            let head = if_head(st, cv).0;
            let turn = if_turn(st, cv, t1);
            lemma_plain_kept(st, head);
            lemma_block_sized(head, fuel, target(yes), seen, seen);
            lemma_plain_kept(st, turn);
            lemma_block_sized(turn, fuel, target(no), seen, seen);
        },
        Comp::Lam { .. } => {
            lemma_lam_is(st, fuel, comp);
            let _ = lemma_closing_sized(st, fuel, None, comp, seen);
        },
        Comp::App { .. } => {
            let (clos, arg) = lemma_app_is(st, fuel, comp);
            lemma_apply_len(st, clos, arg, comp->App_arg_ty, comp->App_ret_ty);
        },
        Comp::Call { .. } => {
            let clos = lemma_call_is(st, fuel, comp);
            lemma_call_sized(
                st,
                clos,
                comp->Call_args@,
                vals_of(st, call_args(comp)),
                comp->Call_fun_ty,
            );
        },
        Comp::SlotInit(..) => lemma_slot_is(st, fuel, comp),
        Comp::SlotStore(..) => lemma_slot_is(st, fuel, comp),
        Comp::SlotLoad(..) => lemma_slot_is(st, fuel, comp),
        _ => {},
    }
}

pub(crate) proof fn lemma_steps_sized(
    st: St,
    fuel: nat,
    steps: Vec<Ir>,
    h: LoopHead,
    i: nat,
    done: Seq<Val>,
    seen: Names,
)
    requires
        apt(st.in_env(h.env)),
        spoken_steps(steps, steps.len() as nat, seen),
        all_scalar(h.storages),
        h.storages.len() == steps.len(),
        of_steps(st, fuel, steps, h, i, done) is Ok,
    ensures
        sized(st, of_steps(st, fuel, steps, h, i, done)->Ok_0.0),
        slots_kept(st, of_steps(st, fuel, steps, h, i, done)->Ok_0.0, seen),
    decreases steps, steps.len() - i,
{
    lemma_of_steps(st, fuel, steps, h, i, done);
    if i < steps.len() {
        let begun = st.in_env(h.env);
        lemma_spoken_step(steps, steps.len() as nat, i as int, seen);
        let (mid, v) = of_ir(begun, fuel, steps[i as int])->Ok_0;
        lemma_block_sized(begun, fuel, steps[i as int], seen, seen);
        lemma_plain_kept(begun, mid.in_env(h.env));
        lemma_steps_sized(mid, fuel, steps, h, i + 1, done.push(v), seen);
        lemma_slots_then(st, mid, of_steps(st, fuel, steps, h, i, done)->Ok_0.0, seen);
    }
}

proof fn lemma_call_sized(st: St, clos: Val, args: Seq<CallArg>, vs: Seq<Val>, fun_ty: Rc<Type>)
    requires
        0 < args.len() == vs.len(),
        st.call_by_arity(clos, args, vs, fun_ty, Ty::I64) is Ok,
    ensures
        ({
            let (end, v) = st.call_by_arity(clos, args, vs, fun_ty, Ty::I64)->Ok_0;
            &&& st.script.len() <= end.script.len()
            &&& end.cx.gc == st.cx.gc
            &&& end.cx.env == st.cx.env
            &&& end.cx.resume == st.cx.resume
            &&& end.cx.slots == st.cx.slots
            &&& v.ty is I64
        }),
{
    lemma_call_small(st, clos, args, vs, fun_ty);
    let (s0, arity, entry) = call_head(st, clos, args.len() as u64);
    let (fast_end, fast) = s0.fast_call(clos, entry, args, vs, Ty::I64)->Ok_0;
    lemma_fast_len(s0, clos, entry, args, vs);
    let s1 = st.closure_slot(clos, 2).0.closure_slot(clos, 1).0.new_block("call.fast").0;
    let turn = fast_end.br(s1.new_block("call.curried").0.here()).at(s1.here());
    lemma_chain_len(turn, clos, fun_ty, args, vs, 0);
}

/// A binding, and the state behind it.
pub(crate) proof fn lemma_bound_sized(
    st: St,
    fuel: nat,
    name: String,
    ty: Rc<Type>,
    layout: ValueLayout,
    comp: Comp,
    held: Names,
    seen: Names,
)
    requires
        apt(st),
        held.subset_of(seen),
        spoken(comp, held, seen),
        cell_var(ty, layout),
        of_bound(st, fuel, name, comp) is Ok,
    ensures
        ({
            let (mid, v) = of_bound(st, fuel, name, comp)->Ok_0;
            let next = mid.bind(name, v, ty, layout);
            &&& sized(st, next)
            &&& apt(next)
            &&& v.ty is I64
            &&& binds_one(st, next, name@)
            &&& slots_after(st, next, comp, seen)
            &&& held.subset_of(seen_with(comp, seen))
            &&& slots_kept(st, next, held)
        }),
    decreases comp, 2nat,
{
    let (mid, v) = of_bound(st, fuel, name, comp)->Ok_0;
    if names_itself(comp, name@) {
        lemma_again(comp, held, seen);
        let _ = lemma_closing_sized(st, fuel, Some(name), comp, seen);
        lemma_bind_plain(mid, name, v, ty, layout);
    } else {
        lemma_comp_sized(st, fuel, comp, held, seen);
        lemma_plain_kept(st, mid);
        lemma_bind_plain(mid, name, v, ty, layout);
    }
    let next = mid.bind(name, v, ty, layout);
    assert(slots_after(st, next, comp, seen)) by {
        assert forall|x: Seq<char>|
            seen.contains(x) && !(comp matches Comp::SlotInit(name, _) && name@ == x) implies #[trigger] next.cx.slots.get(
            x,
        ) == st.cx.slots.get(x) by {
            assert(mid.cx.slots.get(x) == st.cx.slots.get(x));
        }
    }
    lemma_slots_held(st, next, comp, held, seen);
    assert(binds_one(st, next, name@)) by {
        assert forall|x: Seq<char>| x != name@ implies #[trigger] next.cx.env.get(x)
            == st.cx.env.get(x) by {
            assert(mid.cx.env.get(x) == st.cx.env.get(x));
        }
    }
}

pub(crate) proof fn lemma_again(comp: Comp, held: Names, seen: Names)
    requires
        comp is Lam,
        spoken(comp, held, seen),
    ensures
        spoken_lam(comp, seen),
{
}

pub(crate) proof fn lemma_closing_sized(st: St, fuel: nat, own: Option<String>, lam: Comp, seen: Names) -> (p: Closed)
    requires
        apt(st),
        lam is Lam,
        spoken(lam, seen, seen),
        closing(st, fuel, own, lam) is Ok,
    ensures
        closed_parts(st, fuel, own, lam, p),
        caps_fit(st, own, lam, p.caps),
        caps_in_scope(st, own, p.caps),
        st.script.len() < p.made.script.len() < p.named.script.len() <= p.last.script.len(),
        apt(p.made),
        apt(p.named),
        apt(p.last),
        p.made.cx.env == st.cx.env,
        p.last.cx.env == st.cx.env,
        p.made.cx.block == st.cx.block,
        p.last.cx.block == st.cx.block,
        slots_kept(st, p.named, seen),
        slots_kept(st, p.last, seen),
        ({
            let (end, v) = closing(st, fuel, own, lam)->Ok_0;
            &&& sized(st, end)
            &&& run_on(p.last, end)
            &&& slots_kept(st, end, seen)
            &&& v == (Val { id: Id::Reg((p.last.script.len() + 2) as u64), ty: Ty::I64 })
            &&& p.last.script.len() + 9 <= end.script.len()
            &&& env_plain(end)
            &&& match own {
                None => end.cx.env == st.cx.env,
                Some(o) => forall|x: Seq<char>|
                    x != o@ ==> #[trigger] end.cx.env.get(x) == st.cx.env.get(x),
            }
        }),
    decreases lam, 0nat,
{
    let p = lemma_closing_is(st, fuel, own, lam);
    lemma_caps_fit(st, fuel, own, lam, p, seen);
    lemma_chain(lam, seen);
    let q = lemma_lifting_is(st, fuel, own, lam, p.caps, seen);
    assert(plain_param(lam_param(lam)));
    lemma_fun_sized(st, fuel, own, p.caps, q, seen);
    lemma_plain_kept(st, p.made);
    assert(p.named.cx == p.made.cx);
    lemma_plain_kept(st, p.named);
    let r = lemma_speeding_is(p.named, fuel, own, lam, p.caps, seen);
    if all_params(lam).len() >= 2 {
        lemma_fun_sized(p.named, fuel, own, p.caps, r, seen);
    }
    lemma_plain_kept(st, p.last);
    lemma_build(p.last, own, p.fun_ty, p.caps, p.entry, p.fast, p.arity);
    p
}

/// A function, and the state behind it.
pub(crate) proof fn lemma_fun_sized(
    st: St,
    fuel: nat,
    own: Option<String>,
    caps: Seq<CaptureInfo>,
    q: FunCode,
    seen: Names,
)
    requires
        apt(st),
        spoken_block(q.body, seen, seen),
        forall|k: int| 0 <= k < q.params.len() ==> plain_param(#[trigger] q.params[k]),
        forall|k: int| 0 <= k < caps.len() ==> plain_capture(#[trigger] caps[k]),
        fun_parts(st, fuel, own, caps, q),
    ensures
        sized(st, q.out),
        apt(q.start),
        own is Some ==> apt(q.first),
        st.script.len() + q.params.len() + 4 <= q.start.script.len() < q.out.script.len(),
        own is Some ==> q.first.script.len() == q.start.script.len() + 3 + 2 * q.params.len()
            && q.first.script.len() <= q.out.script.len(),
        own is None ==> q.start.script.len() <= q.mid.script.len(),
        slots_kept(st, q.out, seen),
    decreases q.body, bind_count(q.body) + 2,
{
    lemma_prologue_start(st, q.name, q.ret, q.params, q.tys, caps);
    lemma_start_resume(st, q.name, q.ret, q.params, q.tys, caps);
    lemma_start_env(st, q.name, q.ret, q.params, q.tys, caps);
    match own {
        None => {
            lemma_block_sized(q.start, fuel, q.body, seen, seen);
        },
        Some(o) => {
            lemma_headed_len(q.start, st.here(), q.params, q.tys, q.t.uncurried);
            lemma_headed_env(q.start, st.here(), q.params, q.tys, q.t.uncurried);
            lemma_tail_sized(q.first, fuel, q.body, q.t, seen, seen);
        },
    }
}

pub(crate) proof fn lemma_block_sized(st: St, fuel: nat, ir: Ir, held: Names, seen: Names)
    requires
        apt(st),
        held.subset_of(seen),
        spoken_block(ir, held, seen),
        of_ir(st, fuel, ir) is Ok,
    ensures
        ({
            let (end, v) = of_ir(st, fuel, ir)->Ok_0;
            &&& sized(st, end)
            &&& v.ty is I64
            &&& slots_kept(st, end, held)
        }),
    decreases ir, bind_count(ir) + 1,
{
    lemma_block_is(st, fuel, ir, held, seen);
    match ir {
        Ir::Block { .. } => lemma_rest_sized(st, fuel, ir, 0, held, seen),
        Ir::Let { name, ty, layout, comp, rest, .. } => {
            let c = target(comp);
            let (mid, v) = of_bound(st, fuel, name, c)->Ok_0;
            let next = mid.bind(name, v, ty, layout);
            lemma_bound_sized(st, fuel, name, ty, layout, c, held, seen);
            lemma_block_sized(next, fuel, target(rest), held, seen_with(c, seen));
            lemma_slots_then(st, next, of_ir(st, fuel, ir)->Ok_0.0, held);
        },
        Ir::Ret { comp, .. } => {
            lemma_comp_sized(st, fuel, target(comp), held, seen);
            lemma_slots_held(st, of_ir(st, fuel, ir)->Ok_0.0, target(comp), held, seen);
        },
    }
}

pub(crate) proof fn lemma_rest_sized(st: St, fuel: nat, ir: Ir, i: nat, held: Names, seen: Names)
    requires
        apt(st),
        ir is Block,
        held.subset_of(seen),
        spoken_rest(ir, i, held, seen),
        of_rest(st, fuel, ir, i) is Ok,
    ensures
        ({
            let (end, v) = of_rest(st, fuel, ir, i)->Ok_0;
            &&& sized(st, end)
            &&& v.ty is I64
            &&& slots_kept(st, end, held)
        }),
    decreases ir, bind_count(ir) - i,
{
    lemma_rest_is(st, fuel, ir, i, held, seen);
    if let Ir::Block { binds, comp, .. } = ir {
        if i < binds.len() {
            let b = binds[i as int];
            let c = target(b.comp);
            let (mid, v) = of_bound(st, fuel, b.name, c)->Ok_0;
            let next = mid.bind(b.name, v, b.ty, b.layout);
            lemma_bound_sized(st, fuel, b.name, b.ty, b.layout, c, held, seen);
            lemma_rest_sized(next, fuel, ir, i + 1, held, seen_with(c, seen));
            lemma_slots_then(st, next, of_rest(st, fuel, ir, i)->Ok_0.0, held);
        } else {
            lemma_comp_sized(st, fuel, target(comp), held, seen);
            lemma_slots_held(st, of_rest(st, fuel, ir, i)->Ok_0.0, target(comp), held, seen);
        }
    }
}

/// The parts of a computation in tail position.
pub(crate) proof fn lemma_tail_comp_is(st: St, fuel: nat, comp: Comp, t: Tail, held: Names, seen: Names) -> (r: (
    Val,
    St,
))
    requires
        t.frame is None,
        spoken(comp, held, seen),
        of_tail_comp(st, fuel, comp, t) is Ok,
    ensures
        calls_itself(comp, t) ==> {
            &&& forall|k: int|
                0 <= k < call_args(comp).len() ==> st.atom(#[trigger] call_args(comp)[k]) is Ok
            &&& of_tail_comp(st, fuel, comp, t) == Ok::<St, CodegenError>(
                st.jump(t, vals_of(st, call_args(comp))),
            )
        },
        !calls_itself(comp, t) && comp is If ==> {
            &&& st.atom(comp->If_0) == Ok::<(St, Val), CodegenError>((st, r.0))
            &&& st.script.len() + 8 <= u64::MAX ==> {
                &&& of_tail(tail_branch(st, r.0), fuel, *comp->If_1, t) == Ok::<St, CodegenError>(
                    r.1,
                )
                &&& of_tail_comp(st, fuel, comp, t) == of_tail(
                    tail_turn(st, r.1),
                    fuel,
                    *comp->If_2,
                    t,
                )
            }
        },
        !calls_itself(comp, t) && !(comp is If) ==> {
            &&& of_comp(st, fuel, comp) is Ok
            &&& of_tail_comp(st, fuel, comp, t) == match of_comp(st, fuel, comp) {
                Err(e) => Err(e),
                Ok((next, v)) => next.return_cell(None, v),
            }
        },
{
    reveal(of_tail_comp);
    if calls_itself(comp, t) {
        match comp {
            Comp::App { arg, .. } => {
                assert(no_text(call_args(comp)[0]));
                lemma_cell(st, arg, "tail-recursive argument");
                assert(vals_of(st, call_args(comp)) =~= seq![st.atom(arg)->Ok_0.1]);
            },
            Comp::Call { args, .. } => {
                assert forall|k: int| 0 <= k < args@.len() implies !((#[trigger] args@[k]).value is Str) by {
                    assert(no_text(call_args(comp)[k]));
                }
                lemma_next_args(st, args@, 0, Seq::empty());
                let atoms = Seq::new(args@.len(), |k: int| args@[k].value);
                assert(atoms =~= call_args(comp));
                assert(Seq::empty() + crate::tails::arg_vals(st, atoms).skip(0) =~= vals_of(
                    st,
                    call_args(comp),
                ));
                assert forall|k: int| 0 <= k < call_args(comp).len() implies st.atom(
                    #[trigger] call_args(comp)[k],
                ) is Ok by {
                    assert(st.atom(args@[k].value) is Ok);
                }
            },
            _ => {},
        }
        arbitrary()
    } else if comp is If {
        reveal(of_tail);
        let cond = comp->If_0;
        lemma_cell(st, cond, "if condition");
        let c = st.atom(cond)->Ok_0.1;
        if st.script.len() + 8 <= u64::MAX {
            assert(st.branch(c, "ifcond").1 == (st.script.len() + 1) as u64);
            assert(st.branch(c, "ifcond").2 == (st.script.len() + 2) as u64);
            (c, of_tail(tail_branch(st, c), fuel, target(comp->If_1), t)->Ok_0)
        } else {
            (c, st)
        }
    } else {
        reveal(of_comp);
        arbitrary()
    }
}

pub(crate) proof fn lemma_tail_sized(st: St, fuel: nat, ir: Ir, t: Tail, held: Names, seen: Names)
    requires
        apt(st),
        t.frame is None,
        held.subset_of(seen),
        spoken_block(ir, held, seen),
        of_tail(st, fuel, ir, t) is Ok,
    ensures
        sized(st, of_tail(st, fuel, ir, t)->Ok_0),
        st.script.len() < of_tail(st, fuel, ir, t)->Ok_0.script.len(),
        slots_kept(st, of_tail(st, fuel, ir, t)->Ok_0, held),
    decreases ir, bind_count(ir) + 1,
{
    lemma_tail_is(st, fuel, ir, t, held, seen);
    match ir {
        Ir::Block { .. } => lemma_tail_rest_sized(st, fuel, ir, 0, t, held, seen),
        Ir::Let { name, ty, layout, comp, rest, .. } => {
            let c = target(comp);
            let (mid, v) = of_bound(st, fuel, name, c)->Ok_0;
            let next = mid.bind(name, v, ty, layout);
            lemma_bound_sized(st, fuel, name, ty, layout, c, held, seen);
            lemma_tail_sized(next, fuel, target(rest), t.behind(name@), held, seen_with(c, seen));
        },
        Ir::Ret { comp, .. } => {
            lemma_tail_comp_sized(st, fuel, target(comp), t, held, seen);
        },
    }
}

pub(crate) proof fn lemma_tail_rest_sized(st: St, fuel: nat, ir: Ir, i: nat, t: Tail, held: Names, seen: Names)
    requires
        apt(st),
        t.frame is None,
        ir is Block,
        held.subset_of(seen),
        spoken_rest(ir, i, held, seen),
        of_tail_rest(st, fuel, ir, i, t) is Ok,
    ensures
        sized(st, of_tail_rest(st, fuel, ir, i, t)->Ok_0),
        st.script.len() < of_tail_rest(st, fuel, ir, i, t)->Ok_0.script.len(),
        slots_kept(st, of_tail_rest(st, fuel, ir, i, t)->Ok_0, held),
    decreases ir, bind_count(ir) - i,
{
    lemma_tail_rest_is(st, fuel, ir, i, t, held, seen);
    if let Ir::Block { binds, comp, .. } = ir {
        if i < binds.len() {
            let b = binds[i as int];
            let c = target(b.comp);
            let (mid, v) = of_bound(st, fuel, b.name, c)->Ok_0;
            let next = mid.bind(b.name, v, b.ty, b.layout);
            lemma_bound_sized(st, fuel, b.name, b.ty, b.layout, c, held, seen);
            lemma_tail_rest_sized(next, fuel, ir, i + 1, t, held, seen_with(c, seen));
        } else {
            lemma_tail_comp_sized(st, fuel, target(comp), t.behind_all(binds@), held, seen);
        }
    }
}

pub(crate) proof fn lemma_tail_comp_sized(st: St, fuel: nat, comp: Comp, t: Tail, held: Names, seen: Names)
    requires
        apt(st),
        t.frame is None,
        held.subset_of(seen),
        spoken(comp, held, seen),
        of_tail_comp(st, fuel, comp, t) is Ok,
    ensures
        sized(st, of_tail_comp(st, fuel, comp, t)->Ok_0),
        st.script.len() < of_tail_comp(st, fuel, comp, t)->Ok_0.script.len(),
        slots_kept(st, of_tail_comp(st, fuel, comp, t)->Ok_0, held),
    decreases comp, 3nat,
{
    let (c, mid) = lemma_tail_comp_is(st, fuel, comp, t, held, seen);
    if calls_itself(comp, t) {
        let vs = vals_of(st, call_args(comp));
        lemma_feed_sized(st, t.phis, vs, st.cx.block, t.phis.len());
    } else if comp is If {
        lemma_tail_if_sized(st, fuel, comp, t, held, seen);
    } else {
        lemma_comp_sized(st, fuel, comp, held, seen);
        let (next, v) = of_comp(st, fuel, comp)->Ok_0;
        assert(next.return_cell(None, v) == Ok::<St, CodegenError>(next.put(Cmd::Ret { val: v })));
    }
}

proof fn lemma_tail_if_sized(st: St, fuel: nat, comp: Comp, t: Tail, held: Names, seen: Names)
    requires
        apt(st),
        t.frame is None,
        held.subset_of(seen),
        comp is If,
        spoken(comp, held, seen),
        of_tail_comp(st, fuel, comp, t) is Ok,
    ensures
        sized(st, of_tail_comp(st, fuel, comp, t)->Ok_0),
        st.script.len() < of_tail_comp(st, fuel, comp, t)->Ok_0.script.len(),
        slots_kept(st, of_tail_comp(st, fuel, comp, t)->Ok_0, held),
    decreases comp, 2nat,
{
    reveal(of_tail_comp);
    reveal(of_tail);
    let cond = comp->If_0;
    lemma_cell(st, cond, "if condition");
    let c = st.atom(cond)->Ok_0.1;
    let (s1, yes, no) = st.branch(c, "ifcond");
    let head = s1.at(yes);
    lemma_plain_kept(st, head);
    let mid = of_tail(head, fuel, target(comp->If_1), t)->Ok_0;
    lemma_tail_sized(head, fuel, target(comp->If_1), t, seen, seen);
    let turn = mid.at(no).in_env(st.cx.env);
    lemma_plain_kept(st, turn);
    lemma_tail_sized(turn, fuel, target(comp->If_2), t, seen, seen);
}

proof fn lemma_feed_sized(st: St, phis: Seq<u64>, vs: Seq<Val>, from: u64, n: nat)
    ensures
        st.feed(phis, vs, from, n).script.len() == st.script.len() + n,
        st.feed(phis, vs, from, n).cx == st.cx,
    decreases n,
{
    if n > 0 {
        lemma_feed_sized(st, phis, vs, from, (n - 1) as nat);
    }
}

/// A function that names itself is in scope behind its closure.
pub(crate) proof fn lemma_built_own(
    st: St,
    own: Option<String>,
    fun_ty: Rc<Type>,
    caps: Seq<CaptureInfo>,
    entry: Val,
    fast: Val,
    arity: Val,
)
    requires
        !st.cx.gc,
        own is Some,
        passed_in_cell(*fun_ty),
        forall|k: int| 0 <= k < caps.len() ==> plain_capture(#[trigger] caps[k]),
        env_plain(st),
        st.build_closure(own, fun_ty, caps, entry, fast, arity) is Ok,
    ensures
        ({
            let (end, v) = st.build_closure(own, fun_ty, caps, entry, fast, arity)->Ok_0;
            end.cx.env.get(own->0@) matches Some(e) && e.value == v
        }),
{
    let (end, v) = st.build_closure(own, fun_ty, caps, entry, fast, arity)->Ok_0;
    let size = crate::lambdas::closure_size(caps);
    let (s1, block) = st.arg(constant(size)).call("locus_alloc", Ty::Ptr, "alloc");
    let (s2, c) = s1.convert(Conv::PtrToInt, block, Ty::I64, "clos");
    lemma_plain_kept(st, s2);
    let name = own->0;
    let s3 = s2.bind(name, c, fun_ty, ValueLayout::scalar_cell_layout());
    lemma_bind_plain(s2, name, c, fun_ty, ValueLayout::scalar_cell_layout());
    let (s4, p0) = s3.gep(Ty::I64, block, constant(0), "fn.slot");
    let s5 = s4.store(p0, entry);
    let (s6, p1) = s5.gep(Ty::I64, block, constant(1), "fast.slot");
    let s7 = s6.store(p1, fast);
    let (s8, p2) = s7.gep(Ty::I64, block, constant(2), "fastarity.slot");
    let s9 = s8.store(p2, arity);
    lemma_plain_kept(s3, s9);
    crate::currying::lemma_store_flat(s9, block, caps, 0);
    assert(end.cx == s9.cx);
    assert(end.cx.env.get(name@) == s3.cx.env.get(name@));
}

} // verus!
