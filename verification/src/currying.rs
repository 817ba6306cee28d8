//! What is proved of curried lambdas: a closure with an uncurried entry comes to the
//! same by that entry as by its arguments one by one.
use crate::analysis::{comp_has_perform, performs_label};
use crate::applying::{applied, chained, entered, goes_on, honest, picked, slot_of};
use crate::blocks::{all_params, chain_body, chain_params, chain_ret, param_tys, sole_lambda, Param};
use crate::captures::{cells_before, cells_of, packed, placed_captures_are_packed, RESERVED};
use crate::closures::{abi_ty, capture_names, env_ty, passed_in_cell};
use crate::error::CodegenError;
use crate::freevars::{
    binding_takes_away_its_occurrences, bound_binds, left_free, occ_binds, occ_comp, occ_ir,
};
use crate::ir::{pointer_to, target, Comp, Ir, Label, Type, ValueLayout};
use crate::lambdas::{
    a_closure_holds_what_it_captured, a_lambda_applied_means_its_body, begins, called,
    cells_in_scope, closure_begun, closure_size, found, in_a_row, in_scope, lemma_called,
    lemma_of_plain_lift, lemma_passed, lemma_plain_answers, lemma_row, lemma_store_capture, lifted,
    means, of_script, ready_or_func, taken, takes_up, word_in_scope, PlainFun,
};
use crate::layout::CaptureInfo;
use crate::meaning::{
    extends, opened, ready, run, runs, word, Answer, Code, Machine, Outcome, Room, Store,
};
use crate::names::{has_name, lemma_push_name, name_set};
use crate::programs::{ir_meaning, plain_ir, with_words, Meant, Names, Vars};
use crate::running::{apart, lemma_seek_at, models};
use crate::scoping::{
    a_block_rests_on_its_free_variables, a_lambda_captures_its_free_variables, cap_names, comes_from,
    lemma_ir_performs,
};
use crate::shape::{
    countable, env_ready, lemma_env_kept, lemma_extends, lemma_ir_grown, lemma_ir_len, lemma_of_ir,
    lemma_opened, nested_in, of_ir, own_blocks, settled,
};
use crate::state::St;
use crate::tails::{
    captured, lam_body, lam_param, lemma_bind_same, lemma_captures_len, lemma_load_capture,
    lemma_param_tys, lemma_prologue_runs, lemma_prologue_start, lemma_put_params, lemma_word_of,
    names_of, passed, plain_capture, prologue,
};
use crate::target::{constant, Cmd, Conv, FuncName, Id, Ty, Val};
use std::rc::Rc;
use vstd::prelude::*;

verus! {

// ── chains of lambdas of integers ────────────────────────────────────────
/// A parameter that is one cell.
pub open spec fn plain_param(p: Param) -> bool {
    cells_of(p.layout) == 1 && passed_in_cell(*p.ty)
}

/// The lambda that the body of a lambda is.
pub open spec fn inner(lam: Comp) -> Comp {
    match sole_lambda(lam_body(lam)) {
        Some(c) => *c,
        None => lam,
    }
}

/// The body of a lambda is a lambda again.
pub open spec fn nests(lam: Comp) -> bool {
    sole_lambda(lam_body(lam)) is Some
}

/// A lambda, or a chain of lambdas, whose parameters are cells and whose innermost
/// body is a program of integers.
pub open spec fn plain_chain(lam: Comp) -> bool
    decreases lam,
{
    match lam {
        Comp::Lam { body, .. } => {
            &&& plain_param(lam_param(lam))
            &&& match sole_lambda(*body) {
                Some(c) => plain_chain(*c),
                None => plain_ir(*body, false),
            }
        },
        _ => false,
    }
}

/// The variables in scope are cells.
pub open spec fn env_plain(st: St) -> bool {
    forall|x: Seq<char>| #[trigger]
        st.cx.env.get(x) matches Some(e) ==> {
            &&& e.value.ty is I64
            &&& cells_of(e.layout) == 1
            &&& passed_in_cell(*e.ty)
        }
}

proof fn lemma_chain_performs(lam: Comp, label: Label)
    requires
        plain_chain(lam),
    ensures
        !performs_label(lam_body(lam), label),
    decreases lam,
{
    if let Comp::Lam { body, .. } = lam {
        match sole_lambda(target(body)) {
            Some(c) => {
                lemma_chain_performs(target(c), label);
                assert(!comp_has_perform(target(c), label));
            },
            None => {
                lemma_ir_performs(target(body), label);
            },
        }
    }
}

// ── the parts of a closure's code ────────────────────────────────────────
/// The code of a lambda without a name of its own.
#[verifier::opaque]
pub open spec fn closed(st: St, fuel: nat, lam: Comp) -> Result<(St, Val), CodegenError> {
    st.closure(fuel, None, lam)
}

/// The uncurried entry of a lambda without a name of its own.
#[verifier::opaque]
pub open spec fn sped(st: St, fuel: nat, lam: Comp, caps: Seq<CaptureInfo>) -> Result<
    (St, Val, Val),
    CodegenError,
> {
    st.fast(fuel, None, lam, caps)
}

/// The parts of a closure's code.
pub struct Closed {
    pub fun_ty: Rc<Type>,
    pub caps: Seq<CaptureInfo>,
    /// Behind the lifted function.
    pub made: St,
    /// Behind its address.
    pub named: St,
    pub entry: Val,
    /// Behind the uncurried entry.
    pub last: St,
    pub fast: Val,
    pub arity: Val,
}

/// The code of a closure has these parts.
pub open spec fn parts_of(st: St, fuel: nat, lam: Comp, p: Closed) -> bool {
    &&& p.fun_ty == pointer_to(Type::Fun(lam_param(lam).ty, lam->Lam_ret_ty, st.cx.pure))
    &&& st.place_captures(
        None,
        p.fun_ty,
        capture_names(lam_body(lam), lam_param(lam).name@, *st.cx.handlers),
        0,
        Seq::empty(),
    ) == Ok::<Seq<CaptureInfo>, CodegenError>(p.caps)
    &&& lifted(st, fuel, lam, p.caps) is Ok
    &&& lifted(st, fuel, lam, p.caps)->Ok_0.0 == p.made
    &&& p.named == p.made.put(
        Cmd::Convert {
            op: Conv::PtrToInt,
            a: Val { id: Id::Func(lifted(st, fuel, lam, p.caps)->Ok_0.1), ty: Ty::Ptr },
            ty: Ty::I64,
            label: "fnaddr",
        },
    )
    &&& p.entry == Val { id: Id::Reg(p.made.script.len() as u64), ty: Ty::I64 }
    &&& sped(p.named, fuel, lam, p.caps) == Ok::<(St, Val, Val), CodegenError>(
        (p.last, p.fast, p.arity),
    )
    &&& p.last.build_closure(None, p.fun_ty, p.caps, p.entry, p.fast, p.arity) is Ok
    &&& p.last.build_closure(None, p.fun_ty, p.caps, p.entry, p.fast, p.arity) == closed(
        st,
        fuel,
        lam,
    )
}

proof fn lemma_of_closed(st: St, fuel: nat, lam: Comp) -> (p: Closed)
    requires
        lam is Lam,
        closed(st, fuel, lam) is Ok,
    ensures
        parts_of(st, fuel, lam, p),
{
    reveal(closed);
    reveal(lifted);
    reveal(sped);
    let fun_ty = pointer_to(Type::Fun(lam_param(lam).ty, lam->Lam_ret_ty, st.cx.pure));
    let caps = st.place_captures(
        None,
        fun_ty,
        capture_names(lam_body(lam), lam_param(lam).name@, target(st.cx.handlers)),
        0,
        Seq::empty(),
    )->Ok_0;
    let (made, func) = st.lift(fuel, None, lam, caps)->Ok_0;
    let (named, entry) = made.func_addr(func, "fnaddr");
    let (last, fast, arity) = named.fast(fuel, None, lam, caps)->Ok_0;
    Closed { fun_ty, caps, made, named, entry, last, fast, arity }
}

/// The code of a nested lambda is the body of the function that is lifted from the
/// outer one.
proof fn lemma_of_nested(st: St, fuel: nat, lam: Comp)
    requires
        lam is Lam,
        nests(lam),
    ensures
        of_ir(st, fuel, lam_body(lam)) == closed(st, fuel, inner(lam)),
        inner(lam) is Lam,
        decreases_to!(lam => inner(lam)),
{
    reveal(closed);
    lemma_of_ir(st, fuel, lam_body(lam));
    let body = lam_body(lam);
    let c = inner(lam);
    assert(st.comp(fuel, c) == st.closure(fuel, None, c));
    match body {
        Ir::Block { binds, comp, .. } => {
            assert(st.binds_from(fuel, binds, 0) == Ok::<St, CodegenError>(st));
        },
        _ => {},
    }
    if let Comp::Lam { body, .. } = lam {
        assert(decreases_to!(lam => target(body)));
    }
}

proof fn lemma_of_sped(st: St, fuel: nat, lam: Comp, caps: Seq<CaptureInfo>) -> (p: PlainFun)
    requires
        !st.cx.gc,
        lam is Lam,
        all_params(lam).len() >= 2,
        forall|k: int| 0 <= k < caps.len() ==> plain_capture(#[trigger] caps[k]),
        sped(st, fuel, lam, caps) is Ok,
    ensures
        p.tys.len() == all_params(lam).len(),
        prologue(st, FuncName::Fast(st.cx.lifted), p.ret, all_params(lam), p.tys, caps) is Ok,
        prologue(
            st,
            FuncName::Fast(st.cx.lifted),
            p.ret,
            all_params(lam),
            p.tys,
            caps,
        )->Ok_0.0 == p.start,
        of_ir(p.start, fuel, chain_body(lam_body(lam))) == Ok::<(St, Val), CodegenError>(
            (p.out, p.v),
        ),
        ({
            let done = p.out.put(Cmd::Ret { val: p.v }).in_env(st.cx.env).with_func(
                st.cx.func,
            ).at(st.cx.block);
            sped(st, fuel, lam, caps) == Ok::<(St, Val, Val), CodegenError>(
                (
                    done.put(
                        Cmd::Convert {
                            op: Conv::PtrToInt,
                            a: Val { id: Id::Func(st.here()), ty: Ty::Ptr },
                            ty: Ty::I64,
                            label: "fastaddr",
                        },
                    ),
                    Val { id: Id::Reg(done.script.len() as u64), ty: Ty::I64 },
                    constant(all_params(lam).len() as u64),
                ),
            )
        }),
{
    reveal(sped);
    reveal(prologue);
    let params = all_params(lam);
    let body = chain_body(lam_body(lam));
    let ret_ty = chain_ret(lam_body(lam), lam->Lam_ret_ty);
    let ret = abi_ty(ret_ty)->Ok_0;
    let tys = param_tys(params, 0, Seq::empty())->Ok_0;
    lemma_param_tys(params, 0, Seq::empty());
    assert(st.fast_entry(fuel, None, params, caps, body, ret_ty) is Ok);
    let (start, frame) = prologue(st, FuncName::Fast(st.cx.lifted), ret, params, tys, caps)->Ok_0;
    lemma_prologue_start(st, FuncName::Fast(st.cx.lifted), ret, params, tys, caps);
    lemma_of_ir(start, fuel, body);
    let (out, v) = of_ir(start, fuel, body)->Ok_0;
    PlainFun { tys, ret, start, out, v }
}

// ── what is in scope inside ──────────────────────────────────────────────
pub(crate) proof fn lemma_load_plain(st: St, env: Val, caps: Seq<CaptureInfo>, i: nat)
    requires
        i <= caps.len(),
        !st.cx.gc,
        env_plain(st),
        forall|k: int| 0 <= k < caps.len() ==> plain_capture(#[trigger] caps[k]),
        st.load_captures(env, caps, i) is Ok,
    ensures
        env_plain(st.load_captures(env, caps, i)->Ok_0),
        st.load_captures(env, caps, i)->Ok_0.cx.handlers == st.cx.handlers,
    decreases caps.len() - i,
{
    if i < caps.len() {
        let cap = caps[i as int];
        let (mid, v) = st.load_capture(env, cap)->Ok_0;
        lemma_load_capture(st, env, cap);
        let next = mid.bind(cap.name, v, cap.ty, cap.layout);
        lemma_bind_plain(mid, cap.name, v, cap.ty, cap.layout);
        lemma_load_plain(next, env, caps, i + 1);
    }
}

pub(crate) proof fn lemma_load_resume(st: St, env: Val, caps: Seq<CaptureInfo>, i: nat)
    requires
        i <= caps.len(),
        !st.cx.gc,
        forall|k: int| 0 <= k < caps.len() ==> plain_capture(#[trigger] caps[k]),
        st.load_captures(env, caps, i) is Ok,
    ensures
        st.load_captures(env, caps, i)->Ok_0.cx.resume == st.cx.resume,
    decreases caps.len() - i,
{
    if i < caps.len() {
        let cap = caps[i as int];
        let (mid, v) = st.load_capture(env, cap)->Ok_0;
        lemma_load_capture(st, env, cap);
        lemma_load_resume(mid.bind(cap.name, v, cap.ty, cap.layout), env, caps, i + 1);
    }
}

pub(crate) proof fn lemma_params_resume(st: St, func: u64, params: Seq<Param>, tys: Seq<Ty>, i: nat)
    ensures
        st.bind_params(func, params, tys, i).cx.resume == st.cx.resume,
        st.bind_params(func, params, tys, i).cx.gc == st.cx.gc,
    decreases params.len() - i,
{
    if i < params.len() {
        let p = params[i as int];
        let v = Val { id: Id::Param { func, index: (i + 1) as u32 }, ty: tys[i as int] };
        lemma_params_resume(st.bind(p.name, v, p.ty, p.layout), func, params, tys, i + 1);
    }
}

/// A function is begun in what its surroundings resume to.
pub(crate) proof fn lemma_start_resume(
    st: St,
    name: FuncName,
    ret: Ty,
    params: Seq<Param>,
    tys: Seq<Ty>,
    caps: Seq<CaptureInfo>,
)
    requires
        !st.cx.gc,
        tys.len() == params.len(),
        forall|k: int| 0 <= k < caps.len() ==> plain_capture(#[trigger] caps[k]),
        prologue(st, name, ret, params, tys, caps) is Ok,
    ensures
        prologue(st, name, ret, params, tys, caps)->Ok_0.0.cx.resume == st.cx.resume,
{
    reveal(prologue);
    let func = st.here();
    let begun = st.begin_func(name, ret, tys);
    let named = st.put(Cmd::Func { name, ret }).put(Cmd::Param { ty: env_ty(false) });
    lemma_put_params(named, tys, tys.len());
    lemma_params_resume(begun, func, params, tys, 0);
    let bound = begun.bind_params(func, params, tys, 0);
    let env = Val { id: Id::Param { func, index: 0 }, ty: env_ty(false) };
    lemma_load_resume(bound, env, caps, 0);
}

pub(crate) proof fn lemma_bind_plain(st: St, name: String, v: Val, ty: Rc<Type>, layout: ValueLayout)
    requires
        env_plain(st),
        v.ty is I64,
        cells_of(layout) == 1,
        passed_in_cell(*ty),
    ensures
        env_plain(st.bind(name, v, ty, layout)),
{
    let end = st.bind(name, v, ty, layout);
    assert forall|x: Seq<char>| #[trigger] end.cx.env.get(x) matches Some(e) ==> {
        &&& e.value.ty is I64
        &&& cells_of(e.layout) == 1
        &&& passed_in_cell(*e.ty)
    } by {
        if name@ != x {
            assert(end.cx.env.get(x) == st.cx.env.get(x));
        }
    }
}

pub(crate) proof fn lemma_start_plain(
    st: St,
    name: FuncName,
    ret: Ty,
    param: Param,
    tys: Seq<Ty>,
    caps: Seq<CaptureInfo>,
)
    requires
        !st.cx.gc,
        plain_param(param),
        tys.len() == 1,
        tys[0] is I64,
        forall|k: int| 0 <= k < caps.len() ==> plain_capture(#[trigger] caps[k]),
        prologue(st, name, ret, seq![param], tys, caps) is Ok,
    ensures
        env_plain(prologue(st, name, ret, seq![param], tys, caps)->Ok_0.0),
        prologue(st, name, ret, seq![param], tys, caps)->Ok_0.0.cx.handlers == st.cx.handlers,
{
    reveal(prologue);
    reveal_with_fuel(St::bind_params, 2);
    let func = st.here();
    let begun = st.begin_func(name, ret, tys);
    let named = st.put(Cmd::Func { name, ret }).put(
        Cmd::Param { ty: env_ty(false) },
    );
    lemma_put_params(named, tys, tys.len());
    assert(env_plain(begun));
    let v = Val { id: Id::Param { func, index: 1 }, ty: tys[0] };
    lemma_bind_plain(begun, param.name, v, param.ty, param.layout);
    let bound = begun.bind_params(func, seq![param], tys, 0);
    assert(bound == begun.bind(param.name, v, param.ty, param.layout));
    lemma_load_plain(
        bound,
        Val { id: Id::Param { func, index: 0 }, ty: env_ty(false) },
        caps,
        0,
    );
}

// ── the shape of a closure's code ────────────────────────────────────────
/// Commands that neither open a block nor feed a phi were added to a state.
pub open spec fn flat(st: St, end: St) -> bool {
    &&& extends(end.script, st.script)
    &&& st.script.len() <= end.script.len()
    &&& end.cx == st.cx
    &&& forall|i: int|
        st.script.len() <= i < end.script.len() ==> !(#[trigger] end.script[i] is At)
            && !(end.script[i] is Incoming)
}

pub(crate) proof fn lemma_flat(a: St, b: St, c: St)
    requires
        flat(a, b),
        flat(b, c),
    ensures
        flat(a, c),
{
    lemma_extends(a.script, b.script, c.script);
    assert forall|i: int| a.script.len() <= i < c.script.len() implies !(#[trigger] c.script[i] is At)
        && !(c.script[i] is Incoming) by {
        if i < b.script.len() {
            assert(c.script[i] == b.script[i]);
        }
    }
}

pub(crate) proof fn lemma_store_flat(st: St, clos: Val, caps: Seq<CaptureInfo>, i: nat)
    requires
        i <= caps.len(),
        !st.cx.gc,
        forall|k: int| 0 <= k < caps.len() ==> plain_capture(#[trigger] caps[k]),
        env_plain(st),
        st.store_captures(clos, caps, i) is Ok,
    ensures
        flat(st, st.store_captures(clos, caps, i)->Ok_0),
    decreases caps.len() - i,
{
    if i < caps.len() {
        let next = st.store_capture(clos, caps[i as int])->Ok_0;
        lemma_store_capture(st, clos, caps[i as int]);
        assert(flat(st, next));
        lemma_store_flat(next, clos, caps, i + 1);
        lemma_flat(st, next, st.store_captures(clos, caps, i)->Ok_0);
    }
}

/// The code that builds a closure.
proof fn lemma_build_flat(
    st: St,
    fun_ty: Rc<Type>,
    caps: Seq<CaptureInfo>,
    entry: Val,
    fast: Val,
    arity: Val,
)
    requires
        !st.cx.gc,
        forall|k: int| 0 <= k < caps.len() ==> plain_capture(#[trigger] caps[k]),
        env_plain(st),
        st.build_closure(None, fun_ty, caps, entry, fast, arity) is Ok,
    ensures
        flat(st, st.build_closure(None, fun_ty, caps, entry, fast, arity)->Ok_0.0),
        st.build_closure(None, fun_ty, caps, entry, fast, arity)->Ok_0.1 == (Val {
            id: Id::Reg((st.script.len() + 2) as u64),
            ty: Ty::I64,
        }),
        st.script.len() + 9 <= st.build_closure(
            None,
            fun_ty,
            caps,
            entry,
            fast,
            arity,
        )->Ok_0.0.script.len(),
{
    let end = st.build_closure(None, fun_ty, caps, entry, fast, arity)->Ok_0.0;
    let (s1, block) = st.arg(constant(closure_size(caps))).call("locus_alloc", Ty::Ptr, "alloc");
    let (s2, c) = s1.convert(Conv::PtrToInt, block, Ty::I64, "clos");
    let (s4, p0) = s2.gep(Ty::I64, block, constant(0), "fn.slot");
    let s5 = s4.store(p0, entry);
    let (s6, p1) = s5.gep(Ty::I64, block, constant(1), "fast.slot");
    let s7 = s6.store(p1, fast);
    let (s8, p2) = s7.gep(Ty::I64, block, constant(2), "fastarity.slot");
    let s9 = s8.store(p2, arity);
    assert(flat(st, s9));
    lemma_store_flat(s9, block, caps, 0);
    lemma_flat(st, s9, end);
}

pub(crate) proof fn lemma_chain_plain(lam: Comp)
    requires
        plain_chain(lam),
    ensures
        plain_ir(chain_body(lam_body(lam)), false),
        all_params(lam).len() >= 1,
        nests(lam) ==> plain_chain(inner(lam)) && chain_body(lam_body(lam)) == chain_body(
            lam_body(inner(lam)),
        ) && all_params(lam) == seq![lam_param(lam)] + all_params(inner(lam)),
        !nests(lam) ==> plain_ir(lam_body(lam), false) && chain_body(lam_body(lam)) == lam_body(lam)
            && all_params(lam) == seq![lam_param(lam)],
    decreases lam,
{
    if let Comp::Lam { body, .. } = lam {
        match sole_lambda(target(body)) {
            Some(c) => {
                lemma_chain_plain(target(c));
            },
            None => {
                assert(seq![lam_param(lam)] + Seq::<Param>::empty() =~= seq![lam_param(lam)]);
            },
        }
    }
}

/// What a lambda of integers captures where the variables in scope are cells.
pub(crate) proof fn lemma_caps(st: St, fuel: nat, lam: Comp, p: Closed)
    requires
        plain_chain(lam),
        env_plain(st),
        parts_of(st, fuel, lam, p),
    ensures
        forall|k: int| 0 <= k < p.caps.len() ==> plain_capture(#[trigger] p.caps[k]),
        packed(p.caps),
        cap_names(p.caps) == name_set(
            occ_ir(lam_body(lam), Set::empty().insert(lam_param(lam).name@)),
        ),
        p.caps.len() <= occ_ir(lam_body(lam), Set::empty().insert(lam_param(lam).name@)).len(),
        forall|k: int| 0 <= k < p.caps.len() ==> st.cx.env.get((#[trigger] p.caps[k]).name@) is Some,
{
    assert forall|label: Label| !#[trigger] performs_label(lam_body(lam), label) by {
        lemma_chain_performs(lam, label);
    }
    a_lambda_captures_its_free_variables(st, None, p.fun_ty, lam_body(lam), lam_param(lam).name@);
    placed_captures_are_packed(
        st,
        None,
        p.fun_ty,
        capture_names(lam_body(lam), lam_param(lam).name@, target(st.cx.handlers)),
        0,
        Seq::empty(),
    );
    assert forall|k: int| 0 <= k < p.caps.len() implies plain_capture(#[trigger] p.caps[k])
        && st.cx.env.get(p.caps[k].name@) is Some by {
        assert(comes_from(st, None, p.fun_ty, p.caps[k]));
        assert(st.cx.env.get(p.caps[k].name@) is Some);
    }
}

/// The state in which the body of the lifted function begins, and the one behind it.
proof fn lemma_lifted_len(st: St, fuel: nat, lam: Comp, caps: Seq<CaptureInfo>) -> (q: PlainFun)
    requires
        !st.cx.gc,
        plain_chain(lam),
        forall|k: int| 0 <= k < caps.len() ==> plain_capture(#[trigger] caps[k]),
        lifted(st, fuel, lam, caps) is Ok,
    ensures
        lift_parts(st, fuel, lam, caps, q),
        st.script.len() + 5 <= q.start.script.len() <= q.out.script.len(),
        !q.start.cx.gc,
        !q.out.cx.gc,
        q.out.cx.resume == st.cx.resume,
        env_plain(q.start),
    decreases lam, 0nat,
{
    let q = lemma_of_plain_lift(st, fuel, lam, caps);
    let name = FuncName::Lam(st.cx.lifted);
    lemma_start_resume(st, name, q.ret, seq![lam_param(lam)], q.tys, caps);
    lemma_prologue_start(st, name, q.ret, seq![lam_param(lam)], q.tys, caps);
    lemma_start_plain(st, name, q.ret, lam_param(lam), q.tys, caps);
    lemma_chain_plain(lam);
    if nests(lam) {
        lemma_of_nested(q.start, fuel, lam);
        lemma_closed_len(q.start, fuel, inner(lam));
    } else {
        lemma_ir_len(q.start, fuel, lam_body(lam));
    }
    q
}

/// The parts of the function that is lifted from a lambda.
pub open spec fn lift_parts(st: St, fuel: nat, lam: Comp, caps: Seq<CaptureInfo>, q: PlainFun) -> bool {
    let name = FuncName::Lam(st.cx.lifted);
    &&& q.tys.len() == 1
    &&& prologue(st, name, q.ret, seq![lam_param(lam)], q.tys, caps) is Ok
    &&& prologue(st, name, q.ret, seq![lam_param(lam)], q.tys, caps)->Ok_0.0 == q.start
    &&& of_ir(q.start, fuel, lam_body(lam)) == Ok::<(St, Val), CodegenError>((q.out, q.v))
    &&& lifted(st, fuel, lam, caps)->Ok_0.0 == q.out.put(Cmd::Ret { val: q.v }).in_env(
        st.cx.env,
    ).with_func(st.cx.func).at(st.cx.block)
    &&& lifted(st, fuel, lam, caps)->Ok_0.1 == st.here()
}

pub(crate) proof fn lemma_closed_len(st: St, fuel: nat, lam: Comp) -> (p: Closed)
    requires
        !st.cx.gc,
        plain_chain(lam),
        env_plain(st),
        closed(st, fuel, lam) is Ok,
    ensures
        parts_of(st, fuel, lam, p),
        st.script.len() < p.made.script.len() < p.named.script.len() <= p.last.script.len()
            <= closed(st, fuel, lam)->Ok_0.0.script.len(),
        !p.made.cx.gc,
        !p.last.cx.gc,
        p.last.cx.env == st.cx.env,
        p.last.cx.resume == st.cx.resume,
        p.last.cx.block == st.cx.block,
        flat(p.last, closed(st, fuel, lam)->Ok_0.0),
        closed(st, fuel, lam)->Ok_0.1.ty is I64,
        countable(closed(st, fuel, lam)->Ok_0.0) ==> ready(
            closed(st, fuel, lam)->Ok_0.0,
            closed(st, fuel, lam)->Ok_0.1,
        ),
    decreases lam, 1nat,
{
    let p = lemma_of_closed(st, fuel, lam);
    lemma_caps(st, fuel, lam, p);
    let q = lemma_lifted_len(st, fuel, lam, p.caps);
    lemma_chain_plain(lam);
    assert(p.made.cx.env == st.cx.env);
    assert(p.named.cx == p.made.cx);
    if all_params(lam).len() < 2 {
        assert(sped(p.named, fuel, lam, p.caps) == Ok::<(St, Val, Val), CodegenError>(
            (p.named, constant(0), constant(0)),
        )) by {
            reveal(sped);
        }
    } else {
        let r = lemma_of_sped(p.named, fuel, lam, p.caps);
        let name = FuncName::Fast(p.named.cx.lifted);
        lemma_prologue_start(p.named, name, r.ret, all_params(lam), r.tys, p.caps);
        lemma_start_resume(p.named, name, r.ret, all_params(lam), r.tys, p.caps);
        lemma_ir_len(r.start, fuel, chain_body(lam_body(lam)));
    }
    assert(env_plain(p.last)) by {
        assert forall|x: Seq<char>| #[trigger] p.last.cx.env.get(x) matches Some(e) ==> {
            &&& e.value.ty is I64
            &&& cells_of(e.layout) == 1
            &&& passed_in_cell(*e.ty)
        } by {
            assert(p.last.cx.env.get(x) == st.cx.env.get(x));
        }
    }
    lemma_build_flat(p.last, p.fun_ty, p.caps, p.entry, p.fast, p.arity);
    p
}

/// The code of a closure was added to a state.
pub open spec fn around(st: St, end: St) -> bool {
    &&& extends(end.script, st.script)
    &&& st.script.len() <= end.script.len()
    &&& nested_in(end.script, st.script.len() as int, end.script.len() as int, st.cx.block)
    &&& opened(end.script, end.script.len() as int) == st.cx.block
    &&& end.cx.block == st.cx.block
    &&& end.cx.env == st.cx.env
    &&& !end.cx.gc
}

pub(crate) proof fn lemma_around(a: St, b: St, c: St)
    requires
        around(a, b),
        around(b, c),
    ensures
        around(a, c),
{
    lemma_extends(a.script, b.script, c.script);
    assert forall|i: int| a.script.len() <= i < c.script.len() implies match #[trigger] c.script[i] {
        Cmd::At { block } => a.script.len() <= block < c.script.len() || block == a.cx.block,
        Cmd::Incoming { phi, .. } => a.script.len() <= phi < c.script.len(),
        _ => true,
    } by {
        if i < b.script.len() {
            assert(c.script[i] == b.script[i]);
        }
    }
}

pub(crate) proof fn lemma_flat_around(st: St, end: St)
    requires
        flat(st, end),
        opened(st.script, st.script.len() as int) == st.cx.block,
        !st.cx.gc,
    ensures
        around(st, end),
{
    lemma_flat_opened(st, end, end.script.len() as int);
}

pub(crate) proof fn lemma_flat_opened(st: St, end: St, i: int)
    requires
        flat(st, end),
        st.script.len() <= i <= end.script.len(),
    ensures
        opened(end.script, i) == opened(st.script, st.script.len() as int),
    decreases i,
{
    if i == st.script.len() {
        lemma_opened(end.script, st.script, i);
    } else {
        assert(!(end.script[i - 1] is At));
        lemma_flat_opened(st, end, i - 1);
    }
}

/// A function stands between the state and the block's going on: from its head to the
/// return of its body.
pub open spec fn embedded(st: St, made: St) -> bool {
    let n = st.script.len() as int;
    let e = made.script.len() as int;
    &&& n + 2 <= e
    &&& extends(made.script, st.script)
    &&& made.script[n] is Func
    &&& made.script[e - 1] == (Cmd::At { block: st.cx.block })
    &&& own_blocks(made.script, n, e - 1)
    &&& made.cx.block == st.cx.block
    &&& made.cx.env == st.cx.env
    &&& !made.cx.gc
}

proof fn lemma_embedded(st: St, out: St, v: Val, made: St)
    requires
        made == out.put(Cmd::Ret { val: v }).in_env(st.cx.env).with_func(st.cx.func).at(st.cx.block),
        st.script.len() < out.script.len(),
        extends(out.script, st.script),
        out.script[st.script.len() as int] is Func,
        own_blocks(out.script, st.script.len() as int, out.script.len() as int),
        !out.cx.gc,
    ensures
        embedded(st, made),
        extends(made.script, out.script),
        around(st, made),
{
    let n = st.script.len() as int;
    let e = made.script.len() as int;
    assert(extends(made.script, out.script));
    lemma_extends(st.script, out.script, made.script);
    assert(made.script[n] == out.script[n]);
    assert forall|i: int| n <= i < e - 1 implies match #[trigger] made.script[i] {
        Cmd::At { block } => n <= block < e - 1,
        Cmd::Incoming { phi, .. } => n <= phi < e - 1,
        _ => true,
    } by {
        if i < out.script.len() {
            assert(made.script[i] == out.script[i]);
        }
    }
    assert(own_blocks(made.script, n, e - 1));
}

pub(crate) proof fn lemma_head_func(st: St, name: FuncName, ret: Ty, params: Seq<Param>, tys: Seq<Ty>, caps: Seq<CaptureInfo>)
    requires
        !st.cx.gc,
        tys.len() == params.len(),
        forall|k: int| 0 <= k < caps.len() ==> plain_capture(#[trigger] caps[k]),
        prologue(st, name, ret, params, tys, caps) is Ok,
    ensures
        st.script.len() < prologue(st, name, ret, params, tys, caps)->Ok_0.0.script.len(),
        prologue(st, name, ret, params, tys, caps)->Ok_0.0.script[st.script.len() as int] is Func,
{
    reveal(prologue);
    let n = st.script.len() as int;
    let head = st.put(Cmd::Func { name, ret }).put(Cmd::Param { ty: env_ty(false) });
    lemma_put_params(head, tys, tys.len());
    let begun = st.begin_func(name, ret, tys);
    assert(begun.script[n] == head.script[n]);
    lemma_bind_same(begun, st.here(), params, tys, 0);
    let bound = begun.bind_params(st.here(), params, tys, 0);
    let env = Val { id: Id::Param { func: st.here(), index: 0 }, ty: env_ty(false) };
    lemma_captures_len(bound, env, caps, 0);
    assert(bound.script == begun.script);
}

/// The code that a function begins with, and a body that grew behind it.
pub(crate) proof fn lemma_function_own(st: St, start: St, out: St)
    requires
        st.script.len() <= start.cx.block < start.script.len(),
        own_blocks(start.script, st.script.len() as int, start.script.len() as int),
        extends(start.script, st.script),
        extends(out.script, start.script),
        start.script.len() <= out.script.len(),
        nested_in(
            out.script,
            start.script.len() as int,
            out.script.len() as int,
            start.cx.block,
        ),
    ensures
        own_blocks(out.script, st.script.len() as int, out.script.len() as int),
        extends(out.script, st.script),
{
    lemma_extends(st.script, start.script, out.script);
    assert forall|i: int| st.script.len() <= i < out.script.len() implies match #[trigger] out.script[i] {
        Cmd::At { block } => st.script.len() <= block < out.script.len(),
        Cmd::Incoming { phi, .. } => st.script.len() <= phi < out.script.len(),
        _ => true,
    } by {
        if i < start.script.len() {
            assert(out.script[i] == start.script[i]);
        }
    }
}

proof fn lemma_lifted_shape(st: St, fuel: nat, lam: Comp, caps: Seq<CaptureInfo>, m: Machine) -> (q: PlainFun)
    requires
        !st.cx.gc,
        own_blocks(st.script, 0, st.script.len() as int),
        plain_chain(lam),
        forall|k: int| 0 <= k < caps.len() ==> plain_capture(#[trigger] caps[k]),
        lifted(st, fuel, lam, caps) is Ok,
        countable(lifted(st, fuel, lam, caps)->Ok_0.0),
        m.args.len() == 0,
    ensures
        lift_parts(st, fuel, lam, caps, q),
        embedded(st, lifted(st, fuel, lam, caps)->Ok_0.0),
        around(st, lifted(st, fuel, lam, caps)->Ok_0.0),
        extends(lifted(st, fuel, lam, caps)->Ok_0.0.script, q.out.script),
        extends(q.out.script, q.start.script),
        settled(q.start),
        env_ready(q.start),
        env_plain(q.start),
        !q.start.cx.gc,
        st.script.len() <= q.start.cx.block < q.start.script.len(),
    decreases lam, 0nat,
{
    let q = lemma_lifted_len(st, fuel, lam, caps);
    let name = FuncName::Lam(st.cx.lifted);
    let params = seq![lam_param(lam)];
    let _ = lemma_prologue_runs(st, name, q.ret, params, q.tys, caps, q.start.script, m);
    lemma_head_func(st, name, q.ret, params, q.tys, caps);
    lemma_chain_plain(lam);
    if nests(lam) {
        lemma_of_nested(q.start, fuel, lam);
        let _ = lemma_closed_shape(q.start, fuel, inner(lam), m);
    } else {
        lemma_ir_grown(q.start, fuel, lam_body(lam));
    }
    lemma_function_own(st, q.start, q.out);
    assert(q.out.script[st.script.len() as int] == q.start.script[st.script.len() as int]);
    lemma_embedded(st, q.out, q.v, lifted(st, fuel, lam, caps)->Ok_0.0);
    q
}

/// The parts of the function behind an uncurried entry.
pub open spec fn sped_parts(st: St, fuel: nat, lam: Comp, caps: Seq<CaptureInfo>, r: PlainFun, done: St) -> bool {
    let name = FuncName::Fast(st.cx.lifted);
    &&& r.tys.len() == all_params(lam).len()
    &&& prologue(st, name, r.ret, all_params(lam), r.tys, caps) is Ok
    &&& prologue(st, name, r.ret, all_params(lam), r.tys, caps)->Ok_0.0 == r.start
    &&& of_ir(r.start, fuel, chain_body(lam_body(lam))) == Ok::<(St, Val), CodegenError>(
        (r.out, r.v),
    )
    &&& done == r.out.put(Cmd::Ret { val: r.v }).in_env(st.cx.env).with_func(st.cx.func).at(
        st.cx.block,
    )
    &&& sped(st, fuel, lam, caps) == Ok::<(St, Val, Val), CodegenError>(
        (
            done.put(
                Cmd::Convert {
                    op: Conv::PtrToInt,
                    a: Val { id: Id::Func(st.here()), ty: Ty::Ptr },
                    ty: Ty::I64,
                    label: "fastaddr",
                },
            ),
            Val { id: Id::Reg(done.script.len() as u64), ty: Ty::I64 },
            constant(all_params(lam).len() as u64),
        ),
    )
}

proof fn lemma_sped_shape(st: St, fuel: nat, lam: Comp, caps: Seq<CaptureInfo>, m: Machine) -> (r: (PlainFun, St))
    requires
        !st.cx.gc,
        own_blocks(st.script, 0, st.script.len() as int),
        plain_chain(lam),
        all_params(lam).len() >= 2,
        forall|k: int| 0 <= k < caps.len() ==> plain_capture(#[trigger] caps[k]),
        sped(st, fuel, lam, caps) is Ok,
        countable(sped(st, fuel, lam, caps)->Ok_0.0),
        m.args.len() == 0,
    ensures
        sped_parts(st, fuel, lam, caps, r.0, r.1),
        embedded(st, r.1),
        around(st, r.1),
        extends(r.1.script, r.0.out.script),
        countable(r.0.out),
{
    let q = lemma_of_sped(st, fuel, lam, caps);
    let done = q.out.put(Cmd::Ret { val: q.v }).in_env(st.cx.env).with_func(st.cx.func).at(
        st.cx.block,
    );
    let name = FuncName::Fast(st.cx.lifted);
    let params = all_params(lam);
    let body = chain_body(lam_body(lam));
    lemma_chain_plain(lam);
    lemma_prologue_start(st, name, q.ret, params, q.tys, caps);
    lemma_ir_len(q.start, fuel, body);
    let _ = lemma_prologue_runs(st, name, q.ret, params, q.tys, caps, q.start.script, m);
    lemma_head_func(st, name, q.ret, params, q.tys, caps);
    lemma_ir_grown(q.start, fuel, body);
    lemma_function_own(st, q.start, q.out);
    assert(q.out.script[st.script.len() as int] == q.start.script[st.script.len() as int]);
    lemma_embedded(st, q.out, q.v, done);
    (q, done)
}

pub(crate) proof fn lemma_closed_shape(st: St, fuel: nat, lam: Comp, m: Machine) -> (p: Closed)
    requires
        !st.cx.gc,
        settled(st),
        env_ready(st),
        env_plain(st),
        plain_chain(lam),
        closed(st, fuel, lam) is Ok,
        countable(closed(st, fuel, lam)->Ok_0.0),
        m.args.len() == 0,
    ensures
        parts_of(st, fuel, lam, p),
        around(st, closed(st, fuel, lam)->Ok_0.0),
        closed(st, fuel, lam)->Ok_0.0.cx.resume == st.cx.resume,
        around(st, p.named),
        around(st, p.last),
        own_blocks(p.named.script, 0, p.named.script.len() as int),
        countable(p.last),
        p.made.script.len() < p.named.script.len() <= p.last.script.len(),
        flat(p.last, closed(st, fuel, lam)->Ok_0.0),
        closed(st, fuel, lam)->Ok_0.1.ty is I64,
    decreases lam, 1nat,
{
    let p = lemma_closed_len(st, fuel, lam);
    let end = closed(st, fuel, lam)->Ok_0.0;
    lemma_caps(st, fuel, lam, p);
    let _ = lemma_lifted_shape(st, fuel, lam, p.caps, m);
    assert(flat(p.made, p.named));
    lemma_flat_around(p.made, p.named);
    lemma_around(st, p.made, p.named);
    lemma_around_whole(st, p.named);
    if all_params(lam).len() < 2 {
        assert(sped(p.named, fuel, lam, p.caps) == Ok::<(St, Val, Val), CodegenError>(
            (p.named, constant(0), constant(0)),
        )) by {
            reveal(sped);
        }
    } else {
        let (r, done) = lemma_sped_shape(p.named, fuel, lam, p.caps, m);
        assert(flat(done, p.last));
        lemma_flat_around(done, p.last);
        lemma_around(p.named, done, p.last);
        lemma_around(st, p.named, p.last);
    }
    lemma_flat_around(p.last, end);
    lemma_around(st, p.last, end);
    p
}

pub(crate) proof fn lemma_around_whole(st: St, end: St)
    requires
        settled(st),
        around(st, end),
    ensures
        own_blocks(end.script, 0, end.script.len() as int) || st.cx.block >= end.script.len(),
{
    assert forall|i: int| 0 <= i < end.script.len() implies match #[trigger] end.script[i] {
        Cmd::At { block } => 0 <= block < end.script.len() || st.cx.block >= end.script.len(),
        Cmd::Incoming { phi, .. } => 0 <= phi < end.script.len(),
        _ => true,
    } by {
        if i < st.script.len() {
            assert(end.script[i] == st.script[i]);
        }
    }
}

// ── building a closure ───────────────────────────────────────────────────
/// A function that stands in between is passed over.
pub(crate) proof fn lemma_passed_over(st: St, made: St, script: Seq<Cmd>, m: Machine)
    requires
        embedded(st, made),
        opened(st.script, st.script.len() as int) == st.cx.block,
        st.cx.block < st.script.len(),
        extends(script, made.script),
    ensures
        run(script, st.script.len() as int, m) == run(script, made.script.len() as int, m),
{
    let n = st.script.len() as int;
    let e = made.script.len() as int;
    let block = st.cx.block;
    lemma_extends(st.script, made.script, script);
    lemma_opened(script, st.script, n);
    assert(script[n] == made.script[n]);
    assert(script[e - 1] == made.script[e - 1]);
    assert forall|j: int| n + 1 <= j < e - 1 implies #[trigger] script[j] != (Cmd::At { block }) by {
        assert(script[j] == made.script[j]);
    }
    lemma_seek_at(script, block, n + 1, e - 1);
    assert(run(script, n, m) == run(script, e - 1, m));
    assert(run(script, e - 1, m) == run(script, e, m));
}

/// Every place that is found lies in memory.
pub open spec fn lies_in_memory(room: Room) -> bool {
    forall|size: u64, s: Store| #[trigger] room(size, s) + size <= 0x1_0000_0000_0000_0000
}

/// The cells behind `clos` hold the words of the captures.
pub open spec fn holds_words(caps: Seq<CaptureInfo>, clos: u64, mem: Map<u64, u64>, vars: Vars) -> bool {
    forall|k: int|
        0 <= k < caps.len() ==> mem[word(clos + (#[trigger] caps[k]).raw_slot * 8)]
            == vars[caps[k].name@]
}

/// The words that stand for the uncurried entry of a closure and its arity.
pub open spec fn speeds(p: Closed, lam: Comp, mem: Map<u64, u64>, clos: u64) -> bool {
    if all_params(lam).len() < 2 {
        mem[word(clos + 16)] == 0
    } else {
        &&& mem[word(clos + 8)] == p.named.here()
        &&& mem[word(clos + 16)] == all_params(lam).len() as u64
    }
}

/// A closure of the lambda stands at `clos`: its entries, and the words of what it
/// captured.
pub open spec fn stands(p: Closed, func: u64, lam: Comp, vars: Vars, mem: Map<u64, u64>, clos: u64) -> bool {
    &&& mem[clos] == func
    &&& speeds(p, lam, mem, clos)
    &&& holds_words(p.caps, clos, mem, vars)
}

/// The functions of a closure are passed over, and their addresses taken.
proof fn lemma_entries_run(
    st: St,
    fuel: nat,
    lam: Comp,
    p: Closed,
    script: Seq<Cmd>,
    m: Machine,
) -> (after: Machine)
    requires
        !st.cx.gc,
        settled(st),
        st.cx.block < st.script.len(),
        plain_chain(lam),
        parts_of(st, fuel, lam, p),
        forall|k: int| 0 <= k < p.caps.len() ==> plain_capture(#[trigger] p.caps[k]),
        around(st, p.named),
        own_blocks(p.named.script, 0, p.named.script.len() as int),
        countable(p.last),
        p.made.script.len() < p.named.script.len() <= p.last.script.len(),
        extends(script, p.last.script),
        m.args.len() == 0,
    ensures
        run(script, st.script.len() as int, m) == run(script, p.last.script.len() as int, after),
        goes_on(m, after, st.script.len() as int),
        after.mem == m.mem,
        after.objects == m.objects,
        ready(p.last, p.entry),
        ready_or_func(p.last, p.fast),
        ready_or_func(p.last, p.arity),
        after.value(p.entry) == st.here(),
        all_params(lam).len() < 2 ==> after.value(p.arity) == 0,
        all_params(lam).len() >= 2 ==> after.value(p.fast) == p.named.here() && after.value(p.arity)
            == all_params(lam).len() as u64,
{
    let n = st.script.len() as int;
    let e = p.made.script.len() as int;
    let _ = lemma_lifted_shape(st, fuel, lam, p.caps, m);
    assert(p.named.script[e] is Convert);
    assert(extends(p.named.script, p.made.script));
    assert(extends(p.last.script, p.named.script)) by {
        if all_params(lam).len() < 2 {
            reveal(sped);
        } else {
            let (q, done) = lemma_sped_shape(p.named, fuel, lam, p.caps, m);
            assert(extends(p.last.script, done.script));
            lemma_extends(p.named.script, done.script, p.last.script);
        }
    }
    lemma_extends(p.named.script, p.last.script, script);
    lemma_extends(p.made.script, p.named.script, script);
    lemma_passed_over(st, p.made, script, m);
    assert(script[e] == p.named.script[e]);
    let m1 = m.set(e, st.here());
    assert(run(script, e, m) == run(script, e + 1, m1));
    let m2 = lemma_sped_runs(p, fuel, lam, script, m1);
    assert(m1.regs[e as u64] == st.here());
    assert(m2.regs[e as u64] == m1.regs[e as u64]);
    assert forall|i: u64| i < n implies m2.regs[i] == #[trigger] m.regs[i] by {
        assert(m1.regs[i] == m.regs[i]);
    }
    m2
}

/// The code of a lambda of integers finds room for a closure and fills it.
#[verifier::rlimit(40)]
#[verifier::spinoff_prover]
pub(crate) proof fn lemma_closed_runs(
    st: St,
    fuel: nat,
    lam: Comp,
    vars: Vars,
    script: Seq<Cmd>,
    m: Machine,
) -> (r: (Closed, Machine))
    requires
        !st.cx.gc,
        settled(st),
        st.cx.block < st.script.len(),
        env_ready(st),
        env_plain(st),
        models(st, m, vars),
        plain_chain(lam),
        closed(st, fuel, lam) is Ok,
        countable(closed(st, fuel, lam)->Ok_0.0),
        extends(script, closed(st, fuel, lam)->Ok_0.0.script),
        lies_in_memory(m.room),
    ensures
        built(st, fuel, lam, vars, script, m, r.0, r.1),
{
    let (end, v) = closed(st, fuel, lam)->Ok_0;
    let p = lemma_closed_shape(st, fuel, lam, m);
    lemma_caps(st, fuel, lam, p);
    lemma_extends(p.last.script, end.script, script);
    let m2 = lemma_entries_run(st, fuel, lam, p, script, m);
    lemma_env_kept(st, p.last);
    assert(env_plain(p.last)) by {
        lemma_plain_kept(st, p.last);
    }
    let after = lemma_filled_runs(p.last, st, p, end, v, vars, script, m2);
    assert(word_kept(after.mem, p.caps, (m.room)(closure_size(p.caps), m.store()), m.mem));
    assert(goes_on(m, after, st.script.len() as int)) by {
        assert forall|i: u64| i < st.script.len() implies after.regs[i] == #[trigger] m.regs[i] by {
            assert(m2.regs[i] == m.regs[i]);
        }
    }
    assert(m2.store() == m.store());
    (p, after)
}

pub(crate) proof fn lemma_plain_kept(st: St, end: St)
    requires
        env_plain(st),
        end.cx.env == st.cx.env,
    ensures
        env_plain(end),
{
    assert forall|x: Seq<char>| #[trigger] end.cx.env.get(x) matches Some(e) ==> {
        &&& e.value.ty is I64
        &&& cells_of(e.layout) == 1
        &&& passed_in_cell(*e.ty)
    } by {
        assert(end.cx.env.get(x) == st.cx.env.get(x));
    }
}

/// Memory outside the closure at `at` is as it was.
pub open spec fn word_kept(mem: Map<u64, u64>, caps: Seq<CaptureInfo>, at: u64, before: Map<u64, u64>) -> bool {
    forall|x: u64| x < at || x >= at + closure_size(caps) ==> #[trigger] mem[x] == before[x]
}

/// The code of the lambda built a closure of it.
pub open spec fn built(
    st: St,
    fuel: nat,
    lam: Comp,
    vars: Vars,
    script: Seq<Cmd>,
    m: Machine,
    p: Closed,
    after: Machine,
) -> bool {
    let (end, v) = closed(st, fuel, lam)->Ok_0;
    let at = (m.room)(closure_size(p.caps), m.store());
    &&& parts_of(st, fuel, lam, p)
    &&& run(script, st.script.len() as int, m) == run(script, end.script.len() as int, after)
    &&& after.value(v) == at
    &&& stands(p, st.here(), lam, vars, after.mem, at)
    &&& goes_on(m, after, st.script.len() as int)
    &&& after.objects == m.objects
    &&& word_kept(after.mem, p.caps, at, m.mem)
    &&& takes_up(at, (RESERVED + p.caps.len()) as nat, m.mem, after.mem)
}

/// The closure is filled, behind its functions.
proof fn lemma_filled_runs(
    last: St,
    st: St,
    p: Closed,
    end: St,
    v: Val,
    vars: Vars,
    script: Seq<Cmd>,
    m: Machine,
) -> (after: Machine)
    requires
        !last.cx.gc,
        last == p.last,
        env_ready(last),
        env_ready(st),
        env_plain(last),
        last.cx.env == st.cx.env,
        packed(p.caps),
        forall|k: int| 0 <= k < p.caps.len() ==> plain_capture(#[trigger] p.caps[k]),
        forall|k: int| 0 <= k < p.caps.len() ==> st.cx.env.get((#[trigger] p.caps[k]).name@) is Some,
        ready(last, p.entry),
        ready_or_func(last, p.fast),
        ready_or_func(last, p.arity),
        last.build_closure(None, p.fun_ty, p.caps, p.entry, p.fast, p.arity) == Ok::<
            (St, Val),
            CodegenError,
        >((end, v)),
        last.script.len() <= end.script.len(),
        countable(end),
        extends(script, end.script),
        models(st, m, vars),
        lies_in_memory(m.room),
    ensures
        ({
            let at = (m.room)(closure_size(p.caps), m.store());
            &&& run(script, last.script.len() as int, m) == run(script, end.script.len() as int, after)
            &&& after.value(v) == at
            &&& after.mem[at] == m.value(p.entry)
            &&& after.mem[word(at + 8)] == m.value(p.fast)
            &&& after.mem[word(at + 16)] == m.value(p.arity)
            &&& holds_words(p.caps, at, after.mem, vars)
            &&& goes_on(m, after, last.script.len() as int)
            &&& after.objects == m.objects
            &&& word_kept(after.mem, p.caps, at, m.mem)
            &&& takes_up(at, (RESERVED + p.caps.len()) as nat, m.mem, after.mem)
        }),
{
    assert(cells_in_scope(
        closure_begun(last, None, p.fun_ty, closure_size(p.caps), p.entry, p.fast, p.arity),
        p.caps,
    ));
    lemma_size(p.caps);
    let at = (m.room)(closure_size(p.caps), m.store());
    assert(at + closure_size(p.caps) <= 0x1_0000_0000_0000_0000);
    let after = a_closure_holds_what_it_captured(
        last,
        None,
        p.fun_ty,
        p.caps,
        p.entry,
        p.fast,
        p.arity,
        script,
        m,
    );
    assert forall|i: int| 0 <= i < p.caps.len() implies after.mem[word(
        at + (#[trigger] p.caps[i]).raw_slot * 8,
    )] == vars[p.caps[i].name@] by {
        let name = p.caps[i].name@;
        assert(st.cx.env.get(name) is Some);
        assert(last.cx.env.get(name) == st.cx.env.get(name));
        assert(m.value(in_scope(last, name)) == vars[name]);
        assert(word_in_scope(last, m, name) == vars[name]);
    }
    assert(word(at + 8) == at + 8 && word(at + 16) == at + 16);
    after
}

/// The size of a closure whose captures are cells.
pub(crate) proof fn lemma_size(caps: Seq<CaptureInfo>)
    requires
        packed(caps),
        forall|k: int| 0 <= k < caps.len() ==> plain_capture(#[trigger] caps[k]),
        (RESERVED + cells_before(caps, caps.len())) * 8 <= u64::MAX,
    ensures
        closure_size(caps) == (RESERVED + caps.len()) * 8,
{
    lemma_row(caps, caps.len());
}

/// The uncurried entry is passed over, and its address taken.
proof fn lemma_sped_runs(p: Closed, fuel: nat, lam: Comp, script: Seq<Cmd>, m: Machine) -> (after: Machine)
    requires
        !p.named.cx.gc,
        own_blocks(p.named.script, 0, p.named.script.len() as int),
        opened(p.named.script, p.named.script.len() as int) == p.named.cx.block,
        p.named.cx.block < p.named.script.len(),
        plain_chain(lam),
        forall|k: int| 0 <= k < p.caps.len() ==> plain_capture(#[trigger] p.caps[k]),
        sped(p.named, fuel, lam, p.caps) == Ok::<(St, Val, Val), CodegenError>(
            (p.last, p.fast, p.arity),
        ),
        countable(p.last),
        extends(script, p.last.script),
        m.args.len() == 0,
    ensures
        run(script, p.named.script.len() as int, m) == run(
            script,
            p.last.script.len() as int,
            after,
        ),
        ready_or_func(p.last, p.fast),
        ready_or_func(p.last, p.arity),
        all_params(lam).len() < 2 ==> after.value(p.arity) == 0,
        all_params(lam).len() >= 2 ==> after.value(p.fast) == p.named.here() && after.value(p.arity)
            == all_params(lam).len() as u64,
        goes_on(m, after, p.named.script.len() as int),
        after.mem == m.mem,
        after.objects == m.objects,
{
    if all_params(lam).len() < 2 {
        reveal(sped);
        m
    } else {
        let (q, done) = lemma_sped_shape(p.named, fuel, lam, p.caps, m);
        let e = done.script.len() as int;
        assert(extends(p.last.script, done.script));
        lemma_extends(done.script, p.last.script, script);
        lemma_passed_over(p.named, done, script, m);
        assert(script[e] == p.last.script[e]);
        let after = m.set(e, p.named.here());
        assert(run(script, e, m) == run(script, e + 1, after));
        after
    }
}

// ── what the innermost body finds ────────────────────────────────────────
pub(crate) proof fn lemma_left_names(occ: Seq<String>, extra: Names, x: Seq<char>)
    ensures
        has_name(left_free(occ, extra), x) == (has_name(occ, x) && !extra.contains(x)),
    decreases occ.len(),
{
    if occ.len() > 0 {
        let front = occ.drop_last();
        let last = occ.last();
        lemma_left_names(front, extra, x);
        assert(occ =~= front.push(last));
        lemma_push_name(front, last);
        assert(name_set(front.push(last)).contains(x) == (has_name(front, x) || x == last@));
        if !extra.contains(last@) {
            let kept = left_free(front, extra);
            lemma_push_name(kept, last);
            assert(name_set(kept.push(last)).contains(x) == (has_name(kept, x) || x == last@));
        }
    }
}

/// The free variables of a chain are those of its innermost body that are none of its
/// parameters.
pub(crate) proof fn lemma_chain_occ(ir: Ir, bound: Names, x: Seq<char>)
    ensures
        has_name(occ_ir(ir, bound), x) == (has_name(occ_ir(chain_body(ir), Set::empty()), x)
            && !bound.contains(x) && !names_of(chain_params(ir)).contains(x)),
    decreases ir,
{
    match sole_lambda(ir) {
        None => {
            let none = Set::<Seq<char>>::empty();
            assert(none.union(bound) =~= bound);
            binding_takes_away_its_occurrences(ir, none, bound);
            lemma_left_names(occ_ir(ir, none), bound, x);
            assert(!names_of(chain_params(ir)).contains(x));
        },
        Some(c) => {
            if let Comp::Lam { param, param_ty, param_layout, body, .. } = target(c) {
                lemma_chain_occ(target(body), bound.insert(param@), x);
                let occ = occ_comp(target(c), bound);
                assert(occ_ir(ir, bound) =~= occ) by {
                    if let Ir::Block { binds, .. } = ir {
                        assert(occ_binds(binds, 0, bound) =~= Seq::<String>::empty());
                        assert(bound_binds(binds@, 0, bound) == bound);
                        assert(Seq::<String>::empty() + occ =~= occ);
                    }
                }
                let rest = names_of(chain_params(target(body)));
                let all = names_of(chain_params(ir));
                assert(all =~= seq![param@] + rest);
                lemma_first_or_rest(param@, rest, x);
            }
        },
    }
}

pub(crate) proof fn lemma_first_or_rest(first: Seq<char>, rest: Seq<Seq<char>>, x: Seq<char>)
    ensures
        (seq![first] + rest).contains(x) == (x == first || rest.contains(x)),
{
    let all = seq![first] + rest;
    if all.contains(x) {
        let i = choose|i: int| 0 <= i < all.len() && all[i] == x;
        if i > 0 {
            assert(rest[i - 1] == x);
        }
    }
    if x == first {
        assert(all[0] == x);
    }
    if rest.contains(x) {
        let i = choose|i: int| 0 <= i < rest.len() && rest[i] == x;
        assert(all[i + 1] == x);
    }
}

/// The first word is given before the others.
proof fn lemma_first_word(first: Seq<char>, rest: Seq<Seq<char>>, word: u64, words: Seq<u64>, n: nat, vars: Vars)
    requires
        n <= rest.len(),
        rest.len() == words.len(),
    ensures
        with_words(seq![first] + rest, seq![word] + words, n + 1, vars) == with_words(
            rest,
            words,
            n,
            vars.insert(first, word),
        ),
    decreases n,
{
    let all = seq![first] + rest;
    let more = seq![word] + words;
    if n == 0 {
        reveal_with_fuel(with_words, 2);
        assert(all[0] == first && more[0] == word);
    } else {
        lemma_first_word(first, rest, word, words, (n - 1) as nat, vars);
        assert(all[n as int] == rest[n - 1] && more[n as int] == words[n - 1]);
    }
}

/// The captures of a closure have their words, and other names those they had.
pub(crate) proof fn lemma_captured_words(
    caps: Seq<CaptureInfo>,
    n: nat,
    clos: u64,
    mem: Map<u64, u64>,
    base: Vars,
    vars: Vars,
    x: Seq<char>,
)
    requires
        n <= caps.len(),
        holds_words(caps, clos, mem, vars),
    ensures
        (exists|k: int| 0 <= k < n && (#[trigger] caps[k]).name@ == x) ==> captured(
            caps,
            n,
            clos,
            mem,
            base,
        )[x] == vars[x],
        !(exists|k: int| 0 <= k < n && (#[trigger] caps[k]).name@ == x) ==> captured(
            caps,
            n,
            clos,
            mem,
            base,
        )[x] == base[x],
    decreases n,
{
    if n > 0 {
        lemma_captured_words(caps, (n - 1) as nat, clos, mem, base, vars, x);
        assert(mem[word(clos + caps[n - 1].raw_slot * 8)] == vars[caps[n - 1].name@]);
        if caps[n - 1].name@ != x {
            if exists|k: int| 0 <= k < n && (#[trigger] caps[k]).name@ == x {
                let k = choose|k: int| 0 <= k < n && (#[trigger] caps[k]).name@ == x;
                assert(k < n - 1);
            }
        } else {
            assert(0 <= n - 1 < n && caps[n - 1].name@ == x);
        }
    }
}

/// The free variables of the innermost body have the same words where the function
/// behind an uncurried entry finds them and where the arguments were given one by one.
proof fn lemma_found_words(
    lam: Comp,
    caps: Seq<CaptureInfo>,
    clos: u64,
    args: Seq<u64>,
    mem: Map<u64, u64>,
    vars: Vars,
    turns: nat,
)
    requires
        plain_chain(lam),
        args.len() == all_params(lam).len(),
        holds_words(caps, clos, mem, vars),
        cap_names(caps) == name_set(
            occ_ir(lam_body(lam), Set::empty().insert(lam_param(lam).name@)),
        ),
    ensures
        ({
            let names = names_of(all_params(lam));
            let body = chain_body(lam_body(lam));
            ir_meaning(
                body,
                captured(caps, caps.len(), clos, mem, with_words(names, args, names.len(), Map::empty())),
                turns,
            ) == ir_meaning(body, with_words(names, args, names.len(), vars), turns)
        }),
{
    let names = names_of(all_params(lam));
    let body = chain_body(lam_body(lam));
    let base = with_words(names, args, names.len(), Map::empty());
    let seen = captured(caps, caps.len(), clos, mem, base);
    let given = with_words(names, args, names.len(), vars);
    let occ = occ_ir(body, Set::empty());
    lemma_chain_plain(lam);
    assert forall|i: int| 0 <= i < occ.len() implies seen[(#[trigger] occ[i])@] == given[occ[i]@] by {
        let x = occ[i]@;
        assert(has_name(occ, x));
        lemma_free_name(lam, caps, x);
        lemma_captured_words(caps, caps.len(), clos, mem, base, vars, x);
        lemma_word_of(names, args, names.len(), Map::empty(), vars, x);
        lemma_word_of(names, args, names.len(), vars, Map::empty(), x);
        if names.contains(x) {
            let k = choose|k: int| 0 <= k < names.len() && names[k] == x;
            assert(0 <= k < names.len() && names[k] == x);
        }
        assert(cap_names(caps).contains(x) == (exists|k: int|
            0 <= k < caps.len() && (#[trigger] caps[k]).name@ == x));
    }
    a_block_rests_on_its_free_variables(body, seen, given, turns);
}

/// A free variable of the innermost body is a parameter or captured, and not both.
proof fn lemma_free_name(lam: Comp, caps: Seq<CaptureInfo>, x: Seq<char>)
    requires
        lam is Lam,
        cap_names(caps) == name_set(
            occ_ir(lam_body(lam), Set::empty().insert(lam_param(lam).name@)),
        ),
        has_name(occ_ir(chain_body(lam_body(lam)), Set::empty()), x),
    ensures
        cap_names(caps).contains(x) == !names_of(all_params(lam)).contains(x),
{
    let param = lam_param(lam).name@;
    let rest = names_of(chain_params(lam_body(lam)));
    lemma_chain_occ(lam_body(lam), Set::empty().insert(param), x);
    assert(names_of(all_params(lam)) =~= seq![param] + rest);
    lemma_first_or_rest(param, rest, x);
    assert(name_set(occ_ir(lam_body(lam), Set::empty().insert(param))).contains(x) == has_name(
        occ_ir(lam_body(lam), Set::empty().insert(param)),
        x,
    ));
}

// ── applying it ──────────────────────────────────────────────────────────
/// A call comes to what was meant, whatever it stored on the way.
pub open spec fn comes_to(answer: Answer, meant: Meant) -> bool {
    match meant {
        Meant::Word(w) => answer matches Answer::Word(x, _) && x == w,
        Meant::Trap => answer is Trap,
        Meant::Open => true,
    }
}

/// What a chain means on arguments, where what it finds in its surroundings has the
/// words `vars`.
pub open spec fn chain_meaning(lam: Comp, args: Seq<u64>, vars: Vars, turns: nat) -> Meant {
    let names = names_of(all_params(lam));
    ir_meaning(chain_body(lam_body(lam)), with_words(names, args, names.len(), vars), turns)
}

/// Where the functions of a lambda stand, and what its closure captures.
pub open spec fn laid_out(st: St, fuel: nat, lam: Comp, caps: Seq<CaptureInfo>, script: Seq<Cmd>) -> bool {
    &&& !st.cx.gc
    &&& own_blocks(st.script, 0, st.script.len() as int)
    &&& plain_chain(lam)
    &&& forall|k: int| 0 <= k < caps.len() ==> plain_capture(#[trigger] caps[k])
    &&& cap_names(caps) == name_set(
        occ_ir(lam_body(lam), Set::empty().insert(lam_param(lam).name@)),
    )
    &&& lifted(st, fuel, lam, caps) is Ok
    &&& countable(lifted(st, fuel, lam, caps)->Ok_0.0)
    &&& extends(script, lifted(st, fuel, lam, caps)->Ok_0.0.script)
    &&& apart(
        script,
        st.script.len() as int,
        lifted(st, fuel, lam, caps)->Ok_0.0.script.len() - 1,
    )
}

/// The last lambda of a chain, applied to a word.
pub(crate) proof fn lemma_last_applied(
    st: St,
    fuel: nat,
    lam: Comp,
    caps: Seq<CaptureInfo>,
    turns: nat,
    script: Seq<Cmd>,
    code: Code,
    room: Room,
    clos: u64,
    args: Seq<u64>,
    s: Store,
    vars: Vars,
)
    requires
        laid_out(st, fuel, lam, caps, script),
        !nests(lam),
        of_script(code, room, script),
        s.mem[clos] == st.here(),
        holds_words(caps, clos, s.mem, vars),
        args.len() == 1,
    ensures
        means(chained(false, code, clos, args, s), chain_meaning(lam, args, vars, turns), s),
        means(
            applied(false, code, clos, args[0], s),
            chain_meaning(lam, args, vars, turns),
            s,
        ),
{
    lemma_chain_plain(lam);
    let arg = args[0];
    let names = names_of(all_params(lam));
    assert(word(clos + 0) == clos);
    let _ = lemma_of_plain_lift(st, fuel, lam, caps);
    a_lambda_applied_means_its_body(st, fuel, lam, caps, turns, script, code, room, clos, arg, s);
    lemma_found_words(lam, caps, clos, args, s.mem, vars, turns);
    assert(with_words(names, args, 1, Map::empty()) == Map::<Seq<char>, u64>::empty().insert(
        lam_param(lam).name@,
        arg,
    )) by {
        reveal_with_fuel(with_words, 2);
        assert(names[0] == lam_param(lam).name@);
    }
    assert(names.len() == 1);
    reveal_with_fuel(chained, 2);
    assert(args.drop_first().len() == 0);
}

/// A lambda that nests another, applied to a word, answers a closure of the inner one.
proof fn lemma_next_closure(
    st: St,
    fuel: nat,
    lam: Comp,
    caps: Seq<CaptureInfo>,
    script: Seq<Cmd>,
    code: Code,
    room: Room,
    clos: u64,
    arg: u64,
    s: Store,
) -> (r: (PlainFun, Closed, Machine))
    requires
        laid_out(st, fuel, lam, caps, script),
        nests(lam),
        of_script(code, room, script),
        lies_in_memory(room),
        s.mem[clos] == st.here(),
    ensures
        ({
            let (q, p, after) = r;
            let seen = captured(
                caps,
                caps.len(),
                clos,
                s.mem,
                Map::empty().insert(lam_param(lam).name@, arg),
            );
            let at = (room)(closure_size(p.caps), s);
            &&& applied(false, code, clos, arg, s) == Answer::Word(at, after.store())
            &&& stands(p, q.start.here(), inner(lam), seen, after.mem, at)
            &&& laid_out(q.start, fuel, inner(lam), p.caps, script)
            &&& q.start.script.len() < u64::MAX
        }),
{
    let func = st.here();
    let args = seq![clos, arg];
    let m = called(func, args, s, code, room);
    let q = lemma_lifted_shape(st, fuel, lam, caps, m);
    let made = lifted(st, fuel, lam, caps)->Ok_0.0;
    let name = FuncName::Lam(st.cx.lifted);
    let params = seq![lam_param(lam)];
    lemma_chain_plain(lam);
    lemma_of_nested(q.start, fuel, lam);
    lemma_extends(q.out.script, made.script, script);
    lemma_extends(q.start.script, q.out.script, script);
    let (seen, mid) = lemma_prologue_runs(st, name, q.ret, params, q.tys, caps, script, m);
    let (p, after) = lemma_closed_runs(q.start, fuel, inner(lam), seen, script, mid);
    let e = q.out.script.len() as int;
    assert(made.script[e] == (Cmd::Ret { val: q.v }));
    assert(script[e] == made.script[e]);
    let at = (room)(closure_size(p.caps), s);
    assert(mid.store() == s);
    assert(run(script, begins(func, args), m) == Outcome::Returned(at, after.store()));
    assert(runs(script, begins(func, args), m, 0) == Outcome::Returned(at, after.store()));
    assert(word(clos + 0) == clos);
    assert(m.params[(func, 0u32)] == clos);
    assert(m.params[(func, 1u32)] == arg);
    assert(passed(func, 1, m) =~= seq![arg]);
    let names = names_of(params);
    assert(with_words(names, seq![arg], 1, Map::empty()) == Map::<Seq<char>, u64>::empty().insert(
        lam_param(lam).name@,
        arg,
    )) by {
        reveal_with_fuel(with_words, 2);
        assert(names[0] == lam_param(lam).name@);
    }
    let _ = lemma_closed_shape(q.start, fuel, inner(lam), m);
    lemma_caps(q.start, fuel, inner(lam), p);
    lemma_inner_laid(st, fuel, lam, caps, q, p, script, m);
    (q, p, after)
}

/// The functions of the inner lambda stand inside the outer one's.
proof fn lemma_inner_laid(
    st: St,
    fuel: nat,
    lam: Comp,
    caps: Seq<CaptureInfo>,
    q: PlainFun,
    p: Closed,
    script: Seq<Cmd>,
    m: Machine,
)
    requires
        laid_out(st, fuel, lam, caps, script),
        nests(lam),
        lift_parts(st, fuel, lam, caps, q),
        settled(q.start),
        env_ready(q.start),
        env_plain(q.start),
        !q.start.cx.gc,
        st.script.len() <= q.start.cx.block < q.start.script.len(),
        of_ir(q.start, fuel, lam_body(lam)) == closed(q.start, fuel, inner(lam)),
        parts_of(q.start, fuel, inner(lam), p),
        plain_chain(inner(lam)),
        m.args.len() == 0,
        forall|k: int| 0 <= k < p.caps.len() ==> plain_capture(#[trigger] p.caps[k]),
        cap_names(p.caps) == name_set(
            occ_ir(lam_body(inner(lam)), Set::empty().insert(lam_param(inner(lam)).name@)),
        ),
    ensures
        laid_out(q.start, fuel, inner(lam), p.caps, script),
        q.start.script.len() < u64::MAX,
{
    let made = lifted(st, fuel, lam, caps)->Ok_0.0;
    let out = q.out;
    let deep = lifted(q.start, fuel, inner(lam), p.caps)->Ok_0.0;
    assert(extends(made.script, out.script)) by {
        let _ = lemma_lifted_shape(st, fuel, lam, caps, m);
    }
    let c = lemma_closed_shape(q.start, fuel, inner(lam), m);
    assert(c.caps == p.caps && c.made == p.made && c.named == p.named && c.last == p.last);
    lemma_extends(out.script, made.script, script);
    assert(extends(p.named.script, p.made.script));
    assert(extends(p.last.script, p.named.script)) by {
        if all_params(inner(lam)).len() < 2 {
            reveal(sped);
        } else {
            let (r, done) = lemma_sped_shape(p.named, fuel, inner(lam), p.caps, m);
            assert(extends(p.last.script, done.script));
            lemma_extends(p.named.script, done.script, p.last.script);
        }
    }
    lemma_extends(p.made.script, p.named.script, p.last.script);
    lemma_extends(p.made.script, p.last.script, out.script);
    lemma_extends(p.made.script, out.script, script);
    let _ = lemma_lifted_shape(q.start, fuel, inner(lam), p.caps, m);
    let from = q.start.script.len() as int;
    let to = deep.script.len() - 1;
    assert(apart(script, from, to)) by {
        assert forall|i: int| to <= i < script.len() implies (#[trigger] script[i] matches Cmd::At {
            block,
        } ==> block < from || to <= block) by {
            if i < out.script.len() {
                lemma_behind_lifted(q.start, p, out, fuel, inner(lam), m, i);
                assert(script[i] == out.script[i]);
            } else if i < made.script.len() {
                assert(script[i] == made.script[i]);
            } else {
                assert(st.script.len() <= from && to <= made.script.len() - 1);
            }
        }
    }
}

/// What follows the lifted function in a closure's code enters none of its blocks.
proof fn lemma_behind_lifted(st: St, p: Closed, end: St, fuel: nat, lam: Comp, m: Machine, i: int)
    requires
        !st.cx.gc,
        settled(st),
        st.cx.block < st.script.len(),
        plain_chain(lam),
        parts_of(st, fuel, lam, p),
        forall|k: int| 0 <= k < p.caps.len() ==> plain_capture(#[trigger] p.caps[k]),
        embedded(st, p.made),
        around(st, p.named),
        own_blocks(p.named.script, 0, p.named.script.len() as int),
        p.made.script.len() < p.named.script.len() <= p.last.script.len() <= end.script.len(),
        countable(p.last),
        flat(p.last, end),
        m.args.len() == 0,
        p.made.script.len() - 1 <= i < end.script.len(),
    ensures
        end.script[i] matches Cmd::At { block } ==> block < st.script.len() || p.made.script.len() - 1
            <= block,
{
    if i >= p.last.script.len() {
        assert(!(end.script[i] is At));
    } else {
        assert(end.script[i] == p.last.script[i]);
        if all_params(lam).len() < 2 {
            assert(p.last == p.named) by {
                reveal(sped);
            }
        } else {
            let (r, done) = lemma_sped_shape(p.named, fuel, lam, p.caps, m);
            if i < done.script.len() {
                assert(p.last.script[i] == done.script[i]);
                if i < p.named.script.len() {
                    assert(done.script[i] == p.named.script[i]);
                }
            }
        }
        if i < p.made.script.len() {
            assert(p.named.script[i] == p.made.script[i]);
            assert(p.last.script[i] == p.named.script[i]);
        }
    }
}

proof fn lemma_chain_applied(
    st: St,
    fuel: nat,
    lam: Comp,
    caps: Seq<CaptureInfo>,
    turns: nat,
    script: Seq<Cmd>,
    code: Code,
    room: Room,
    clos: u64,
    args: Seq<u64>,
    s: Store,
    vars: Vars,
)
    requires
        laid_out(st, fuel, lam, caps, script),
        of_script(code, room, script),
        lies_in_memory(room),
        s.mem[clos] == st.here(),
        holds_words(caps, clos, s.mem, vars),
        args.len() == all_params(lam).len(),
    ensures
        comes_to(chained(false, code, clos, args, s), chain_meaning(lam, args, vars, turns)),
    decreases lam,
{
    lemma_chain_plain(lam);
    if !nests(lam) {
        lemma_last_applied(st, fuel, lam, caps, turns, script, code, room, clos, args, s, vars);
    } else {
        let (q, p, after) = lemma_next_closure(
            st,
            fuel,
            lam,
            caps,
            script,
            code,
            room,
            clos,
            args[0],
            s,
        );
        let rest = args.drop_first();
        let at = (room)(closure_size(p.caps), s);
        let seen = captured(
            caps,
            caps.len(),
            clos,
            s.mem,
            Map::empty().insert(lam_param(lam).name@, args[0]),
        );
        lemma_of_nested(q.start, fuel, lam);
        lemma_chain_applied(
            q.start,
            fuel,
            inner(lam),
            p.caps,
            turns,
            script,
            code,
            room,
            at,
            rest,
            after.store(),
            seen,
        );
        lemma_chain_step(lam, caps, clos, args, s.mem, vars, turns);
    }
}

/// What a chain means is what the inner one means where the first parameter has its
/// word.
proof fn lemma_chain_step(
    lam: Comp,
    caps: Seq<CaptureInfo>,
    clos: u64,
    args: Seq<u64>,
    mem: Map<u64, u64>,
    vars: Vars,
    turns: nat,
)
    requires
        plain_chain(lam),
        nests(lam),
        args.len() == all_params(lam).len(),
        holds_words(caps, clos, mem, vars),
        cap_names(caps) == name_set(
            occ_ir(lam_body(lam), Set::empty().insert(lam_param(lam).name@)),
        ),
    ensures
        chain_meaning(
            inner(lam),
            args.drop_first(),
            captured(
                caps,
                caps.len(),
                clos,
                mem,
                Map::empty().insert(lam_param(lam).name@, args[0]),
            ),
            turns,
        ) == chain_meaning(lam, args, vars, turns),
{
    lemma_chain_plain(lam);
    let param = lam_param(lam).name@;
    let rest = args.drop_first();
    let names = names_of(all_params(inner(lam)));
    let base = Map::<Seq<char>, u64>::empty().insert(param, args[0]);
    let seen = captured(caps, caps.len(), clos, mem, base);
    let a = with_words(names, rest, names.len(), seen);
    let b = with_words(names, rest, names.len(), vars.insert(param, args[0]));
    assert(names_of(all_params(lam)) =~= seq![param] + names);
    assert(args =~= seq![args[0]] + rest);
    lemma_first_word(param, names, args[0], rest, names.len(), vars);
    let body = chain_body(lam_body(lam));
    let occ = occ_ir(body, Set::empty());
    assert forall|i: int| 0 <= i < occ.len() implies a[(#[trigger] occ[i])@] == b[occ[i]@] by {
        let x = occ[i]@;
        assert(has_name(occ, x));
        lemma_free_name(lam, caps, x);
        lemma_captured_words(caps, caps.len(), clos, mem, base, vars, x);
        lemma_first_or_rest(param, names, x);
        lemma_word_of(names, rest, names.len(), seen, vars.insert(param, args[0]), x);
        lemma_word_of(names, rest, names.len(), vars.insert(param, args[0]), seen, x);
        if names.contains(x) {
            let k = choose|k: int| 0 <= k < names.len() && names[k] == x;
            assert(0 <= k < names.len() && names[k] == x);
        }
        assert(cap_names(caps).contains(x) == (exists|k: int|
            0 <= k < caps.len() && (#[trigger] caps[k]).name@ == x));
    }
    a_block_rests_on_its_free_variables(body, a, b, turns);
}

/// The uncurried entry of a chain answers what the chain means on its arguments.
proof fn lemma_entry_applied(
    st: St,
    fuel: nat,
    lam: Comp,
    caps: Seq<CaptureInfo>,
    turns: nat,
    script: Seq<Cmd>,
    code: Code,
    room: Room,
    clos: u64,
    args: Seq<u64>,
    s: Store,
    vars: Vars,
)
    requires
        !st.cx.gc,
        own_blocks(st.script, 0, st.script.len() as int),
        plain_chain(lam),
        all_params(lam).len() >= 2,
        forall|k: int| 0 <= k < caps.len() ==> plain_capture(#[trigger] caps[k]),
        cap_names(caps) == name_set(
            occ_ir(lam_body(lam), Set::empty().insert(lam_param(lam).name@)),
        ),
        sped(st, fuel, lam, caps) is Ok,
        countable(sped(st, fuel, lam, caps)->Ok_0.0),
        extends(script, sped(st, fuel, lam, caps)->Ok_0.0.script),
        apart(script, st.script.len() as int, sped(st, fuel, lam, caps)->Ok_0.0.script.len() - 2),
        of_script(code, room, script),
        s.mem[word(clos + 8)] == st.here(),
        holds_words(caps, clos, s.mem, vars),
        args.len() == all_params(lam).len(),
        args.len() < u32::MAX,
    ensures
        means(entered(false, code, clos, args, s), chain_meaning(lam, args, vars, turns), s),
{
    let func = st.here();
    let all = seq![clos] + args;
    let m = called(func, all, s, code, room);
    let (q, done) = lemma_sped_shape(st, fuel, lam, caps, m);
    let last = sped(st, fuel, lam, caps)->Ok_0.0;
    let params = all_params(lam);
    let body = chain_body(lam_body(lam));
    lemma_chain_plain(lam);
    let whole = q.out.script.push(Cmd::Ret { val: q.v });
    assert(extends(last.script, done.script));
    assert(extends(done.script, whole));
    lemma_extends(whole, done.script, last.script);
    lemma_extends(whole, last.script, script);
    assert(last.script.len() - 2 == q.out.script.len() + 1);
    assert(script[q.out.script.len() as int] == whole[q.out.script.len() as int]);
    assert(apart(script, st.script.len() as int, q.out.script.len() as int));
    lemma_plain_answers(
        st,
        fuel,
        FuncName::Fast(st.cx.lifted),
        params,
        caps,
        body,
        q,
        turns,
        script,
        m,
    );
    lemma_passed(func, clos, args, s, code, room);
    let meant = ir_meaning(body, found(params, caps, func, m), turns);
    lemma_called(script, func, all, s, code, room, meant);
    lemma_found_words(lam, caps, clos, args, s.mem, vars, turns);
    assert(names_of(params).len() == params.len());
}

// ── honest closures ──────────────────────────────────────────────────────
/// Every cell of the closure at `at` holds what it held when it was built.
pub open spec fn kept_closure(caps: Seq<CaptureInfo>, at: u64, mem: Map<u64, u64>, now: Map<u64, u64>) -> bool {
    forall|x: u64| taken(at, (RESERVED + caps.len()) as nat, x) ==> #[trigger] now[x] == mem[x]
}

pub(crate) proof fn lemma_kept_closure(p: Closed, func: u64, lam: Comp, vars: Vars, mem: Map<u64, u64>, now: Map<u64, u64>, at: u64)
    requires
        stands(p, func, lam, vars, mem, at),
        kept_closure(p.caps, at, mem, now),
        in_a_row(p.caps),
        closure_size(p.caps) == (RESERVED + p.caps.len()) * 8,
        at + closure_size(p.caps) <= 0x1_0000_0000_0000_0000,
    ensures
        stands(p, func, lam, vars, now, at),
{
    assert(word(at + 8) == at + 8 && word(at + 16) == at + 16);
    assert forall|k: int| 0 <= k < p.caps.len() implies now[word(
        at + (#[trigger] p.caps[k]).raw_slot * 8,
    )] == vars[p.caps[k].name@] by {
        assert(p.caps[k].raw_slot == RESERVED + k);
        let x = (at + (RESERVED + k) * 8) as u64;
        assert(word(at + p.caps[k].raw_slot * 8) == x);
    }
}

/// Where the functions of a closure stand once its code is part of a script.
pub(crate) proof fn lemma_laid_out(st: St, fuel: nat, lam: Comp, p: Closed, script: Seq<Cmd>, m: Machine)
    requires
        !st.cx.gc,
        settled(st),
        st.cx.block < st.script.len(),
        env_ready(st),
        env_plain(st),
        plain_chain(lam),
        parts_of(st, fuel, lam, p),
        closed(st, fuel, lam) is Ok,
        countable(closed(st, fuel, lam)->Ok_0.0),
        extends(script, closed(st, fuel, lam)->Ok_0.0.script),
        apart(
            script,
            st.script.len() as int,
            closed(st, fuel, lam)->Ok_0.0.script.len() as int,
        ),
        m.args.len() == 0,
    ensures
        laid_out(st, fuel, lam, p.caps, script),
        !p.named.cx.gc,
        own_blocks(p.named.script, 0, p.named.script.len() as int),
        extends(script, p.last.script),
        countable(p.last),
        all_params(lam).len() >= 2 ==> apart(
            script,
            p.named.script.len() as int,
            p.last.script.len() - 2,
        ),
{
    let end = closed(st, fuel, lam)->Ok_0.0;
    let c = lemma_closed_shape(st, fuel, lam, m);
    assert(c.caps == p.caps && c.made == p.made && c.named == p.named && c.last == p.last);
    lemma_caps(st, fuel, lam, p);
    let _ = lemma_lifted_shape(st, fuel, lam, p.caps, m);
    lemma_extends(p.last.script, end.script, script);
    assert(extends(p.named.script, p.made.script));
    assert(extends(p.last.script, p.named.script)) by {
        if all_params(lam).len() < 2 {
            reveal(sped);
        } else {
            let (r, done) = lemma_sped_shape(p.named, fuel, lam, p.caps, m);
            assert(extends(p.last.script, done.script));
            lemma_extends(p.named.script, done.script, p.last.script);
        }
    }
    lemma_extends(p.made.script, p.named.script, p.last.script);
    lemma_extends(p.made.script, p.last.script, script);
    let from = st.script.len() as int;
    let to = p.made.script.len() - 1;
    assert forall|i: int| to <= i < script.len() implies (#[trigger] script[i] matches Cmd::At {
        block,
    } ==> block < from || to <= block) by {
        if i < end.script.len() {
            lemma_behind_lifted(st, p, end, fuel, lam, m, i);
            assert(script[i] == end.script[i]);
        }
    }
    if all_params(lam).len() >= 2 {
        let (r, done) = lemma_sped_shape(p.named, fuel, lam, p.caps, m);
        assert(p.last.script.len() - 2 == done.script.len() - 1);
        assert forall|i: int| done.script.len() - 1 <= i < script.len() implies (
        #[trigger] script[i] matches Cmd::At { block } ==> block < p.named.script.len()
            || done.script.len() - 1 <= block) by {
            if i < end.script.len() {
                assert(script[i] == end.script[i]);
                if i < p.last.script.len() {
                    assert(end.script[i] == p.last.script[i]);
                    if i < done.script.len() {
                        assert(p.last.script[i] == done.script[i]);
                    }
                }
            }
        }
    }
}

/// The size of a closure, and where its captures stand in it.
pub(crate) proof fn lemma_closure_fits(st: St, fuel: nat, lam: Comp, p: Closed)
    requires
        plain_chain(lam),
        env_plain(st),
        parts_of(st, fuel, lam, p),
        !p.last.cx.gc,
    ensures
        in_a_row(p.caps),
        closure_size(p.caps) == (RESERVED + p.caps.len()) * 8,
{
    lemma_caps(st, fuel, lam, p);
    lemma_size(p.caps);
    assert forall|i: int| 0 <= i < p.caps.len() implies (#[trigger] p.caps[i]).raw_slot == RESERVED
        + i by {
        lemma_row(p.caps, i as nat);
    }
}

/// A closure that stands is honest.
pub(crate) proof fn lemma_standing_honest(
    st: St,
    fuel: nat,
    lam: Comp,
    p: Closed,
    vars: Vars,
    turns: nat,
    script: Seq<Cmd>,
    code: Code,
    room: Room,
    clos: u64,
    args: Seq<u64>,
    s: Store,
)
    requires
        laid_out(st, fuel, lam, p.caps, script),
        !p.named.cx.gc,
        own_blocks(p.named.script, 0, p.named.script.len() as int),
        extends(script, p.last.script),
        countable(p.last),
        all_params(lam).len() >= 2 ==> apart(
            script,
            p.named.script.len() as int,
            p.last.script.len() - 2,
        ),
        sped(p.named, fuel, lam, p.caps) == Ok::<(St, Val, Val), CodegenError>(
            (p.last, p.fast, p.arity),
        ),
        of_script(code, room, script),
        lies_in_memory(room),
        all_params(lam).len() < u32::MAX,
        stands(p, st.here(), lam, vars, s.mem, clos),
        args.len() > 0,
        args.len() == all_params(lam).len() ==> !(chain_meaning(lam, args, vars, turns) is Open),
    ensures
        honest(false, code, clos, args, s),
        args.len() == all_params(lam).len() ==> means(
            picked(false, code, clos, args, s),
            chain_meaning(lam, args, vars, turns),
            s,
        ),
{
    lemma_chain_plain(lam);
    assert(word(clos + 16) == word(clos + 2 * 8));
    assert(word(clos + 8) == word(clos + 1 * 8));
    let n = all_params(lam).len();
    assert(slot_of(false, s, clos, 2) == if n < 2 {
        0
    } else {
        n as u64
    });
    if args.len() == n {
        lemma_chain_applied(st, fuel, lam, p.caps, turns, script, code, room, clos, args, s, vars);
        if n < 2 {
            lemma_last_applied(
                st,
                fuel,
                lam,
                p.caps,
                turns,
                script,
                code,
                room,
                clos,
                args,
                s,
                vars,
            );
        } else {
            lemma_entry_applied(
                p.named,
                fuel,
                lam,
                p.caps,
                turns,
                script,
                code,
                room,
                clos,
                args,
                s,
                vars,
            );
        }
    }
}

/// A closure that the code of a lambda of integers builds is honest: where it has an
/// uncurried entry for so many arguments, that entry comes to what the closure does to
/// them one by one, and both to what the lambda means. It is so as long as nothing is
/// stored over the closure, and spoken of where the lambda means a word or a trap.
pub proof fn a_closure_with_an_uncurried_entry_is_honest(
    st: St,
    fuel: nat,
    lam: Comp,
    vars: Vars,
    turns: nat,
    script: Seq<Cmd>,
    m: Machine,
    args: Seq<u64>,
    s: Store,
) -> (r: (Closed, Machine))
    requires
        !st.cx.gc,
        settled(st),
        st.cx.block < st.script.len(),
        env_ready(st),
        env_plain(st),
        models(st, m, vars),
        plain_chain(lam),
        all_params(lam).len() < u32::MAX,
        closed(st, fuel, lam) is Ok,
        countable(closed(st, fuel, lam)->Ok_0.0),
        extends(script, closed(st, fuel, lam)->Ok_0.0.script),
        apart(
            script,
            st.script.len() as int,
            closed(st, fuel, lam)->Ok_0.0.script.len() as int,
        ),
        of_script(m.code, m.room, script),
        lies_in_memory(m.room),
        args.len() > 0,
        args.len() == all_params(lam).len() ==> !(chain_meaning(lam, args, vars, turns) is Open),
    ensures
        built(st, fuel, lam, vars, script, m, r.0, r.1),
        ({
            let clos = r.1.value(closed(st, fuel, lam)->Ok_0.1);
            kept_closure(r.0.caps, clos, r.1.mem, s.mem) ==> {
                &&& honest(false, m.code, clos, args, s)
                &&& args.len() == all_params(lam).len() ==> means(
                    picked(false, m.code, clos, args, s),
                    chain_meaning(lam, args, vars, turns),
                    s,
                )
            }
        }),
{
    let (p, after) = lemma_closed_runs(st, fuel, lam, vars, script, m);
    let clos = after.value(closed(st, fuel, lam)->Ok_0.1);
    lemma_laid_out(st, fuel, lam, p, script, m);
    let _ = lemma_closed_len(st, fuel, lam);
    lemma_closure_fits(st, fuel, lam, p);
    assert(clos + closure_size(p.caps) <= 0x1_0000_0000_0000_0000);
    if kept_closure(p.caps, clos, after.mem, s.mem) {
        lemma_kept_closure(p, st.here(), lam, vars, after.mem, s.mem, clos);
        lemma_standing_honest(
            st,
            fuel,
            lam,
            p,
            vars,
            turns,
            script,
            m.code,
            m.room,
            clos,
            args,
            s,
        );
    }
    (p, after)
}

} // verus!
