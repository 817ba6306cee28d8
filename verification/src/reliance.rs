//! What is proved of the free occurrences in a program: of the variables in scope, lowering
//! looks at those alone that occur free.
use crate::analysis::{comp_has_perform, performs_label};
use crate::blocks::{
    any_abort, any_reified, any_root, loop_arrays, names_itself, storages_from, LoopHead,
};
use crate::captures::{cells_before, placed, traced_before, untraced_before, RESERVED};
use crate::closures::{capture_names, drop_name};
use crate::error::CodegenError;
use crate::freevars::{
    binding_takes_away_its_occurrences, bound_binds, bound_vars, clause_occ, lambda_occ, left_free,
    occ_args, occ_atom, occ_atoms, occ_binds, occ_comp, occ_fields, occ_inits, occ_ir, occ_ops,
    occ_steps, Names,
};
use crate::ir::{
    pointer_to, target, Atom, CallArg, Comp, Field, Ir, IrBind, IrOpClause, Label, LoopVar, Type,
    ValueLayout,
};
use crate::layout::{CaptureInfo, LoopVarStorage};
use crate::names::{has_name, name_set, sorted_names_is_sorted};
use crate::resting::{
    alike, lemma_atom, lemma_bin, lemma_calls, lemma_cell, lemma_converted, lemma_float_bin,
    lemma_math, lemma_memory, lemma_object, lemma_pack_lanes, lemma_read_cells, lemma_set_words,
    lemma_vector_comp, moved, moved_st, moved_with, stays, Around,
};
use crate::scoping::{
    covers, lemma_active_silent, lemma_covers_both, lemma_drop_name, lemma_placed_names,
};
use crate::state::{Exit, Out, RawArray, Scope, St};
use crate::target::{constant, Cmd, Conv, IntPred, Title, Ty, Val};
use std::rc::Rc;
use vstd::prelude::*;

verus! {

// ── programs that perform nothing ────────────────────────────────────────
/// The program performs nothing, and no handler in it keeps a continuation. The names
/// `known` have those of the arrays that its loops borrow, which are looked up in front of
/// the loop, and those of foreign declarations, which bind nothing.
pub open spec fn quiet_ir(ir: Ir, known: Names) -> bool
    decreases ir, 0nat,
{
    match ir {
        Ir::Block { binds, comp, .. } => quiet_binds(binds, binds.len() as nat, known)
            && quiet_comp(*comp, known),
        Ir::Let { name, comp, rest, .. } => quiet_comp(*comp, known) && (*comp is Extern
            ==> known.contains(name@)) && quiet_ir(*rest, known),
        Ir::Ret { comp, .. } => quiet_comp(*comp, known),
    }
}

/// The same of the first `n` bindings.
pub open spec fn quiet_binds(binds: Vec<IrBind>, n: nat, known: Names) -> bool
    decreases binds, n,
{
    n == 0 || n > binds.len() || (quiet_binds(binds, (n - 1) as nat, known) && quiet_comp(
        target(binds[n - 1].comp),
        known,
    ) && (target(binds[n - 1].comp) is Extern ==> known.contains(binds[n - 1].name@)))
}

/// The same of the first `n` steps.
pub open spec fn quiet_steps(steps: Vec<Ir>, n: nat, known: Names) -> bool
    decreases steps, n,
{
    n == 0 || n > steps.len() || (quiet_steps(steps, (n - 1) as nat, known) && quiet_ir(
        steps[n - 1],
        known,
    ))
}

/// The same of the first `n` clauses.
pub open spec fn quiet_ops(ops: Vec<IrOpClause>, n: nat, known: Names) -> bool
    decreases ops, n,
{
    n == 0 || n > ops.len() || (quiet_ops(ops, (n - 1) as nat, known) && quiet_ir(
        target(ops[n - 1].body),
        known,
    ))
}

/// The arrays that a loop borrows are among the names.
pub open spec fn borrows(vars: Seq<LoopVar>, cond: Ir, steps: Vec<Ir>, known: Names) -> bool {
    storages_from(vars, 0, Seq::empty()) matches Ok(storages) ==> forall|i: int|
        0 <= i < loop_arrays(vars, storages, cond, steps).len() ==> known.contains(
            (#[trigger] loop_arrays(vars, storages, cond, steps)[i])@,
        )
}

/// The same of a computation.
pub open spec fn quiet_comp(comp: Comp, known: Names) -> bool
    decreases comp, 0nat,
{
    match comp {
        Comp::If(_, yes, no) => quiet_ir(*yes, known) && quiet_ir(*no, known),
        Comp::Loop { vars, cond, steps, result } => {
            &&& quiet_ir(*cond, known)
            &&& quiet_steps(steps, steps.len() as nat, known)
            &&& quiet_ir(*result, known)
            &&& borrows(vars@, *cond, steps, known)
        },
        Comp::Lam { body, .. } => quiet_ir(*body, known),
        Comp::Perform(_, _) => false,
        Comp::Handle { scrutinee, handler } => {
            &&& !any_reified(handler.ops@)
            &&& quiet_ir(*scrutinee, known)
            &&& quiet_ops(*handler.ops, handler.ops.len() as nat, known)
            &&& quiet_ir(*handler.ret.body, known)
        },
        Comp::Quote(body) => quiet_ir(*body, known),
        Comp::Letloc(body) => quiet_ir(*body, known),
        _ => true,
    }
}

proof fn lemma_quiet_bind(binds: Vec<IrBind>, n: nat, i: int, known: Names)
    requires
        quiet_binds(binds, n, known),
        0 <= i < n <= binds.len(),
    ensures
        quiet_comp(target(binds[i].comp), known),
        target(binds[i].comp) is Extern ==> known.contains(binds[i].name@),
    decreases n,
{
    if i < n - 1 {
        lemma_quiet_bind(binds, (n - 1) as nat, i, known);
    }
}

proof fn lemma_quiet_step(steps: Vec<Ir>, n: nat, i: int, known: Names)
    requires
        quiet_steps(steps, n, known),
        0 <= i < n <= steps.len(),
    ensures
        quiet_ir(steps[i], known),
    decreases n,
{
    if i < n - 1 {
        lemma_quiet_step(steps, (n - 1) as nat, i, known);
    }
}

proof fn lemma_silent(ir: Ir, known: Names, label: Label)
    requires
        quiet_ir(ir, known),
    ensures
        !performs_label(ir, label),
    decreases ir, 0nat,
{
    match ir {
        Ir::Block { binds, comp, .. } => {
            lemma_silent_binds(binds, binds.len() as nat, known, label);
            lemma_silent_comp(target(comp), known, label);
        },
        Ir::Let { comp, rest, .. } => {
            lemma_silent_comp(target(comp), known, label);
            lemma_silent(target(rest), known, label);
        },
        Ir::Ret { comp, .. } => lemma_silent_comp(target(comp), known, label),
    }
}

proof fn lemma_silent_binds(binds: Vec<IrBind>, n: nat, known: Names, label: Label)
    requires
        quiet_binds(binds, n, known),
        n <= binds.len(),
    ensures
        forall|i: int|
            0 <= i < n ==> !comp_has_perform(*(#[trigger] binds[i]).comp, label),
    decreases binds, n,
{
    if n > 0 {
        lemma_silent_binds(binds, (n - 1) as nat, known, label);
        lemma_silent_comp(target(binds[n - 1].comp), known, label);
    }
}

proof fn lemma_silent_steps(steps: Vec<Ir>, n: nat, known: Names, label: Label)
    requires
        quiet_steps(steps, n, known),
        n <= steps.len(),
    ensures
        forall|i: int| 0 <= i < n ==> !performs_label(#[trigger] steps[i], label),
    decreases steps, n,
{
    if n > 0 {
        lemma_silent_steps(steps, (n - 1) as nat, known, label);
        lemma_silent(steps[n - 1], known, label);
    }
}

proof fn lemma_silent_ops(ops: Vec<IrOpClause>, n: nat, known: Names, label: Label)
    requires
        quiet_ops(ops, n, known),
        n <= ops.len(),
    ensures
        forall|i: int| 0 <= i < n ==> !performs_label(*(#[trigger] ops[i]).body, label),
    decreases ops, n,
{
    if n > 0 {
        lemma_silent_ops(ops, (n - 1) as nat, known, label);
        lemma_silent(target(ops[n - 1].body), known, label);
    }
}

proof fn lemma_silent_comp(comp: Comp, known: Names, label: Label)
    requires
        quiet_comp(comp, known),
    ensures
        !comp_has_perform(comp, label),
    decreases comp, 0nat,
{
    match comp {
        Comp::If(_, yes, no) => {
            lemma_silent(target(yes), known, label);
            lemma_silent(target(no), known, label);
        },
        Comp::Loop { cond, steps, result, .. } => {
            lemma_silent(target(cond), known, label);
            lemma_silent_steps(steps, steps.len() as nat, known, label);
            lemma_silent(target(result), known, label);
        },
        Comp::Lam { body, .. } => lemma_silent(target(body), known, label),
        Comp::Handle { scrutinee, handler } => {
            let h = target(handler);
            lemma_silent(target(scrutinee), known, label);
            lemma_silent_ops(target(h.ops), h.ops.len() as nat, known, label);
            lemma_silent(target(h.ret.body), known, label);
        },
        Comp::Quote(body) => lemma_silent(target(body), known, label),
        Comp::Letloc(body) => lemma_silent(target(body), known, label),
        _ => {},
    }
}

// ── two scopes ───────────────────────────────────────────────────────────
/// The names stand for the same in both scopes.
pub open spec fn agree(names: Names, x: Around, y: Around) -> bool {
    forall|n: Seq<char>| #[trigger] names.contains(n) ==> x.get(n) == y.get(n)
}

/// All of these are among the names.
pub open spec fn within(some: Names, names: Names) -> bool {
    forall|n: Seq<char>| #[trigger] some.contains(n) ==> names.contains(n)
}

/// Two states that differ in the variables in scope alone, of which the names stand for
/// the same.
pub open spec fn same_but(names: Names, s: St, t: St) -> bool {
    t == s.in_env(t.cx.env) && agree(names, s.cx.env, t.cx.env)
}

/// Two outcomes are the same but for the variables in scope.
pub open spec fn same_out(names: Names, a: Out, b: Out) -> bool {
    match (a, b) {
        (Ok((s, v)), Ok((t, w))) => v == w && same_but(names, s, t),
        (Err(e), Err(f)) => e == f,
        _ => false,
    }
}

pub open spec fn same_st(names: Names, a: Result<St, CodegenError>, b: Result<St, CodegenError>) -> bool {
    match (a, b) {
        (Ok(s), Ok(t)) => same_but(names, s, t),
        (Err(e), Err(f)) => e == f,
        _ => false,
    }
}

pub open spec fn same_cells(
    names: Names,
    a: Result<(St, Seq<Val>), CodegenError>,
    b: Result<(St, Seq<Val>), CodegenError>,
) -> bool {
    match (a, b) {
        (Ok((s, v)), Ok((t, w))) => v == w && same_but(names, s, t),
        (Err(e), Err(f)) => e == f,
        _ => false,
    }
}

proof fn lemma_alike(a: Atom, names: Names, bound: Names, x: Around, y: Around)
    requires
        covers(names, bound, occ_atom(a, bound)),
        agree(names, x, y),
    ensures
        alike(a, x, y),
{
    if let Atom::Var(name) = a {
        if !bound.contains(name@) {
            assert(occ_atom(a, bound)[0] == name);
        }
        assert(names.contains(name@));
    }
}

proof fn lemma_all_alike(atoms: Seq<Atom>, n: nat, names: Names, bound: Names, x: Around, y: Around)
    requires
        n <= atoms.len(),
        covers(names, bound, occ_atoms(atoms, n, bound)),
        agree(names, x, y),
    ensures
        forall|i: int| 0 <= i < n ==> alike(#[trigger] atoms[i], x, y),
    decreases n,
{
    broadcast use lemma_covers_both;

    if n > 0 {
        lemma_all_alike(atoms, (n - 1) as nat, names, bound, x, y);
        lemma_alike(atoms[n - 1], names, bound, x, y);
    }
}

proof fn lemma_args_alike(args: Seq<CallArg>, n: nat, names: Names, bound: Names, x: Around, y: Around)
    requires
        n <= args.len(),
        covers(names, bound, occ_args(args, n, bound)),
        agree(names, x, y),
    ensures
        forall|i: int| 0 <= i < n ==> alike((#[trigger] args[i]).value, x, y),
    decreases n,
{
    broadcast use lemma_covers_both;

    if n > 0 {
        lemma_args_alike(args, (n - 1) as nat, names, bound, x, y);
        lemma_alike(args[n - 1].value, names, bound, x, y);
    }
}

proof fn lemma_fields_alike(fields: Seq<Field>, n: nat, names: Names, bound: Names, x: Around, y: Around)
    requires
        n <= fields.len(),
        covers(names, bound, occ_fields(fields, n, bound)),
        agree(names, x, y),
    ensures
        forall|i: int| 0 <= i < n ==> alike((#[trigger] fields[i]).value, x, y),
    decreases n,
{
    broadcast use lemma_covers_both;

    if n > 0 {
        lemma_fields_alike(fields, (n - 1) as nat, names, bound, x, y);
        lemma_alike(fields[n - 1].value, names, bound, x, y);
    }
}

proof fn lemma_inits_alike(vars: Seq<LoopVar>, n: nat, names: Names, bound: Names, x: Around, y: Around)
    requires
        n <= vars.len(),
        covers(names, bound, occ_inits(vars, n, bound)),
        agree(names, x, y),
    ensures
        forall|i: int| 0 <= i < n ==> alike((#[trigger] vars[i]).init, x, y),
    decreases n,
{
    broadcast use lemma_covers_both;

    if n > 0 {
        lemma_inits_alike(vars, (n - 1) as nat, names, bound, x, y);
        lemma_alike(vars[n - 1].init, names, bound, x, y);
    }
}

/// A computation that holds no block.
pub open spec fn is_simple(comp: Comp) -> bool {
    !(comp is If || comp is Loop || comp is Lam || comp is Perform || comp is Handle)
}

/// A computation without blocks looks at the variables alone that occur free in it: in
/// another scope in which these stand for the same, its code and its value are the same.
#[verifier::rlimit(40)]
pub proof fn a_simple_computation_rests_on_its_free_variables(
    st: St,
    env: Around,
    comp: Comp,
    bound: Names,
    names: Names,
)
    requires
        is_simple(comp),
        covers(names, bound, occ_comp(comp, bound)),
        agree(names, st.cx.env, env),
    ensures
        st.in_env(env).simple(comp) == moved(st.simple(comp), env),
        stays(st.simple(comp), st),
{
    broadcast use lemma_covers_both;

    let here = st.cx.env;
    assert forall|a: Atom| covers(names, bound, #[trigger] occ_atom(a, bound)) implies alike(
        a,
        here,
        env,
    ) by {
        lemma_alike(a, names, bound, here, env);
    }
    match comp {
        Comp::Atom(a) => lemma_atom(st, env, a),
        Comp::Bin(op, a, b) => lemma_bin(st, env, op, a, b),
        Comp::FloatBin(op, a, b) => lemma_float_bin(st, env, op, a, b),
        Comp::Cast(..) | Comp::Tag(_) | Comp::Untag(_) | Comp::ToPtr(_) | Comp::FromPtr(_) => {
            lemma_converted(st, env, comp)
        },
        Comp::Peek(..) | Comp::Poke(..) | Comp::Fill(..) | Comp::Copy(..) => lemma_memory(
            st,
            env,
            comp,
        ),
        Comp::FloatMathUnary { .. } | Comp::FloatMathBinary { .. } | Comp::FloatMathTernary {
            ..
        } => lemma_math(st, env, comp),
        Comp::VectorLit { elems, .. } => {
            lemma_all_alike(elems@, elems@.len(), names, bound, here, env);
            lemma_vector_comp(st, env, comp);
        },
        Comp::VectorSplat { .. } | Comp::VectorLoad { .. } | Comp::VectorStore { .. }
        | Comp::VectorBin { .. } | Comp::VectorCompare { .. } | Comp::VectorSelect { .. }
        | Comp::MaskReduce { .. } | Comp::VectorExtract { .. } => lemma_vector_comp(st, env, comp),
        Comp::App { .. } => lemma_calls(st, env, comp),
        Comp::Call { args, .. } => {
            lemma_args_alike(args@, args@.len(), names, bound, here, env);
            lemma_calls(st, env, comp);
        },
        Comp::Foreign(_, args, _) => {
            lemma_all_alike(args@, args@.len(), names, bound, here, env);
            lemma_calls(st, env, comp);
        },
        Comp::Tuple(fields) => {
            lemma_fields_alike(fields@, fields@.len(), names, bound, here, env);
            lemma_object(st, env, comp);
        },
        Comp::ArrayLit { elems, .. } => {
            lemma_all_alike(elems@, elems@.len(), names, bound, here, env);
            lemma_object(st, env, comp);
        },
        Comp::Proj { .. } | Comp::Len(_) | Comp::ArrayGet { .. } | Comp::ArraySet { .. }
        | Comp::SlotInit(..) | Comp::SlotLoad(_) | Comp::SlotStore(..) | Comp::RefNew(..)
        | Comp::RefGet(..) | Comp::RefSet(..) => lemma_object(st, env, comp),
        _ => {},
    }
}

// ── closures ─────────────────────────────────────────────────────────────
proof fn lemma_set_block_words(st: St, env: Around, block: Val, base: nat, words: Seq<Val>, n: nat)
    ensures
        st.in_env(env).set_block_words(block, base, words, n) == st.set_block_words(
            block,
            base,
            words,
            n,
        ).in_env(env),
        st.set_block_words(block, base, words, n).cx == st.cx,
    decreases n,
{
    if n > 0 {
        lemma_set_block_words(st, env, block, base, words, (n - 1) as nat);
    }
}

proof fn lemma_capture_words(st: St, env: Around, v: Val, ty: Rc<Type>, layout: ValueLayout, name: String)
    ensures
        st.in_env(env).capture_words(v, ty, layout, name) == moved_with(
            st.capture_words(v, ty, layout, name),
            env,
        ),
        stays(st.capture_words(v, ty, layout, name), st),
{
    if let Type::Mask(shape) = *ty {
        lemma_pack_lanes(st, env, v, shape.lane_count());
    }
    let (s, ptr) = st.def(Cmd::Alloca { ty: v.ty, label: "capture.spill" }, Ty::Ptr);
    let s = s.store(ptr, v);
    lemma_read_cells(
        s,
        env,
        ptr,
        layout.scalar_cells as nat,
        "capture.spill.slot",
        "capture.spill.cell",
    );
}

proof fn lemma_store_capture(st: St, env: Around, clos: Val, cap: CaptureInfo)
    requires
        st.cx.env.get(cap.name@) == env.get(cap.name@),
    ensures
        st.in_env(env).store_capture(clos, cap) == moved_st(st.store_capture(clos, cap), env),
        st.store_capture(clos, cap) matches Ok(end) ==> end.cx.env == st.cx.env,
{
    if let Some(var) = target(st.cx.env).get(cap.name@) {
        lemma_capture_words(st, env, var.value, cap.ty, cap.layout, cap.name);
        if let Ok((s, words)) = st.capture_words(var.value, cap.ty, cap.layout, cap.name) {
            lemma_set_words(s, env, clos, cap.gc_slot as nat, words, words.len());
            lemma_set_block_words(s, env, clos, cap.raw_slot as nat, words, words.len());
        }
    }
}

proof fn lemma_store_captures(st: St, env: Around, clos: Val, caps: Seq<CaptureInfo>, i: nat)
    requires
        forall|k: int|
            0 <= k < caps.len() ==> st.cx.env.get((#[trigger] caps[k]).name@) == env.get(
                caps[k].name@,
            ),
    ensures
        st.in_env(env).store_captures(clos, caps, i) == moved_st(
            st.store_captures(clos, caps, i),
            env,
        ),
        st.store_captures(clos, caps, i) matches Ok(end) ==> end.cx.env == st.cx.env,
    decreases caps.len() - i,
{
    if i < caps.len() {
        lemma_store_capture(st, env, clos, caps[i as int]);
        if let Ok(s) = st.store_capture(clos, caps[i as int]) {
            lemma_store_captures(s, env, clos, caps, i + 1);
        }
    }
}

proof fn lemma_place_captures(
    st: St,
    env: Around,
    own: Option<String>,
    own_ty: Rc<Type>,
    list: Seq<String>,
    i: nat,
    done: Seq<CaptureInfo>,
)
    requires
        forall|k: int|
            0 <= k < list.len() ==> st.cx.env.get((#[trigger] list[k])@) == env.get(list[k]@),
    ensures
        st.in_env(env).place_captures(own, own_ty, list, i, done) == st.place_captures(
            own,
            own_ty,
            list,
            i,
            done,
        ),
    decreases list.len() - i,
{
    if i < list.len() {
        assert(st.cx.env.get(list[i as int]@) == env.get(list[i as int]@));
        if let Ok((ty, layout)) = st.captured_var(own, own_ty, list[i as int]) {
            lemma_place_captures(
                st,
                env,
                own,
                own_ty,
                list,
                i + 1,
                done.push(placed(list[i as int], ty, layout, done)),
            );
        }
    }
}

proof fn lemma_left_within(occ: Seq<String>, bound: Names, names: Names)
    requires
        covers(names, bound, left_free(occ, bound)),
    ensures
        forall|k: int| 0 <= k < occ.len() ==> names.contains((#[trigger] occ[k])@),
    decreases occ.len(),
{
    if occ.len() > 0 {
        let front = occ.drop_last();
        let kept = left_free(front, bound);
        assert(covers(names, bound, kept)) by {
            assert forall|k: int| 0 <= k < kept.len() implies names.contains((#[trigger] kept[k])@) by {
                if !bound.contains(occ.last()@) {
                    assert(left_free(occ, bound)[k] == kept[k]);
                }
            }
        }
        lemma_left_within(front, bound, names);
        assert forall|k: int| 0 <= k < occ.len() implies names.contains((#[trigger] occ[k])@) by {
            if k < occ.len() - 1 {
                assert(front[k] == occ[k]);
            } else if !bound.contains(occ.last()@) {
                assert(left_free(occ, bound)[kept.len() as int] == occ.last());
            }
        }
    }
}

/// What a lambda captures is among the names.
proof fn lemma_captured_within(st: St, param: Seq<char>, body: Ir, bound: Names, names: Names, known: Names)
    requires
        covers(names, bound, occ_ir(body, bound.insert(param))),
        quiet_ir(body, known),
    ensures
        forall|k: int|
            0 <= k < capture_names(body, param, *st.cx.handlers).len() ==> names.contains(
                (#[trigger] capture_names(body, param, *st.cx.handlers)[k])@,
            ),
{
    let frames = target(st.cx.handlers);
    let occ = lambda_occ(body, param);
    let one = Set::<Seq<char>>::empty().insert(param);
    assert forall|label: Label| !#[trigger] performs_label(body, label) by {
        lemma_silent(body, known, label);
    }
    lemma_active_silent(body, frames, Seq::empty());
    assert(occ + Seq::<String>::empty() =~= occ);
    binding_takes_away_its_occurrences(body, one, bound);
    assert(one.union(bound) =~= bound.insert(param));
    lemma_left_within(occ, bound, names);
    lemma_drop_name(occ, param);
    sorted_names_is_sorted(drop_name(occ, param));
    let list = capture_names(body, param, frames);
    assert forall|k: int| 0 <= k < list.len() implies names.contains((#[trigger] list[k])@) by {
        assert(has_name(list, list[k]@));
        assert(name_set(list).contains(list[k]@));
        assert(name_set(occ).contains(list[k]@));
        let j = choose|j: int| 0 <= j < occ.len() && (#[trigger] occ[j])@ == list[k]@;
        assert(names.contains(occ[j]@));
    }
}

proof fn lemma_build_closure(
    st: St,
    env: Around,
    own: Option<String>,
    fun_ty: Rc<Type>,
    caps: Seq<CaptureInfo>,
    entry: Val,
    fast: Val,
    arity: Val,
    names: Names,
)
    requires
        agree(names, st.cx.env, env),
        forall|k: int| 0 <= k < caps.len() ==> names.contains((#[trigger] caps[k]).name@),
    ensures
        same_out(
            names,
            st.build_closure(own, fun_ty, caps, entry, fast, arity),
            st.in_env(env).build_closure(own, fun_ty, caps, entry, fast, arity),
        ),
{
    if st.cx.gc {
        let pointers = traced_before(caps, caps.len()) as u64;
        let scalars = (RESERVED + untraced_before(caps, caps.len())) as u64;
        let (s, clos) = st.gc_alloc(pointers, scalars);
        let (t, same) = st.in_env(env).gc_alloc(pointers, scalars);
        let s1 = match own {
            Some(name) => s.bind(name, clos, fun_ty, ValueLayout::pointer_cell_layout()),
            None => s,
        };
        let t1 = match own {
            Some(name) => t.bind(name, clos, fun_ty, ValueLayout::pointer_cell_layout()),
            None => t,
        };
        let s2 = s1.gc_set_scalar(clos, 0, entry).gc_set_scalar(clos, 1, fast).gc_set_scalar(
            clos,
            2,
            arity,
        );
        let t2 = t1.gc_set_scalar(clos, 0, entry).gc_set_scalar(clos, 1, fast).gc_set_scalar(
            clos,
            2,
            arity,
        );
        assert(agree(names, s1.cx.env, t1.cx.env));
        assert(t2 == s2.in_env(t1.cx.env));
        lemma_store_captures(s2, t1.cx.env, clos, caps, 0);
    } else {
        let bytes = constant(((RESERVED + cells_before(caps, caps.len())) * 8) as u64);
        let (s, block) = st.arg(bytes).call("locus_alloc", Ty::Ptr, "alloc");
        let (s, clos) = s.convert(Conv::PtrToInt, block, Ty::I64, "clos");
        let s1 = match own {
            Some(name) => s.bind(name, clos, fun_ty, ValueLayout::scalar_cell_layout()),
            None => s,
        };
        let t1 = match own {
            Some(name) => s.in_env(env).bind(
                name,
                clos,
                fun_ty,
                ValueLayout::scalar_cell_layout(),
            ),
            None => s.in_env(env),
        };
        let (s2, p) = s1.gep(Ty::I64, block, constant(0), "fn.slot");
        let s2 = s2.store(p, entry);
        let (s3, p) = s2.gep(Ty::I64, block, constant(1), "fast.slot");
        let s3 = s3.store(p, fast);
        let (s4, p) = s3.gep(Ty::I64, block, constant(2), "fastarity.slot");
        let s4 = s4.store(p, arity);
        assert(agree(names, s1.cx.env, t1.cx.env));
        lemma_store_captures(s4, t1.cx.env, block, caps, 0);
    }
}

/// The functions behind a closure are the same in every scope.
proof fn lemma_lifted(st: St, env: Around, fuel: nat, own: Option<String>, lam: Comp, caps: Seq<CaptureInfo>)
    requires
        lam is Lam,
    ensures
        st.in_env(env).lift(fuel, own, lam, caps) == moved_with(st.lift(fuel, own, lam, caps), env),
        stays(st.lift(fuel, own, lam, caps), st),
{
    lemma_begin_func(st, env);
}

proof fn lemma_begin_func(st: St, env: Around)
    ensures
        forall|name: crate::target::FuncName, ret: Ty, params: Seq<Ty>| #[trigger]
            st.in_env(env).begin_func(name, ret, params) == st.begin_func(name, ret, params),
{
    assert forall|name: crate::target::FuncName, ret: Ty, params: Seq<Ty>| #[trigger]
        st.in_env(env).begin_func(name, ret, params) == st.begin_func(name, ret, params) by {
        let s = st.put(Cmd::Func { name, ret }).put(
            Cmd::Param { ty: crate::closures::env_ty(st.cx.gc) },
        );
        lemma_put_params(s, env, params, params.len());
    }
}

proof fn lemma_put_params(st: St, env: Around, params: Seq<Ty>, n: nat)
    ensures
        st.in_env(env).put_params(params, n) == st.put_params(params, n).in_env(env),
        st.put_params(params, n).cx == st.cx,
    decreases n,
{
    if n > 0 {
        lemma_put_params(st, env, params, (n - 1) as nat);
    }
}

proof fn lemma_fast_lifted(st: St, env: Around, fuel: nat, own: Option<String>, lam: Comp, caps: Seq<CaptureInfo>)
    requires
        lam is Lam,
    ensures
        st.in_env(env).fast(fuel, own, lam, caps) == (match st.fast(fuel, own, lam, caps) {
            Ok((s, a, b)) => Ok::<(St, Val, Val), CodegenError>((s.in_env(env), a, b)),
            Err(e) => Err(e),
        }),
        st.fast(fuel, own, lam, caps) matches Ok((s, _, _)) ==> s.cx.env == st.cx.env,
{
    lemma_begin_func(st, env);
}

proof fn lemma_closure(
    st: St,
    env: Around,
    fuel: nat,
    own: Option<String>,
    lam: Comp,
    bound: Names,
    names: Names,
    known: Names,
)
    requires
        lam is Lam,
        quiet_comp(lam, known),
        covers(names, bound, occ_comp(lam, bound)),
        agree(names, st.cx.env, env),
    ensures
        same_out(names, st.closure(fuel, own, lam), st.in_env(env).closure(fuel, own, lam)),
{
    if let Comp::Lam { param, param_ty, ret_ty, body, .. } = lam {
        let fun_ty = pointer_to(
            Type::Fun(crate::blocks::ty_or_int(param_ty), ret_ty, st.cx.pure),
        );
        let list = capture_names(target(body), param@, target(st.cx.handlers));
        lemma_captured_within(st, param@, target(body), bound, names, known);
        assert forall|k: int| 0 <= k < list.len() implies st.cx.env.get((#[trigger] list[k])@)
            == env.get(list[k]@) by {
            assert(names.contains(list[k]@));
        }
        lemma_place_captures(st, env, own, fun_ty, list, 0, Seq::empty());
        if let Ok(caps) = st.place_captures(own, fun_ty, list, 0, Seq::empty()) {
            lemma_placed_names(st, own, fun_ty, list, 0, Seq::empty());
            assert forall|k: int| 0 <= k < caps.len() implies names.contains(
                (#[trigger] caps[k]).name@,
            ) by {
                assert(names.contains(list[k]@));
            }
            lemma_lifted(st, env, fuel, own, lam, caps);
            if let Ok((s, func)) = st.lift(fuel, own, lam, caps) {
                let (s1, entry) = s.func_addr(func, "fnaddr");
                lemma_fast_lifted(s1, env, fuel, own, lam, caps);
                if let Ok((s2, fast, arity)) = s1.fast(fuel, own, lam, caps) {
                    lemma_build_closure(s2, env, own, fun_ty, caps, entry, fast, arity, names);
                }
            }
        }
    }
}

// ── loops ────────────────────────────────────────────────────────────────
proof fn lemma_loop_inits(
    st: St,
    env: Around,
    vars: Seq<LoopVar>,
    storages: Seq<LoopVarStorage>,
    i: nat,
    done: Seq<Val>,
)
    requires
        forall|k: int| 0 <= k < vars.len() ==> alike((#[trigger] vars[k]).init, st.cx.env, env),
    ensures
        st.in_env(env).loop_inits(vars, storages, i, done) == moved_with(
            st.loop_inits(vars, storages, i, done),
            env,
        ),
        stays(st.loop_inits(vars, storages, i, done), st),
    decreases vars.len() - i,
{
    if i < vars.len() {
        let a = vars[i as int].init;
        assert(alike(a, st.cx.env, env));
        lemma_atom(st, env, a);
        lemma_cell(st, env, a, "loop handle accumulator init");
        if storages[i as int] is Scalar {
            if let Ok((s, v)) = st.atom(a) {
                lemma_loop_inits(s, env, vars, storages, i + 1, done.push(v));
            }
        } else {
            if let Ok((s, v)) = st.cell(a, "loop handle accumulator init") {
                let (s1, root) = s.gc_root(v);
                lemma_loop_inits(s1, env, vars, storages, i + 1, done.push(root));
            }
        }
    }
}

proof fn lemma_borrow_arrays(
    st: St,
    env: Around,
    list: Seq<String>,
    i: nat,
    raws: Rc<Scope<RawArray>>,
)
    requires
        forall|k: int|
            0 <= k < list.len() ==> st.cx.env.get((#[trigger] list[k])@) == env.get(list[k]@),
    ensures
        st.in_env(env).borrow_arrays(list, i, raws) == moved_with(
            st.borrow_arrays(list, i, raws),
            env,
        ),
        stays(st.borrow_arrays(list, i, raws), st),
    decreases list.len() - i,
{
    if i < list.len() {
        let name = list[i as int];
        assert(st.cx.env.get(name@) == env.get(name@));
        if let Some(var) = target(st.cx.env).get(name@) {
            lemma_borrow_arrays(st, env, list, i + 1, raws);
            let h = var.value;
            let (s, base) = st.arg(h).call(
                "locus_gc_scalar_fields_ptr",
                Ty::Ptr,
                "locus_gc_scalar_fields_ptr",
            );
            let (s1, len) = s.load_as(
                Ty::I64,
                base,
                Title::Var { before: "", name, after: ".len" },
            );
            let more = Rc::new(
                Scope::More { name, item: RawArray { base, len, arr: h }, rest: raws },
            );
            lemma_borrow_arrays(s1, env, list, i + 1, more);
        }
    }
}

proof fn lemma_loop_head(
    st: St,
    env: Around,
    vars: Seq<LoopVar>,
    storages: Seq<LoopVarStorage>,
    inits: Seq<Val>,
    from: u64,
    i: nat,
    phis: Seq<Option<u64>>,
    names: Names,
)
    requires
        agree(bound_vars(vars, i, names), st.cx.env, env),
        i <= vars.len(),
    ensures
        ({
            let (s, p) = st.loop_head(vars, storages, inits, from, i, phis);
            let (t, q) = st.in_env(env).loop_head(vars, storages, inits, from, i, phis);
            p == q && same_but(bound_vars(vars, vars.len(), names), s, t)
        }),
    decreases vars.len() - i,
{
    if i < vars.len() {
        let var = vars[i as int];
        let init = inits[i as int];
        let more = bound_vars(vars, i + 1, names);
        if storages[i as int] is Scalar {
            let phi = st.here();
            let (s, v) = st.phi_as(
                init.ty,
                Title::Var { before: "loop.", name: var.name, after: "" },
            );
            let s1 = s.incoming(phi, init, from).bind(var.name, v, var.ty, var.layout);
            let t1 = s.incoming(phi, init, from).in_env(env).bind(var.name, v, var.ty, var.layout);
            assert(agree(more, s1.cx.env, t1.cx.env));
            assert(t1 == s1.in_env(t1.cx.env));
            lemma_loop_head(
                s1,
                t1.cx.env,
                vars,
                storages,
                inits,
                from,
                i + 1,
                phis.push(Some(phi)),
                names,
            );
        } else {
            let s1 = st.bind(var.name, init, var.ty, var.layout);
            let t1 = st.in_env(env).bind(var.name, init, var.ty, var.layout);
            assert(agree(more, s1.cx.env, t1.cx.env));
            assert(t1 == s1.in_env(t1.cx.env));
            lemma_loop_head(
                s1,
                t1.cx.env,
                vars,
                storages,
                inits,
                from,
                i + 1,
                phis.push(None),
                names,
            );
        }
    }
}

proof fn lemma_set_roots(st: St, env: Around, storages: Seq<LoopVarStorage>, roots: Seq<Val>, nexts: Seq<Val>, n: nat)
    ensures
        st.in_env(env).set_roots(storages, roots, nexts, n) == st.set_roots(
            storages,
            roots,
            nexts,
            n,
        ).in_env(env),
        st.set_roots(storages, roots, nexts, n).cx == st.cx,
    decreases n,
{
    if n > 0 {
        lemma_set_roots(st, env, storages, roots, nexts, (n - 1) as nat);
    }
}

proof fn lemma_loop_edges(st: St, env: Around, phis: Seq<Option<u64>>, nexts: Seq<Val>, from: u64, n: nat)
    ensures
        st.in_env(env).loop_edges(phis, nexts, from, n) == st.loop_edges(
            phis,
            nexts,
            from,
            n,
        ).in_env(env),
        st.loop_edges(phis, nexts, from, n).cx == st.cx,
    decreases n,
{
    if n > 0 {
        lemma_loop_edges(st, env, phis, nexts, from, (n - 1) as nat);
    }
}

proof fn lemma_vars_within(vars: Seq<LoopVar>, n: nat, bound: Names, names: Names)
    requires
        within(bound, names),
    ensures
        within(bound_vars(vars, n, bound), bound_vars(vars, n, names)),
        within(names, bound_vars(vars, n, names)),
    decreases n,
{
    if n != 0 && n <= vars.len() {
        lemma_vars_within(vars, (n - 1) as nat, bound, names);
        assert forall|x: Seq<char>| #[trigger] bound_vars(vars, n, bound).contains(x) implies bound_vars(
            vars,
            n,
            names,
        ).contains(x) by {
            if x != vars[n - 1].name@ {
                assert(bound_vars(vars, (n - 1) as nat, bound).contains(x));
            }
        }
        assert forall|x: Seq<char>| #[trigger] names.contains(x) implies bound_vars(
            vars,
            n,
            names,
        ).contains(x) by {
            assert(bound_vars(vars, (n - 1) as nat, names).contains(x));
        }
    }
}

proof fn lemma_binds_within(binds: Seq<IrBind>, n: nat, bound: Names, names: Names)
    requires
        within(bound, names),
    ensures
        within(bound_binds(binds, n, bound), bound_binds(binds, n, names)),
        within(names, bound_binds(binds, n, names)),
    decreases n,
{
    if n != 0 && n <= binds.len() {
        lemma_binds_within(binds, (n - 1) as nat, bound, names);
        assert forall|x: Seq<char>| #[trigger] bound_binds(binds, n, bound).contains(x) implies bound_binds(
            binds,
            n,
            names,
        ).contains(x) by {
            if x != binds[n - 1].name@ {
                assert(bound_binds(binds, (n - 1) as nat, bound).contains(x));
            }
        }
        assert forall|x: Seq<char>| #[trigger] names.contains(x) implies bound_binds(
            binds,
            n,
            names,
        ).contains(x) by {
            assert(bound_binds(binds, (n - 1) as nat, names).contains(x));
        }
    }
}

/// The occurrences stay covered by more names once more is bound.
proof fn lemma_covers_in(names: Names, more: Names, bound: Names, inner: Names, occ: Seq<String>)
    requires
        covers(names, bound, occ),
        within(names, more),
        within(inner, more),
    ensures
        covers(more, inner, occ),
{
}

proof fn lemma_bind_covered(binds: Vec<IrBind>, n: nat, i: int, names: Names, bound: Names)
    requires
        0 <= i < n <= binds.len(),
        covers(names, bound, occ_binds(binds, n, bound)),
    ensures
        covers(
            names,
            bound,
            occ_comp(target(binds[i].comp), bound_binds(binds@, i as nat, bound)),
        ),
    decreases n,
{
    broadcast use lemma_covers_both;

    if i < n - 1 {
        lemma_bind_covered(binds, (n - 1) as nat, i, names, bound);
    }
}

proof fn lemma_step_covered(steps: Vec<Ir>, n: nat, i: int, names: Names, bound: Names)
    requires
        0 <= i < n <= steps.len(),
        covers(names, bound, occ_steps(steps, n, bound)),
    ensures
        covers(names, bound, occ_ir(steps[i], bound)),
    decreases n,
{
    broadcast use lemma_covers_both;

    if i < n - 1 {
        lemma_step_covered(steps, (n - 1) as nat, i, names, bound);
    }
}

// ── whole blocks ─────────────────────────────────────────────────────────
/// A block that performs nothing looks at the variables alone that occur free in it: in
/// another scope in which these stand for the same, its code and its value are the same.
/// So a lambda needs no other variable than those that it captures. The arrays that loops
/// borrow are looked up by their names too.
pub proof fn a_lowered_block_rests_on_its_free_variables(
    st: St,
    env: Around,
    fuel: nat,
    ir: Ir,
    bound: Names,
    names: Names,
    known: Names,
)
    requires
        quiet_ir(ir, known),
        within(known, names),
        covers(names, bound, occ_ir(ir, bound)),
        agree(names, st.cx.env, env),
    ensures
        same_out(names, st.block(fuel, ir), st.in_env(env).block(fuel, ir)),
    decreases fuel, ir, 5int,
{
    match ir {
        Ir::Block { .. } => lemma_flat_rests(st, env, fuel, ir, bound, names, known),
        Ir::Let { .. } => lemma_let_rests(st, env, fuel, ir, bound, names, known),
        Ir::Ret { comp, .. } => lemma_comp_rests(st, env, fuel, target(comp), bound, names, known),
    }
}

proof fn lemma_parts_covered(ir: Ir, bound: Names, names: Names)
    requires
        covers(names, bound, occ_ir(ir, bound)),
    ensures
        match ir {
            Ir::Block { binds, comp, .. } => covers(
                names,
                bound,
                occ_binds(binds, binds.len() as nat, bound),
            ) && covers(
                names,
                bound,
                occ_comp(*comp, bound_binds(binds@, binds.len() as nat, bound)),
            ),
            Ir::Let { name, comp, rest, .. } => covers(names, bound, occ_comp(*comp, bound))
                && covers(names, bound, occ_ir(*rest, bound.insert(name@))),
            Ir::Ret { comp, .. } => covers(names, bound, occ_comp(*comp, bound)),
        },
{
    match ir {
        Ir::Block { binds, comp, .. } => lemma_covers_both(
            names,
            bound,
            occ_binds(binds, binds.len() as nat, bound),
            occ_comp(target(comp), bound_binds(binds@, binds.len() as nat, bound)),
        ),
        Ir::Let { name, comp, rest, .. } => lemma_covers_both(
            names,
            bound,
            occ_comp(target(comp), bound),
            occ_ir(target(rest), bound.insert(name@)),
        ),
        Ir::Ret { .. } => {},
    }
}

#[verifier::spinoff_prover]
proof fn lemma_flat_rests(
    st: St,
    env: Around,
    fuel: nat,
    ir: Ir,
    bound: Names,
    names: Names,
    known: Names,
)
    requires
        ir is Block,
        quiet_ir(ir, known),
        within(known, names),
        covers(names, bound, occ_ir(ir, bound)),
        agree(names, st.cx.env, env),
    ensures
        same_out(names, st.block(fuel, ir), st.in_env(env).block(fuel, ir)),
    decreases fuel, ir, 4int,
{
    lemma_parts_covered(ir, bound, names);
    if let Ir::Block { binds, comp, .. } = ir {
        let n = binds.len() as nat;
        assert(bound_binds(binds@, 0, names) == names);
        lemma_binds_rest(st, env, fuel, binds, 0, bound, names, known);
        lemma_binds_within(binds@, n, bound, names);
        let more = bound_binds(binds@, n, names);
        let inner = bound_binds(binds@, n, bound);
        if let Ok(s) = st.binds_from(fuel, binds, 0) {
            let t = st.in_env(env).binds_from(fuel, binds, 0)->Ok_0;
            lemma_covers_in(names, more, bound, inner, occ_comp(target(comp), inner));
            lemma_comp_rests(s, t.cx.env, fuel, target(comp), inner, more, known);
            lemma_fewer(names, more, s.comp(fuel, target(comp)), t.comp(fuel, target(comp)));
        }
    }
}

/// What agrees on more names agrees on fewer.
proof fn lemma_fewer(names: Names, more: Names, a: Out, b: Out)
    requires
        within(names, more),
        same_out(more, a, b),
    ensures
        same_out(names, a, b),
{
}

#[verifier::spinoff_prover]
proof fn lemma_let_rests(
    st: St,
    env: Around,
    fuel: nat,
    ir: Ir,
    bound: Names,
    names: Names,
    known: Names,
)
    requires
        ir is Let,
        quiet_ir(ir, known),
        within(known, names),
        covers(names, bound, occ_ir(ir, bound)),
        agree(names, st.cx.env, env),
    ensures
        same_out(names, st.block(fuel, ir), st.in_env(env).block(fuel, ir)),
    decreases fuel, ir, 4int,
{
    lemma_parts_covered(ir, bound, names);
    if let Ir::Let { name, ty, layout, comp, rest, .. } = ir {
        lemma_binding_rests(st, env, fuel, name, ty, layout, target(comp), bound, names, known);
        let more = names.insert(name@);
        let inner = bound.insert(name@);
        if let Ok(s) = st.binding(fuel, name, ty, layout, target(comp)) {
            let t = st.in_env(env).binding(fuel, name, ty, layout, target(comp))->Ok_0;
            lemma_covers_in(names, more, bound, inner, occ_ir(target(rest), inner));
            a_lowered_block_rests_on_its_free_variables(
                s,
                t.cx.env,
                fuel,
                target(rest),
                inner,
                more,
                known,
            );
            lemma_fewer(names, more, s.block(fuel, target(rest)), t.block(fuel, target(rest)));
        }
    }
}

proof fn lemma_binds_rest(
    st: St,
    env: Around,
    fuel: nat,
    binds: Vec<IrBind>,
    i: nat,
    bound: Names,
    names: Names,
    known: Names,
)
    requires
        i <= binds.len(),
        quiet_binds(binds, binds.len() as nat, known),
        within(known, names),
        covers(names, bound, occ_binds(binds, binds.len() as nat, bound)),
        agree(bound_binds(binds@, i, names), st.cx.env, env),
    ensures
        same_st(
            bound_binds(binds@, binds.len() as nat, names),
            st.binds_from(fuel, binds, i),
            st.in_env(env).binds_from(fuel, binds, i),
        ),
    decreases fuel, binds, binds.len() - i,
{
    if i < binds.len() {
        let b = binds[i as int];
        let more = bound_binds(binds@, i, names);
        let inner = bound_binds(binds@, i, bound);
        lemma_quiet_bind(binds, binds.len() as nat, i as int, known);
        lemma_bind_covered(binds, binds.len() as nat, i as int, names, bound);
        lemma_binds_within(binds@, i, bound, names);
        lemma_covers_in(names, more, bound, inner, occ_comp(target(b.comp), inner));
        lemma_binding_rests(
            st,
            env,
            fuel,
            b.name,
            b.ty,
            b.layout,
            target(binds[i as int].comp),
            inner,
            more,
            known,
        );
        if let Ok(s) = st.binding(fuel, b.name, b.ty, b.layout, target(b.comp)) {
            let t = st.in_env(env).binding(fuel, b.name, b.ty, b.layout, target(b.comp))->Ok_0;
            lemma_binds_rest(s, t.cx.env, fuel, binds, i + 1, bound, names, known);
        }
    }
}

proof fn lemma_binding_rests(
    st: St,
    env: Around,
    fuel: nat,
    name: String,
    ty: Rc<Type>,
    layout: ValueLayout,
    comp: Comp,
    bound: Names,
    names: Names,
    known: Names,
)
    requires
        quiet_comp(comp, known),
        comp is Extern ==> known.contains(name@),
        within(known, names),
        covers(names, bound, occ_comp(comp, bound)),
        agree(names, st.cx.env, env),
    ensures
        same_st(
            names.insert(name@),
            st.binding(fuel, name, ty, layout, comp),
            st.in_env(env).binding(fuel, name, ty, layout, comp),
        ),
    decreases fuel, comp, 3int,
{
    if comp is Extern {
        assert(names.insert(name@) =~= names);
    } else {
        if names_itself(comp, name@) {
            lemma_closure(st, env, fuel, Some(name), comp, bound, names, known);
        } else {
            lemma_comp_rests(st, env, fuel, comp, bound, names, known);
        }
        let a = if names_itself(comp, name@) {
            st.closure(fuel, Some(name), comp)
        } else {
            st.comp(fuel, comp)
        };
        let b = if names_itself(comp, name@) {
            st.in_env(env).closure(fuel, Some(name), comp)
        } else {
            st.in_env(env).comp(fuel, comp)
        };
        if let Ok((s, v)) = a {
            let (t, w) = b->Ok_0;
            let s1 = s.bind(name, v, ty, layout);
            let t1 = t.bind(name, v, ty, layout);
            assert(agree(names.insert(name@), s1.cx.env, t1.cx.env));
            assert(t1 == s1.in_env(t1.cx.env));
        }
    }
}

proof fn lemma_comp_rests(
    st: St,
    env: Around,
    fuel: nat,
    comp: Comp,
    bound: Names,
    names: Names,
    known: Names,
)
    requires
        quiet_comp(comp, known),
        within(known, names),
        covers(names, bound, occ_comp(comp, bound)),
        agree(names, st.cx.env, env),
    ensures
        same_out(names, st.comp(fuel, comp), st.in_env(env).comp(fuel, comp)),
    decreases fuel, comp, 2int,
{
    match comp {
        Comp::If(..) => lemma_if_rests(st, env, fuel, comp, bound, names, known),
        Comp::Loop { .. } => lemma_loop_rests(st, env, fuel, comp, bound, names, known),
        Comp::Lam { .. } => lemma_closure(st, env, fuel, None, comp, bound, names, known),
        Comp::Handle { .. } => lemma_handle_rests(st, env, fuel, comp, bound, names, known),
        _ => a_simple_computation_rests_on_its_free_variables(st, env, comp, bound, names),
    }
}

#[verifier::rlimit(40)]
proof fn lemma_if_rests(
    st: St,
    env: Around,
    fuel: nat,
    comp: Comp,
    bound: Names,
    names: Names,
    known: Names,
)
    requires
        comp is If,
        quiet_comp(comp, known),
        within(known, names),
        covers(names, bound, occ_comp(comp, bound)),
        agree(names, st.cx.env, env),
    ensures
        same_out(names, st.if_code(fuel, comp), st.in_env(env).if_code(fuel, comp)),
    decreases fuel, comp, 1int,
{
    broadcast use lemma_covers_both;

    if let Comp::If(cond, then, els) = comp {
        lemma_alike(cond, names, bound, st.cx.env, env);
        lemma_cell(st, env, cond, "if condition");
        if let Ok((s, c)) = st.cell(cond, "if condition") {
            let (s, test) = s.itest(IntPred::Ne, c, constant(0), "if.test");
            let (s, yes) = s.new_block("then");
            let (s, no) = s.new_block("else");
            let (s, merge) = s.new_block("merge");
            let s = s.cond_br(test, yes, no).at(yes);
            a_lowered_block_rests_on_its_free_variables(
                s,
                env,
                fuel,
                target(then),
                bound,
                names,
                known,
            );
            if let Ok((s1, a)) = s.block(fuel, target(then)) {
                let s2 = s1.br(merge).in_env(st.cx.env).at(no);
                a_lowered_block_rests_on_its_free_variables(
                    s2,
                    env,
                    fuel,
                    target(els),
                    bound,
                    names,
                    known,
                );
            }
        }
    }
}

/// A loop whose head is laid out, with other variables in scope.
pub open spec fn head_in(h: LoopHead, env: Around) -> LoopHead {
    LoopHead { env, ..h }
}

#[verifier::rlimit(40)]
proof fn lemma_loop_enter_rests(
    st: St,
    env: Around,
    vars: Seq<LoopVar>,
    cond: Ir,
    steps: Vec<Ir>,
    bound: Names,
    names: Names,
    known: Names,
)
    requires
        borrows(vars, cond, steps, known),
        within(known, names),
        covers(names, bound, occ_inits(vars, vars.len(), bound)),
        agree(names, st.cx.env, env),
    ensures
        match (st.loop_enter(vars, cond, steps), st.in_env(env).loop_enter(vars, cond, steps)) {
            (Ok((s, h)), Ok((t, g))) => g == head_in(h, g.env) && same_but(
                bound_vars(vars, vars.len(), names),
                s,
                t,
            ) && h.env == s.cx.env && g.env == t.cx.env,
            (Err(e), Err(f)) => e == f,
            _ => false,
        },
{
    lemma_inits_alike(vars, vars.len(), names, bound, st.cx.env, env);
    if let Ok(storages) = storages_from(vars, 0, Seq::empty()) {
        lemma_loop_inits(st, env, vars, storages, 0, Seq::empty());
        if let Ok((s, inits)) = st.loop_inits(vars, storages, 0, Seq::empty()) {
            let list = loop_arrays(vars, storages, cond, steps);
            assert forall|k: int| 0 <= k < list.len() implies s.cx.env.get((#[trigger] list[k])@)
                == env.get(list[k]@) by {
                assert(known.contains(list[k]@));
                assert(names.contains(list[k]@));
            }
            lemma_borrow_arrays(s, env, list, 0, s.cx.raws);
            if let Ok((s1, raws)) = s.borrow_arrays(list, 0, s.cx.raws) {
                let from = s1.cx.block;
                let (s2, head) = s1.new_block("loop");
                let (s2, body) = s2.new_block("loop.body");
                let (s2, exit) = s2.new_block("loop.exit");
                let s3 = s2.br(head).with_raws(raws).at(head);
                lemma_loop_head(s3, env, vars, storages, inits, from, 0, Seq::empty(), names);
            }
        }
    }
}

proof fn lemma_loop_block_rests(
    st: St,
    env: Around,
    fuel: nat,
    ir: Ir,
    bound: Names,
    names: Names,
    known: Names,
)
    requires
        quiet_ir(ir, known),
        within(known, names),
        covers(names, bound, occ_ir(ir, bound)),
        agree(names, st.cx.env, env),
    ensures
        same_out(names, st.loop_block(fuel, ir), st.in_env(env).loop_block(fuel, ir)),
    decreases fuel, ir, 6int,
{
    let (s, frame) = st.enter(
        st.cx.gc && (crate::analysis::performs_gc(ir) || crate::analysis::produces_handle(ir)),
    );
    a_lowered_block_rests_on_its_free_variables(s, env, fuel, ir, bound, names, known);
}

proof fn lemma_steps_rest(
    st: St,
    env: Around,
    fuel: nat,
    steps: Vec<Ir>,
    h: LoopHead,
    g: LoopHead,
    i: nat,
    done: Seq<Val>,
    bound: Names,
    names: Names,
    known: Names,
)
    requires
        i <= steps.len(),
        g == head_in(h, g.env),
        agree(names, h.env, g.env),
        quiet_steps(steps, steps.len() as nat, known),
        within(known, names),
        covers(names, bound, occ_steps(steps, steps.len() as nat, bound)),
        agree(names, st.cx.env, env),
    ensures
        same_cells(
            names,
            st.steps_from(fuel, steps, h, i, done),
            st.in_env(env).steps_from(fuel, steps, g, i, done),
        ),
    decreases fuel, steps, steps.len() - i,
{
    if i < steps.len() {
        lemma_quiet_step(steps, steps.len() as nat, i as int, known);
        lemma_step_covered(steps, steps.len() as nat, i as int, names, bound);
        let s = st.in_env(h.env);
        assert(st.in_env(env).in_env(g.env) == s.in_env(g.env));
        let step = steps[i as int];
        if any_root(h.storages) {
            a_lowered_block_rests_on_its_free_variables(
                s,
                g.env,
                fuel,
                steps[i as int],
                bound,
                names,
                known,
            );
        } else {
            lemma_loop_block_rests(s, g.env, fuel, steps[i as int], bound, names, known);
        }
        let a = if any_root(h.storages) {
            s.block(fuel, step)
        } else {
            s.loop_block(fuel, step)
        };
        let b = if any_root(h.storages) {
            s.in_env(g.env).block(fuel, step)
        } else {
            s.in_env(g.env).loop_block(fuel, step)
        };
        if let Ok((s1, v)) = a {
            let (t1, w) = b->Ok_0;
            if let Ok(next) = crate::blocks::next_of(v, h.storages[i as int]) {
                lemma_steps_rest(
                    s1,
                    t1.cx.env,
                    fuel,
                    steps,
                    h,
                    g,
                    i + 1,
                    done.push(next),
                    bound,
                    names,
                    known,
                );
            }
        }
    }
}

proof fn lemma_loop_steps_rest(
    st: St,
    env: Around,
    fuel: nat,
    steps: Vec<Ir>,
    h: LoopHead,
    g: LoopHead,
    bound: Names,
    names: Names,
    known: Names,
)
    requires
        g == head_in(h, g.env),
        agree(names, h.env, g.env),
        quiet_steps(steps, steps.len() as nat, known),
        within(known, names),
        covers(names, bound, occ_steps(steps, steps.len() as nat, bound)),
        agree(names, st.cx.env, env),
    ensures
        same_cells(
            names,
            st.loop_steps(fuel, steps, h),
            st.in_env(env).loop_steps(fuel, steps, g),
        ),
    decreases fuel, steps, steps.len() + 1,
{
    if any_root(h.storages) {
        let (s, frame) = st.enter(st.cx.gc && crate::blocks::steps_need_scope(steps@));
        lemma_steps_rest(s, env, fuel, steps, h, g, 0, Seq::empty(), bound, names, known);
        if let Ok((s1, nexts)) = s.steps_from(fuel, steps, h, 0, Seq::empty()) {
            let (t1, same) = s.in_env(env).steps_from(fuel, steps, g, 0, Seq::empty())->Ok_0;
            lemma_set_roots(s1, t1.cx.env, h.storages, h.inits, nexts, nexts.len());
        }
    } else {
        lemma_steps_rest(st, env, fuel, steps, h, g, 0, Seq::empty(), bound, names, known);
    }
}

#[verifier::rlimit(40)]
proof fn lemma_loop_rests(
    st: St,
    env: Around,
    fuel: nat,
    comp: Comp,
    bound: Names,
    names: Names,
    known: Names,
)
    requires
        comp is Loop,
        quiet_comp(comp, known),
        within(known, names),
        covers(names, bound, occ_comp(comp, bound)),
        agree(names, st.cx.env, env),
    ensures
        same_out(names, st.loop_code(fuel, comp), st.in_env(env).loop_code(fuel, comp)),
    decreases fuel, comp, 1int,
{
    broadcast use lemma_covers_both;

    if let Comp::Loop { vars, cond, steps, result } = comp {
        let n = vars@.len();
        let more = bound_vars(vars@, n, names);
        let inner = bound_vars(vars@, n, bound);
        lemma_vars_within(vars@, n, bound, names);
        lemma_loop_enter_rests(st, env, vars@, target(cond), steps, bound, names, known);
        lemma_covers_in(names, more, bound, inner, occ_ir(target(cond), inner));
        lemma_covers_in(names, more, bound, inner, occ_steps(steps, steps.len() as nat, inner));
        lemma_covers_in(names, more, bound, inner, occ_ir(target(result), inner));
        if let Ok((s, h)) = st.loop_enter(vars@, target(cond), steps) {
            let (t, g) = st.in_env(env).loop_enter(vars@, target(cond), steps)->Ok_0;
            lemma_loop_block_rests(s, t.cx.env, fuel, target(cond), inner, more, known);
            if let Ok(s1) = s.loop_test(fuel, target(cond), h) {
                let t1 = t.loop_test(fuel, target(cond), g)->Ok_0;
                let bounds = crate::loops::proved_bound(vars@, target(cond), steps@);
                let s2 = s1.note_bound(bounds);
                let t2 = t1.note_bound(bounds);
                assert(t2 == s2.in_env(g.env));
                lemma_loop_steps_rest(s2, g.env, fuel, steps, h, g, inner, more, known);
                if let Ok((s3, nexts)) = s2.loop_steps(fuel, steps, h) {
                    let (t3, same) = t2.loop_steps(fuel, steps, g)->Ok_0;
                    lemma_loop_edges(
                        s3.with_bounds(st.cx.bounds),
                        t3.cx.env,
                        h.phis,
                        nexts,
                        s3.cx.block,
                        h.phis.len(),
                    );
                    let s4 = s3.loop_close(h, nexts, st);
                    assert(t3.loop_close(g, nexts, st.in_env(env)) == s4.in_env(g.env));
                    a_lowered_block_rests_on_its_free_variables(
                        s4,
                        g.env,
                        fuel,
                        target(result),
                        inner,
                        more,
                        known,
                    );
                }
            }
        }
    }
}

proof fn lemma_handle_covered(comp: Comp, bound: Names, names: Names)
    requires
        comp is Handle,
        covers(names, bound, occ_comp(comp, bound)),
    ensures
        covers(names, bound, occ_ir(*comp->scrutinee, bound)),
        covers(
            names,
            bound,
            occ_ir(*comp->handler.ret.body, bound.insert(comp->handler.ret.var@)),
        ),
{
    if let Comp::Handle { scrutinee, handler } = comp {
        let h = target(handler);
        let first = occ_ir(target(scrutinee), bound);
        let ops = occ_ops(target(h.ops), h.ops.len() as nat, bound);
        let last = occ_ir(target(h.ret.body), bound.insert(h.ret.var@));
        lemma_covers_both(names, bound, first + ops, last);
        lemma_covers_both(names, bound, first, ops);
    }
}

#[verifier::rlimit(50)]
#[verifier::spinoff_prover]
proof fn lemma_handled_rests(
    st: St,
    env: Around,
    fuel: nat,
    comp: Comp,
    exit: Option<Exit>,
    bound: Names,
    names: Names,
    known: Names,
)
    requires
        comp is Handle,
        quiet_comp(comp, known),
        within(known, names),
        covers(names, bound, occ_comp(comp, bound)),
        agree(names, st.cx.env, env),
    ensures
        same_out(names, st.handled(fuel, comp, exit), st.in_env(env).handled(fuel, comp, exit)),
    decreases fuel, comp, 0int,
{
    lemma_handle_covered(comp, bound, names);
    if let Comp::Handle { scrutinee, handler } = comp {
        let hh = target(handler);
        let s = st.push_handler(hh, exit);
        a_lowered_block_rests_on_its_free_variables(
            s,
            env,
            fuel,
            target(scrutinee),
            bound,
            names,
            known,
        );
        if let Ok((s1, v)) = s.block(fuel, target(scrutinee)) {
            let (t1, w) = s.in_env(env).block(fuel, target(scrutinee))->Ok_0;
            let s2 = s1.with_handlers(st.cx.handlers).bind(
                hh.ret.var,
                v,
                hh.ret.var_ty,
                hh.ret.var_layout,
            );
            let t2 = t1.with_handlers(st.cx.handlers).bind(
                hh.ret.var,
                v,
                hh.ret.var_ty,
                hh.ret.var_layout,
            );
            let more = names.insert(hh.ret.var@);
            let inner = bound.insert(hh.ret.var@);
            assert(agree(more, s2.cx.env, t2.cx.env));
            assert(t2 == s2.in_env(t2.cx.env));
            lemma_covers_in(names, more, bound, inner, occ_ir(target(hh.ret.body), inner));
            a_lowered_block_rests_on_its_free_variables(
                s2,
                t2.cx.env,
                fuel,
                target(hh.ret.body),
                inner,
                more,
                known,
            );
            lemma_fewer(
                names,
                more,
                s2.block(fuel, target(hh.ret.body)),
                t2.block(fuel, target(hh.ret.body)),
            );
        }
    }
}

#[verifier::rlimit(40)]
proof fn lemma_handle_rests(
    st: St,
    env: Around,
    fuel: nat,
    comp: Comp,
    bound: Names,
    names: Names,
    known: Names,
)
    requires
        comp is Handle,
        quiet_comp(comp, known),
        within(known, names),
        covers(names, bound, occ_comp(comp, bound)),
        agree(names, st.cx.env, env),
    ensures
        same_out(names, st.handle(fuel, comp), st.in_env(env).handle(fuel, comp)),
    decreases fuel, comp, 1int,
{
    if let Comp::Handle { scrutinee, handler } = comp {
        if any_abort(target(handler).ops@) {
            let (s, slot) = st.def(Cmd::Alloca { ty: Ty::I64, label: "handle.slot" }, Ty::Ptr);
            let (s, exit) = s.new_block("handle.exit");
            lemma_handled_rests(
                s,
                env,
                fuel,
                comp,
                Some(Exit { block: exit, slot }),
                bound,
                names,
                known,
            );
        } else {
            lemma_handled_rests(st, env, fuel, comp, None, bound, names, known);
        }
    }
}

/// What a clause needs of its surroundings is free in its handler: where the handler is
/// lowered, it is in scope.
pub proof fn what_a_clause_needs_is_free_in_its_handler(
    comp: Comp,
    i: int,
    k: int,
    bound: Names,
)
    requires
        comp is Handle,
        0 <= i < comp->handler.ops.len(),
        0 <= k < clause_occ(comp->handler.ops[i]).len(),
    ensures
        bound.contains(clause_occ(comp->handler.ops[i])[k]@) || has_name(
            occ_comp(comp, bound),
            clause_occ(comp->handler.ops[i])[k]@,
        ),
{
    if let Comp::Handle { scrutinee, handler } = comp {
        let h = target(handler);
        let c = h.ops[i];
        let all = occ_comp(comp, bound);
        let names = bound.union(name_set(all));
        assert(covers(names, bound, all)) by {
            assert forall|j: int| 0 <= j < all.len() implies names.contains((#[trigger] all[j])@) by {
                assert(has_name(all, all[j]@));
            }
        }
        assert(covers(names, bound, occ_ops(target(h.ops), h.ops.len() as nat, bound))) by {
            broadcast use lemma_covers_both;

        }
        lemma_clause_covered(target(h.ops), h.ops.len() as nat, i, names, bound);
        let both = Set::<Seq<char>>::empty().insert(c.arg@).insert(c.resume@);
        binding_takes_away_its_occurrences(target(c.body), both, bound);
        assert(both.union(bound) =~= bound.insert(c.arg@).insert(c.resume@));
        lemma_left_within(clause_occ(c), bound, names);
        assert(names.contains(clause_occ(c)[k]@));
    }
}

proof fn lemma_clause_covered(ops: Vec<IrOpClause>, n: nat, i: int, names: Names, bound: Names)
    requires
        0 <= i < n <= ops.len(),
        covers(names, bound, occ_ops(ops, n, bound)),
    ensures
        covers(
            names,
            bound,
            occ_ir(target(ops[i].body), bound.insert(ops[i].arg@).insert(ops[i].resume@)),
        ),
    decreases n,
{
    broadcast use lemma_covers_both;

    if i < n - 1 {
        lemma_clause_covered(ops, (n - 1) as nat, i, names, bound);
    }
}

} // verus!
