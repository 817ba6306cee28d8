//! What is proved of free variables: what a program of integers means rests on
//! their words alone, and a lambda captures them all.
use crate::analysis::{comp_has_perform, performs_label};
use crate::captures::placed;
use crate::closures::{active_occ, capture_names, drop_name, frame_occ, frame_seen};
use crate::freevars::{
    bound_binds, bound_vars, no_bound_name_is_free, occ_atom, occ_binds, occ_comp, occ_inits,
    occ_ir, occ_steps,
};
use crate::ir::{
    target, Atom, Comp, Ir, IrBind, IrOpClause, Label, LoopVar, Type, ValueLayout,
};
use crate::layout::CaptureInfo;
use crate::names::{
    has_name, lemma_push_name, lemma_rank_bounds, name_set, sorted_names, sorted_names_is_sorted,
};
use crate::programs::{
    atom_word, comp_meaning, init_words, ir_meaning, loop_meaning, plain_binds, plain_comp,
    plain_ir, plain_steps, step_words, vars_from, vars_with, Meant, Names, Vars,
};
use crate::shape::{lemma_plain_bind, lemma_plain_step};
use crate::state::{Frames, St};
use std::rc::Rc;
use vstd::prelude::*;

verus! {

// ── what a program rests on ──────────────────────────────────────────────
/// The names have the same words.
pub open spec fn same(names: Names, a: Vars, b: Vars) -> bool {
    forall|x: Seq<char>| #[trigger] names.contains(x) ==> a[x] == b[x]
}

/// The names cover the bound ones and those that occur.
pub open spec fn covers(names: Names, bound: Names, occ: Seq<String>) -> bool {
    &&& forall|x: Seq<char>| #[trigger] bound.contains(x) ==> names.contains(x)
    &&& forall|i: int| 0 <= i < occ.len() ==> names.contains((#[trigger] occ[i])@)
}

pub broadcast proof fn lemma_covers_both(names: Names, bound: Names, a: Seq<String>, b: Seq<String>)
    ensures
        #[trigger] covers(names, bound, a + b) == (covers(names, bound, a) && covers(names, bound, b)),
{
    let c = a + b;
    if covers(names, bound, c) {
        assert forall|i: int| 0 <= i < a.len() implies names.contains((#[trigger] a[i])@) by {
            assert(c[i] == a[i]);
        }
        assert forall|i: int| 0 <= i < b.len() implies names.contains((#[trigger] b[i])@) by {
            assert(c[a.len() + i] == b[i]);
        }
    }
}

proof fn lemma_covers_more(names: Names, more: Names, bound: Names, occ: Seq<String>)
    requires
        covers(names, bound, occ),
        forall|x: Seq<char>| #[trigger] names.contains(x) ==> more.contains(x),
    ensures
        covers(more, bound, occ),
{
}

proof fn lemma_atom_same(a: Atom, names: Names, bound: Names, va: Vars, vb: Vars)
    requires
        covers(names, bound, occ_atom(a, bound)),
        same(names, va, vb),
    ensures
        atom_word(a, va) == atom_word(a, vb),
{
    if let Atom::Var(x) = a {
        if !bound.contains(x@) {
            assert(occ_atom(a, bound)[0] == x);
        }
        assert(names.contains(x@));
    }
}

proof fn lemma_inits_same(vars: Seq<LoopVar>, n: nat, names: Names, bound: Names, va: Vars, vb: Vars)
    requires
        n <= vars.len(),
        covers(names, bound, occ_inits(vars, n, bound)),
        same(names, va, vb),
    ensures
        forall|i: int| 0 <= i < n ==> atom_word((#[trigger] vars[i]).init, va) == atom_word(vars[i].init, vb),
    decreases n,
{
    broadcast use lemma_covers_both;

    if n > 0 {
        lemma_inits_same(vars, (n - 1) as nat, names, bound, va, vb);
        lemma_atom_same(vars[n - 1].init, names, bound, va, vb);
    }
}

/// The names with those of the first `n` accumulators.
pub open spec fn names_and(vars: Seq<LoopVar>, n: nat, names: Names) -> Names
    decreases n,
{
    if n == 0 {
        names
    } else {
        names_and(vars, (n - 1) as nat, names).insert(vars[n - 1].name@)
    }
}

proof fn lemma_inside_same(
    vars: Seq<LoopVar>,
    words: Seq<u64>,
    n: nat,
    names: Names,
    bound: Names,
    va: Vars,
    vb: Vars,
)
    requires
        n <= vars.len(),
        same(names, va, vb),
        forall|x: Seq<char>| #[trigger] bound.contains(x) ==> names.contains(x),
    ensures
        same(names_and(vars, n, names), vars_with(vars, words, n, va), vars_with(vars, words, n, vb)),
        forall|x: Seq<char>| #[trigger] names.contains(x) ==> names_and(vars, n, names).contains(x),
        forall|x: Seq<char>| #[trigger]
            bound_vars(vars, n, bound).contains(x) ==> names_and(vars, n, names).contains(x),
    decreases n,
{
    if n > 0 {
        lemma_inside_same(vars, words, (n - 1) as nat, names, bound, va, vb);
        assert forall|x: Seq<char>| #[trigger] bound_vars(vars, n, bound).contains(x) implies names_and(
            vars,
            n,
            names,
        ).contains(x) by {
            if x != vars[n - 1].name@ {
                assert(bound_vars(vars, (n - 1) as nat, bound).contains(x));
            }
        }
    }
}

proof fn lemma_covers_rebound(names: Names, bound: Names, other: Names, occ: Seq<String>)
    requires
        covers(names, bound, occ),
        forall|x: Seq<char>| #[trigger] other.contains(x) ==> names.contains(x),
    ensures
        covers(names, other, occ),
{
}

pub(crate) proof fn lemma_comp_same(comp: Comp, names: Names, bound: Names, va: Vars, vb: Vars, turns: nat)
    requires
        plain_comp(comp, false),
        covers(names, bound, occ_comp(comp, bound)),
        same(names, va, vb),
    ensures
        comp_meaning(comp, va, turns) == comp_meaning(comp, vb, turns),
    decreases comp, turns + 1,
{
    broadcast use lemma_covers_both;

    match comp {
        Comp::Atom(a) => {
            lemma_atom_same(a, names, bound, va, vb);
        },
        Comp::Bin(_, a, b) => {
            lemma_atom_same(a, names, bound, va, vb);
            lemma_atom_same(b, names, bound, va, vb);
        },
        Comp::If(c, yes, no) => {
            lemma_atom_same(c, names, bound, va, vb);
            lemma_ir_same(target(yes), names, bound, va, vb, turns);
            lemma_ir_same(target(no), names, bound, va, vb, turns);
        },
        Comp::Loop { vars, .. } => {
            lemma_inits_same(vars@, vars@.len(), names, bound, va, vb);
            assert(init_words(vars@, va) =~= init_words(vars@, vb));
            lemma_loop_same(comp, names, bound, va, vb, init_words(vars@, va), turns, turns);
        },
        _ => {},
    }
}

proof fn lemma_loop_same(
    comp: Comp,
    names: Names,
    bound: Names,
    va: Vars,
    vb: Vars,
    words: Seq<u64>,
    turns: nat,
    left: nat,
)
    requires
        comp is Loop,
        plain_comp(comp, false),
        covers(names, bound, occ_comp(comp, bound)),
        same(names, va, vb),
    ensures
        loop_meaning(comp, va, words, turns, left) == loop_meaning(comp, vb, words, turns, left),
    decreases comp, left,
{
    broadcast use lemma_covers_both;

    if let Comp::Loop { vars, cond, steps, result } = comp {
        let inner = bound_vars(vars@, vars.len() as nat, bound);
        let more = names_and(vars@, vars@.len(), names);
        lemma_inside_same(vars@, words, vars@.len(), names, bound, va, vb);
        let ia = vars_with(vars@, words, vars@.len(), va);
        let ib = vars_with(vars@, words, vars@.len(), vb);
        let c = occ_ir(target(cond), inner);
        let s = occ_steps(steps, steps.len() as nat, inner);
        let r = occ_ir(target(result), inner);
        assert(covers(names, bound, c) && covers(names, bound, s) && covers(names, bound, r));
        lemma_covers_more(names, more, bound, c);
        lemma_covers_more(names, more, bound, s);
        lemma_covers_more(names, more, bound, r);
        lemma_covers_rebound(more, bound, inner, c);
        lemma_covers_rebound(more, bound, inner, s);
        lemma_covers_rebound(more, bound, inner, r);
        lemma_ir_same(target(cond), more, inner, ia, ib, turns);
        lemma_ir_same(target(result), more, inner, ia, ib, turns);
        lemma_steps_same(steps, 0, more, inner, ia, ib, turns);
        if left > 0 {
            if let Ok(next) = step_words(steps, 0, ia, turns) {
                lemma_loop_same(comp, names, bound, va, vb, next, turns, (left - 1) as nat);
            }
        }
    }
}

proof fn lemma_steps_prefix(steps: Vec<Ir>, n: nat, i: int, names: Names, bound: Names)
    requires
        i < n <= steps.len(),
        0 <= i,
        covers(names, bound, occ_steps(steps, n, bound)),
    ensures
        covers(names, bound, occ_ir(steps[i], bound)),
    decreases n,
{
    broadcast use lemma_covers_both;

    if i < n - 1 {
        lemma_steps_prefix(steps, (n - 1) as nat, i, names, bound);
    }
}

proof fn lemma_steps_same(
    steps: Vec<Ir>,
    i: nat,
    names: Names,
    bound: Names,
    va: Vars,
    vb: Vars,
    turns: nat,
)
    requires
        plain_steps(steps, steps.len() as nat, false),
        covers(names, bound, occ_steps(steps, steps.len() as nat, bound)),
        same(names, va, vb),
    ensures
        step_words(steps, i, va, turns) == step_words(steps, i, vb, turns),
    decreases steps, steps.len() - i,
{
    if i < steps.len() {
        lemma_plain_step(steps, steps.len() as nat, i as int, false);
        lemma_steps_prefix(steps, steps.len() as nat, i as int, names, bound);
        lemma_ir_same(steps[i as int], names, bound, va, vb, turns);
        lemma_steps_same(steps, i + 1, names, bound, va, vb, turns);
    }
}

proof fn lemma_ir_same(ir: Ir, names: Names, bound: Names, va: Vars, vb: Vars, turns: nat)
    requires
        plain_ir(ir, false),
        covers(names, bound, occ_ir(ir, bound)),
        same(names, va, vb),
    ensures
        ir_meaning(ir, va, turns) == ir_meaning(ir, vb, turns),
    decreases ir, 0nat,
{
    broadcast use lemma_covers_both;

    match ir {
        Ir::Block { binds, comp, .. } => {
            let last = bound_binds(binds@, binds.len() as nat, bound);
            let more = names.union(last);
            lemma_binds_same(binds, 0, names, bound, va, vb, turns);
            lemma_covers_more(names, more, bound, occ_comp(target(comp), last));
            lemma_covers_rebound(more, bound, last, occ_comp(target(comp), last));
            if let (Ok(a), Ok(b)) = (vars_from(binds, 0, va, turns), vars_from(binds, 0, vb, turns)) {
                lemma_comp_same(target(comp), more, last, a, b, turns);
            }
        },
        Ir::Let { name, comp, rest, .. } => {
            lemma_comp_same(target(comp), names, bound, va, vb, turns);
            if let Meant::Word(w) = comp_meaning(target(comp), va, turns) {
                lemma_ir_same(
                    target(rest),
                    names.insert(name@),
                    bound.insert(name@),
                    va.insert(name@, w),
                    vb.insert(name@, w),
                    turns,
                );
            }
        },
        Ir::Ret { comp, .. } => {
            lemma_comp_same(target(comp), names, bound, va, vb, turns);
        },
    }
}

proof fn lemma_binds_prefix(binds: Vec<IrBind>, n: nat, i: int, names: Names, bound: Names)
    requires
        0 <= i < n <= binds.len(),
        covers(names, bound, occ_binds(binds, n, bound)),
    ensures
        covers(names, bound, occ_comp(target(binds[i].comp), bound_binds(binds@, i as nat, bound))),
    decreases n,
{
    broadcast use lemma_covers_both;

    if i < n - 1 {
        lemma_binds_prefix(binds, (n - 1) as nat, i, names, bound);
    }
}

proof fn lemma_binds_same(
    binds: Vec<IrBind>,
    i: nat,
    names: Names,
    bound: Names,
    va: Vars,
    vb: Vars,
    turns: nat,
)
    requires
        i <= binds.len(),
        plain_binds(binds, binds.len() as nat, false),
        covers(names, bound, occ_binds(binds, binds.len() as nat, bound)),
        forall|x: Seq<char>| #[trigger]
            bound_binds(binds@, i, bound).contains(x) ==> names.contains(x),
        same(names, va, vb),
    ensures
        match (vars_from(binds, i, va, turns), vars_from(binds, i, vb, turns)) {
            (Ok(a), Ok(b)) => same(
                names.union(bound_binds(binds@, binds.len() as nat, bound)),
                a,
                b,
            ),
            (Err(a), Err(b)) => a == b,
            _ => false,
        },
    decreases binds, binds.len() - i,
{
    let at = bound_binds(binds@, i, bound);
    if i < binds.len() {
        let b = binds[i as int];
        lemma_plain_bind(binds, binds.len() as nat, i as int, false);
        lemma_binds_prefix(binds, binds.len() as nat, i as int, names, bound);
        lemma_covers_rebound(names, bound, at, occ_comp(target(b.comp), at));
        lemma_comp_same(target(b.comp), names, at, va, vb, turns);
        if let Meant::Word(w) = comp_meaning(target(b.comp), va, turns) {
            let more = names.insert(b.name@);
            lemma_covers_more(names, more, bound, occ_binds(binds, binds.len() as nat, bound));
            assert(same(more, va.insert(b.name@, w), vb.insert(b.name@, w)));
            lemma_binds_same(
                binds,
                i + 1,
                more,
                bound,
                va.insert(b.name@, w),
                vb.insert(b.name@, w),
                turns,
            );
            let last = bound_binds(binds@, binds.len() as nat, bound);
            if let (Ok(a), Ok(b)) = (vars_from(binds, i, va, turns), vars_from(binds, i, vb, turns)) {
                assert forall|x: Seq<char>| #[trigger] names.union(last).contains(x) implies a[x] == b[x] by {
                    assert(more.union(last).contains(x));
                }
            }
        }
    } else {
        assert(same(names.union(at), va, vb));
    }
}

/// What a block of integers means rests on the words of its free variables alone.
pub proof fn a_block_rests_on_its_free_variables(ir: Ir, va: Vars, vb: Vars, turns: nat)
    requires
        plain_ir(ir, false),
        forall|i: int|
            0 <= i < occ_ir(ir, Set::empty()).len() ==> va[(#[trigger] occ_ir(ir, Set::empty())[i])@]
                == vb[occ_ir(ir, Set::empty())[i]@],
    ensures
        ir_meaning(ir, va, turns) == ir_meaning(ir, vb, turns),
{
    let occ = occ_ir(ir, Set::empty());
    let names = name_set(occ);
    assert forall|i: int| 0 <= i < occ.len() implies names.contains((#[trigger] occ[i])@) by {
        assert(has_name(occ, occ[i]@));
    }
    lemma_ir_same(ir, names, Set::empty(), va, vb, turns);
}

// ── what a lambda captures ───────────────────────────────────────────────
pub(crate) proof fn lemma_comp_performs(comp: Comp, label: Label)
    requires
        plain_comp(comp, false),
    ensures
        !comp_has_perform(comp, label),
    decreases comp, 0nat,
{
    match comp {
        Comp::If(_, yes, no) => {
            lemma_ir_performs(target(yes), label);
            lemma_ir_performs(target(no), label);
        },
        Comp::Loop { cond, steps, result, .. } => {
            lemma_ir_performs(target(cond), label);
            lemma_ir_performs(target(result), label);
            lemma_steps_perform(steps, steps.len() as nat, label);
        },
        _ => {},
    }
}

proof fn lemma_steps_perform(steps: Vec<Ir>, n: nat, label: Label)
    requires
        n <= steps.len(),
        plain_steps(steps, n, false),
    ensures
        forall|i: int| 0 <= i < n ==> !performs_label(#[trigger] steps[i], label),
    decreases steps, n,
{
    if n > 0 {
        lemma_steps_perform(steps, (n - 1) as nat, label);
        lemma_ir_performs(steps[n - 1], label);
    }
}

proof fn lemma_binds_perform(binds: Vec<IrBind>, n: nat, label: Label)
    requires
        n <= binds.len(),
        plain_binds(binds, n, false),
    ensures
        forall|i: int| 0 <= i < n ==> !comp_has_perform(*(#[trigger] binds[i]).comp, label),
    decreases binds, n,
{
    if n > 0 {
        lemma_binds_perform(binds, (n - 1) as nat, label);
        lemma_comp_performs(target(binds[n - 1].comp), label);
    }
}

/// A program of integers performs nothing.
pub(crate) proof fn lemma_ir_performs(ir: Ir, label: Label)
    requires
        plain_ir(ir, false),
    ensures
        !performs_label(ir, label),
    decreases ir, 0nat,
{
    match ir {
        Ir::Block { binds, comp, .. } => {
            lemma_binds_perform(binds, binds.len() as nat, label);
            lemma_comp_performs(target(comp), label);
        },
        Ir::Let { comp, rest, .. } => {
            lemma_comp_performs(target(comp), label);
            lemma_ir_performs(target(rest), label);
        },
        Ir::Ret { comp, .. } => {
            lemma_comp_performs(target(comp), label);
        },
    }
}

proof fn lemma_frame_silent(body: Ir, clauses: Seq<IrOpClause>, i: nat, seen: Seq<Label>)
    requires
        forall|label: Label| !#[trigger] performs_label(body, label),
    ensures
        frame_occ(body, clauses, i, seen) == Seq::<String>::empty(),
    decreases clauses.len() - i,
{
    if i < clauses.len() {
        let c = clauses[i as int];
        lemma_frame_silent(body, clauses, i + 1, seen);
        lemma_frame_silent(body, clauses, i + 1, seen.push(c.op));
        assert(!performs_label(body, c.op));
        assert(Seq::<String>::empty() + Seq::<String>::empty() =~= Seq::<String>::empty());
    }
}

/// The handlers in force need nothing for a body that performs nothing.
pub(crate) proof fn lemma_active_silent(body: Ir, frames: Frames, seen: Seq<Label>)
    requires
        forall|label: Label| !#[trigger] performs_label(body, label),
    ensures
        active_occ(body, frames, seen) == Seq::<String>::empty(),
    decreases frames,
{
    if let Frames::More { clauses, rest, .. } = frames {
        lemma_frame_silent(body, clauses@, 0, seen);
        lemma_active_silent(body, target(rest), frame_seen(clauses@, 0, seen));
        assert(Seq::<String>::empty() + Seq::<String>::empty() =~= Seq::<String>::empty());
    }
}

pub(crate) proof fn lemma_drop_name(list: Seq<String>, x: Seq<char>)
    ensures
        name_set(drop_name(list, x)) == name_set(list).remove(x),
    decreases list.len(),
{
    let dropped = drop_name(list, x);
    if list.len() > 0 {
        let front = list.drop_last();
        lemma_drop_name(front, x);
        assert(list =~= front.push(list.last()));
        lemma_push_name(front, list.last());
        if list.last()@ != x {
            lemma_push_name(drop_name(front, x), list.last());
        }
    }
    assert(name_set(dropped) =~= name_set(list).remove(x));
}

/// A capture is of the function itself, or of a variable in scope.
pub open spec fn comes_from(st: St, own: Option<String>, own_ty: Rc<Type>, cap: CaptureInfo) -> bool {
    if own matches Some(o) && o@ == cap.name@ {
        cap.ty == own_ty && cap.layout == ValueLayout::pointer_cell_layout()
    } else {
        st.cx.env.get(cap.name@) matches Some(e) && e.ty == cap.ty && e.layout == cap.layout
    }
}

pub(crate) proof fn lemma_placed_names(
    st: St,
    own: Option<String>,
    own_ty: Rc<Type>,
    names: Seq<String>,
    i: nat,
    done: Seq<CaptureInfo>,
)
    requires
        i == done.len() <= names.len(),
        forall|k: int| 0 <= k < done.len() ==> (#[trigger] done[k]).name == names[k],
        forall|k: int| 0 <= k < done.len() ==> comes_from(st, own, own_ty, #[trigger] done[k]),
        st.place_captures(own, own_ty, names, i, done) is Ok,
    ensures
        ({
            let caps = st.place_captures(own, own_ty, names, i, done)->Ok_0;
            &&& caps.len() == names.len()
            &&& forall|k: int| 0 <= k < caps.len() ==> (#[trigger] caps[k]).name == names[k]
            &&& forall|k: int| 0 <= k < caps.len() ==> comes_from(st, own, own_ty, #[trigger] caps[k])
        }),
    decreases names.len() - i,
{
    if i < names.len() {
        let (ty, layout) = st.captured_var(own, own_ty, names[i as int])->Ok_0;
        let next = done.push(placed(names[i as int], ty, layout, done));
        assert forall|k: int| 0 <= k < next.len() implies (#[trigger] next[k]).name == names[k] by {
            if k < done.len() {
                assert(next[k] == done[k]);
            }
        }
        assert forall|k: int| 0 <= k < next.len() implies comes_from(st, own, own_ty, #[trigger] next[k]) by {
            if k < done.len() {
                assert(next[k] == done[k]);
            }
        }
        lemma_placed_names(st, own, own_ty, names, i + 1, next);
    }
}

/// The names of captures.
pub open spec fn cap_names(caps: Seq<CaptureInfo>) -> Names {
    Set::new(|x: Seq<char>| exists|k: int| 0 <= k < caps.len() && (#[trigger] caps[k]).name@ == x)
}

/// A lambda that performs nothing captures its free variables and nothing else, each
/// with the type and the layout that it has in scope.
pub proof fn a_lambda_captures_its_free_variables(
    st: St,
    own: Option<String>,
    own_ty: Rc<Type>,
    body: Ir,
    param: Seq<char>,
)
    requires
        forall|label: Label| !#[trigger] performs_label(body, label),
        st.place_captures(
            own,
            own_ty,
            capture_names(body, param, *st.cx.handlers),
            0,
            Seq::empty(),
        ) is Ok,
    ensures
        ({
            let caps = st.place_captures(
                own,
                own_ty,
                capture_names(body, param, *st.cx.handlers),
                0,
                Seq::empty(),
            )->Ok_0;
            &&& cap_names(caps) == name_set(occ_ir(body, Set::empty().insert(param)))
            &&& caps.len() <= occ_ir(body, Set::empty().insert(param)).len()
            &&& forall|k: int| 0 <= k < caps.len() ==> comes_from(st, own, own_ty, #[trigger] caps[k])
        }),
{
    let bound = Set::empty().insert(param);
    let occ = occ_ir(body, bound);
    let names = capture_names(body, param, target(st.cx.handlers));
    lemma_active_silent(body, target(st.cx.handlers), Seq::empty());
    assert(occ + Seq::<String>::empty() =~= occ);
    lemma_drop_name(occ, param);
    sorted_names_is_sorted(drop_name(occ, param));
    assert(!has_name(occ, param)) by {
        if has_name(occ, param) {
            let k = choose|k: int| 0 <= k < occ.len() && (#[trigger] occ[k])@ == param;
            no_bound_name_is_free(body, bound, k);
        }
    }
    assert(name_set(names) =~= name_set(occ));
    lemma_placed_names(st, own, own_ty, names, 0, Seq::empty());
    let caps = st.place_captures(own, own_ty, names, 0, Seq::empty())->Ok_0;
    assert forall|x: Seq<char>| #[trigger] cap_names(caps).contains(x) == name_set(names).contains(x) by {
        if cap_names(caps).contains(x) {
            let k = choose|k: int| 0 <= k < caps.len() && (#[trigger] caps[k]).name@ == x;
            assert(names[k]@ == x);
        }
        if has_name(names, x) {
            let k = choose|k: int| 0 <= k < names.len() && (#[trigger] names[k])@ == x;
            assert(caps[k].name@ == x);
        }
    }
    assert(cap_names(caps) =~= name_set(occ));
    lemma_fewer_names(occ, param);
}

proof fn lemma_fewer_names(list: Seq<String>, x: Seq<char>)
    ensures
        sorted_names(drop_name(list, x)).len() <= list.len(),
    decreases list.len(),
{
    if list.len() > 0 {
        let front = list.drop_last();
        lemma_fewer_names(front, x);
        if list.last()@ != x {
            let kept = drop_name(front, x);
            assert(kept.push(list.last()).drop_last() =~= kept);
            lemma_rank_bounds(sorted_names(kept), list.last()@);
        }
    }
}

} // verus!
