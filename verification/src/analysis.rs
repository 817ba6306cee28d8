//! Questions the code generator asks of a program before it emits anything.
use crate::ir::{Atom, Comp, Ir, IrBind, IrHandler, Label};
use crate::layout::{loop_var_uses_root, rooted};
use vstd::prelude::*;

verus! {

// ── the managed heap ─────────────────────────────────────────────────────
/// A block performs the `gc` effect: some row of it mentions the managed heap,
/// or a computation in it needs the collector's runtime. The latent effect of a
/// nested lambda is not counted: its body opens a scope of its own.
pub open spec fn performs_gc(ir: Ir) -> bool
    decreases ir,
{
    match ir {
        Ir::Block { binds, row, comp } => {
            ||| exists|i: int|
                0 <= i < binds.len() && ((#[trigger] binds[i]).row.mentions_gc()
                    || needs_gc_runtime(*binds[i].comp))
            ||| row.mentions_gc()
            ||| needs_gc_runtime(*comp)
        },
        Ir::Let { row, comp, rest, .. } => row.mentions_gc() || needs_gc_runtime(*comp)
            || performs_gc(*rest),
        Ir::Ret { row, comp } => row.mentions_gc() || needs_gc_runtime(*comp),
    }
}

/// A computation needs the collector's runtime for a block nested in it, or for
/// a loop accumulator that is kept in a root.
pub open spec fn needs_gc_runtime(comp: Comp) -> bool
    decreases comp,
{
    match comp {
        Comp::If(_, yes, no) => performs_gc(*yes) || performs_gc(*no),
        Comp::Loop { vars, cond, steps, result } => {
            ||| exists|i: int| 0 <= i < vars.len() && rooted((#[trigger] vars[i]).layout)
            ||| performs_gc(*cond)
            ||| exists|i: int| 0 <= i < steps.len() && performs_gc(#[trigger] steps[i])
            ||| performs_gc(*result)
        },
        Comp::Quote(body) | Comp::Letloc(body) => performs_gc(*body),
        Comp::Handle { scrutinee, handler } => {
            ||| performs_gc(*scrutinee)
            ||| exists|i: int|
                0 <= i < handler.ops.len() && performs_gc(*(#[trigger] handler.ops[i]).body)
            ||| performs_gc(*handler.ret.body)
        },
        _ => false,
    }
}

/// Whether a block performs the `gc` effect.
#[verifier::loop_isolation(false)]
pub fn block_performs_gc(ir: &Ir) -> (r: bool)
    ensures
        r == performs_gc(*ir),
    decreases ir,
{
    match ir {
        Ir::Block { binds, row, comp } => {
            let mut i: usize = 0;
            while i < binds.len()
                invariant
                    i <= binds.len(),
                    forall|j: int|
                        0 <= j < i ==> !((#[trigger] binds[j]).row.mentions_gc()
                            || needs_gc_runtime(*binds[j].comp)),
                decreases binds.len() - i,
            {
                let bind = &binds[i];
                if bind.row.has_gc() || comp_needs_gc_runtime(&bind.comp) {
                    assert(binds[i as int].row.mentions_gc() || needs_gc_runtime(
                        *binds[i as int].comp,
                    ));
                    return true;
                }
                i = i + 1;
            }
            row.has_gc() || comp_needs_gc_runtime(comp)
        },
        Ir::Let { row, comp, rest, .. } => row.has_gc() || comp_needs_gc_runtime(comp)
            || block_performs_gc(rest),
        Ir::Ret { row, comp } => row.has_gc() || comp_needs_gc_runtime(comp),
    }
}

/// Whether a computation needs the collector's runtime.
#[verifier::loop_isolation(false)]
pub fn comp_needs_gc_runtime(comp: &Comp) -> (r: bool)
    ensures
        r == needs_gc_runtime(*comp),
    decreases comp,
{
    match comp {
        Comp::If(_, yes, no) => block_performs_gc(yes) || block_performs_gc(no),
        Comp::Loop { vars, cond, steps, result } => {
            let mut i: usize = 0;
            while i < vars.len()
                invariant
                    i <= vars.len(),
                    forall|j: int| 0 <= j < i ==> !rooted((#[trigger] vars[j]).layout),
                decreases vars.len() - i,
            {
                if loop_var_uses_root(vars[i].layout) {
                    assert(rooted(vars[i as int].layout));
                    return true;
                }
                i = i + 1;
            }
            if block_performs_gc(cond) {
                return true;
            }
            let mut k: usize = 0;
            while k < steps.len()
                invariant
                    k <= steps.len(),
                    forall|j: int| 0 <= j < k ==> !performs_gc(#[trigger] steps[j]),
                decreases steps.len() - k,
            {
                if block_performs_gc(&steps[k]) {
                    assert(performs_gc(steps[k as int]));
                    return true;
                }
                k = k + 1;
            }
            block_performs_gc(result)
        },
        Comp::Quote(body) | Comp::Letloc(body) => block_performs_gc(body),
        Comp::Handle { scrutinee, handler } => {
            if block_performs_gc(scrutinee) {
                return true;
            }
            let ops = &handler.ops;
            let mut i: usize = 0;
            while i < ops.len()
                invariant
                    i <= ops.len(),
                    ops == handler.ops,
                    forall|j: int| 0 <= j < i ==> !performs_gc(*(#[trigger] ops[j]).body),
                decreases ops.len() - i,
            {
                if block_performs_gc(&ops[i].body) {
                    assert(performs_gc(*ops[i as int].body));
                    return true;
                }
                i = i + 1;
            }
            block_performs_gc(&handler.ret.body)
        },
        _ => false,
    }
}

// ── blocks that yield handles ────────────────────────────────────────────
/// Some computation of the block yields a handle that must be rooted.
pub open spec fn produces_handle(ir: Ir) -> bool
    decreases ir,
{
    match ir {
        Ir::Block { binds, comp, .. } => {
            ||| exists|i: int|
                0 <= i < binds.len() && comp_yields_handle(*(#[trigger] binds[i]).comp)
            ||| comp_yields_handle(*comp)
        },
        Ir::Let { comp, rest, .. } => comp_yields_handle(*comp) || produces_handle(*rest),
        Ir::Ret { comp, .. } => comp_yields_handle(*comp),
    }
}

/// The computation yields a handle: it allocates, or reads a traced value, or a
/// block nested in it does.
pub open spec fn comp_yields_handle(comp: Comp) -> bool
    decreases comp,
{
    match comp {
        Comp::Atom(Atom::Str(_)) => true,
        Comp::Lam { .. } | Comp::Tuple(_) | Comp::ArrayLit { .. } | Comp::RefNew(_, _) => true,
        Comp::App { ret_layout, .. } => ret_layout.gc_reachable(),
        Comp::Proj { layout, .. } => layout.gc_reachable(),
        Comp::ArrayGet { elem_layout, .. } => elem_layout.gc_reachable(),
        Comp::If(_, yes, no) => produces_handle(*yes) || produces_handle(*no),
        Comp::Loop { cond, steps, result, .. } => {
            ||| produces_handle(*cond)
            ||| exists|i: int| 0 <= i < steps.len() && produces_handle(#[trigger] steps[i])
            ||| produces_handle(*result)
        },
        Comp::Quote(body) | Comp::Letloc(body) => produces_handle(*body),
        Comp::Handle { scrutinee, handler } => {
            ||| produces_handle(*scrutinee)
            ||| exists|i: int|
                0 <= i < handler.ops.len() && produces_handle(*(#[trigger] handler.ops[i]).body)
            ||| produces_handle(*handler.ret.body)
        },
        _ => false,
    }
}

/// Whether some computation of the block yields a handle.
#[verifier::loop_isolation(false)]
pub fn block_produces_gc_handle(ir: &Ir) -> (r: bool)
    ensures
        r == produces_handle(*ir),
    decreases ir,
{
    match ir {
        Ir::Block { binds, comp, .. } => {
            let mut i: usize = 0;
            while i < binds.len()
                invariant
                    i <= binds.len(),
                    forall|j: int|
                        0 <= j < i ==> !comp_yields_handle(*(#[trigger] binds[j]).comp),
                decreases binds.len() - i,
            {
                if comp_produces_gc_handle(&binds[i].comp) {
                    assert(comp_yields_handle(*binds[i as int].comp));
                    return true;
                }
                i = i + 1;
            }
            comp_produces_gc_handle(comp)
        },
        Ir::Let { comp, rest, .. } => comp_produces_gc_handle(comp) || block_produces_gc_handle(
            rest,
        ),
        Ir::Ret { comp, .. } => comp_produces_gc_handle(comp),
    }
}

/// Whether the computation yields a handle.
#[verifier::loop_isolation(false)]
pub fn comp_produces_gc_handle(comp: &Comp) -> (r: bool)
    ensures
        r == comp_yields_handle(*comp),
    decreases comp,
{
    match comp {
        Comp::Atom(Atom::Str(_)) => true,
        Comp::Lam { .. } | Comp::Tuple(_) | Comp::ArrayLit { .. } | Comp::RefNew(_, _) => true,
        Comp::App { ret_layout, .. } => ret_layout.is_gc_reachable(),
        Comp::Proj { layout, .. } => layout.is_gc_reachable(),
        Comp::ArrayGet { elem_layout, .. } => elem_layout.is_gc_reachable(),
        Comp::If(_, yes, no) => block_produces_gc_handle(yes) || block_produces_gc_handle(no),
        Comp::Loop { cond, steps, result, .. } => {
            if block_produces_gc_handle(cond) {
                return true;
            }
            let mut k: usize = 0;
            while k < steps.len()
                invariant
                    k <= steps.len(),
                    forall|j: int| 0 <= j < k ==> !produces_handle(#[trigger] steps[j]),
                decreases steps.len() - k,
            {
                if block_produces_gc_handle(&steps[k]) {
                    assert(produces_handle(steps[k as int]));
                    return true;
                }
                k = k + 1;
            }
            block_produces_gc_handle(result)
        },
        Comp::Quote(body) | Comp::Letloc(body) => block_produces_gc_handle(body),
        Comp::Handle { scrutinee, handler } => {
            if block_produces_gc_handle(scrutinee) {
                return true;
            }
            let ops = &handler.ops;
            let mut i: usize = 0;
            while i < ops.len()
                invariant
                    i <= ops.len(),
                    ops == handler.ops,
                    forall|j: int| 0 <= j < i ==> !produces_handle(*(#[trigger] ops[j]).body),
                decreases ops.len() - i,
            {
                if block_produces_gc_handle(&ops[i].body) {
                    assert(produces_handle(*ops[i as int].body));
                    return true;
                }
                i = i + 1;
            }
            block_produces_gc_handle(&handler.ret.body)
        },
        _ => false,
    }
}

// ── blocks that keep raw heap pointers valid ─────────────────────────────
/// Nothing in the block can move a heap object, so a raw pointer to an object's
/// fields stays valid across it.
pub open spec fn keeps_raw_ptrs(ir: Ir) -> bool
    decreases ir,
{
    match ir {
        Ir::Block { binds, comp, .. } => {
            &&& forall|i: int|
                0 <= i < binds.len() ==> comp_keeps_raw_ptrs(*(#[trigger] binds[i]).comp)
            &&& comp_keeps_raw_ptrs(*comp)
        },
        Ir::Let { comp, rest, .. } => comp_keeps_raw_ptrs(*comp) && keeps_raw_ptrs(*rest),
        Ir::Ret { comp, .. } => comp_keeps_raw_ptrs(*comp),
    }
}

/// The computation cannot move a heap object: it neither allocates nor runs code
/// that is not in sight (a call, a foreign call, a handler).
pub open spec fn comp_keeps_raw_ptrs(comp: Comp) -> bool
    decreases comp,
{
    match comp {
        Comp::Atom(Atom::Str(_)) => false,
        Comp::App { .. } | Comp::Call { .. } | Comp::Foreign(_, _, _) | Comp::Lam { .. }
        | Comp::Perform(_, _) | Comp::Tuple(_) | Comp::ArrayLit { .. } | Comp::RefNew(_, _)
        | Comp::Handle { .. } => false,
        Comp::If(_, yes, no) => keeps_raw_ptrs(*yes) && keeps_raw_ptrs(*no),
        Comp::Loop { cond, steps, result, .. } => {
            &&& keeps_raw_ptrs(*cond)
            &&& forall|i: int| 0 <= i < steps.len() ==> keeps_raw_ptrs(#[trigger] steps[i])
            &&& keeps_raw_ptrs(*result)
        },
        Comp::Quote(body) | Comp::Letloc(body) => keeps_raw_ptrs(*body),
        _ => true,
    }
}

/// Whether raw heap pointers stay valid across the block.
#[verifier::loop_isolation(false)]
pub fn block_preserves_raw_heap_ptrs(ir: &Ir) -> (r: bool)
    ensures
        r == keeps_raw_ptrs(*ir),
    decreases ir,
{
    match ir {
        Ir::Block { binds, comp, .. } => {
            let mut i: usize = 0;
            while i < binds.len()
                invariant
                    i <= binds.len(),
                    forall|j: int|
                        0 <= j < i ==> comp_keeps_raw_ptrs(*(#[trigger] binds[j]).comp),
                decreases binds.len() - i,
            {
                if !comp_preserves_raw_heap_ptrs(&binds[i].comp) {
                    assert(!comp_keeps_raw_ptrs(*binds[i as int].comp));
                    return false;
                }
                i = i + 1;
            }
            comp_preserves_raw_heap_ptrs(comp)
        },
        Ir::Let { comp, rest, .. } => comp_preserves_raw_heap_ptrs(comp)
            && block_preserves_raw_heap_ptrs(rest),
        Ir::Ret { comp, .. } => comp_preserves_raw_heap_ptrs(comp),
    }
}

/// Whether raw heap pointers stay valid across the computation.
#[verifier::loop_isolation(false)]
pub fn comp_preserves_raw_heap_ptrs(comp: &Comp) -> (r: bool)
    ensures
        r == comp_keeps_raw_ptrs(*comp),
    decreases comp,
{
    match comp {
        Comp::Atom(Atom::Str(_)) => false,
        Comp::App { .. } | Comp::Call { .. } | Comp::Foreign(_, _, _) | Comp::Lam { .. }
        | Comp::Perform(_, _) | Comp::Tuple(_) | Comp::ArrayLit { .. } | Comp::RefNew(_, _)
        | Comp::Handle { .. } => false,
        Comp::If(_, yes, no) => block_preserves_raw_heap_ptrs(yes)
            && block_preserves_raw_heap_ptrs(no),
        Comp::Loop { cond, steps, result, .. } => {
            if !block_preserves_raw_heap_ptrs(cond) {
                return false;
            }
            let mut k: usize = 0;
            while k < steps.len()
                invariant
                    k <= steps.len(),
                    forall|j: int| 0 <= j < k ==> keeps_raw_ptrs(#[trigger] steps[j]),
                decreases steps.len() - k,
            {
                if !block_preserves_raw_heap_ptrs(&steps[k]) {
                    assert(!keeps_raw_ptrs(steps[k as int]));
                    return false;
                }
                k = k + 1;
            }
            block_preserves_raw_heap_ptrs(result)
        },
        Comp::Quote(body) | Comp::Letloc(body) => block_preserves_raw_heap_ptrs(body),
        _ => true,
    }
}

// ── what a block binds ───────────────────────────────────────────────────
/// Some binder in the block, at any depth, binds the name.
pub open spec fn binds_name(ir: Ir, target: Seq<char>) -> bool
    decreases ir,
{
    match ir {
        Ir::Block { binds, comp, .. } => {
            ||| exists|i: int|
                0 <= i < binds.len() && ((#[trigger] binds[i]).name@ == target
                    || comp_has_binder(*binds[i].comp, target))
            ||| comp_has_binder(*comp, target)
        },
        Ir::Let { name, comp, rest, .. } => name@ == target || comp_has_binder(*comp, target)
            || binds_name(*rest, target),
        Ir::Ret { comp, .. } => comp_has_binder(*comp, target),
    }
}

/// Some binder in the computation, at any depth, binds the name.
pub open spec fn comp_has_binder(comp: Comp, target: Seq<char>) -> bool
    decreases comp,
{
    match comp {
        Comp::If(_, yes, no) => binds_name(*yes, target) || binds_name(*no, target),
        Comp::Loop { vars, cond, steps, result } => {
            ||| exists|i: int| 0 <= i < vars.len() && (#[trigger] vars[i]).name@ == target
            ||| binds_name(*cond, target)
            ||| exists|i: int| 0 <= i < steps.len() && binds_name(#[trigger] steps[i], target)
            ||| binds_name(*result, target)
        },
        Comp::Lam { param, body, .. } => param@ == target || binds_name(*body, target),
        Comp::Quote(body) | Comp::Letloc(body) => binds_name(*body, target),
        Comp::Handle { scrutinee, handler } => {
            ||| binds_name(*scrutinee, target)
            ||| exists|i: int|
                0 <= i < handler.ops.len() && ((#[trigger] handler.ops[i]).arg@ == target
                    || handler.ops[i].resume@ == target || binds_name(
                    *handler.ops[i].body,
                    target,
                ))
            ||| handler.ret.var@ == target
            ||| binds_name(*handler.ret.body, target)
        },
        _ => false,
    }
}

/// Whether some binder in the block binds the name.
#[verifier::loop_isolation(false)]
pub fn block_binds_name(ir: &Ir, target: &String) -> (r: bool)
    ensures
        r == binds_name(*ir, target@),
    decreases ir,
{
    match ir {
        Ir::Block { binds, comp, .. } => {
            let mut i: usize = 0;
            while i < binds.len()
                invariant
                    i <= binds.len(),
                    forall|j: int|
                        0 <= j < i ==> !((#[trigger] binds[j]).name@ == target@
                            || comp_has_binder(*binds[j].comp, target@)),
                decreases binds.len() - i,
            {
                if binds[i].name == *target || comp_binds_name(&binds[i].comp, target) {
                    assert(binds[i as int].name@ == target@ || comp_has_binder(
                        *binds[i as int].comp,
                        target@,
                    ));
                    return true;
                }
                i = i + 1;
            }
            comp_binds_name(comp, target)
        },
        Ir::Let { name, comp, rest, .. } => *name == *target || comp_binds_name(comp, target)
            || block_binds_name(rest, target),
        Ir::Ret { comp, .. } => comp_binds_name(comp, target),
    }
}

/// Whether some binder in the computation binds the name.
#[verifier::loop_isolation(false)]
pub fn comp_binds_name(comp: &Comp, target: &String) -> (r: bool)
    ensures
        r == comp_has_binder(*comp, target@),
    decreases comp,
{
    match comp {
        Comp::If(_, yes, no) => block_binds_name(yes, target) || block_binds_name(no, target),
        Comp::Loop { vars, cond, steps, result } => {
            let mut i: usize = 0;
            while i < vars.len()
                invariant
                    i <= vars.len(),
                    forall|j: int| 0 <= j < i ==> (#[trigger] vars[j]).name@ != target@,
                decreases vars.len() - i,
            {
                if vars[i].name == *target {
                    assert(vars[i as int].name@ == target@);
                    return true;
                }
                i = i + 1;
            }
            if block_binds_name(cond, target) {
                return true;
            }
            let mut k: usize = 0;
            while k < steps.len()
                invariant
                    k <= steps.len(),
                    forall|j: int| 0 <= j < k ==> !binds_name(#[trigger] steps[j], target@),
                decreases steps.len() - k,
            {
                if block_binds_name(&steps[k], target) {
                    assert(binds_name(steps[k as int], target@));
                    return true;
                }
                k = k + 1;
            }
            block_binds_name(result, target)
        },
        Comp::Lam { param, body, .. } => *param == *target || block_binds_name(body, target),
        Comp::Quote(body) | Comp::Letloc(body) => block_binds_name(body, target),
        Comp::Handle { scrutinee, handler } => {
            if block_binds_name(scrutinee, target) {
                return true;
            }
            let ops = &handler.ops;
            let mut i: usize = 0;
            while i < ops.len()
                invariant
                    i <= ops.len(),
                    forall|j: int|
                        0 <= j < i ==> !((#[trigger] ops[j]).arg@ == target@ || ops[j].resume@
                            == target@ || binds_name(*ops[j].body, target@)),
                decreases ops.len() - i,
            {
                if ops[i].arg == *target || ops[i].resume == *target || block_binds_name(
                    &ops[i].body,
                    target,
                ) {
                    assert(ops[i as int].arg@ == target@ || ops[i as int].resume@ == target@
                        || binds_name(*ops[i as int].body, target@));
                    return true;
                }
                i = i + 1;
            }
            handler.ret.var == *target || block_binds_name(&handler.ret.body, target)
        },
        _ => false,
    }
}

// ── what a block performs ────────────────────────────────────────────────
/// Some computation in the block, at any depth, performs the operation.
pub open spec fn performs_label(ir: Ir, label: Label) -> bool
    decreases ir,
{
    match ir {
        Ir::Block { binds, comp, .. } => {
            ||| exists|i: int|
                0 <= i < binds.len() && comp_has_perform(*(#[trigger] binds[i]).comp, label)
            ||| comp_has_perform(*comp, label)
        },
        Ir::Let { comp, rest, .. } => comp_has_perform(*comp, label) || performs_label(
            *rest,
            label,
        ),
        Ir::Ret { comp, .. } => comp_has_perform(*comp, label),
    }
}

/// The computation performs the operation, or a block nested in it does.
pub open spec fn comp_has_perform(comp: Comp, label: Label) -> bool
    decreases comp,
{
    match comp {
        Comp::Perform(op, _) => op.same(label),
        Comp::If(_, yes, no) => performs_label(*yes, label) || performs_label(*no, label),
        Comp::Loop { cond, steps, result, .. } => {
            ||| performs_label(*cond, label)
            ||| exists|i: int| 0 <= i < steps.len() && performs_label(#[trigger] steps[i], label)
            ||| performs_label(*result, label)
        },
        Comp::Lam { body, .. } => performs_label(*body, label),
        Comp::Quote(body) | Comp::Letloc(body) => performs_label(*body, label),
        Comp::Handle { scrutinee, handler } => {
            ||| performs_label(*scrutinee, label)
            ||| exists|i: int|
                0 <= i < handler.ops.len() && performs_label(
                    *(#[trigger] handler.ops[i]).body,
                    label,
                )
            ||| performs_label(*handler.ret.body, label)
        },
        _ => false,
    }
}

/// Whether some computation in the block performs the operation.
#[verifier::loop_isolation(false)]
pub fn block_performs_label(ir: &Ir, label: &Label) -> (r: bool)
    ensures
        r == performs_label(*ir, *label),
    decreases ir,
{
    match ir {
        Ir::Block { binds, comp, .. } => {
            let mut i: usize = 0;
            while i < binds.len()
                invariant
                    i <= binds.len(),
                    forall|j: int|
                        0 <= j < i ==> !comp_has_perform(*(#[trigger] binds[j]).comp, *label),
                decreases binds.len() - i,
            {
                if comp_performs_label(&binds[i].comp, label) {
                    assert(comp_has_perform(*binds[i as int].comp, *label));
                    return true;
                }
                i = i + 1;
            }
            comp_performs_label(comp, label)
        },
        Ir::Let { comp, rest, .. } => comp_performs_label(comp, label) || block_performs_label(
            rest,
            label,
        ),
        Ir::Ret { comp, .. } => comp_performs_label(comp, label),
    }
}

/// Whether the computation, or a block nested in it, performs the operation.
#[verifier::loop_isolation(false)]
pub fn comp_performs_label(comp: &Comp, label: &Label) -> (r: bool)
    ensures
        r == comp_has_perform(*comp, *label),
    decreases comp,
{
    match comp {
        Comp::Perform(op, _) => op.is(label),
        Comp::If(_, yes, no) => block_performs_label(yes, label) || block_performs_label(
            no,
            label,
        ),
        Comp::Loop { cond, steps, result, .. } => {
            if block_performs_label(cond, label) {
                return true;
            }
            let mut k: usize = 0;
            while k < steps.len()
                invariant
                    k <= steps.len(),
                    forall|j: int| 0 <= j < k ==> !performs_label(#[trigger] steps[j], *label),
                decreases steps.len() - k,
            {
                if block_performs_label(&steps[k], label) {
                    assert(performs_label(steps[k as int], *label));
                    return true;
                }
                k = k + 1;
            }
            block_performs_label(result, label)
        },
        Comp::Lam { body, .. } => block_performs_label(body, label),
        Comp::Quote(body) | Comp::Letloc(body) => block_performs_label(body, label),
        Comp::Handle { scrutinee, handler } => {
            if block_performs_label(scrutinee, label) {
                return true;
            }
            let ops = &handler.ops;
            let mut i: usize = 0;
            while i < ops.len()
                invariant
                    i <= ops.len(),
                    forall|j: int|
                        0 <= j < i ==> !performs_label(*(#[trigger] ops[j]).body, *label),
                decreases ops.len() - i,
            {
                if block_performs_label(&ops[i].body, label) {
                    assert(performs_label(*ops[i as int].body, *label));
                    return true;
                }
                i = i + 1;
            }
            block_performs_label(&handler.ret.body, label)
        },
        _ => false,
    }
}

/// The handler has a clause for the operation.
pub open spec fn handles(handler: IrHandler, op: Label) -> bool {
    exists|i: int| 0 <= i < handler.ops.len() && (#[trigger] handler.ops[i]).op.same(op)
}

/// The position of the handler's first clause for the operation.
pub open spec fn clause_index(handler: IrHandler, op: Label) -> int {
    choose|i: int|
        0 <= i < handler.ops.len() && (#[trigger] handler.ops[i]).op.same(op) && forall|j: int|
            0 <= j < i ==> !(#[trigger] handler.ops[j]).op.same(op)
}

/// The position of the handler's clause for the operation, if it has one.
pub fn find_clause(handler: &IrHandler, op: &Label) -> (r: Option<usize>)
    ensures
        r is Some == handles(*handler, *op),
        r matches Some(i) ==> i == clause_index(*handler, *op) && i < handler.ops.len(),
{
    let ops = &handler.ops;
    let mut i: usize = 0;
    while i < ops.len()
        invariant
            i <= ops.len(),
            ops == handler.ops,
            forall|j: int| 0 <= j < i ==> !(#[trigger] ops[j]).op.same(*op),
        decreases ops.len() - i,
    {
        if ops[i].op.is(op) {
            assert(handler.ops[i as int].op.same(*op));
            assert(i == clause_index(*handler, *op));
            return Some(i);
        }
        i = i + 1;
    }
    None
}

/// The computation performs, itself, an operation that the handler handles.
pub open spec fn is_handled_perform(comp: Comp, handler: IrHandler) -> bool {
    comp matches Comp::Perform(op, _) && handles(handler, op)
}

/// Some computation in the block performs an operation that the handler handles.
pub open spec fn performs_handled(ir: Ir, handler: IrHandler) -> bool
    decreases ir,
{
    match ir {
        Ir::Block { binds, comp, .. } => {
            ||| exists|i: int|
                0 <= i < binds.len() && (is_handled_perform(*(#[trigger] binds[i]).comp, handler)
                    || hides_handled(*binds[i].comp, handler))
            ||| is_handled_perform(*comp, handler)
            ||| hides_handled(*comp, handler)
        },
        Ir::Let { comp, rest, .. } => is_handled_perform(*comp, handler) || hides_handled(
            *comp,
            handler,
        ) || performs_handled(*rest, handler),
        Ir::Ret { comp, .. } => is_handled_perform(*comp, handler) || hides_handled(
            *comp,
            handler,
        ),
    }
}

/// A block nested in the computation (a branch, a loop, a lambda, a quotation, a
/// handler) performs an operation that the handler handles.
pub open spec fn hides_handled(comp: Comp, handler: IrHandler) -> bool
    decreases comp,
{
    match comp {
        Comp::If(_, yes, no) => performs_handled(*yes, handler) || performs_handled(*no, handler),
        Comp::Loop { cond, steps, result, .. } => {
            ||| performs_handled(*cond, handler)
            ||| exists|i: int|
                0 <= i < steps.len() && performs_handled(#[trigger] steps[i], handler)
            ||| performs_handled(*result, handler)
        },
        Comp::Lam { body, .. } => performs_handled(*body, handler),
        Comp::Quote(body) | Comp::Letloc(body) => performs_handled(*body, handler),
        Comp::Handle { scrutinee, handler: inner } => {
            ||| performs_handled(*scrutinee, handler)
            ||| exists|i: int|
                0 <= i < inner.ops.len() && performs_handled(
                    *(#[trigger] inner.ops[i]).body,
                    handler,
                )
            ||| performs_handled(*inner.ret.body, handler)
        },
        _ => false,
    }
}

/// Whether the computation performs, itself, an operation the handler handles.
fn performs_directly(comp: &Comp, handler: &IrHandler) -> (r: bool)
    ensures
        r == is_handled_perform(*comp, *handler),
{
    match comp {
        Comp::Perform(op, _) => find_clause(handler, op).is_some(),
        _ => false,
    }
}

/// A computation that is itself a `perform` hides none.
pub proof fn lemma_perform_hides_nothing(comp: Comp, handler: IrHandler)
    requires
        comp is Perform,
    ensures
        !hides_handled(comp, handler),
{
}

/// Whether some computation in the block performs a handled operation.
#[verifier::loop_isolation(false)]
pub fn block_performs(ir: &Ir, handler: &IrHandler) -> (r: bool)
    ensures
        r == performs_handled(*ir, *handler),
    decreases ir,
{
    match ir {
        Ir::Block { binds, comp, .. } => {
            let mut i: usize = 0;
            while i < binds.len()
                invariant
                    i <= binds.len(),
                    forall|j: int|
                        0 <= j < i ==> !(is_handled_perform(*(#[trigger] binds[j]).comp, *handler)
                            || hides_handled(*binds[j].comp, *handler)),
                decreases binds.len() - i,
            {
                if performs_directly(&binds[i].comp, handler) || comp_performs(
                    &binds[i].comp,
                    handler,
                ) {
                    assert(is_handled_perform(*binds[i as int].comp, *handler) || hides_handled(
                        *binds[i as int].comp,
                        *handler,
                    ));
                    return true;
                }
                i = i + 1;
            }
            performs_directly(comp, handler) || comp_performs(comp, handler)
        },
        Ir::Let { comp, rest, .. } => performs_directly(comp, handler) || comp_performs(
            comp,
            handler,
        ) || block_performs(rest, handler),
        Ir::Ret { comp, .. } => performs_directly(comp, handler) || comp_performs(comp, handler),
    }
}

/// Whether a block nested in the computation performs a handled operation.
#[verifier::loop_isolation(false)]
pub fn comp_performs(comp: &Comp, handler: &IrHandler) -> (r: bool)
    ensures
        r == hides_handled(*comp, *handler),
    decreases comp,
{
    match comp {
        Comp::If(_, yes, no) => block_performs(yes, handler) || block_performs(no, handler),
        Comp::Loop { cond, steps, result, .. } => {
            if block_performs(cond, handler) {
                return true;
            }
            let mut k: usize = 0;
            while k < steps.len()
                invariant
                    k <= steps.len(),
                    forall|j: int| 0 <= j < k ==> !performs_handled(#[trigger] steps[j], *handler),
                decreases steps.len() - k,
            {
                if block_performs(&steps[k], handler) {
                    assert(performs_handled(steps[k as int], *handler));
                    return true;
                }
                k = k + 1;
            }
            block_performs(result, handler)
        },
        Comp::Lam { body, .. } => block_performs(body, handler),
        Comp::Quote(body) | Comp::Letloc(body) => block_performs(body, handler),
        Comp::Handle { scrutinee, handler: inner } => {
            if block_performs(scrutinee, handler) {
                return true;
            }
            let ops = &inner.ops;
            let mut i: usize = 0;
            while i < ops.len()
                invariant
                    i <= ops.len(),
                    forall|j: int|
                        0 <= j < i ==> !performs_handled(*(#[trigger] ops[j]).body, *handler),
                decreases ops.len() - i,
            {
                if block_performs(&ops[i].body, handler) {
                    assert(performs_handled(*ops[i as int].body, *handler));
                    return true;
                }
                i = i + 1;
            }
            block_performs(&inner.ret.body, handler)
        },
        _ => false,
    }
}

/// Every handled operation of the block is performed at its top level.
pub open spec fn captured(block: Ir, handler: IrHandler) -> bool
    decreases block,
{
    match block {
        Ir::Block { binds, comp, .. } => captured_from(binds@, 0, handler) && !hides_handled(
            *comp,
            handler,
        ),
        Ir::Let { comp, rest, .. } => !hides_handled(*comp, handler) && captured(*rest, handler),
        Ir::Ret { comp, .. } => !hides_handled(*comp, handler),
    }
}

/// No binding from position `i` on performs a handled operation in a nested block.
pub open spec fn captured_from(binds: Seq<IrBind>, i: nat, handler: IrHandler) -> bool
    decreases binds.len() - i,
{
    i >= binds.len() || (!hides_handled(*binds[i as int].comp, handler) && captured_from(
        binds,
        i + 1,
        handler,
    ))
}

} // verus!
