//! What a loop lets the code generator hoist or drop: raw array borrows and
//! array bounds that the loop guard proves.
use crate::analysis::{binds_name, block_binds_name, comp_binds_name, comp_has_binder};
use crate::ir::{Atom, BinOp, Comp, Ir, IrBind, IrOpClause, LoopVar, Type, ValueLayout};
use crate::names::{add_names, contains_name, lemma_add_names_concat};
use vstd::prelude::*;

verus! {

broadcast use lemma_add_names_concat;

// ── arrays whose payload a loop reads or writes ──────────────────────────
/// An element this wide is read and written through a borrowed payload pointer.
pub open spec fn raw_elem(layout: ValueLayout) -> bool {
    layout.scalar_only() && (layout.byte_width == 1 || layout.byte_width == 2 || layout.byte_width
        == 4 || layout.byte_width == 8)
}

/// A vector lane that lies directly in an array's payload.
pub open spec fn raw_lane(ty: Type) -> bool {
    ty is Float32 || ty is Float
}

/// Whether `elem_ty` is a vector lane that lies directly in an array's payload.
pub fn is_vector_lane_raw_array_elem(elem_ty: &Type) -> (r: bool)
    ensures
        r == raw_lane(*elem_ty),
{
    matches!(elem_ty, Type::Float32 | Type::Float)
}

/// The variable an atom is, as a list of one name or none.
pub open spec fn var_name(atom: Atom) -> Seq<String> {
    match atom {
        Atom::Var(x) => seq![x],
        _ => Seq::empty(),
    }
}

/// The arrays of a block that can be borrowed, one entry per use, in order.
pub open spec fn raw_uses(ir: Ir) -> Seq<String>
    decreases ir, 0nat,
{
    match ir {
        Ir::Block { binds, comp, .. } => raw_uses_binds(binds, binds.len() as nat) + raw_uses_comp(
            *comp,
        ),
        Ir::Let { comp, rest, .. } => raw_uses_comp(*comp) + raw_uses(*rest),
        Ir::Ret { comp, .. } => raw_uses_comp(*comp),
    }
}

/// The uses in the first `n` bindings.
pub open spec fn raw_uses_binds(binds: Vec<IrBind>, n: nat) -> Seq<String>
    decreases binds, n,
{
    if n == 0 || n > binds.len() {
        Seq::empty()
    } else {
        raw_uses_binds(binds, (n - 1) as nat) + raw_uses_comp(*binds[n - 1].comp)
    }
}

/// The uses in the first `n` steps.
pub open spec fn raw_uses_steps(steps: Vec<Ir>, n: nat) -> Seq<String>
    decreases steps, n,
{
    if n == 0 || n > steps.len() {
        Seq::empty()
    } else {
        raw_uses_steps(steps, (n - 1) as nat) + raw_uses(steps[n - 1])
    }
}

/// The uses in the first `n` clauses.
pub open spec fn raw_uses_ops(ops: Vec<IrOpClause>, n: nat) -> Seq<String>
    decreases ops, n,
{
    if n == 0 || n > ops.len() {
        Seq::empty()
    } else {
        raw_uses_ops(ops, (n - 1) as nat) + raw_uses(*ops[n - 1].body)
    }
}

/// The arrays of a computation that can be borrowed, one entry per use.
pub open spec fn raw_uses_comp(comp: Comp) -> Seq<String>
    decreases comp, 0nat,
{
    match comp {
        Comp::Len(arr) => var_name(arr),
        Comp::ArrayGet { arr, elem_layout, .. } => if raw_elem(elem_layout) {
            var_name(arr)
        } else {
            Seq::empty()
        },
        Comp::ArraySet { arr, elem_layout, .. } => if raw_elem(elem_layout) {
            var_name(arr)
        } else {
            Seq::empty()
        },
        Comp::VectorLoad { arr, elem_ty, .. } => if raw_lane(*elem_ty) {
            var_name(arr)
        } else {
            Seq::empty()
        },
        Comp::VectorStore { arr, elem_ty, .. } => if raw_lane(*elem_ty) {
            var_name(arr)
        } else {
            Seq::empty()
        },
        Comp::If(_, yes, no) => raw_uses(*yes) + raw_uses(*no),
        Comp::Loop { cond, steps, result, .. } => raw_uses(*cond) + raw_uses_steps(
            steps,
            steps.len() as nat,
        ) + raw_uses(*result),
        Comp::Quote(body) | Comp::Letloc(body) => raw_uses(*body),
        Comp::Handle { scrutinee, handler } => raw_uses(*scrutinee) + raw_uses_ops(
            *handler.ops,
            handler.ops.len() as nat,
        ) + raw_uses(*handler.ret.body),
        _ => Seq::empty(),
    }
}

/// Add the variable an atom is.
fn collect_raw_array_atom(atom: &Atom, out: &mut Vec<String>)
    ensures
        final(out)@ == add_names(old(out)@, var_name(*atom)),
{
    if let Atom::Var(name) = atom {
        proof {
            assert(var_name(*atom).drop_last() =~= Seq::<String>::empty());
            reveal_with_fuel(add_names, 2);
        }
        if !contains_name(out, name) {
            out.push(name.clone());
        }
    }
}

/// Whether an element of this layout is reached through a borrowed pointer.
fn is_raw_elem(layout: ValueLayout) -> (r: bool)
    ensures
        r == raw_elem(layout),
{
    layout.is_scalar_only() && (layout.byte_width == 1 || layout.byte_width == 2
        || layout.byte_width == 4 || layout.byte_width == 8)
}

/// Add to `out` the arrays of the block that can be borrowed, each once, in the
/// order of their first use.
#[verifier::loop_isolation(false)]
pub fn collect_raw_array_uses(ir: &Ir, out: &mut Vec<String>)
    ensures
        final(out)@ == add_names(old(out)@, raw_uses(*ir)),
    decreases ir,
{
    match ir {
        Ir::Block { binds, comp, .. } => {
            let ghost start = out@;
            let mut i: usize = 0;
            while i < binds.len()
                invariant
                    i <= binds.len(),
                    out@ == add_names(start, raw_uses_binds(*binds, i as nat)),
                decreases binds.len() - i,
            {
                collect_raw_array_uses_comp(&binds[i].comp, out);
                i = i + 1;
            }
            collect_raw_array_uses_comp(comp, out);
        },
        Ir::Let { comp, rest, .. } => {
            let ghost start = out@;
            collect_raw_array_uses_comp(comp, out);
            collect_raw_array_uses(rest, out);
        },
        Ir::Ret { comp, .. } => collect_raw_array_uses_comp(comp, out),
    }
}

/// Add to `out` the arrays of the computation that can be borrowed.
#[verifier::loop_isolation(false)]
pub fn collect_raw_array_uses_comp(comp: &Comp, out: &mut Vec<String>)
    ensures
        final(out)@ == add_names(old(out)@, raw_uses_comp(*comp)),
    decreases comp,
{
    let ghost start = out@;
    match comp {
        Comp::Len(arr) => collect_raw_array_atom(arr, out),
        Comp::ArrayGet { arr, elem_layout, .. } => {
            if is_raw_elem(*elem_layout) {
                collect_raw_array_atom(arr, out)
            }
        },
        Comp::ArraySet { arr, elem_layout, .. } => {
            if is_raw_elem(*elem_layout) {
                collect_raw_array_atom(arr, out)
            }
        },
        Comp::VectorLoad { arr, elem_ty, .. } => {
            if is_vector_lane_raw_array_elem(elem_ty) {
                collect_raw_array_atom(arr, out)
            }
        },
        Comp::VectorStore { arr, elem_ty, .. } => {
            if is_vector_lane_raw_array_elem(elem_ty) {
                collect_raw_array_atom(arr, out)
            }
        },
        Comp::If(_, yes, no) => {
            collect_raw_array_uses(yes, out);
            collect_raw_array_uses(no, out);
        },
        Comp::Loop { cond, steps, result, .. } => {
            collect_raw_array_uses(cond, out);
            let mut k: usize = 0;
            while k < steps.len()
                invariant
                    k <= steps.len(),
                    out@ == add_names(start, raw_uses(**cond) + raw_uses_steps(*steps, k as nat)),
                decreases steps.len() - k,
            {
                collect_raw_array_uses(&steps[k], out);
                proof {
                    assert(raw_uses(**cond) + raw_uses_steps(*steps, k as nat) + raw_uses(
                        steps[k as int],
                    ) =~= raw_uses(**cond) + raw_uses_steps(*steps, (k + 1) as nat));
                }
                k = k + 1;
            }
            collect_raw_array_uses(result, out);
        },
        Comp::Quote(body) | Comp::Letloc(body) => collect_raw_array_uses(body, out),
        Comp::Handle { scrutinee, handler } => {
            collect_raw_array_uses(scrutinee, out);
            let ops = &handler.ops;
            let mut i: usize = 0;
            while i < ops.len()
                invariant
                    i <= ops.len(),
                    out@ == add_names(start, raw_uses(**scrutinee) + raw_uses_ops(**ops, i as nat)),
                decreases ops.len() - i,
            {
                collect_raw_array_uses(&ops[i].body, out);
                proof {
                    assert(raw_uses(**scrutinee) + raw_uses_ops(**ops, i as nat) + raw_uses(
                        *ops[i as int].body,
                    ) =~= raw_uses(**scrutinee) + raw_uses_ops(**ops, (i + 1) as nat));
                }
                i = i + 1;
            }
            collect_raw_array_uses(&handler.ret.body, out);
        },
        _ => {},
    }
}

// ── bounds that the loop guard proves ────────────────────────────────────
/// No array is longer, as its elements lie in memory.
pub const LONGEST: i64 = 0x4000_0000_0000_0000;

/// The value of `comp` is that of the variable `name` or more: a step that cannot
/// wrap where the variable is less than the length of an array.
pub open spec fn not_less_than(comp: Comp, name: Seq<char>) -> bool {
    match comp {
        Comp::Atom(Atom::Var(x)) => x@ == name,
        Comp::Bin(BinOp::Add, Atom::Var(x), Atom::Int(n)) => x@ == name && 0 <= n <= LONGEST,
        Comp::Bin(BinOp::Add, Atom::Int(n), Atom::Var(x)) => x@ == name && 0 <= n <= LONGEST,
        _ => false,
    }
}

/// The step leaves the accumulator as it is or adds to it, and nothing in it rebinds
/// the accumulator's name.
pub open spec fn grows(name: Seq<char>, step: Ir) -> bool
    decreases step,
{
    match step {
        Ir::Block { binds, comp, .. } => {
            &&& forall|i: int|
                0 <= i < binds.len() ==> (#[trigger] binds[i]).name@ != name && !comp_has_binder(
                    *binds[i].comp,
                    name,
                )
            &&& not_less_than(*comp, name)
        },
        Ir::Let { name: bound, comp, rest, .. } => bound@ != name && !comp_has_binder(*comp, name)
            && grows(name, *rest),
        Ir::Ret { comp, .. } => not_less_than(*comp, name),
    }
}

/// Whether `comp` is the variable `name`, or that and a step that cannot wrap.
fn is_not_less_than(comp: &Comp, name: &String) -> (r: bool)
    ensures
        r == not_less_than(*comp, name@),
{
    match comp {
        Comp::Atom(Atom::Var(x)) => *x == *name,
        Comp::Bin(BinOp::Add, Atom::Var(x), Atom::Int(n)) => *x == *name && 0 <= *n && *n <= LONGEST,
        Comp::Bin(BinOp::Add, Atom::Int(n), Atom::Var(x)) => *x == *name && 0 <= *n && *n <= LONGEST,
        _ => false,
    }
}

/// Whether the step leaves an accumulator that the guard holds below something as it
/// is, or adds to it.
#[verifier::loop_isolation(false)]
pub fn step_preserves_nonnegative_loop_var(name: &String, step: &Ir) -> (r: bool)
    ensures
        r == grows(name@, *step),
    decreases step,
{
    match step {
        Ir::Block { binds, comp, .. } => {
            let mut i: usize = 0;
            while i < binds.len()
                invariant
                    i <= binds.len(),
                    forall|j: int|
                        0 <= j < i ==> (#[trigger] binds[j]).name@ != name@ && !comp_has_binder(
                            *binds[j].comp,
                            name@,
                        ),
                decreases binds.len() - i,
            {
                if binds[i].name == *name || comp_binds_name(&binds[i].comp, name) {
                    assert(binds[i as int].name@ == name@ || comp_has_binder(
                        *binds[i as int].comp,
                        name@,
                    ));
                    return false;
                }
                i = i + 1;
            }
            is_not_less_than(comp, name)
        },
        Ir::Let { name: bound, comp, rest, .. } => *bound != *name && !comp_binds_name(comp, name)
            && step_preserves_nonnegative_loop_var(name, rest),
        Ir::Ret { comp, .. } => is_not_less_than(comp, name),
    }
}

/// The accumulator at position `i` starts at a constant that is not negative
/// and its step never makes it less while the guard holds.
pub open spec fn nonnegative_at(vars: Seq<LoopVar>, steps: Seq<Ir>, i: int) -> bool {
    0 <= i < vars.len() && i < steps.len() && (vars[i].init matches Atom::Int(n) && n >= 0)
        && grows(vars[i].name@, steps[i])
}

/// The accumulator at position `i` is the one that the name stands for: the last of
/// that name.
pub open spec fn stands_for(vars: Seq<LoopVar>, name: Seq<char>, i: int) -> bool {
    &&& 0 <= i < vars.len()
    &&& vars[i].name@ == name
    &&& forall|j: int| i < j < vars.len() ==> (#[trigger] vars[j]).name@ != name
}

/// The accumulator of this name is never negative.
pub open spec fn nonnegative(vars: Seq<LoopVar>, steps: Seq<Ir>, name: Seq<char>) -> bool {
    exists|i: int| #[trigger] stands_for(vars, name, i) && nonnegative_at(vars, steps, i)
}

/// Whether the accumulator of this name is never negative.
fn is_nonnegative_loop_var(vars: &Vec<LoopVar>, steps: &Vec<Ir>, name: &String) -> (r: bool)
    ensures
        r == nonnegative(vars@, steps@, name@),
{
    let mut i: usize = vars.len();
    while i > 0
        invariant
            i <= vars.len(),
            forall|j: int| i <= j < vars.len() ==> (#[trigger] vars@[j]).name@ != name@,
        decreases i,
    {
        i = i - 1;
        if vars[i].name == *name {
            assert(stands_for(vars@, name@, i as int));
            let starts = match vars[i].init {
                Atom::Int(n) => n >= 0,
                _ => false,
            };
            let good = i < steps.len() && starts && step_preserves_nonnegative_loop_var(
                &vars[i].name,
                &steps[i],
            );
            proof {
                assert(good == nonnegative_at(vars@, steps@, i as int));
                assert forall|j: int| #[trigger] stands_for(vars@, name@, j) implies j == i by {
                    if j < i {
                        assert(vars@[i as int].name@ == name@);
                    }
                    if i < j {
                        assert(vars@[j].name@ != name@);
                    }
                }
            }
            return good;
        }
    }
    assert(forall|j: int| !#[trigger] stands_for(vars@, name@, j));
    false
}

/// The array whose length each variable holds.
pub type Lens = Map<Seq<char>, String>;

/// What is known of lengths after the first `n` bindings.
pub open spec fn lens_after(binds: Seq<IrBind>, n: nat, lens: Lens) -> Lens
    decreases n,
{
    if n == 0 || n > binds.len() {
        lens
    } else {
        let bind = binds[n - 1];
        lens_with(lens_after(binds, (n - 1) as nat, lens), bind.name@, *bind.comp)
    }
}

/// What is known of lengths once `name` is bound to `comp`.
pub open spec fn lens_with(lens: Lens, name: Seq<char>, comp: Comp) -> Lens {
    match comp {
        Comp::Len(Atom::Var(arr)) => lens.insert(name, arr),
        _ => lens.remove(name),
    }
}

/// The array and the index of a guard `index < length of array`.
pub open spec fn guard_of(comp: Comp, lens: Lens) -> Option<(String, String)> {
    match comp {
        Comp::Bin(BinOp::Lt, Atom::Var(idx), Atom::Var(bound)) => if lens.dom().contains(bound@) {
            Some((lens[bound@], idx))
        } else {
            None
        },
        _ => None,
    }
}

/// The array and the index that a loop condition compares.
pub open spec fn upper_bound(ir: Ir, lens: Lens) -> Option<(String, String)>
    decreases ir,
{
    match ir {
        Ir::Block { binds, comp, .. } => guard_of(
            *comp,
            lens_after(binds@, binds.len() as nat, lens),
        ),
        Ir::Let { name, comp, rest, .. } => upper_bound(*rest, lens_with(lens, name@, *comp)),
        Ir::Ret { comp, .. } => guard_of(*comp, lens),
    }
}

/// The map that a list of names stands for: a later entry wins, and one without an
/// array says that the name holds no length any more.
pub open spec fn as_lens(list: Seq<(String, Option<String>)>) -> Lens
    decreases list.len(),
{
    if list.len() == 0 {
        Map::empty()
    } else {
        match list.last().1 {
            Some(arr) => as_lens(list.drop_last()).insert(list.last().0@, arr),
            None => as_lens(list.drop_last()).remove(list.last().0@),
        }
    }
}

/// The array whose length `name` holds.
fn find_len(lens: &Vec<(String, Option<String>)>, name: &String) -> (r: Option<String>)
    ensures
        r is Some == as_lens(lens@).dom().contains(name@),
        r matches Some(arr) ==> arr == as_lens(lens@)[name@],
{
    let mut i: usize = lens.len();
    proof {
        assert(lens@.take(i as int) =~= lens@);
    }
    while i > 0
        invariant
            i <= lens.len(),
            as_lens(lens@).dom().contains(name@) == as_lens(lens@.take(i as int)).dom().contains(
                name@,
            ),
            as_lens(lens@).dom().contains(name@) ==> as_lens(lens@)[name@] == as_lens(
                lens@.take(i as int),
            )[name@],
        decreases i,
    {
        i = i - 1;
        proof {
            assert(lens@.take(i + 1).drop_last() =~= lens@.take(i as int));
            assert(lens@.take(i + 1).last() == lens@[i as int]);
        }
        if lens[i].0 == *name {
            return match &lens[i].1 {
                Some(arr) => Some(arr.clone()),
                None => None,
            };
        }
    }
    proof {
        assert(lens@.take(0) =~= Seq::empty());
    }
    None
}

/// Note that `name` holds the length of an array, or no longer does.
fn note_len(lens: &mut Vec<(String, Option<String>)>, name: &String, comp: &Comp)
    ensures
        as_lens(final(lens)@) == lens_with(as_lens(old(lens)@), name@, *comp),
{
    let arr: Option<String> = match comp {
        Comp::Len(Atom::Var(arr)) => Some(arr.clone()),
        _ => None,
    };
    lens.push((name.clone(), arr));
    proof {
        assert(lens@.drop_last() =~= old(lens)@);
    }
}

/// The array and index of a guard.
fn find_guard(comp: &Comp, lens: &Vec<(String, Option<String>)>) -> (r: Option<(String, String)>)
    ensures
        r == guard_of(*comp, as_lens(lens@)),
{
    match comp {
        Comp::Bin(BinOp::Lt, Atom::Var(idx), Atom::Var(bound)) => {
            match find_len(lens, bound) {
                Some(arr) => Some((arr, idx.clone())),
                None => None,
            }
        },
        _ => None,
    }
}

/// The array and index that a loop condition compares: `index < len array`.
pub fn collect_len_upper_bounds(ir: &Ir, lens: &mut Vec<(String, Option<String>)>) -> (r: Option<
    (String, String),
>)
    ensures
        r == upper_bound(*ir, as_lens(old(lens)@)),
    decreases ir,
{
    match ir {
        Ir::Block { binds, comp, .. } => {
            let mut i: usize = 0;
            while i < binds.len()
                invariant
                    i <= binds.len(),
                    as_lens(lens@) == lens_after(binds@, i as nat, as_lens(old(lens)@)),
                decreases binds.len() - i,
            {
                note_len(lens, &binds[i].name, &binds[i].comp);
                i = i + 1;
            }
            find_guard(comp, lens)
        },
        Ir::Let { name, comp, rest, .. } => {
            note_len(lens, name, comp);
            collect_len_upper_bounds(rest, lens)
        },
        Ir::Ret { comp, .. } => find_guard(comp, lens),
    }
}

/// No step binds the name.
pub open spec fn no_step_binds(steps: Seq<Ir>, name: Seq<char>) -> bool {
    forall|i: int| 0 <= i < steps.len() ==> !binds_name(#[trigger] steps[i], name)
}

/// Whether no step binds the name.
pub(crate) fn steps_leave_free(steps: &Vec<Ir>, name: &String) -> (r: bool)
    ensures
        r == no_step_binds(steps@, name@),
{
    let mut k: usize = 0;
    while k < steps.len()
        invariant
            k <= steps.len(),
            forall|j: int| 0 <= j < k ==> !binds_name(#[trigger] steps@[j], name@),
        decreases steps.len() - k,
    {
        if block_binds_name(&steps[k], name) {
            assert(binds_name(steps@[k as int], name@));
            return false;
        }
        k = k + 1;
    }
    true
}

/// The array and index that the loop guard proves in bounds inside the body:
/// the guard compares the index with the array's length, the index is never
/// negative, and neither the condition nor a step rebinds either name.
pub open spec fn proved_bound(vars: Seq<LoopVar>, cond: Ir, steps: Seq<Ir>) -> Option<
    (String, String),
> {
    match upper_bound(cond, Map::empty()) {
        Some((arr, idx)) => if nonnegative(vars, steps, idx@) && !binds_name(cond, arr@)
            && !binds_name(cond, idx@) && no_step_binds(steps, arr@) && no_step_binds(
            steps,
            idx@,
        ) {
            Some((arr, idx))
        } else {
            None
        },
        None => None,
    }
}

/// The array and index that the loop guard proves in bounds inside the body.
pub fn proved_loop_array_bounds(vars: &Vec<LoopVar>, cond: &Ir, steps: &Vec<Ir>) -> (r: Option<
    (String, String),
>)
    ensures
        r == proved_bound(vars@, *cond, steps@),
{
    let mut lens: Vec<(String, Option<String>)> = Vec::new();
    proof {
        assert(as_lens(lens@) =~= Map::empty());
    }
    match collect_len_upper_bounds(cond, &mut lens) {
        Some((arr, idx)) => {
            if is_nonnegative_loop_var(vars, steps, &idx) && !block_binds_name(cond, &arr)
                && !block_binds_name(cond, &idx) && steps_leave_free(steps, &arr)
                && steps_leave_free(steps, &idx) {
                Some((arr, idx))
            } else {
                None
            }
        },
        None => None,
    }
}

} // verus!
