//! Closures: what they capture and where, how they are built, and how they are
//! called.
use crate::analysis::{block_performs_label, performs_label};
use crate::error::CodegenError;
use crate::freevars::{clause_occ, free_vars, lambda_occ, op_clause_free_vars};
use crate::heap::{vector_ty, vector_type};
use crate::ir::{share, Ir, IrOpClause, Label, Type};
use crate::names::{sort_names, sorted_names};
use crate::state::{Exit, Frames};
use crate::target::Ty;
use std::rc::Rc;
use vstd::prelude::*;

verus! {

// ── calling convention ───────────────────────────────────────────────────
/// How a value of a type is passed: a vector or a mask as itself, anything else
/// in a cell.
pub open spec fn abi_ty(ty: Rc<Type>) -> Result<Ty, CodegenError> {
    match *ty {
        Type::Vector(shape, elem) => vector_ty(shape, elem),
        Type::Mask(shape) => Ok(Ty::Mask(shape.lane_count() as u32)),
        _ => Ok(Ty::I64),
    }
}

/// How a value of a type is passed.
pub fn abi_type(ty: &Rc<Type>) -> (r: Result<Ty, CodegenError>)
    ensures
        r == abi_ty(*ty),
{
    match &**ty {
        Type::Vector(shape, elem) => vector_type(*shape, elem),
        Type::Mask(shape) => Ok(Ty::Mask(shape.lanes() as u32)),
        _ => Ok(Ty::I64),
    }
}

/// A value of the type is passed in a cell.
pub open spec fn passed_in_cell(ty: Type) -> bool {
    !(ty is Vector) && !(ty is Mask)
}

/// Whether a value of the type is passed in a cell.
pub fn abi_is_scalar_cell(ty: &Type) -> (r: bool)
    ensures
        r == passed_in_cell(*ty),
{
    !matches!(ty, Type::Vector(_, _) | Type::Mask(_))
}

/// How the environment of a function is passed: a handle, or an address.
pub open spec fn env_ty(gc: bool) -> Ty {
    if gc {
        Ty::I64
    } else {
        Ty::Ptr
    }
}

// ── handlers in force ────────────────────────────────────────────────────
/// The first clause from position `i` on for the operation.
pub open spec fn first_clause(clauses: Seq<IrOpClause>, op: Label, i: nat) -> Option<nat>
    decreases clauses.len() - i,
{
    if i >= clauses.len() {
        None
    } else if clauses[i as int].op.same(op) {
        Some(i)
    } else {
        first_clause(clauses, op, i + 1)
    }
}

/// How many handlers are in force, as far as they can be counted.
pub open spec fn depth_of(frames: Frames) -> u64
    decreases frames,
{
    match frames {
        Frames::Empty => 0,
        Frames::More { rest, .. } => if depth_of(*rest) < u64::MAX {
            (depth_of(*rest) + 1) as u64
        } else {
            u64::MAX
        },
    }
}

/// How many handlers are in force.
fn count_frames(frames: &Frames) -> (r: u64)
    ensures
        r == depth_of(*frames),
    decreases frames,
{
    match frames {
        Frames::Empty => 0,
        Frames::More { rest, .. } => {
            let n: u64 = count_frames(rest);
            if n < u64::MAX {
                n + 1
            } else {
                n
            }
        },
    }
}

/// The clause that handles an operation, that of the innermost handler with one;
/// where it aborts to; and how many handlers are in force outside its own.
pub open spec fn clause_for(frames: Frames, op: Label) -> Option<(IrOpClause, Option<Exit>, u64)>
    decreases frames,
{
    match frames {
        Frames::Empty => None,
        Frames::More { clauses, exit, rest } => match first_clause(clauses@, op, 0) {
            Some(i) => Some((clauses[i as int], exit, depth_of(*rest))),
            None => clause_for(*rest, op),
        },
    }
}

fn find_first_clause(clauses: &Vec<IrOpClause>, op: &Label) -> (r: Option<usize>)
    ensures
        match r {
            Some(i) => i < clauses.len() && first_clause(clauses@, *op, 0) == Some(i as nat),
            None => first_clause(clauses@, *op, 0) is None,
        },
{
    let mut i: usize = 0;
    while i < clauses.len()
        invariant
            i <= clauses.len(),
            first_clause(clauses@, *op, i as nat) == first_clause(clauses@, *op, 0),
        decreases clauses.len() - i,
    {
        if clauses[i].op.is(op) {
            return Some(i);
        }
        i = i + 1;
    }
    None
}

/// The clause that handles an operation, where it aborts to, and how many
/// handlers are in force outside its own.
pub fn find_handler(frames: &Frames, op: &Label) -> (r: Option<
    (Rc<Vec<IrOpClause>>, usize, Option<Exit>, u64),
>)
    ensures
        match r {
            Some((clauses, i, exit, n)) => i < clauses.len() && clause_for(*frames, *op) == Some(
                (clauses[i as int], exit, n),
            ),
            None => clause_for(*frames, *op) is None,
        },
{
    let mut cur: &Frames = frames;
    loop
        invariant
            clause_for(*cur, *op) == clause_for(*frames, *op),
        decreases cur,
    {
        match cur {
            Frames::Empty => {
                return None;
            },
            Frames::More { clauses, exit, rest } => {
                if let Some(i) = find_first_clause(clauses, op) {
                    return Some((share(clauses), i, *exit, count_frames(rest)));
                }
                cur = rest;
            },
        }
    }
}

/// The operation is among those seen.
pub open spec fn seen_label(seen: Seq<Label>, op: Label) -> bool {
    exists|i: int| 0 <= i < seen.len() && (#[trigger] seen[i]).same(op)
}

fn is_seen(seen: &Vec<Label>, op: &Label) -> (r: bool)
    ensures
        r == seen_label(seen@, *op),
{
    let mut i: usize = 0;
    while i < seen.len()
        invariant
            i <= seen.len(),
            forall|j: int| 0 <= j < i ==> !(#[trigger] seen@[j]).same(*op),
        decreases seen.len() - i,
    {
        if seen[i].is(op) {
            assert(seen@[i as int].same(*op));
            return true;
        }
        i = i + 1;
    }
    false
}

/// What the clauses from position `i` on need of their surroundings, for the
/// operations that the body performs and that were not seen before.
pub open spec fn frame_occ(body: Ir, clauses: Seq<IrOpClause>, i: nat, seen: Seq<Label>) -> Seq<String>
    decreases clauses.len() - i,
{
    if i >= clauses.len() {
        Seq::empty()
    } else {
        let c = clauses[i as int];
        if seen_label(seen, c.op) {
            frame_occ(body, clauses, i + 1, seen)
        } else {
            (if performs_label(body, c.op) {
                clause_occ(c)
            } else {
                Seq::empty()
            }) + frame_occ(body, clauses, i + 1, seen.push(c.op))
        }
    }
}

/// The operations seen after the clauses from position `i` on.
pub open spec fn frame_seen(clauses: Seq<IrOpClause>, i: nat, seen: Seq<Label>) -> Seq<Label>
    decreases clauses.len() - i,
{
    if i >= clauses.len() {
        seen
    } else if seen_label(seen, clauses[i as int].op) {
        frame_seen(clauses, i + 1, seen)
    } else {
        frame_seen(clauses, i + 1, seen.push(clauses[i as int].op))
    }
}

/// What the handlers in force need of their surroundings for the operations
/// that the body performs: an inner handler shadows an outer one.
pub open spec fn active_occ(body: Ir, frames: Frames, seen: Seq<Label>) -> Seq<String>
    decreases frames,
{
    match frames {
        Frames::Empty => Seq::empty(),
        Frames::More { clauses, rest, .. } => frame_occ(body, clauses@, 0, seen) + active_occ(
            body,
            *rest,
            frame_seen(clauses@, 0, seen),
        ),
    }
}

fn append_all(out: &mut Vec<String>, more: Vec<String>)
    ensures
        final(out)@ == old(out)@ + more@,
{
    let mut rest = more;
    out.append(&mut rest);
}

fn frame_free_vars(body: &Ir, clauses: &Vec<IrOpClause>, seen: &mut Vec<Label>, out: &mut Vec<String>)
    ensures
        final(out)@ == old(out)@ + frame_occ(*body, clauses@, 0, old(seen)@),
        final(seen)@ == frame_seen(clauses@, 0, old(seen)@),
{
    let mut i: usize = 0;
    assert(out@ + frame_occ(*body, clauses@, 0, seen@) =~= old(out)@ + frame_occ(
        *body,
        clauses@,
        0,
        old(seen)@,
    ));
    while i < clauses.len()
        invariant
            i <= clauses.len(),
            out@ + frame_occ(*body, clauses@, i as nat, seen@) == old(out)@ + frame_occ(
                *body,
                clauses@,
                0,
                old(seen)@,
            ),
            frame_seen(clauses@, i as nat, seen@) == frame_seen(clauses@, 0, old(seen)@),
        decreases clauses.len() - i,
    {
        let c = &clauses[i];
        let ghost before = out@;
        let ghost tail = frame_occ(*body, clauses@, (i + 1) as nat, seen@.push(c.op));
        if !is_seen(seen, &c.op) {
            if block_performs_label(body, &c.op) {
                let more = op_clause_free_vars(c);
                append_all(out, more);
                assert(out@ + tail =~= before + (clause_occ(*c) + tail));
            } else {
                assert(out@ + tail =~= before + (Seq::<String>::empty() + tail));
            }
            seen.push(c.op.copy());
        }
        i = i + 1;
    }
    assert(out@ + Seq::<String>::empty() =~= out@);
}

/// What the handlers in force need of their surroundings.
fn active_handler_free_vars(body: &Ir, frames: &Frames) -> (r: Vec<String>)
    ensures
        r@ == active_occ(*body, *frames, Seq::empty()),
{
    let mut out: Vec<String> = Vec::new();
    let mut seen: Vec<Label> = Vec::new();
    let mut cur: &Frames = frames;
    assert(seen@ =~= Seq::<Label>::empty());
    assert(out@ + active_occ(*body, *cur, seen@) =~= active_occ(*body, *frames, Seq::empty()));
    loop
        invariant
            out@ + active_occ(*body, *cur, seen@) == active_occ(*body, *frames, Seq::empty()),
        decreases cur,
    {
        match cur {
            Frames::Empty => {
                assert(out@ + Seq::<String>::empty() =~= out@);
                return out;
            },
            Frames::More { clauses, rest, .. } => {
                let ghost before = out@;
                let ghost s0 = seen@;
                frame_free_vars(body, clauses, &mut seen, &mut out);
                assert(out@ + active_occ(*body, **rest, seen@) =~= before + (frame_occ(
                    *body,
                    clauses@,
                    0,
                    s0,
                ) + active_occ(*body, **rest, seen@)));
                cur = rest;
            },
        }
    }
}

/// A list without the entries of one name.
pub open spec fn drop_name(list: Seq<String>, x: Seq<char>) -> Seq<String>
    decreases list.len(),
{
    if list.len() == 0 {
        Seq::empty()
    } else if list.last()@ == x {
        drop_name(list.drop_last(), x)
    } else {
        drop_name(list.drop_last(), x).push(list.last())
    }
}

fn without_name(list: &Vec<String>, x: &String) -> (r: Vec<String>)
    ensures
        r@ == drop_name(list@, x@),
{
    let mut out: Vec<String> = Vec::new();
    let mut i: usize = 0;
    while i < list.len()
        invariant
            i <= list.len(),
            out@ == drop_name(list@.take(i as int), x@),
        decreases list.len() - i,
    {
        proof {
            assert(list@.take(i + 1).drop_last() =~= list@.take(i as int));
        }
        if list[i] != *x {
            out.push(list[i].clone());
        }
        i = i + 1;
    }
    assert(list@.take(i as int) =~= list@);
    out
}

/// What a lambda captures, sorted: its free variables and those of the clauses
/// that its body reaches, without its parameter.
pub open spec fn capture_names(body: Ir, param: Seq<char>, frames: Frames) -> Seq<String> {
    sorted_names(drop_name(lambda_occ(body, param) + active_occ(body, frames, Seq::empty()), param))
}

/// What a lambda captures, sorted.
pub fn captured_names(body: &Ir, param: &String, frames: &Frames) -> (r: Vec<String>)
    ensures
        r@ == capture_names(*body, param@, *frames),
{
    let mut all = free_vars(body, param);
    let more = active_handler_free_vars(body, frames);
    append_all(&mut all, more);
    let kept = without_name(&all, param);
    sort_names(&kept)
}

} // verus!
