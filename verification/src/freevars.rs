//! The free variables of a block: what a lambda must capture.
use crate::ir::{target, Atom, CallArg, Comp, Field, Ir, IrBind, IrOpClause, LoopVar};
use crate::names::{contains_name, lemma_push_name, name_set};
use vstd::prelude::*;

verus! {

/// A set of bound names.
pub type Names = Set<Seq<char>>;

/// The variable an atom is, unless it is bound.
pub open spec fn occ_atom(a: Atom, bound: Names) -> Seq<String> {
    match a {
        Atom::Var(x) => if bound.contains(x@) {
            Seq::empty()
        } else {
            seq![x]
        },
        _ => Seq::empty(),
    }
}

/// The free occurrences in two atoms.
pub open spec fn occ2(a: Atom, b: Atom, bound: Names) -> Seq<String> {
    occ_atom(a, bound) + occ_atom(b, bound)
}

/// The free occurrences in three atoms.
pub open spec fn occ3(a: Atom, b: Atom, c: Atom, bound: Names) -> Seq<String> {
    occ_atom(a, bound) + occ_atom(b, bound) + occ_atom(c, bound)
}

/// The free occurrences in the first `n` atoms.
pub open spec fn occ_atoms(atoms: Seq<Atom>, n: nat, bound: Names) -> Seq<String>
    decreases n,
{
    if n == 0 || n > atoms.len() {
        Seq::empty()
    } else {
        occ_atoms(atoms, (n - 1) as nat, bound) + occ_atom(atoms[n - 1], bound)
    }
}

/// The free occurrences in the first `n` arguments.
pub open spec fn occ_args(args: Seq<CallArg>, n: nat, bound: Names) -> Seq<String>
    decreases n,
{
    if n == 0 || n > args.len() {
        Seq::empty()
    } else {
        occ_args(args, (n - 1) as nat, bound) + occ_atom(args[n - 1].value, bound)
    }
}

/// The free occurrences in the first `n` fields.
pub open spec fn occ_fields(fields: Seq<Field>, n: nat, bound: Names) -> Seq<String>
    decreases n,
{
    if n == 0 || n > fields.len() {
        Seq::empty()
    } else {
        occ_fields(fields, (n - 1) as nat, bound) + occ_atom(fields[n - 1].value, bound)
    }
}

/// The free occurrences in the initial values of the first `n` accumulators.
pub open spec fn occ_inits(vars: Seq<LoopVar>, n: nat, bound: Names) -> Seq<String>
    decreases n,
{
    if n == 0 || n > vars.len() {
        Seq::empty()
    } else {
        occ_inits(vars, (n - 1) as nat, bound) + occ_atom(vars[n - 1].init, bound)
    }
}

/// What is bound once the first `n` accumulators are.
pub open spec fn bound_vars(vars: Seq<LoopVar>, n: nat, bound: Names) -> Names
    decreases n,
{
    if n == 0 || n > vars.len() {
        bound
    } else {
        bound_vars(vars, (n - 1) as nat, bound).insert(vars[n - 1].name@)
    }
}

/// What is bound after the first `n` bindings.
pub open spec fn bound_binds(binds: Seq<IrBind>, n: nat, bound: Names) -> Names
    decreases n,
{
    if n == 0 || n > binds.len() {
        bound
    } else {
        bound_binds(binds, (n - 1) as nat, bound).insert(binds[n - 1].name@)
    }
}

/// The free occurrences of variables in a block, in order.
pub open spec fn occ_ir(ir: Ir, bound: Names) -> Seq<String>
    decreases ir, 0nat,
{
    match ir {
        Ir::Block { binds, comp, .. } => occ_binds(binds, binds.len() as nat, bound) + occ_comp(
            *comp,
            bound_binds(binds@, binds.len() as nat, bound),
        ),
        Ir::Let { name, comp, rest, .. } => occ_comp(*comp, bound) + occ_ir(
            *rest,
            bound.insert(name@),
        ),
        Ir::Ret { comp, .. } => occ_comp(*comp, bound),
    }
}

/// The free occurrences in the first `n` bindings; each binds its name for those
/// that follow.
pub open spec fn occ_binds(binds: Vec<IrBind>, n: nat, bound: Names) -> Seq<String>
    decreases binds, n,
{
    if n == 0 || n > binds.len() {
        Seq::empty()
    } else {
        occ_binds(binds, (n - 1) as nat, bound) + occ_comp(
            target(binds[n - 1].comp),
            bound_binds(binds@, (n - 1) as nat, bound),
        )
    }
}

/// The free occurrences in the first `n` steps.
pub open spec fn occ_steps(steps: Vec<Ir>, n: nat, bound: Names) -> Seq<String>
    decreases steps, n,
{
    if n == 0 || n > steps.len() {
        Seq::empty()
    } else {
        occ_steps(steps, (n - 1) as nat, bound) + occ_ir(steps[n - 1], bound)
    }
}

/// The free occurrences in the first `n` clauses.
pub open spec fn occ_ops(ops: Vec<IrOpClause>, n: nat, bound: Names) -> Seq<String>
    decreases ops, n,
{
    if n == 0 || n > ops.len() {
        Seq::empty()
    } else {
        occ_ops(ops, (n - 1) as nat, bound) + occ_ir(
            target(ops[n - 1].body),
            bound.insert(ops[n - 1].arg@).insert(ops[n - 1].resume@),
        )
    }
}

/// The free occurrences of variables in a computation, in order. A mutable
/// local's slot has a name space of its own, so its name is no variable.
pub open spec fn occ_comp(comp: Comp, bound: Names) -> Seq<String>
    decreases comp, 0nat,
{
    match comp {
        Comp::Atom(a) => occ_atom(a, bound),
        Comp::Extern(_) => Seq::empty(),
        Comp::Foreign(_, args, _) => occ_atoms(args@, args.len() as nat, bound),
        Comp::App { fun, arg, .. } => occ2(fun, arg, bound),
        Comp::Call { fun, args, .. } => occ_atom(fun, bound) + occ_args(
            args@,
            args.len() as nat,
            bound,
        ),
        Comp::Bin(_, a, b) => occ2(a, b, bound),
        Comp::FloatBin(_, a, b) => occ2(a, b, bound),
        Comp::Cast(_, a) => occ_atom(a, bound),
        Comp::Tag(a) => occ_atom(a, bound),
        Comp::Untag(a) => occ_atom(a, bound),
        Comp::ToPtr(a) => occ_atom(a, bound),
        Comp::FromPtr(a) => occ_atom(a, bound),
        Comp::FloatMathUnary { value, .. } => occ_atom(value, bound),
        Comp::FloatMathBinary { lhs, rhs, .. } => occ2(lhs, rhs, bound),
        Comp::FloatMathTernary { a, b, c, .. } => occ3(a, b, c, bound),
        Comp::VectorLit { elems, .. } => occ_atoms(elems@, elems.len() as nat, bound),
        Comp::VectorSplat { value, .. } => occ_atom(value, bound),
        Comp::VectorLoad { arr, idx, .. } => occ2(arr, idx, bound),
        Comp::VectorStore { arr, idx, value, .. } => occ3(arr, idx, value, bound),
        Comp::VectorBin { lhs, rhs, .. } => occ2(lhs, rhs, bound),
        Comp::VectorCompare { lhs, rhs, .. } => occ2(lhs, rhs, bound),
        Comp::VectorSelect { mask, then_value, else_value, .. } => occ3(
            mask,
            then_value,
            else_value,
            bound,
        ),
        Comp::MaskReduce { mask, .. } => occ_atom(mask, bound),
        Comp::VectorExtract { vector, .. } => occ_atom(vector, bound),
        Comp::If(c, yes, no) => occ_atom(c, bound) + occ_ir(*yes, bound) + occ_ir(*no, bound),
        Comp::Loop { vars, cond, steps, result } => {
            let inner = bound_vars(vars@, vars.len() as nat, bound);
            occ_inits(vars@, vars.len() as nat, bound) + occ_ir(*cond, inner) + occ_steps(
                steps,
                steps.len() as nat,
                inner,
            ) + occ_ir(*result, inner)
        },
        Comp::Lam { param, body, .. } => occ_ir(*body, bound.insert(param@)),
        Comp::Perform(_, a) => occ_atom(a, bound),
        Comp::Handle { scrutinee, handler } => occ_ir(*scrutinee, bound) + occ_ops(
            *handler.ops,
            handler.ops.len() as nat,
            bound,
        ) + occ_ir(*handler.ret.body, bound.insert(handler.ret.var@)),
        Comp::Peek(_, a) => occ_atom(a, bound),
        Comp::Poke(_, a, b) => occ2(a, b, bound),
        Comp::Fill(a, b, c) => occ3(a, b, c, bound),
        Comp::Copy(a, b, c) => occ3(a, b, c, bound),
        Comp::Tuple(fields) => occ_fields(fields@, fields.len() as nat, bound),
        Comp::ArrayLit { elems, .. } => occ_atoms(elems@, elems.len() as nat, bound),
        Comp::Proj { tup, .. } => occ_atom(tup, bound),
        Comp::Len(a) => occ_atom(a, bound),
        Comp::ArrayGet { arr, idx, .. } => occ2(arr, idx, bound),
        Comp::ArraySet { arr, idx, val, .. } => occ3(arr, idx, val, bound),
        Comp::SlotInit(_, init) => occ_atom(init, bound),
        Comp::SlotLoad(_) => Seq::empty(),
        Comp::SlotStore(_, val) => occ_atom(val, bound),
        Comp::RefNew(init, _) => occ_atom(init, bound),
        Comp::RefGet(r, _) => occ_atom(r, bound),
        Comp::RefSet(r, val, _) => occ2(r, val, bound),
        Comp::Quote(body) => occ_ir(*body, bound),
        Comp::Letloc(body) => occ_ir(*body, bound),
        Comp::Splice(a) => occ_atom(a, bound),
        Comp::Genlet(a) => occ_atom(a, bound),
    }
}

/// Note the variable an atom is, unless it is bound.
fn fv_atom(a: &Atom, bound: &Vec<String>, free: &mut Vec<String>)
    ensures
        final(free)@ == old(free)@ + occ_atom(*a, name_set(bound@)),
{
    match a {
        Atom::Var(x) => {
            if !contains_name(bound, x) {
                free.push(x.clone());
                assert(free@ =~= old(free)@ + seq![*x]);
            } else {
                assert(free@ =~= old(free)@ + Seq::<String>::empty());
            }
        },
        _ => {
            assert(free@ =~= old(free)@ + Seq::<String>::empty());
        },
    }
}

fn fv2(a: &Atom, b: &Atom, bound: &Vec<String>, free: &mut Vec<String>)
    ensures
        final(free)@ == old(free)@ + occ2(*a, *b, name_set(bound@)),
{
    fv_atom(a, bound, free);
    fv_atom(b, bound, free);
    assert(free@ =~= old(free)@ + occ2(*a, *b, name_set(bound@)));
}

fn fv3(a: &Atom, b: &Atom, c: &Atom, bound: &Vec<String>, free: &mut Vec<String>)
    ensures
        final(free)@ == old(free)@ + occ3(*a, *b, *c, name_set(bound@)),
{
    fv_atom(a, bound, free);
    fv_atom(b, bound, free);
    fv_atom(c, bound, free);
    assert(free@ =~= old(free)@ + occ3(*a, *b, *c, name_set(bound@)));
}

fn fv_atoms(atoms: &Vec<Atom>, bound: &Vec<String>, free: &mut Vec<String>)
    ensures
        final(free)@ == old(free)@ + occ_atoms(atoms@, atoms@.len(), name_set(bound@)),
{
    let mut i: usize = 0;
    assert(free@ =~= old(free)@ + Seq::<String>::empty());
    while i < atoms.len()
        invariant
            i <= atoms.len(),
            free@ == old(free)@ + occ_atoms(atoms@, i as nat, name_set(bound@)),
        decreases atoms.len() - i,
    {
        fv_atom(&atoms[i], bound, free);
        i = i + 1;
        assert(free@ =~= old(free)@ + occ_atoms(atoms@, i as nat, name_set(bound@)));
    }
}

fn fv_args(args: &Vec<CallArg>, bound: &Vec<String>, free: &mut Vec<String>)
    ensures
        final(free)@ == old(free)@ + occ_args(args@, args@.len(), name_set(bound@)),
{
    let mut i: usize = 0;
    assert(free@ =~= old(free)@ + Seq::<String>::empty());
    while i < args.len()
        invariant
            i <= args.len(),
            free@ == old(free)@ + occ_args(args@, i as nat, name_set(bound@)),
        decreases args.len() - i,
    {
        fv_atom(&args[i].value, bound, free);
        i = i + 1;
        assert(free@ =~= old(free)@ + occ_args(args@, i as nat, name_set(bound@)));
    }
}

fn fv_fields(fields: &Vec<Field>, bound: &Vec<String>, free: &mut Vec<String>)
    ensures
        final(free)@ == old(free)@ + occ_fields(fields@, fields@.len(), name_set(bound@)),
{
    let mut i: usize = 0;
    assert(free@ =~= old(free)@ + Seq::<String>::empty());
    while i < fields.len()
        invariant
            i <= fields.len(),
            free@ == old(free)@ + occ_fields(fields@, i as nat, name_set(bound@)),
        decreases fields.len() - i,
    {
        fv_atom(&fields[i].value, bound, free);
        i = i + 1;
        assert(free@ =~= old(free)@ + occ_fields(fields@, i as nat, name_set(bound@)));
    }
}

fn fv_inits(vars: &Vec<LoopVar>, bound: &Vec<String>, free: &mut Vec<String>)
    ensures
        final(free)@ == old(free)@ + occ_inits(vars@, vars@.len(), name_set(bound@)),
{
    let mut i: usize = 0;
    assert(free@ =~= old(free)@ + Seq::<String>::empty());
    while i < vars.len()
        invariant
            i <= vars.len(),
            free@ == old(free)@ + occ_inits(vars@, i as nat, name_set(bound@)),
        decreases vars.len() - i,
    {
        fv_atom(&vars[i].init, bound, free);
        i = i + 1;
        assert(free@ =~= old(free)@ + occ_inits(vars@, i as nat, name_set(bound@)));
    }
}

/// Bind one more name.
fn bind_name(bound: &mut Vec<String>, name: &String)
    ensures
        final(bound)@ == old(bound)@.push(*name),
        name_set(final(bound)@) == name_set(old(bound)@).insert(name@),
{
    let copy = name.clone();
    proof {
        lemma_push_name(bound@, copy);
    }
    bound.push(copy);
}

/// Append to `free` the free occurrences in a block, given what is bound.
#[verifier::loop_isolation(false)]
pub fn fv_ir(ir: &Ir, bound: &mut Vec<String>, free: &mut Vec<String>)
    ensures
        final(bound)@ == old(bound)@,
        final(free)@ == old(free)@ + occ_ir(*ir, name_set(old(bound)@)),
    decreases ir,
{
    let ghost b0 = name_set(bound@);
    let ghost f0 = free@;
    let depth: usize = bound.len();
    match ir {
        Ir::Block { binds, comp, .. } => {
            let mut i: usize = 0;
            assert(free@ =~= f0 + Seq::<String>::empty());
            while i < binds.len()
                invariant
                    i <= binds.len(),
                    bound@.len() == depth + i,
                    bound@.take(depth as int) == old(bound)@,
                    name_set(bound@) == bound_binds(binds@, i as nat, b0),
                    free@ == f0 + occ_binds(*binds, i as nat, b0),
                decreases binds.len() - i,
            {
                let ghost before = bound@;
                fv_comp(&binds[i].comp, bound, free);
                bind_name(bound, &binds[i].name);
                i = i + 1;
                assert(free@ =~= f0 + occ_binds(*binds, i as nat, b0));
                assert(bound@.take(depth as int) =~= before.take(depth as int));
            }
            fv_comp(comp, bound, free);
            bound.truncate(depth);
            assert(free@ =~= f0 + occ_ir(*ir, b0));
        },
        Ir::Let { name, comp, rest, .. } => {
            fv_comp(comp, bound, free);
            bind_name(bound, name);
            fv_ir(rest, bound, free);
            bound.truncate(depth);
            assert(bound@ =~= old(bound)@);
            assert(free@ =~= f0 + occ_ir(*ir, b0));
        },
        Ir::Ret { comp, .. } => fv_comp(comp, bound, free),
    }
}

/// Append to `free` the free occurrences in a computation, given what is bound.
#[verifier::loop_isolation(false)]
#[verifier::rlimit(40)]
pub fn fv_comp(comp: &Comp, bound: &mut Vec<String>, free: &mut Vec<String>)
    ensures
        final(bound)@ == old(bound)@,
        final(free)@ == old(free)@ + occ_comp(*comp, name_set(old(bound)@)),
    decreases comp,
{
    let ghost b0 = name_set(bound@);
    let ghost f0 = free@;
    let depth: usize = bound.len();
    match comp {
        Comp::Atom(a) => fv_atom(a, bound, free),
        Comp::Extern(_) => {
            assert(free@ =~= f0 + Seq::<String>::empty());
        },
        Comp::Foreign(_, args, _) => fv_atoms(args, bound, free),
        Comp::App { fun, arg, .. } => fv2(fun, arg, bound, free),
        Comp::Call { fun, args, .. } => {
            fv_atom(fun, bound, free);
            fv_args(args, bound, free);
            assert(free@ =~= f0 + occ_comp(*comp, b0));
        },
        Comp::Bin(_, a, b) => fv2(a, b, bound, free),
        Comp::FloatBin(_, a, b) => fv2(a, b, bound, free),
        Comp::Cast(_, a) => fv_atom(a, bound, free),
        Comp::Tag(a) => fv_atom(a, bound, free),
        Comp::Untag(a) => fv_atom(a, bound, free),
        Comp::ToPtr(a) => fv_atom(a, bound, free),
        Comp::FromPtr(a) => fv_atom(a, bound, free),
        Comp::FloatMathUnary { value, .. } => fv_atom(value, bound, free),
        Comp::FloatMathBinary { lhs, rhs, .. } => fv2(lhs, rhs, bound, free),
        Comp::FloatMathTernary { a, b, c, .. } => fv3(a, b, c, bound, free),
        Comp::VectorLit { elems, .. } => fv_atoms(elems, bound, free),
        Comp::VectorSplat { value, .. } => fv_atom(value, bound, free),
        Comp::VectorLoad { arr, idx, .. } => fv2(arr, idx, bound, free),
        Comp::VectorStore { arr, idx, value, .. } => fv3(arr, idx, value, bound, free),
        Comp::VectorBin { lhs, rhs, .. } => fv2(lhs, rhs, bound, free),
        Comp::VectorCompare { lhs, rhs, .. } => fv2(lhs, rhs, bound, free),
        Comp::VectorSelect { mask, then_value, else_value, .. } => fv3(
            mask,
            then_value,
            else_value,
            bound,
            free,
        ),
        Comp::MaskReduce { mask, .. } => fv_atom(mask, bound, free),
        Comp::VectorExtract { vector, .. } => fv_atom(vector, bound, free),
        Comp::If(c, yes, no) => {
            fv_atom(c, bound, free);
            fv_ir(yes, bound, free);
            fv_ir(no, bound, free);
            assert(free@ =~= f0 + occ_comp(*comp, b0));
        },
        Comp::Loop { vars, cond, steps, result } => {
            fv_inits(vars, bound, free);
            let mut i: usize = 0;
            while i < vars.len()
                invariant
                    i <= vars.len(),
                    bound@.len() == depth + i,
                    bound@.take(depth as int) == old(bound)@,
                    name_set(bound@) == bound_vars(vars@, i as nat, b0),
                decreases vars.len() - i,
            {
                let ghost before = bound@;
                bind_name(bound, &vars[i].name);
                i = i + 1;
                assert(bound@.take(depth as int) =~= before.take(depth as int));
            }
            fv_ir(cond, bound, free);
            let ghost inner = name_set(bound@);
            let ghost f1 = free@;
            let mut k: usize = 0;
            assert(free@ =~= f1 + Seq::<String>::empty());
            while k < steps.len()
                invariant
                    k <= steps.len(),
                    bound@.len() == depth + vars.len(),
                    bound@.take(depth as int) == old(bound)@,
                    name_set(bound@) == inner,
                    free@ == f1 + occ_steps(*steps, k as nat, inner),
                decreases steps.len() - k,
            {
                fv_ir(&steps[k], bound, free);
                k = k + 1;
                assert(free@ =~= f1 + occ_steps(*steps, k as nat, inner));
            }
            fv_ir(result, bound, free);
            bound.truncate(depth);
            assert(free@ =~= f0 + occ_comp(*comp, b0));
        },
        Comp::Lam { param, body, .. } => {
            bind_name(bound, param);
            fv_ir(body, bound, free);
            bound.truncate(depth);
            assert(bound@ =~= old(bound)@);
        },
        Comp::Perform(_, a) => fv_atom(a, bound, free),
        Comp::Handle { scrutinee, handler } => {
            fv_ir(scrutinee, bound, free);
            let ops = &handler.ops;
            let ghost f1 = free@;
            let mut i: usize = 0;
            assert(free@ =~= f1 + Seq::<String>::empty());
            while i < ops.len()
                invariant
                    i <= ops.len(),
                    bound@ == old(bound)@,
                    free@ == f1 + occ_ops(**ops, i as nat, b0),
                decreases ops.len() - i,
            {
                bind_name(bound, &ops[i].arg);
                bind_name(bound, &ops[i].resume);
                fv_ir(&ops[i].body, bound, free);
                bound.truncate(depth);
                i = i + 1;
                assert(bound@ =~= old(bound)@);
                assert(free@ =~= f1 + occ_ops(**ops, i as nat, b0));
            }
            bind_name(bound, &handler.ret.var);
            fv_ir(&handler.ret.body, bound, free);
            bound.truncate(depth);
            assert(bound@ =~= old(bound)@);
            assert(free@ =~= f0 + occ_comp(*comp, b0));
        },
        Comp::Peek(_, a) => fv_atom(a, bound, free),
        Comp::Poke(_, a, b) => fv2(a, b, bound, free),
        Comp::Fill(a, b, c) => fv3(a, b, c, bound, free),
        Comp::Copy(a, b, c) => fv3(a, b, c, bound, free),
        Comp::Tuple(fields) => fv_fields(fields, bound, free),
        Comp::ArrayLit { elems, .. } => fv_atoms(elems, bound, free),
        Comp::Proj { tup, .. } => fv_atom(tup, bound, free),
        Comp::Len(a) => fv_atom(a, bound, free),
        Comp::ArrayGet { arr, idx, .. } => fv2(arr, idx, bound, free),
        Comp::ArraySet { arr, idx, val, .. } => fv3(arr, idx, val, bound, free),
        Comp::SlotInit(_, init) => fv_atom(init, bound, free),
        Comp::SlotLoad(_) => {
            assert(free@ =~= f0 + Seq::<String>::empty());
        },
        Comp::SlotStore(_, val) => fv_atom(val, bound, free),
        Comp::RefNew(init, _) => fv_atom(init, bound, free),
        Comp::RefGet(r, _) => fv_atom(r, bound, free),
        Comp::RefSet(r, val, _) => fv2(r, val, bound, free),
        Comp::Quote(body) => fv_ir(body, bound, free),
        Comp::Letloc(body) => fv_ir(body, bound, free),
        Comp::Splice(a) => fv_atom(a, bound, free),
        Comp::Genlet(a) => fv_atom(a, bound, free),
    }
}

/// The free occurrences in a lambda body: its parameter is bound.
pub open spec fn lambda_occ(body: Ir, param: Seq<char>) -> Seq<String> {
    occ_ir(body, Set::empty().insert(param))
}

/// The free occurrences in a lambda body.
pub fn free_vars(body: &Ir, param: &String) -> (r: Vec<String>)
    ensures
        r@ == lambda_occ(*body, param@),
{
    let mut free: Vec<String> = Vec::new();
    let mut bound: Vec<String> = Vec::new();
    proof {
        assert(name_set(bound@) =~= Set::<Seq<char>>::empty());
    }
    bind_name(&mut bound, param);
    fv_ir(body, &mut bound, &mut free);
    assert(free@ =~= lambda_occ(*body, param@));
    free
}

/// The free occurrences in a clause: its argument and its continuation are bound.
pub open spec fn clause_occ(clause: IrOpClause) -> Seq<String> {
    occ_ir(*clause.body, Set::empty().insert(clause.arg@).insert(clause.resume@))
}

/// The free occurrences in a clause.
pub fn op_clause_free_vars(clause: &IrOpClause) -> (r: Vec<String>)
    ensures
        r@ == clause_occ(*clause),
{
    let mut free: Vec<String> = Vec::new();
    let mut bound: Vec<String> = Vec::new();
    proof {
        assert(name_set(bound@) =~= Set::<Seq<char>>::empty());
    }
    bind_name(&mut bound, &clause.arg);
    bind_name(&mut bound, &clause.resume);
    fv_ir(&clause.body, &mut bound, &mut free);
    assert(free@ =~= clause_occ(*clause));
    free
}

// ── what binding a name does ─────────────────────────────────────────────
/// The occurrences that stay free once `extra` is bound too.
pub open spec fn left_free(occurrences: Seq<String>, extra: Names) -> Seq<String>
    decreases occurrences.len(),
{
    if occurrences.len() == 0 {
        Seq::empty()
    } else if extra.contains(occurrences.last()@) {
        left_free(occurrences.drop_last(), extra)
    } else {
        left_free(occurrences.drop_last(), extra).push(occurrences.last())
    }
}

broadcast proof fn lemma_left_free_concat(a: Seq<String>, b: Seq<String>, extra: Names)
    ensures
        #[trigger] left_free(a + b, extra) == left_free(a, extra) + left_free(b, extra),
    decreases b.len(),
{
    if b.len() == 0 {
        assert(a + b =~= a);
        assert(left_free(a, extra) + Seq::<String>::empty() =~= left_free(a, extra));
    } else {
        assert((a + b).drop_last() =~= a + b.drop_last());
        lemma_left_free_concat(a, b.drop_last(), extra);
        assert(left_free(a, extra) + left_free(b.drop_last(), extra).push(b.last()) =~= (left_free(
            a,
            extra,
        ) + left_free(b.drop_last(), extra)).push(b.last()));
    }
}

proof fn lemma_atom_left_free(a: Atom, bound: Names, extra: Names)
    ensures
        occ_atom(a, bound.union(extra)) == left_free(occ_atom(a, bound), extra),
{
    reveal_with_fuel(left_free, 2);
    if let Atom::Var(x) = a {
        assert(seq![x].drop_last() =~= Seq::<String>::empty());
        assert(Seq::<String>::empty().push(x) =~= seq![x]);
    }
}

proof fn lemma_atoms_left_free(atoms: Seq<Atom>, n: nat, bound: Names, extra: Names)
    ensures
        occ_atoms(atoms, n, bound.union(extra)) == left_free(occ_atoms(atoms, n, bound), extra),
    decreases n,
{
    broadcast use lemma_left_free_concat;

    if n != 0 && n <= atoms.len() {
        lemma_atoms_left_free(atoms, (n - 1) as nat, bound, extra);
        lemma_atom_left_free(atoms[n - 1], bound, extra);
    }
}

proof fn lemma_args_left_free(args: Seq<CallArg>, n: nat, bound: Names, extra: Names)
    ensures
        occ_args(args, n, bound.union(extra)) == left_free(occ_args(args, n, bound), extra),
    decreases n,
{
    broadcast use lemma_left_free_concat;

    if n != 0 && n <= args.len() {
        lemma_args_left_free(args, (n - 1) as nat, bound, extra);
        lemma_atom_left_free(args[n - 1].value, bound, extra);
    }
}

proof fn lemma_fields_left_free(fields: Seq<Field>, n: nat, bound: Names, extra: Names)
    ensures
        occ_fields(fields, n, bound.union(extra)) == left_free(
            occ_fields(fields, n, bound),
            extra,
        ),
    decreases n,
{
    broadcast use lemma_left_free_concat;

    if n != 0 && n <= fields.len() {
        lemma_fields_left_free(fields, (n - 1) as nat, bound, extra);
        lemma_atom_left_free(fields[n - 1].value, bound, extra);
    }
}

proof fn lemma_inits_left_free(vars: Seq<LoopVar>, n: nat, bound: Names, extra: Names)
    ensures
        occ_inits(vars, n, bound.union(extra)) == left_free(occ_inits(vars, n, bound), extra),
    decreases n,
{
    broadcast use lemma_left_free_concat;

    if n != 0 && n <= vars.len() {
        lemma_inits_left_free(vars, (n - 1) as nat, bound, extra);
        lemma_atom_left_free(vars[n - 1].init, bound, extra);
    }
}

proof fn lemma_bound_vars(vars: Seq<LoopVar>, n: nat, bound: Names, extra: Names)
    ensures
        bound_vars(vars, n, bound.union(extra)) == bound_vars(vars, n, bound).union(extra),
    decreases n,
{
    if n != 0 && n <= vars.len() {
        lemma_bound_vars(vars, (n - 1) as nat, bound, extra);
        lemma_insert_union(bound_vars(vars, (n - 1) as nat, bound), extra, vars[n - 1].name@);
    }
}

proof fn lemma_bound_binds(binds: Seq<IrBind>, n: nat, bound: Names, extra: Names)
    ensures
        bound_binds(binds, n, bound.union(extra)) == bound_binds(binds, n, bound).union(extra),
    decreases n,
{
    if n != 0 && n <= binds.len() {
        lemma_bound_binds(binds, (n - 1) as nat, bound, extra);
        lemma_insert_union(bound_binds(binds, (n - 1) as nat, bound), extra, binds[n - 1].name@);
    }
}

proof fn lemma_insert_union(bound: Names, extra: Names, name: Seq<char>)
    ensures
        bound.union(extra).insert(name) == bound.insert(name).union(extra),
{
    assert(bound.union(extra).insert(name) =~= bound.insert(name).union(extra));
}

/// Binding more names takes just their occurrences away from the free ones.
pub proof fn binding_takes_away_its_occurrences(ir: Ir, bound: Names, extra: Names)
    ensures
        occ_ir(ir, bound.union(extra)) == left_free(occ_ir(ir, bound), extra),
    decreases ir, 0nat,
{
    broadcast use lemma_left_free_concat;

    match ir {
        Ir::Block { binds, comp, .. } => {
            lemma_binds_left_free(binds, binds.len() as nat, bound, extra);
            lemma_bound_binds(binds@, binds.len() as nat, bound, extra);
            lemma_comp_left_free(target(comp), bound_binds(binds@, binds.len() as nat, bound), extra);
        },
        Ir::Let { name, comp, rest, .. } => {
            lemma_comp_left_free(target(comp), bound, extra);
            lemma_insert_union(bound, extra, name@);
            binding_takes_away_its_occurrences(target(rest), bound.insert(name@), extra);
        },
        Ir::Ret { comp, .. } => lemma_comp_left_free(target(comp), bound, extra),
    }
}

proof fn lemma_binds_left_free(binds: Vec<IrBind>, n: nat, bound: Names, extra: Names)
    ensures
        occ_binds(binds, n, bound.union(extra)) == left_free(occ_binds(binds, n, bound), extra),
    decreases binds, n,
{
    broadcast use lemma_left_free_concat;

    if n != 0 && n <= binds.len() {
        lemma_binds_left_free(binds, (n - 1) as nat, bound, extra);
        lemma_bound_binds(binds@, (n - 1) as nat, bound, extra);
        lemma_comp_left_free(
            target(binds[n - 1].comp),
            bound_binds(binds@, (n - 1) as nat, bound),
            extra,
        );
    }
}

proof fn lemma_steps_left_free(steps: Vec<Ir>, n: nat, bound: Names, extra: Names)
    ensures
        occ_steps(steps, n, bound.union(extra)) == left_free(occ_steps(steps, n, bound), extra),
    decreases steps, n,
{
    broadcast use lemma_left_free_concat;

    if n != 0 && n <= steps.len() {
        lemma_steps_left_free(steps, (n - 1) as nat, bound, extra);
        binding_takes_away_its_occurrences(steps[n - 1], bound, extra);
    }
}

proof fn lemma_ops_left_free(ops: Vec<IrOpClause>, n: nat, bound: Names, extra: Names)
    ensures
        occ_ops(ops, n, bound.union(extra)) == left_free(occ_ops(ops, n, bound), extra),
    decreases ops, n,
{
    broadcast use lemma_left_free_concat;

    if n != 0 && n <= ops.len() {
        let op = ops[n - 1];
        lemma_ops_left_free(ops, (n - 1) as nat, bound, extra);
        lemma_insert_union(bound, extra, op.arg@);
        lemma_insert_union(bound.insert(op.arg@), extra, op.resume@);
        binding_takes_away_its_occurrences(
            target(ops[n - 1].body),
            bound.insert(op.arg@).insert(op.resume@),
            extra,
        );
    }
}

#[verifier::rlimit(50)]
proof fn lemma_comp_left_free(comp: Comp, bound: Names, extra: Names)
    ensures
        occ_comp(comp, bound.union(extra)) == left_free(occ_comp(comp, bound), extra),
    decreases comp, 0nat,
{
    broadcast use lemma_left_free_concat;

    assert forall|a: Atom| #[trigger]
        occ_atom(a, bound.union(extra)) == left_free(occ_atom(a, bound), extra) by {
        lemma_atom_left_free(a, bound, extra);
    }
    match comp {
        Comp::Foreign(_, args, _) => lemma_atoms_left_free(
            args@,
            args.len() as nat,
            bound,
            extra,
        ),
        Comp::Call { fun, args, .. } => lemma_args_left_free(
            args@,
            args.len() as nat,
            bound,
            extra,
        ),
        Comp::VectorLit { elems, .. } => lemma_atoms_left_free(
            elems@,
            elems.len() as nat,
            bound,
            extra,
        ),
        Comp::ArrayLit { elems, .. } => lemma_atoms_left_free(
            elems@,
            elems.len() as nat,
            bound,
            extra,
        ),
        Comp::Tuple(fields) => lemma_fields_left_free(
            fields@,
            fields.len() as nat,
            bound,
            extra,
        ),
        Comp::If(_, yes, no) => {
            binding_takes_away_its_occurrences(target(yes), bound, extra);
            binding_takes_away_its_occurrences(target(no), bound, extra);
        },
        Comp::Loop { vars, cond, steps, result } => {
            let inner = bound_vars(vars@, vars.len() as nat, bound);
            lemma_inits_left_free(vars@, vars.len() as nat, bound, extra);
            lemma_bound_vars(vars@, vars.len() as nat, bound, extra);
            binding_takes_away_its_occurrences(target(cond), inner, extra);
            lemma_steps_left_free(steps, steps.len() as nat, inner, extra);
            binding_takes_away_its_occurrences(target(result), inner, extra);
        },
        Comp::Lam { param, body, .. } => {
            lemma_insert_union(bound, extra, param@);
            binding_takes_away_its_occurrences(target(body), bound.insert(param@), extra);
        },
        Comp::Handle { scrutinee, handler } => {
            binding_takes_away_its_occurrences(target(scrutinee), bound, extra);
            let clauses = target(handler);
            lemma_ops_left_free(target(clauses.ops), clauses.ops.len() as nat, bound, extra);
            lemma_insert_union(bound, extra, clauses.ret.var@);
            binding_takes_away_its_occurrences(
                target(clauses.ret.body),
                bound.insert(clauses.ret.var@),
                extra,
            );
        },
        Comp::Quote(body) => binding_takes_away_its_occurrences(target(body), bound, extra),
        Comp::Letloc(body) => binding_takes_away_its_occurrences(target(body), bound, extra),
        _ => {},
    }
}

proof fn lemma_left_free_is_unbound(occurrences: Seq<String>, extra: Names, k: int)
    requires
        0 <= k < left_free(occurrences, extra).len(),
    ensures
        !extra.contains(left_free(occurrences, extra)[k]@),
    decreases occurrences.len(),
{
    if k < left_free(occurrences.drop_last(), extra).len() {
        lemma_left_free_is_unbound(occurrences.drop_last(), extra, k);
    }
}

/// No bound name is free.
pub proof fn no_bound_name_is_free(ir: Ir, bound: Names, k: int)
    requires
        0 <= k < occ_ir(ir, bound).len(),
    ensures
        !bound.contains(occ_ir(ir, bound)[k]@),
{
    assert(bound.union(bound) =~= bound);
    binding_takes_away_its_occurrences(ir, bound, bound);
    lemma_left_free_is_unbound(occ_ir(ir, bound), bound, k);
}

} // verus!
