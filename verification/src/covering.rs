//! What is proved of the code that a handler covers: its operations have the values that
//! their clauses resume with, or leave the handler.
use crate::applying::{goes_on, lemma_goes_on};
use crate::blocks::{any_abort, any_reified};
use crate::clauses::{
    abort_begun, an_operation_gives_what_its_clause_resumes_with,
    an_operation_whose_clause_aborts_leaves_the_handler, clause_begun, lemma_abort_tail,
    lemma_clause_grown, lemma_clause_len, lemma_clause_ready, lemma_of_abort, lemma_of_perform,
    of_perform,
};
use crate::closures::{clause_for, depth_of, first_clause};
use crate::error::CodegenError;
use crate::evaluation::bind_count;
use crate::ir::{target, Comp, Ir, IrHandler, IrOpClause, Label};
use crate::meaning::{extends, keeps, opened, ready, Machine};
use crate::programs::{
    atom_word, comp_meaning, ir_meaning, plain_clause, plain_comp, plain_ir, resumed_meaning, Meant,
    Vars,
};
use crate::running::{
    at_hand, branched, followed, holds_part, if_around, leads_in, lemma_apart, lemma_atom_word,
    lemma_comp_runs, lemma_if_around, lemma_if_enter, lemma_if_leave, lemma_ir_runs, lemma_keeps,
    lemma_leads, lemma_leads_to_trap, lemma_models_bound, lemma_models_kept, lemma_run_leads,
    models, traps_in,
};
use crate::shape::{
    countable, env_ready, grown, if_head, if_parts, if_turn, lemma_atom_ready, lemma_bound,
    lemma_comp_grown, lemma_comp_len, lemma_env_kept, lemma_extends, lemma_grown, lemma_head,
    lemma_head_settled, lemma_if_grown, lemma_if_laid, lemma_ir_grown, lemma_ir_len, lemma_of_block,
    lemma_of_if, lemma_of_ret, lemma_opened, lemma_own_blocks, lemma_turn, of_binds, of_comp, of_ir,
    own_blocks, settled,
};
use crate::state::{Exit, St};
use crate::target::{Cmd, Id, Val};
use crate::weaving::{lemma_of_bound, of_rest};
use vstd::prelude::*;

verus! {

// ── what is covered by a handler ─────────────────────────────────────────
/// How what a handler covers ends.
pub enum Acted {
    /// It has a value; this is in scope then.
    Went(u64, Vars),
    /// An operation left the handler with a word.
    Left(u64),
    Trap,
    /// What is left open of integers.
    Open,
}

pub open spec fn went(meant: Meant, vars: Vars) -> Acted {
    match meant {
        Meant::Word(w) => Acted::Went(w, vars),
        Meant::Trap => Acted::Trap,
        Meant::Open => Acted::Open,
    }
}

pub open spec fn left(meant: Meant) -> Acted {
    match meant {
        Meant::Word(w) => Acted::Left(w),
        Meant::Trap => Acted::Trap,
        Meant::Open => Acted::Open,
    }
}

/// The clause for an operation.
pub open spec fn clause_of(ops: Seq<IrOpClause>, label: Label) -> Option<IrOpClause> {
    match first_clause(ops, label, 0) {
        Some(i) => Some(ops[i as int]),
        None => None,
    }
}

/// How a computation under the clauses ends. An operation whose clause resumes last has
/// the value that the clause resumes with; one whose clause does not resume leaves the
/// handler with what the clause means. A clause finds the argument of its operation and
/// the variables in scope there.
pub open spec fn act(comp: Comp, ops: Seq<IrOpClause>, vars: Vars, turns: nat) -> Acted
    decreases comp, 0nat,
{
    match comp {
        Comp::Perform(label, a) => match clause_of(ops, label) {
            Some(c) => {
                let inside = vars.insert(c.arg@, atom_word(a, vars));
                if c.shape is Tail {
                    went(resumed_meaning(c.resume@, *c.body, inside, turns), vars)
                } else if c.shape is Abort {
                    left(ir_meaning(*c.body, inside, turns))
                } else {
                    Acted::Open
                }
            },
            None => Acted::Open,
        },
        Comp::If(c, yes, no) => match if atom_word(c, vars) != 0 {
            act_block(*yes, ops, vars, turns)
        } else {
            act_block(*no, ops, vars, turns)
        } {
            Acted::Went(w, _) => Acted::Went(w, vars),
            other => other,
        },
        _ => went(comp_meaning(comp, vars, turns), vars),
    }
}

/// How a block under the clauses ends.
pub open spec fn act_block(ir: Ir, ops: Seq<IrOpClause>, vars: Vars, turns: nat) -> Acted
    decreases ir, bind_count(ir) + 1,
{
    match ir {
        Ir::Block { .. } => act_rest(ir, 0, ops, vars, turns),
        Ir::Let { name, comp, rest, .. } => match act(*comp, ops, vars, turns) {
            Acted::Went(w, _) => act_block(*rest, ops, vars.insert(name@, w), turns),
            other => other,
        },
        Ir::Ret { comp, .. } => act(*comp, ops, vars, turns),
    }
}

/// How a block under the clauses ends from binding `i` on.
pub open spec fn act_rest(ir: Ir, i: nat, ops: Seq<IrOpClause>, vars: Vars, turns: nat) -> Acted
    decreases ir, bind_count(ir) - i,
{
    match ir {
        Ir::Block { binds, comp, .. } => if i >= binds.len() {
            act(*comp, ops, vars, turns)
        } else {
            match act(*binds[i as int].comp, ops, vars, turns) {
                Acted::Went(w, _) => act_rest(
                    ir,
                    i + 1,
                    ops,
                    vars.insert(binds[i as int].name@, w),
                    turns,
                ),
                other => other,
            }
        },
        _ => Acted::Open,
    }
}

/// What a handler means: what its return clause means of the value of what it covers,
/// or what an aborting clause means.
pub open spec fn handle_meaning(comp: Comp, vars: Vars, turns: nat) -> Meant {
    match comp {
        Comp::Handle { scrutinee, handler } => match act_block(
            *scrutinee,
            handler.ops@,
            vars,
            turns,
        ) {
            Acted::Went(w, inner) => ir_meaning(
                *handler.ret.body,
                inner.insert(handler.ret.var@, w),
                turns,
            ),
            Acted::Left(w) => Meant::Word(w),
            Acted::Trap => Meant::Trap,
            Acted::Open => Meant::Open,
        },
        _ => Meant::Open,
    }
}

/// A computation of integers under the clauses: its operations are theirs, and their
/// bodies are of integers too.
pub open spec fn acting(comp: Comp, ops: Seq<IrOpClause>) -> bool
    decreases comp, 0nat,
{
    match comp {
        Comp::Perform(label, a) => !(a is Str) && match clause_of(ops, label) {
            Some(c) => (c.shape is Tail && plain_clause(c.resume@, *c.body, false)) || (
            c.shape is Abort && plain_ir(*c.body, false)),
            None => false,
        },
        Comp::If(c, yes, no) => !(c is Str) && acting_block(*yes, ops) && acting_block(*no, ops),
        _ => plain_comp(comp, false),
    }
}

/// A block of such computations.
pub open spec fn acting_block(ir: Ir, ops: Seq<IrOpClause>) -> bool
    decreases ir, bind_count(ir) + 1,
{
    match ir {
        Ir::Block { .. } => acting_rest(ir, 0, ops),
        Ir::Let { comp, rest, .. } => acting(*comp, ops) && acting_block(*rest, ops),
        Ir::Ret { comp, .. } => acting(*comp, ops),
    }
}

/// Such a block from binding `i` on.
pub open spec fn acting_rest(ir: Ir, i: nat, ops: Seq<IrOpClause>) -> bool
    decreases ir, bind_count(ir) - i,
{
    match ir {
        Ir::Block { binds, comp, .. } => if i >= binds.len() {
            acting(*comp, ops)
        } else {
            acting(*binds[i as int].comp, ops) && acting_rest(ir, i + 1, ops)
        },
        _ => false,
    }
}

/// A handler of integers, none of whose clauses keeps its continuation.
pub open spec fn plain_handle(comp: Comp) -> bool {
    match comp {
        Comp::Handle { scrutinee, handler } => {
            &&& !any_reified(handler.ops@)
            &&& acting_block(*scrutinee, handler.ops@)
            &&& plain_ir(*handler.ret.body, false)
        },
        _ => false,
    }
}

// ── how it is lowered ────────────────────────────────────────────────────
/// The innermost handler in force has these clauses and this way out.
pub open spec fn under(st: St, ops: Seq<IrOpClause>, exit: Option<Exit>) -> bool {
    &&& !st.cx.gc
    &&& *st.cx.handlers is More
    &&& (*st.cx.handlers)->clauses@ == ops
    &&& (*st.cx.handlers)->exit == exit
    &&& exit matches Some(x) ==> x.block < st.script.len() && ready(st, x.slot)
}

pub(crate) proof fn lemma_act_rest_is(st: St, fuel: nat, ir: Ir, i: nat, ops: Seq<IrOpClause>)
    requires
        ir is Block,
        acting_rest(ir, i, ops),
    ensures
        i >= ir->Block_binds.len() ==> of_rest(st, fuel, ir, i) == of_comp(
            st,
            fuel,
            *ir->Block_comp,
        ),
        i < ir->Block_binds.len() ==> ({
            let b = ir->Block_binds[i as int];
            of_rest(st, fuel, ir, i) == match of_comp(st, fuel, *b.comp) {
                Err(e) => Err(e),
                Ok((next, v)) => of_rest(next.bind(b.name, v, b.ty, b.layout), fuel, ir, i + 1),
            }
        }),
{
    reveal(of_binds);
    let binds = ir->Block_binds;
    if i < binds.len() {
        let b = binds[i as int];
        assert(acting(target(b.comp), ops));
        lemma_of_bound(st, fuel, b.name, b.ty, b.layout, target(b.comp));
    }
}

pub(crate) proof fn lemma_act_block_is(st: St, fuel: nat, ir: Ir, ops: Seq<IrOpClause>)
    requires
        acting_block(ir, ops),
    ensures
        match ir {
            Ir::Block { .. } => of_ir(st, fuel, ir) == of_rest(st, fuel, ir, 0),
            Ir::Let { name, ty, layout, comp, rest, .. } => of_ir(st, fuel, ir) == match of_comp(
                st,
                fuel,
                *comp,
            ) {
                Err(e) => Err(e),
                Ok((next, v)) => of_ir(next.bind(name, v, ty, layout), fuel, *rest),
            },
            Ir::Ret { comp, .. } => of_ir(st, fuel, ir) == of_comp(st, fuel, *comp),
        },
{
    match ir {
        Ir::Block { .. } => lemma_of_block(st, fuel, ir),
        Ir::Let { name, ty, layout, comp, rest, .. } => {
            reveal(of_ir);
            assert(acting(target(comp), ops));
            lemma_of_bound(st, fuel, name, ty, layout, target(comp));
        },
        Ir::Ret { .. } => lemma_of_ret(st, fuel, ir),
    }
}

pub(crate) proof fn lemma_perform_is(st: St, fuel: nat, comp: Comp, ops: Seq<IrOpClause>, exit: Option<Exit>)
    requires
        comp is Perform,
        under(st, ops, exit),
        clause_of(ops, comp->Perform_0) is Some,
    ensures
        of_comp(st, fuel, comp) == of_perform(st, fuel, comp->Perform_0, comp->Perform_1),
        clause_for(*st.cx.handlers, comp->Perform_0) == Some(
            (
                clause_of(ops, comp->Perform_0)->0,
                exit,
                depth_of(*(*st.cx.handlers)->More_rest),
            ),
        ),
        of_comp(st, fuel, comp) is Ok && clause_of(ops, comp->Perform_0)->0.shape is Abort
            ==> exit is Some,
{
    reveal(of_comp);
    reveal(of_perform);
}

/// What a part under the clauses leaves in place, without counting positions.
pub(crate) proof fn lemma_act_len(st: St, fuel: nat, comp: Comp, ops: Seq<IrOpClause>, exit: Option<Exit>)
    requires
        under(st, ops, exit),
        acting(comp, ops),
        of_comp(st, fuel, comp) is Ok,
    ensures
        st.script.len() <= of_comp(st, fuel, comp)->Ok_0.0.script.len(),
        of_comp(st, fuel, comp)->Ok_0.0.cx.gc == st.cx.gc,
        of_comp(st, fuel, comp)->Ok_0.0.cx.handlers == st.cx.handlers,
    decreases comp, 0nat,
{
    match comp {
        Comp::Perform(label, a) => {
            lemma_perform_is(st, fuel, comp, ops, exit);
            let c = clause_of(ops, label)->0;
            let outside = depth_of(target((target(st.cx.handlers))->More_rest));
            if c.shape is Tail {
                let (out, v) = lemma_of_perform(st, fuel, label, a, c, exit, outside);
                let inside = clause_begun(st, label, st.atom(a)->Ok_0.1, c, outside);
                lemma_clause_len(inside, (fuel - 1) as nat, target(c.body), c.resume@);
            } else {
                let (out, v) = lemma_of_abort(st, fuel, label, a, c, exit->0, outside);
                let inside = abort_begun(st, label, st.atom(a)->Ok_0.1, c, outside);
                lemma_ir_len(inside, (fuel - 1) as nat, target(c.body));
            }
        },
        Comp::If(cond, yes, no) => {
            let (c, t1, a, e1, b) = lemma_of_if(st, fuel, comp);
            let head = if_head(st, c).0;
            let turn = if_turn(st, c, t1);
            lemma_act_block_len(head, fuel, target(yes), ops, exit);
            lemma_act_block_len(turn, fuel, target(no), ops, exit);
        },
        _ => lemma_comp_len(st, fuel, comp),
    }
}

pub(crate) proof fn lemma_act_block_len(st: St, fuel: nat, ir: Ir, ops: Seq<IrOpClause>, exit: Option<Exit>)
    requires
        under(st, ops, exit),
        acting_block(ir, ops),
        of_ir(st, fuel, ir) is Ok,
    ensures
        st.script.len() <= of_ir(st, fuel, ir)->Ok_0.0.script.len(),
        of_ir(st, fuel, ir)->Ok_0.0.cx.gc == st.cx.gc,
        of_ir(st, fuel, ir)->Ok_0.0.cx.handlers == st.cx.handlers,
    decreases ir, bind_count(ir) + 1,
{
    lemma_act_block_is(st, fuel, ir, ops);
    match ir {
        Ir::Block { .. } => lemma_act_rest_len(st, fuel, ir, 0, ops, exit),
        Ir::Let { name, ty, layout, comp, rest, .. } => {
            let (mid, v) = of_comp(st, fuel, target(comp))->Ok_0;
            lemma_act_len(st, fuel, target(comp), ops, exit);
            lemma_act_block_len(mid.bind(name, v, ty, layout), fuel, target(rest), ops, exit);
        },
        Ir::Ret { comp, .. } => lemma_act_len(st, fuel, target(comp), ops, exit),
    }
}

pub(crate) proof fn lemma_act_rest_len(st: St, fuel: nat, ir: Ir, i: nat, ops: Seq<IrOpClause>, exit: Option<Exit>)
    requires
        under(st, ops, exit),
        ir is Block,
        acting_rest(ir, i, ops),
        of_rest(st, fuel, ir, i) is Ok,
    ensures
        st.script.len() <= of_rest(st, fuel, ir, i)->Ok_0.0.script.len(),
        of_rest(st, fuel, ir, i)->Ok_0.0.cx.gc == st.cx.gc,
        of_rest(st, fuel, ir, i)->Ok_0.0.cx.handlers == st.cx.handlers,
    decreases ir, bind_count(ir) - i,
{
    lemma_act_rest_is(st, fuel, ir, i, ops);
    if let Ir::Block { binds, comp, .. } = ir {
        if i < binds.len() {
            let b = binds[i as int];
            let (mid, v) = of_comp(st, fuel, target(b.comp))->Ok_0;
            lemma_act_len(st, fuel, target(b.comp), ops, exit);
            lemma_act_rest_len(mid.bind(b.name, v, b.ty, b.layout), fuel, ir, i + 1, ops, exit);
        } else {
            lemma_act_len(st, fuel, target(comp), ops, exit);
        }
    }
}

pub(crate) proof fn lemma_abort_grown(st: St, out: St, v: Val, end: St)
    requires
        grown(st, out),
        end.script.len() == out.script.len() + 4,
        extends(end.script, out.script),
        end.script[out.script.len() as int] is Store,
        end.script[out.script.len() as int + 1] is Br,
        end.script[out.script.len() as int + 2] is Block,
        end.script[out.script.len() as int + 3] == (Cmd::At { block: (out.script.len() + 2) as u64 }),
        end.cx.block == (out.script.len() + 2) as u64,
        end.cx.gc == out.cx.gc,
        countable(end),
    ensures
        grown(st, end),
{
    let k = out.script.len() as int;
    lemma_extends(st.script, out.script, end.script);
    assert(opened(end.script, k + 4) == (k + 2) as u64);
    assert forall|i: int| 0 <= i < end.script.len() implies match #[trigger] end.script[i] {
        Cmd::At { block } => 0 <= block < end.script.len() && (i >= st.script.len() ==> block
            >= st.script.len()),
        Cmd::Incoming { phi, .. } => 0 <= phi < end.script.len() && (i >= st.script.len() ==> phi
            >= st.script.len()),
        _ => true,
    } by {
        if i < k {
            assert(end.script[i] == out.script[i]);
        }
    }
}

/// A state in which what a handler covers is lowered.
pub open spec fn covered(st: St, ops: Seq<IrOpClause>, exit: Option<Exit>) -> bool {
    under(st, ops, exit) && settled(st) && env_ready(st)
}

pub(crate) proof fn lemma_if_begun(st: St, c: Val, ops: Seq<IrOpClause>, exit: Option<Exit>)
    requires
        covered(st, ops, exit),
        st.script.len() + 6 <= u64::MAX,
    ensures
        covered(if_head(st, c).0, ops, exit),
{
    lemma_head(st, c);
    lemma_head_settled(st, c);
    lemma_env_kept(st, if_head(st, c).0);
}

pub(crate) proof fn lemma_if_turned(st: St, c: Val, t1: St, ops: Seq<IrOpClause>, exit: Option<Exit>)
    requires
        covered(st, ops, exit),
        st.script.len() + 6 <= t1.script.len(),
        countable(t1),
        settled(t1),
        t1.cx.gc == st.cx.gc,
        t1.cx.handlers == st.cx.handlers,
    ensures
        covered(if_turn(st, c, t1), ops, exit),
{
    lemma_head(st, c);
    lemma_turn(st, c, t1);
    lemma_env_kept(st, if_turn(st, c, t1));
}

#[verifier::rlimit(30)]
pub(crate) proof fn lemma_act_grown(st: St, fuel: nat, comp: Comp, ops: Seq<IrOpClause>, exit: Option<Exit>)
    requires
        covered(st, ops, exit),
        acting(comp, ops),
        of_comp(st, fuel, comp) is Ok,
        countable(of_comp(st, fuel, comp)->Ok_0.0),
    ensures
        grown(st, of_comp(st, fuel, comp)->Ok_0.0),
        ready(of_comp(st, fuel, comp)->Ok_0.0, of_comp(st, fuel, comp)->Ok_0.1) || comp is Perform,
        of_comp(st, fuel, comp)->Ok_0.0.cx.env == st.cx.env,
    decreases comp, 0nat,
{
    let (end, val) = of_comp(st, fuel, comp)->Ok_0;
    lemma_act_len(st, fuel, comp, ops, exit);
    match comp {
        Comp::Perform(label, a) => {
            lemma_perform_is(st, fuel, comp, ops, exit);
            let c = clause_of(ops, label)->0;
            let outside = depth_of(target((target(st.cx.handlers))->More_rest));
            let av = st.atom(a)->Ok_0.1;
            if c.shape is Tail {
                let (out, v) = lemma_of_perform(st, fuel, label, a, c, exit, outside);
                let inside = clause_begun(st, label, av, c, outside);
                lemma_atom_ready(st, a);
                lemma_bound(st, c.arg, av, c.arg_ty, c.arg_layout);
                lemma_env_kept(st.bind(c.arg, av, c.arg_ty, c.arg_layout), inside);
                lemma_clause_len(inside, (fuel - 1) as nat, target(c.body), c.resume@);
                lemma_clause_grown(inside, (fuel - 1) as nat, target(c.body), c.resume@);
                assert(grown(st, end));
            } else {
                let (out, v) = lemma_of_abort(st, fuel, label, a, c, exit->0, outside);
                let inside = abort_begun(st, label, av, c, outside);
                lemma_atom_ready(st, a);
                lemma_bound(st, c.arg, av, c.arg_ty, c.arg_layout);
                lemma_env_kept(st.bind(c.arg, av, c.arg_ty, c.arg_layout), inside);
                lemma_ir_len(inside, (fuel - 1) as nat, target(c.body));
                lemma_ir_grown(inside, (fuel - 1) as nat, target(c.body));
                lemma_abort_tail(st, fuel, label, a, c, exit->0, outside);
                lemma_abort_grown(st, out, v, end);
            }
        },
        Comp::If(cond, yes, no) => {
            let (c, t1, a, e1, b) = lemma_of_if(st, fuel, comp);
            let head = if_head(st, c).0;
            let turn = if_turn(st, c, t1);
            lemma_act_block_len(head, fuel, target(yes), ops, exit);
            lemma_act_block_len(turn, fuel, target(no), ops, exit);
            lemma_if_begun(st, c, ops, exit);
            lemma_head(st, c);
            lemma_act_block_grown(head, fuel, target(yes), ops, exit);
            lemma_if_turned(st, c, t1, ops, exit);
            lemma_act_block_grown(turn, fuel, target(no), ops, exit);
            lemma_if_grown(st, c, t1, a, e1, b);
            lemma_if_laid(st, c, t1, a, e1, b);
        },
        _ => lemma_comp_grown(st, fuel, comp),
    }
}

/// The value of a computation under the clauses is there.
pub(crate) proof fn lemma_act_ready(st: St, fuel: nat, comp: Comp, ops: Seq<IrOpClause>, exit: Option<Exit>)
    requires
        covered(st, ops, exit),
        acting(comp, ops),
        of_comp(st, fuel, comp) is Ok,
        countable(of_comp(st, fuel, comp)->Ok_0.0),
    ensures
        ready(of_comp(st, fuel, comp)->Ok_0.0, of_comp(st, fuel, comp)->Ok_0.1),
    decreases comp, 1nat,
{
    lemma_act_grown(st, fuel, comp, ops, exit);
    if let Comp::Perform(label, a) = comp {
        lemma_act_len(st, fuel, comp, ops, exit);
        lemma_perform_is(st, fuel, comp, ops, exit);
        let c = clause_of(ops, label)->0;
        let outside = depth_of(target((target(st.cx.handlers))->More_rest));
        let av = st.atom(a)->Ok_0.1;
        if c.shape is Tail {
            let (out, v) = lemma_of_perform(st, fuel, label, a, c, exit, outside);
            let inside = clause_begun(st, label, av, c, outside);
            lemma_atom_ready(st, a);
            lemma_bound(st, c.arg, av, c.arg_ty, c.arg_layout);
            lemma_env_kept(st.bind(c.arg, av, c.arg_ty, c.arg_layout), inside);
            lemma_clause_ready(inside, (fuel - 1) as nat, target(c.body), c.resume@);
        } else {
            let (out, v) = lemma_of_abort(st, fuel, label, a, c, exit->0, outside);
        }
    }
}

pub(crate) proof fn lemma_act_block_grown(st: St, fuel: nat, ir: Ir, ops: Seq<IrOpClause>, exit: Option<Exit>)
    requires
        covered(st, ops, exit),
        acting_block(ir, ops),
        of_ir(st, fuel, ir) is Ok,
        countable(of_ir(st, fuel, ir)->Ok_0.0),
    ensures
        grown(st, of_ir(st, fuel, ir)->Ok_0.0),
        env_ready(of_ir(st, fuel, ir)->Ok_0.0),
        ready(of_ir(st, fuel, ir)->Ok_0.0, of_ir(st, fuel, ir)->Ok_0.1),
    decreases ir, bind_count(ir) + 1,
{
    lemma_act_block_is(st, fuel, ir, ops);
    let end = of_ir(st, fuel, ir)->Ok_0.0;
    match ir {
        Ir::Block { .. } => lemma_act_rest_grown(st, fuel, ir, 0, ops, exit),
        Ir::Let { name, ty, layout, comp, rest, .. } => {
            let (mid, v) = of_comp(st, fuel, target(comp))->Ok_0;
            let next = mid.bind(name, v, ty, layout);
            lemma_act_len(st, fuel, target(comp), ops, exit);
            lemma_act_block_len(next, fuel, target(rest), ops, exit);
            lemma_act_grown(st, fuel, target(comp), ops, exit);
            lemma_act_ready(st, fuel, target(comp), ops, exit);
            lemma_env_kept(st, mid);
            lemma_bound(mid, name, v, ty, layout);
            lemma_act_block_grown(next, fuel, target(rest), ops, exit);
            lemma_grown(st, next, end);
        },
        Ir::Ret { comp, .. } => {
            lemma_act_len(st, fuel, target(comp), ops, exit);
            lemma_act_grown(st, fuel, target(comp), ops, exit);
            lemma_act_ready(st, fuel, target(comp), ops, exit);
            lemma_env_kept(st, end);
        },
    }
}

pub(crate) proof fn lemma_act_rest_grown(
    st: St,
    fuel: nat,
    ir: Ir,
    i: nat,
    ops: Seq<IrOpClause>,
    exit: Option<Exit>,
)
    requires
        covered(st, ops, exit),
        ir is Block,
        acting_rest(ir, i, ops),
        of_rest(st, fuel, ir, i) is Ok,
        countable(of_rest(st, fuel, ir, i)->Ok_0.0),
    ensures
        grown(st, of_rest(st, fuel, ir, i)->Ok_0.0),
        env_ready(of_rest(st, fuel, ir, i)->Ok_0.0),
        ready(of_rest(st, fuel, ir, i)->Ok_0.0, of_rest(st, fuel, ir, i)->Ok_0.1),
    decreases ir, bind_count(ir) - i,
{
    lemma_act_rest_is(st, fuel, ir, i, ops);
    let end = of_rest(st, fuel, ir, i)->Ok_0.0;
    if let Ir::Block { binds, comp, .. } = ir {
        if i < binds.len() {
            let b = binds[i as int];
            let c = target(b.comp);
            let (mid, v) = of_comp(st, fuel, c)->Ok_0;
            let next = mid.bind(b.name, v, b.ty, b.layout);
            lemma_act_len(st, fuel, c, ops, exit);
            lemma_act_rest_len(next, fuel, ir, i + 1, ops, exit);
            lemma_act_grown(st, fuel, c, ops, exit);
            lemma_act_ready(st, fuel, c, ops, exit);
            lemma_env_kept(st, mid);
            lemma_bound(mid, b.name, v, b.ty, b.layout);
            lemma_act_rest_grown(next, fuel, ir, i + 1, ops, exit);
            lemma_grown(st, next, end);
        } else {
            lemma_act_len(st, fuel, target(comp), ops, exit);
            lemma_act_grown(st, fuel, target(comp), ops, exit);
            lemma_act_ready(st, fuel, target(comp), ops, exit);
            lemma_env_kept(st, end);
        }
    }
}

// ── how it runs ──────────────────────────────────────────────────────────
/// The first place behind a part where the handler's way out is entered.
pub open spec fn exits(script: Seq<Cmd>, exit: Option<Exit>, from: int, behind: int) -> bool {
    exit matches Some(x) ==> {
        &&& from <= behind < script.len()
        &&& script[behind] == (Cmd::At { block: x.block })
        &&& forall|i: int| from <= i < behind ==> #[trigger] script[i] != (Cmd::At { block: x.block })
    }
}

/// This is the cell of the handler's result.
pub open spec fn puts_in(exit: Option<Exit>, m: Machine, cell: u64) -> bool {
    exit matches Some(x) ==> m.value(x.slot) == cell
}

/// What running a part under the clauses leads to.
pub open spec fn acts_so(
    script: Seq<Cmd>,
    n: int,
    m: Machine,
    end: int,
    v: Val,
    behind: int,
    cell: u64,
    acted: Acted,
    after: Machine,
    j: nat,
) -> bool {
    match acted {
        Acted::Went(w, _) => keeps(m, after, n) && after.value(v) == w && leads_in(
            script,
            n,
            m,
            end,
            after,
            j,
        ),
        Acted::Left(w) => {
            &&& leads_in(script, n, m, behind, after, j)
            &&& after.mem == m.mem.insert(cell, w)
            &&& after.objects == m.objects
            &&& goes_on(m, after, n)
        },
        Acted::Trap => traps_in(script, n, m, j),
        Acted::Open => true,
    }
}

pub(crate) proof fn lemma_exits(script: Seq<Cmd>, exit: Option<Exit>, mid: St, end: St, behind: int)
    requires
        exits(script, exit, end.script.len() as int, behind),
        exit matches Some(x) ==> x.block < mid.script.len(),
        mid.script.len() <= end.script.len(),
        extends(script, end.script),
        own_blocks(end.script, mid.script.len() as int, end.script.len() as int),
    ensures
        exits(script, exit, mid.script.len() as int, behind),
{
    if let Some(x) = exit {
        assert forall|i: int| mid.script.len() <= i < behind implies #[trigger] script[i] != (Cmd::At {
            block: x.block,
        }) by {
            if i < end.script.len() {
                assert(script[i] == end.script[i]);
            }
        }
    }
}

/// What follows a part under the clauses.
pub(crate) proof fn lemma_acts_then(
    script: Seq<Cmd>,
    n: int,
    m: Machine,
    k: int,
    mid: Machine,
    i: nat,
    end: int,
    v: Val,
    behind: int,
    cell: u64,
    acted: Acted,
    after: Machine,
    j: nat,
)
    requires
        n <= k,
        m.args.len() == 0,
        keeps(m, mid, n),
        leads_in(script, n, m, k, mid, i),
        acts_so(script, k, mid, end, v, behind, cell, acted, after, j),
    ensures
        acts_so(script, n, m, end, v, behind, cell, acted, after, i + j),
{
    match acted {
        Acted::Went(w, _) => {
            lemma_keeps(m, mid, after, n, k);
            lemma_leads(script, n, m, k, mid, i, end, after, j);
        },
        Acted::Left(w) => {
            lemma_leads(script, n, m, k, mid, i, behind, after, j);
            assert(goes_on(m, mid, n));
            lemma_goes_on(m, mid, after, n, k);
        },
        Acted::Trap => lemma_leads_to_trap(script, n, m, k, mid, i, j),
        Acted::Open => {},
    }
}

#[verifier::rlimit(40)]
pub(crate) proof fn lemma_act_runs(
    st: St,
    fuel: nat,
    comp: Comp,
    ops: Seq<IrOpClause>,
    exit: Option<Exit>,
    vars: Vars,
    turns: nat,
    script: Seq<Cmd>,
    behind: int,
    cell: u64,
    m: Machine,
) -> (r: (Machine, nat))
    requires
        covered(st, ops, exit),
        at_hand(st, vars, m),
        acting(comp, ops),
        of_comp(st, fuel, comp) is Ok,
        holds_part(script, st, of_comp(st, fuel, comp)->Ok_0.0),
        exits(script, exit, of_comp(st, fuel, comp)->Ok_0.0.script.len() as int, behind),
        puts_in(exit, m, cell),
    ensures
        acts_so(
            script,
            st.script.len() as int,
            m,
            of_comp(st, fuel, comp)->Ok_0.0.script.len() as int,
            of_comp(st, fuel, comp)->Ok_0.1,
            behind,
            cell,
            act(comp, ops, vars, turns),
            r.0,
            r.1,
        ),
    decreases comp, 1nat,
{
    match comp {
        Comp::Perform(label, a) => {
            lemma_perform_is(st, fuel, comp, ops, exit);
            let c = clause_of(ops, label)->0;
            let outside = depth_of(target((target(st.cx.handlers))->More_rest));
            if c.shape is Tail {
                an_operation_gives_what_its_clause_resumes_with(
                    st,
                    fuel,
                    label,
                    a,
                    c,
                    exit,
                    outside,
                    vars,
                    turns,
                    script,
                    m,
                )
            } else {
                an_operation_whose_clause_aborts_leaves_the_handler(
                    st,
                    fuel,
                    label,
                    a,
                    c,
                    exit->0,
                    outside,
                    vars,
                    turns,
                    script,
                    behind,
                    m,
                )
            }
        },
        Comp::If(..) => lemma_act_if_runs(
            st,
            fuel,
            comp,
            ops,
            exit,
            vars,
            turns,
            script,
            behind,
            cell,
            m,
        ),
        _ => lemma_comp_runs(st, fuel, comp, vars, turns, script, m),
    }
}

#[verifier::rlimit(60)]
#[verifier::spinoff_prover]
pub(crate) proof fn lemma_act_if_runs(
    st: St,
    fuel: nat,
    comp: Comp,
    ops: Seq<IrOpClause>,
    exit: Option<Exit>,
    vars: Vars,
    turns: nat,
    script: Seq<Cmd>,
    behind: int,
    cell: u64,
    m: Machine,
) -> (r: (Machine, nat))
    requires
        covered(st, ops, exit),
        at_hand(st, vars, m),
        comp is If,
        acting(comp, ops),
        of_comp(st, fuel, comp) is Ok,
        holds_part(script, st, of_comp(st, fuel, comp)->Ok_0.0),
        exits(script, exit, of_comp(st, fuel, comp)->Ok_0.0.script.len() as int, behind),
        puts_in(exit, m, cell),
    ensures
        acts_so(
            script,
            st.script.len() as int,
            m,
            of_comp(st, fuel, comp)->Ok_0.0.script.len() as int,
            of_comp(st, fuel, comp)->Ok_0.1,
            behind,
            cell,
            act(comp, ops, vars, turns),
            r.0,
            r.1,
        ),
    decreases comp, 0nat,
{
    let n = st.script.len() as int;
    let (end, v) = of_comp(st, fuel, comp)->Ok_0;
    let yes = target(comp->If_1);
    let no = target(comp->If_2);
    let (c, t1, a, e1, b) = lemma_of_if(st, fuel, comp);
    let t = t1.script.len() as int;
    let e = e1.script.len() as int;
    let head = if_head(st, c).0;
    let turn = if_turn(st, c, t1);
    lemma_act_if_laid(st, fuel, comp, ops, exit, script, behind, c, t1, a, e1, b);
    lemma_atom_word(st, comp->If_0, m, vars);
    lemma_if_enter(script, n, t, e, c, a, b, t1.cx.block, e1.cx.block, m);
    let m2 = branched(script, n, c, m);
    let first = m.value(c) != 0;
    if first {
        lemma_run_leads(script, n, m, n + 6, m2);
        lemma_models_kept(st, head, m, m2, vars);
        let (mid, j) = lemma_act_block_runs(
            head,
            fuel,
            yes,
            ops,
            exit,
            vars,
            turns,
            script,
            behind,
            cell,
            m2,
        );
        let acted = act_block(yes, ops, vars, turns);
        lemma_acts_then(script, n, m, n + 6, m2, 0, t, a, behind, cell, acted, mid, j);
        if let Acted::Went(w, _) = acted {
            let after = lemma_if_leave(
                script,
                n,
                t,
                e,
                c,
                a,
                b,
                t1.cx.block,
                e1.cx.block,
                true,
                mid,
            );
            lemma_run_leads(script, t, mid, e + 5, after);
            lemma_leads(script, n, m, t, mid, j, e + 5, after, 0);
            lemma_keeps(m, mid, after, n, e);
            (after, j)
        } else {
            (mid, j)
        }
    } else {
        lemma_run_leads(script, n, m, t + 2, m2);
        lemma_models_kept(st, turn, m, m2, vars);
        let (mid, j) = lemma_act_block_runs(
            turn,
            fuel,
            no,
            ops,
            exit,
            vars,
            turns,
            script,
            behind,
            cell,
            m2,
        );
        let acted = act_block(no, ops, vars, turns);
        lemma_acts_then(script, n, m, t + 2, m2, 0, e, b, behind, cell, acted, mid, j);
        if let Acted::Went(w, _) = acted {
            let after = lemma_if_leave(
                script,
                n,
                t,
                e,
                c,
                a,
                b,
                t1.cx.block,
                e1.cx.block,
                false,
                mid,
            );
            lemma_run_leads(script, e, mid, e + 5, after);
            lemma_leads(script, n, m, e, mid, j, e + 5, after, 0);
            lemma_keeps(m, mid, after, n, e);
            (after, j)
        } else {
            (mid, j)
        }
    }
}

/// How a branch under the clauses lies in the script.
#[verifier::rlimit(30)]
pub(crate) proof fn lemma_act_if_laid(
    st: St,
    fuel: nat,
    comp: Comp,
    ops: Seq<IrOpClause>,
    exit: Option<Exit>,
    script: Seq<Cmd>,
    behind: int,
    c: Val,
    t1: St,
    a: Val,
    e1: St,
    b: Val,
)
    requires
        covered(st, ops, exit),
        comp is If,
        acting(comp, ops),
        of_comp(st, fuel, comp) is Ok,
        holds_part(script, st, of_comp(st, fuel, comp)->Ok_0.0),
        exits(script, exit, of_comp(st, fuel, comp)->Ok_0.0.script.len() as int, behind),
        if_parts(st, fuel, comp, c, t1, a, e1, b),
    ensures
        ({
            let (end, v) = of_comp(st, fuel, comp)->Ok_0;
            let head = if_head(st, c).0;
            let turn = if_turn(st, c, t1);
            let n = st.script.len() as int;
            &&& if_around(
                script,
                n,
                t1.script.len() as int,
                e1.script.len() as int,
                c,
                a,
                b,
                t1.cx.block,
                e1.cx.block,
            )
            &&& covered(head, ops, exit)
            &&& covered(turn, ops, exit)
            &&& head.cx.env == st.cx.env
            &&& turn.cx.env == st.cx.env
            &&& head.script.len() == n + 6
            &&& turn.script.len() == t1.script.len() + 2
            &&& n + 6 <= t1.script.len()
            &&& t1.script.len() + 2 <= e1.script.len()
            &&& holds_part(script, head, t1)
            &&& holds_part(script, turn, e1)
            &&& exits(script, exit, t1.script.len() as int, behind)
            &&& exits(script, exit, e1.script.len() as int, behind)
            &&& end.script.len() == e1.script.len() + 5
            &&& v.id == Id::Reg((e1.script.len() + 2) as u64)
        }),
{
    let end = of_comp(st, fuel, comp)->Ok_0.0;
    let yes = target(comp->If_1);
    let no = target(comp->If_2);
    let head = if_head(st, c).0;
    let turn = if_turn(st, c, t1);
    lemma_act_len(st, fuel, comp, ops, exit);
    lemma_act_block_len(head, fuel, yes, ops, exit);
    lemma_act_block_len(turn, fuel, no, ops, exit);
    lemma_if_begun(st, c, ops, exit);
    lemma_head(st, c);
    lemma_act_block_grown(head, fuel, yes, ops, exit);
    lemma_if_turned(st, c, t1, ops, exit);
    lemma_turn(st, c, t1);
    lemma_act_block_grown(turn, fuel, no, ops, exit);
    lemma_if_around(st, c, t1, a, e1, b, script);
    lemma_if_laid(st, c, t1, a, e1, b);
    lemma_if_grown(st, c, t1, a, e1, b);
    lemma_act_if_followed(script, st, t1, e1, end, c, a, b);
    lemma_act_if_exits(script, st, t1, e1, end, exit, behind);
}

pub(crate) proof fn lemma_act_if_followed(
    script: Seq<Cmd>,
    st: St,
    t1: St,
    e1: St,
    end: St,
    c: Val,
    a: Val,
    b: Val,
)
    requires
        if_around(
            script,
            st.script.len() as int,
            t1.script.len() as int,
            e1.script.len() as int,
            c,
            a,
            b,
            t1.cx.block,
            e1.cx.block,
        ),
        countable(end),
        settled(end),
        extends(script, end.script),
        end.script.len() == e1.script.len() + 5,
        end.cx.block == st.script.len() + 3,
        holds_part(script, st, end),
        if_head(st, c).0.script.len() == st.script.len() + 6,
        if_turn(st, c, t1).script.len() == t1.script.len() + 2,
    ensures
        followed(script, st.script.len() as int + 6, t1.script.len() as int),
        followed(script, t1.script.len() as int + 2, e1.script.len() as int),
{
    let n = st.script.len() as int;
    let t = t1.script.len() as int;
    let e = e1.script.len() as int;
    lemma_opened(script, end.script, e + 5);
    assert forall|i: int| t <= i < script.len() implies (#[trigger] script[i] matches Cmd::At { block }
        ==> block < n + 6 || t <= block || block == opened(script, t)) by {
    }
    assert forall|i: int| e <= i < script.len() implies (#[trigger] script[i] matches Cmd::At { block }
        ==> block < t + 2 || e <= block || block == opened(script, e)) by {
    }
}

pub(crate) proof fn lemma_act_if_exits(
    script: Seq<Cmd>,
    st: St,
    t1: St,
    e1: St,
    end: St,
    exit: Option<Exit>,
    behind: int,
)
    requires
        exit matches Some(x) ==> x.block < st.script.len(),
        exits(script, exit, end.script.len() as int, behind),
        grown(st, end),
        extends(script, end.script),
        st.script.len() <= t1.script.len() <= e1.script.len() <= end.script.len(),
    ensures
        exits(script, exit, t1.script.len() as int, behind),
        exits(script, exit, e1.script.len() as int, behind),
{
    if let Some(x) = exit {
        assert forall|i: int| t1.script.len() <= i < behind implies #[trigger] script[i] != (Cmd::At {
            block: x.block,
        }) by {
            if i < end.script.len() {
                assert(script[i] == end.script[i]);
            }
        }
    }
}

/// The variables in scope behind what a handler covers.
pub open spec fn scope_behind(end: St, acted: Acted, after: Machine) -> bool {
    acted matches Acted::Went(_, inner) ==> models(end, after, inner)
}

#[verifier::rlimit(40)]
pub(crate) proof fn lemma_act_block_runs(
    st: St,
    fuel: nat,
    ir: Ir,
    ops: Seq<IrOpClause>,
    exit: Option<Exit>,
    vars: Vars,
    turns: nat,
    script: Seq<Cmd>,
    behind: int,
    cell: u64,
    m: Machine,
) -> (r: (Machine, nat))
    requires
        covered(st, ops, exit),
        at_hand(st, vars, m),
        acting_block(ir, ops),
        of_ir(st, fuel, ir) is Ok,
        holds_part(script, st, of_ir(st, fuel, ir)->Ok_0.0),
        exits(script, exit, of_ir(st, fuel, ir)->Ok_0.0.script.len() as int, behind),
        puts_in(exit, m, cell),
    ensures
        acts_so(
            script,
            st.script.len() as int,
            m,
            of_ir(st, fuel, ir)->Ok_0.0.script.len() as int,
            of_ir(st, fuel, ir)->Ok_0.1,
            behind,
            cell,
            act_block(ir, ops, vars, turns),
            r.0,
            r.1,
        ),
        scope_behind(of_ir(st, fuel, ir)->Ok_0.0, act_block(ir, ops, vars, turns), r.0),
    decreases ir, bind_count(ir) + 1,
{
    let n = st.script.len() as int;
    let (end, v) = of_ir(st, fuel, ir)->Ok_0;
    let e = end.script.len() as int;
    lemma_act_block_is(st, fuel, ir, ops);
    match ir {
        Ir::Block { .. } => lemma_act_rest_runs(
            st,
            fuel,
            ir,
            0,
            ops,
            exit,
            vars,
            turns,
            script,
            behind,
            cell,
            m,
        ),
        Ir::Let { name, ty, layout, comp, rest, .. } => {
            let c = target(comp);
            let (mid_st, x) = of_comp(st, fuel, c)->Ok_0;
            let next = mid_st.bind(name, x, ty, layout);
            let k = next.script.len() as int;
            lemma_act_len(st, fuel, c, ops, exit);
            lemma_act_block_len(next, fuel, target(rest), ops, exit);
            lemma_act_grown(st, fuel, c, ops, exit);
            lemma_act_ready(st, fuel, c, ops, exit);
            lemma_env_kept(st, mid_st);
            lemma_bound(mid_st, name, x, ty, layout);
            lemma_act_block_grown(next, fuel, target(rest), ops, exit);
            lemma_extends(next.script, end.script, script);
            lemma_own_blocks(script, end.script, k, e);
            lemma_apart(script, n, k, e);
            lemma_exits(script, exit, next, end, behind);
            let (mid, i) = lemma_act_runs(st, fuel, c, ops, exit, vars, turns, script, behind, cell, m);
            let acted = act(c, ops, vars, turns);
            if let Acted::Went(w, _) = acted {
                lemma_models_kept(st, mid_st, m, mid, vars);
                lemma_models_bound(mid_st, name, x, ty, layout, mid, vars);
                let later = vars.insert(name@, w);
                let (after, j) = lemma_act_block_runs(
                    next,
                    fuel,
                    target(rest),
                    ops,
                    exit,
                    later,
                    turns,
                    script,
                    behind,
                    cell,
                    mid,
                );
                lemma_acts_then(
                    script,
                    n,
                    m,
                    k,
                    mid,
                    i,
                    e,
                    v,
                    behind,
                    cell,
                    act_block(target(rest), ops, later, turns),
                    after,
                    j,
                );
                (after, i + j)
            } else {
                (mid, i)
            }
        },
        Ir::Ret { comp, .. } => {
            let c = target(comp);
            let (mid, i) = lemma_act_runs(st, fuel, c, ops, exit, vars, turns, script, behind, cell, m);
            lemma_act_len(st, fuel, c, ops, exit);
            lemma_act_grown(st, fuel, c, ops, exit);
            lemma_act_scope(st, end, c, ops, vars, turns, m, mid);
            (mid, i)
        },
    }
}

pub(crate) proof fn lemma_act_scope(
    st: St,
    end: St,
    comp: Comp,
    ops: Seq<IrOpClause>,
    vars: Vars,
    turns: nat,
    m: Machine,
    mid: Machine,
)
    requires
        env_ready(st),
        models(st, m, vars),
        end.cx.env == st.cx.env,
        act(comp, ops, vars, turns) is Went ==> keeps(m, mid, st.script.len() as int),
    ensures
        scope_behind(end, act(comp, ops, vars, turns), mid),
{
    if act(comp, ops, vars, turns) is Went {
        lemma_models_kept(st, end, m, mid, vars);
    }
}

#[verifier::rlimit(40)]
pub(crate) proof fn lemma_act_rest_runs(
    st: St,
    fuel: nat,
    ir: Ir,
    i: nat,
    ops: Seq<IrOpClause>,
    exit: Option<Exit>,
    vars: Vars,
    turns: nat,
    script: Seq<Cmd>,
    behind: int,
    cell: u64,
    m: Machine,
) -> (r: (Machine, nat))
    requires
        covered(st, ops, exit),
        at_hand(st, vars, m),
        ir is Block,
        acting_rest(ir, i, ops),
        of_rest(st, fuel, ir, i) is Ok,
        holds_part(script, st, of_rest(st, fuel, ir, i)->Ok_0.0),
        exits(script, exit, of_rest(st, fuel, ir, i)->Ok_0.0.script.len() as int, behind),
        puts_in(exit, m, cell),
    ensures
        acts_so(
            script,
            st.script.len() as int,
            m,
            of_rest(st, fuel, ir, i)->Ok_0.0.script.len() as int,
            of_rest(st, fuel, ir, i)->Ok_0.1,
            behind,
            cell,
            act_rest(ir, i, ops, vars, turns),
            r.0,
            r.1,
        ),
        scope_behind(of_rest(st, fuel, ir, i)->Ok_0.0, act_rest(ir, i, ops, vars, turns), r.0),
    decreases ir, bind_count(ir) - i,
{
    let n = st.script.len() as int;
    let (end, v) = of_rest(st, fuel, ir, i)->Ok_0;
    let e = end.script.len() as int;
    let binds = ir->Block_binds;
    lemma_act_rest_is(st, fuel, ir, i, ops);
    if i < binds.len() {
        let b = binds[i as int];
        let c = target(b.comp);
        let (mid_st, x) = of_comp(st, fuel, c)->Ok_0;
        let next = mid_st.bind(b.name, x, b.ty, b.layout);
        let k = next.script.len() as int;
        lemma_act_len(st, fuel, c, ops, exit);
        lemma_act_rest_len(next, fuel, ir, i + 1, ops, exit);
        lemma_act_grown(st, fuel, c, ops, exit);
        lemma_act_ready(st, fuel, c, ops, exit);
        lemma_env_kept(st, mid_st);
        lemma_bound(mid_st, b.name, x, b.ty, b.layout);
        lemma_act_rest_grown(next, fuel, ir, i + 1, ops, exit);
        lemma_extends(next.script, end.script, script);
        lemma_own_blocks(script, end.script, k, e);
        lemma_apart(script, n, k, e);
        lemma_exits(script, exit, next, end, behind);
        let (mid, q) = lemma_act_runs(st, fuel, c, ops, exit, vars, turns, script, behind, cell, m);
        let acted = act(c, ops, vars, turns);
        if let Acted::Went(w, _) = acted {
            lemma_models_kept(st, mid_st, m, mid, vars);
            lemma_models_bound(mid_st, b.name, x, b.ty, b.layout, mid, vars);
            let later = vars.insert(b.name@, w);
            let (after, j) = lemma_act_rest_runs(
                next,
                fuel,
                ir,
                i + 1,
                ops,
                exit,
                later,
                turns,
                script,
                behind,
                cell,
                mid,
            );
            lemma_acts_then(
                script,
                n,
                m,
                k,
                mid,
                q,
                e,
                v,
                behind,
                cell,
                act_rest(ir, i + 1, ops, later, turns),
                after,
                j,
            );
            (after, q + j)
        } else {
            (mid, q)
        }
    } else {
        let c = target(ir->Block_comp);
        let (mid, q) = lemma_act_runs(st, fuel, c, ops, exit, vars, turns, script, behind, cell, m);
        lemma_act_len(st, fuel, c, ops, exit);
        lemma_act_grown(st, fuel, c, ops, exit);
        lemma_act_scope(st, end, c, ops, vars, turns, m, mid);
        (mid, q)
    }
}

// ── handlers ─────────────────────────────────────────────────────────────
/// The code of what a handler covers and of its return clause.
#[verifier::opaque]
pub open spec fn of_handled(st: St, fuel: nat, comp: Comp, exit: Option<Exit>) -> Result<
    (St, Val),
    CodegenError,
> {
    st.handled(fuel, comp, exit)
}

/// The state in which the return clause begins.
pub open spec fn ret_begun(st: St, handler: IrHandler, behind: St, v: Val) -> St {
    behind.with_handlers(st.cx.handlers).bind(
        handler.ret.var,
        v,
        handler.ret.var_ty,
        handler.ret.var_layout,
    )
}

pub(crate) proof fn lemma_handled_is(st: St, fuel: nat, comp: Comp, exit: Option<Exit>) -> (r: (St, Val))
    requires
        comp is Handle,
        of_handled(st, fuel, comp, exit) is Ok,
    ensures
        of_ir(st.push_handler(*comp->handler, exit), fuel, *comp->scrutinee) == Ok::<
            (St, Val),
            CodegenError,
        >(r),
        of_handled(st, fuel, comp, exit) == of_ir(
            ret_begun(st, *comp->handler, r.0, r.1),
            fuel,
            *comp->handler.ret.body,
        ),
{
    reveal(of_handled);
    reveal(of_ir);
    of_ir(st.push_handler(target(comp->handler), exit), fuel, target(comp->scrutinee))->Ok_0
}

/// How what a handler covers ends, with its return clause.
pub open spec fn act_handled(comp: Comp, vars: Vars, turns: nat) -> Acted {
    match act_block(*comp->scrutinee, comp->handler.ops@, vars, turns) {
        Acted::Went(w, inner) => went(
            ir_meaning(*comp->handler.ret.body, inner.insert(comp->handler.ret.var@, w), turns),
            inner,
        ),
        other => other,
    }
}

pub(crate) proof fn lemma_handled_len(st: St, fuel: nat, comp: Comp, exit: Option<Exit>)
    requires
        plain_handle(comp),
        !st.cx.gc,
        exit matches Some(x) ==> x.block < st.script.len() && ready(st, x.slot),
        of_handled(st, fuel, comp, exit) is Ok,
    ensures
        st.script.len() <= of_handled(st, fuel, comp, exit)->Ok_0.0.script.len(),
        !of_handled(st, fuel, comp, exit)->Ok_0.0.cx.gc,
{
    let handler = target(comp->handler);
    let (behind, v) = lemma_handled_is(st, fuel, comp, exit);
    let begun = st.push_handler(handler, exit);
    lemma_act_block_len(begun, fuel, target(comp->scrutinee), handler.ops@, exit);
    lemma_ir_len(ret_begun(st, handler, behind, v), fuel, target(handler.ret.body));
}

pub(crate) proof fn lemma_handled_grown(st: St, fuel: nat, comp: Comp, exit: Option<Exit>)
    requires
        plain_handle(comp),
        !st.cx.gc,
        settled(st),
        env_ready(st),
        exit matches Some(x) ==> x.block < st.script.len() && ready(st, x.slot),
        of_handled(st, fuel, comp, exit) is Ok,
        countable(of_handled(st, fuel, comp, exit)->Ok_0.0),
    ensures
        grown(st, of_handled(st, fuel, comp, exit)->Ok_0.0),
{
    let handler = target(comp->handler);
    let ops = handler.ops@;
    let (s2, v) = lemma_handled_is(st, fuel, comp, exit);
    let begun = st.push_handler(handler, exit);
    let next = ret_begun(st, handler, s2, v);
    let end = of_handled(st, fuel, comp, exit)->Ok_0.0;
    lemma_act_block_len(begun, fuel, target(comp->scrutinee), ops, exit);
    lemma_ir_len(next, fuel, target(handler.ret.body));
    lemma_env_kept(st, begun);
    lemma_act_block_grown(begun, fuel, target(comp->scrutinee), ops, exit);
    lemma_env_kept(s2, s2.with_handlers(st.cx.handlers));
    lemma_bound(
        s2.with_handlers(st.cx.handlers),
        handler.ret.var,
        v,
        handler.ret.var_ty,
        handler.ret.var_layout,
    );
    lemma_ir_grown(next, fuel, target(handler.ret.body));
    lemma_grown(st, next, end);
}

#[verifier::rlimit(40)]
pub(crate) proof fn lemma_handled_runs(
    st: St,
    fuel: nat,
    comp: Comp,
    exit: Option<Exit>,
    vars: Vars,
    turns: nat,
    script: Seq<Cmd>,
    behind: int,
    cell: u64,
    m: Machine,
) -> (r: (Machine, nat))
    requires
        plain_handle(comp),
        !st.cx.gc,
        at_hand(st, vars, m),
        exit matches Some(x) ==> x.block < st.script.len() && ready(st, x.slot),
        of_handled(st, fuel, comp, exit) is Ok,
        holds_part(script, st, of_handled(st, fuel, comp, exit)->Ok_0.0),
        exits(script, exit, of_handled(st, fuel, comp, exit)->Ok_0.0.script.len() as int, behind),
        puts_in(exit, m, cell),
    ensures
        acts_so(
            script,
            st.script.len() as int,
            m,
            of_handled(st, fuel, comp, exit)->Ok_0.0.script.len() as int,
            of_handled(st, fuel, comp, exit)->Ok_0.1,
            behind,
            cell,
            act_handled(comp, vars, turns),
            r.0,
            r.1,
        ),
{
    let n = st.script.len() as int;
    let handler = target(comp->handler);
    let ops = handler.ops@;
    let body = target(comp->scrutinee);
    let (s2, x) = lemma_handled_is(st, fuel, comp, exit);
    let begun = st.push_handler(handler, exit);
    let bare = s2.with_handlers(st.cx.handlers);
    let next = ret_begun(st, handler, s2, x);
    let (end, v) = of_handled(st, fuel, comp, exit)->Ok_0;
    let k = next.script.len() as int;
    let e = end.script.len() as int;
    lemma_act_block_len(begun, fuel, body, ops, exit);
    lemma_ir_len(next, fuel, target(handler.ret.body));
    lemma_env_kept(st, begun);
    assert(covered(begun, ops, exit));
    lemma_act_block_grown(begun, fuel, body, ops, exit);
    lemma_env_kept(s2, bare);
    lemma_bound(bare, handler.ret.var, x, handler.ret.var_ty, handler.ret.var_layout);
    lemma_ir_grown(next, fuel, target(handler.ret.body));
    lemma_extends(next.script, end.script, script);
    lemma_own_blocks(script, end.script, k, e);
    lemma_apart(script, n, k, e);
    lemma_exits(script, exit, next, end, behind);
    assert(models(begun, m, vars));
    let (mid, i) = lemma_act_block_runs(
        begun,
        fuel,
        body,
        ops,
        exit,
        vars,
        turns,
        script,
        behind,
        cell,
        m,
    );
    if let Acted::Went(w, inner) = act_block(body, ops, vars, turns) {
        assert(models(bare, mid, inner));
        lemma_models_bound(
            bare,
            handler.ret.var,
            x,
            handler.ret.var_ty,
            handler.ret.var_layout,
            mid,
            inner,
        );
        let later = inner.insert(handler.ret.var@, w);
        let (after, j) = lemma_ir_runs(
            next,
            fuel,
            target(handler.ret.body),
            later,
            turns,
            script,
            mid,
        );
        let acted = went(ir_meaning(target(handler.ret.body), later, turns), inner);
        lemma_acts_then(script, n, m, k, mid, i, e, v, behind, cell, acted, after, j);
        (after, i + j)
    } else {
        (mid, i)
    }
}

/// No operation leaves a handler none of whose clauses aborts.
pub(crate) proof fn lemma_never_left(comp: Comp, ops: Seq<IrOpClause>, vars: Vars, turns: nat)
    requires
        !any_abort(ops),
    ensures
        !(act(comp, ops, vars, turns) is Left),
    decreases comp, 0nat,
{
    match comp {
        Comp::Perform(label, a) => {
            if let Some(i) = first_clause(ops, label, 0) {
                lemma_first(ops, label, 0);
                assert(!(ops[i as int].shape is Abort));
            }
        },
        Comp::If(c, yes, no) => {
            lemma_block_never_left(target(yes), ops, vars, turns);
            lemma_block_never_left(target(no), ops, vars, turns);
        },
        _ => {},
    }
}

pub(crate) proof fn lemma_first(ops: Seq<IrOpClause>, label: Label, i: nat)
    ensures
        first_clause(ops, label, i) matches Some(k) ==> i <= k < ops.len(),
    decreases ops.len() - i,
{
    if i < ops.len() {
        lemma_first(ops, label, i + 1);
    }
}

pub(crate) proof fn lemma_block_never_left(ir: Ir, ops: Seq<IrOpClause>, vars: Vars, turns: nat)
    requires
        !any_abort(ops),
    ensures
        !(act_block(ir, ops, vars, turns) is Left),
    decreases ir, bind_count(ir) + 1,
{
    match ir {
        Ir::Block { .. } => lemma_rest_never_left(ir, 0, ops, vars, turns),
        Ir::Let { name, comp, rest, .. } => {
            lemma_never_left(target(comp), ops, vars, turns);
            if let Acted::Went(w, _) = act(target(comp), ops, vars, turns) {
                lemma_block_never_left(target(rest), ops, vars.insert(name@, w), turns);
            }
        },
        Ir::Ret { comp, .. } => lemma_never_left(target(comp), ops, vars, turns),
    }
}

pub(crate) proof fn lemma_rest_never_left(ir: Ir, i: nat, ops: Seq<IrOpClause>, vars: Vars, turns: nat)
    requires
        !any_abort(ops),
    ensures
        !(act_rest(ir, i, ops, vars, turns) is Left),
    decreases ir, bind_count(ir) - i,
{
    if let Ir::Block { binds, comp, .. } = ir {
        if i < binds.len() {
            let c = target(binds[i as int].comp);
            lemma_never_left(c, ops, vars, turns);
            if let Acted::Went(w, _) = act(c, ops, vars, turns) {
                lemma_rest_never_left(ir, i + 1, ops, vars.insert(binds[i as int].name@, w), turns);
            }
        } else {
            lemma_never_left(target(comp), ops, vars, turns);
        }
    }
}

} // verus!
