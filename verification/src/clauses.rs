//! What is proved of clauses that are inlined: an operation gives what its clause
//! resumes with, or leaves the handler with what its clause means.
use crate::applying::goes_on;
use crate::closures::clause_for;
use crate::error::CodegenError;
use crate::ir::{target, Atom, Comp, Ir, IrOpClause, Label};
use crate::meaning::{extends, opened, ready, run, Machine};
use crate::programs::{
    atom_word, comp_meaning, ir_meaning, plain_clause, plain_comp, plain_ir, plain_last,
    resumed_meaning, resumed_with, vars_from, Meant, Vars,
};
use crate::running::{
    at_hand, done_by, followed, holds_part, leads_in, lemma_apart, lemma_atom_word, lemma_binds_run,
    lemma_comp_runs, lemma_follows, lemma_ir_runs, lemma_leads, lemma_models_bound,
    lemma_models_kept, lemma_run_leads, lemma_seek_at, models, traps_in,
};
use crate::shape::{
    countable, env_ready, grown, lemma_atom, lemma_atom_ready, lemma_binds_grown, lemma_binds_len,
    lemma_bound, lemma_comp_grown, lemma_comp_len, lemma_env_kept, lemma_extends, lemma_grown,
    lemma_ir_grown, lemma_ir_len, lemma_of_bind, lemma_of_block, lemma_of_ret, lemma_own_blocks,
    of_binds, of_comp, of_ir, settled,
};
use crate::state::{Cx, Exit, Inlined, St};
use crate::target::{constant, Cmd, Val};
use std::rc::Rc;
use vstd::prelude::*;

verus! {

/// The state inlines a clause whose continuation has this name.
pub open spec fn resumes(st: St, resume: Seq<char>) -> bool {
    st.cx.resume matches Some(k) && k@ == resume
}

proof fn lemma_of_last(st: St, fuel: nat, comp: Comp, resume: Seq<char>)
    requires
        resumes(st, resume),
        resumed_with(comp, resume) is Some,
    ensures
        of_comp(st, fuel, comp) == st.atom(resumed_with(comp, resume)->0),
{
    reveal(of_comp);
}

proof fn lemma_of_step(st: St, fuel: nat, ir: Ir)
    requires
        ir is Let,
        plain_comp(*ir->Let_comp, st.cx.gc),
    ensures
        of_ir(st, fuel, ir) == match of_comp(st, fuel, *ir->Let_comp) {
            Err(e) => Err(e),
            Ok((next, v)) => of_ir(
                next.bind(ir->Let_name, v, ir->Let_ty, ir->Let_layout),
                fuel,
                *ir->rest,
            ),
        },
{
    reveal(of_ir);
    lemma_of_bind(st, fuel, ir->Let_name, ir->Let_ty, ir->Let_layout, target(ir->Let_comp));
}

pub(crate) proof fn lemma_last_len(st: St, fuel: nat, comp: Comp, resume: Seq<char>)
    requires
        resumes(st, resume),
        plain_last(resume, comp, st.cx.gc),
        of_comp(st, fuel, comp) is Ok,
    ensures
        st.script.len() <= of_comp(st, fuel, comp)->Ok_0.0.script.len(),
        of_comp(st, fuel, comp)->Ok_0.0.cx.gc == st.cx.gc,
        of_comp(st, fuel, comp)->Ok_0.0.cx.resume == st.cx.resume,
        of_comp(st, fuel, comp)->Ok_0.0.cx.handlers == st.cx.handlers,
{
    if let Some(a) = resumed_with(comp, resume) {
        lemma_of_last(st, fuel, comp, resume);
        lemma_atom(st, a);
    } else {
        lemma_comp_len(st, fuel, comp);
    }
}

pub(crate) proof fn lemma_clause_len(st: St, fuel: nat, ir: Ir, resume: Seq<char>)
    requires
        resumes(st, resume),
        plain_clause(resume, ir, st.cx.gc),
        of_ir(st, fuel, ir) is Ok,
    ensures
        st.script.len() <= of_ir(st, fuel, ir)->Ok_0.0.script.len(),
        of_ir(st, fuel, ir)->Ok_0.0.cx.gc == st.cx.gc,
        of_ir(st, fuel, ir)->Ok_0.0.cx.resume == st.cx.resume,
        of_ir(st, fuel, ir)->Ok_0.0.cx.handlers == st.cx.handlers,
    decreases ir,
{
    match ir {
        Ir::Block { binds, comp, .. } => {
            lemma_of_block(st, fuel, ir);
            lemma_binds_len(st, fuel, binds, 0);
            lemma_last_len(of_binds(st, fuel, binds, 0)->Ok_0, fuel, target(comp), resume);
        },
        Ir::Let { name, ty, layout, comp, rest, .. } => {
            lemma_of_step(st, fuel, ir);
            lemma_comp_len(st, fuel, target(comp));
            let (next, v) = of_comp(st, fuel, target(comp))->Ok_0;
            lemma_clause_len(next.bind(name, v, ty, layout), fuel, target(rest), resume);
        },
        Ir::Ret { comp, .. } => {
            lemma_of_ret(st, fuel, ir);
            lemma_last_len(st, fuel, target(comp), resume);
        },
    }
}

proof fn lemma_last_grown(st: St, fuel: nat, comp: Comp, resume: Seq<char>)
    requires
        resumes(st, resume),
        plain_last(resume, comp, st.cx.gc),
        settled(st),
        env_ready(st),
        of_comp(st, fuel, comp) is Ok,
        countable(of_comp(st, fuel, comp)->Ok_0.0),
    ensures
        grown(st, of_comp(st, fuel, comp)->Ok_0.0),
{
    if let Some(a) = resumed_with(comp, resume) {
        lemma_of_last(st, fuel, comp, resume);
        lemma_atom(st, a);
    } else {
        lemma_comp_grown(st, fuel, comp);
    }
}

pub(crate) proof fn lemma_clause_grown(st: St, fuel: nat, ir: Ir, resume: Seq<char>)
    requires
        resumes(st, resume),
        plain_clause(resume, ir, st.cx.gc),
        settled(st),
        env_ready(st),
        of_ir(st, fuel, ir) is Ok,
        countable(of_ir(st, fuel, ir)->Ok_0.0),
    ensures
        grown(st, of_ir(st, fuel, ir)->Ok_0.0),
    decreases ir,
{
    let end = of_ir(st, fuel, ir)->Ok_0.0;
    match ir {
        Ir::Block { binds, comp, .. } => {
            lemma_of_block(st, fuel, ir);
            let next = of_binds(st, fuel, binds, 0)->Ok_0;
            lemma_binds_len(st, fuel, binds, 0);
            lemma_last_len(next, fuel, target(comp), resume);
            lemma_binds_grown(st, fuel, binds, 0);
            lemma_last_grown(next, fuel, target(comp), resume);
            lemma_grown(st, next, end);
        },
        Ir::Let { name, ty, layout, comp, rest, .. } => {
            lemma_of_step(st, fuel, ir);
            let (mid, v) = of_comp(st, fuel, target(comp))->Ok_0;
            let next = mid.bind(name, v, ty, layout);
            lemma_comp_len(st, fuel, target(comp));
            lemma_clause_len(next, fuel, target(rest), resume);
            lemma_comp_grown(st, fuel, target(comp));
            lemma_env_kept(st, mid);
            lemma_bound(mid, name, v, ty, layout);
            lemma_clause_grown(next, fuel, target(rest), resume);
            lemma_grown(st, next, end);
        },
        Ir::Ret { comp, .. } => {
            lemma_of_ret(st, fuel, ir);
            lemma_last_grown(st, fuel, target(comp), resume);
        },
    }
}

/// The value of a clause is there behind it.
pub(crate) proof fn lemma_clause_ready(st: St, fuel: nat, ir: Ir, resume: Seq<char>)
    requires
        resumes(st, resume),
        plain_clause(resume, ir, st.cx.gc),
        settled(st),
        env_ready(st),
        of_ir(st, fuel, ir) is Ok,
        countable(of_ir(st, fuel, ir)->Ok_0.0),
    ensures
        ready(of_ir(st, fuel, ir)->Ok_0.0, of_ir(st, fuel, ir)->Ok_0.1),
    decreases ir,
{
    match ir {
        Ir::Block { binds, comp, .. } => {
            lemma_of_block(st, fuel, ir);
            let next = of_binds(st, fuel, binds, 0)->Ok_0;
            lemma_binds_len(st, fuel, binds, 0);
            lemma_last_len(next, fuel, target(comp), resume);
            lemma_binds_grown(st, fuel, binds, 0);
            lemma_last_ready(next, fuel, target(comp), resume);
        },
        Ir::Let { name, ty, layout, comp, rest, .. } => {
            lemma_of_step(st, fuel, ir);
            let (mid, v) = of_comp(st, fuel, target(comp))->Ok_0;
            let next = mid.bind(name, v, ty, layout);
            lemma_comp_len(st, fuel, target(comp));
            lemma_clause_len(next, fuel, target(rest), resume);
            lemma_comp_grown(st, fuel, target(comp));
            lemma_env_kept(st, mid);
            lemma_bound(mid, name, v, ty, layout);
            lemma_clause_ready(next, fuel, target(rest), resume);
        },
        Ir::Ret { comp, .. } => {
            lemma_of_ret(st, fuel, ir);
            lemma_last_ready(st, fuel, target(comp), resume);
        },
    }
}

proof fn lemma_last_ready(st: St, fuel: nat, comp: Comp, resume: Seq<char>)
    requires
        resumes(st, resume),
        plain_last(resume, comp, st.cx.gc),
        settled(st),
        env_ready(st),
        of_comp(st, fuel, comp) is Ok,
        countable(of_comp(st, fuel, comp)->Ok_0.0),
    ensures
        ready(of_comp(st, fuel, comp)->Ok_0.0, of_comp(st, fuel, comp)->Ok_0.1),
{
    if let Some(a) = resumed_with(comp, resume) {
        lemma_of_last(st, fuel, comp, resume);
        lemma_atom(st, a);
        lemma_atom_ready(st, a);
    } else {
        lemma_comp_grown(st, fuel, comp);
    }
}

/// What the last computation of a clause gives.
pub open spec fn last_meaning(resume: Seq<char>, comp: Comp, vars: Vars, turns: nat) -> Meant {
    match resumed_with(comp, resume) {
        Some(a) => Meant::Word(atom_word(a, vars)),
        None => comp_meaning(comp, vars, turns),
    }
}

proof fn lemma_last_runs(
    st: St,
    fuel: nat,
    comp: Comp,
    resume: Seq<char>,
    vars: Vars,
    turns: nat,
    script: Seq<Cmd>,
    m: Machine,
) -> (r: (Machine, nat))
    requires
        resumes(st, resume),
        plain_last(resume, comp, st.cx.gc),
        at_hand(st, vars, m),
        of_comp(st, fuel, comp) is Ok,
        holds_part(script, st, of_comp(st, fuel, comp)->Ok_0.0),
    ensures
        done_by(
            script,
            st.script.len() as int,
            m,
            of_comp(st, fuel, comp)->Ok_0.0.script.len() as int,
            of_comp(st, fuel, comp)->Ok_0.1,
            last_meaning(resume, comp, vars, turns),
            st.script.len() as int,
            r.0,
            r.1,
        ),
{
    let n = st.script.len() as int;
    if let Some(a) = resumed_with(comp, resume) {
        lemma_of_last(st, fuel, comp, resume);
        lemma_atom(st, a);
        lemma_atom_word(st, a, m, vars);
        lemma_run_leads(script, n, m, n, m);
        (m, 0)
    } else {
        lemma_comp_runs(st, fuel, comp, vars, turns, script, m)
    }
}

proof fn lemma_clause_runs(
    st: St,
    fuel: nat,
    ir: Ir,
    resume: Seq<char>,
    vars: Vars,
    turns: nat,
    script: Seq<Cmd>,
    m: Machine,
) -> (r: (Machine, nat))
    requires
        resumes(st, resume),
        plain_clause(resume, ir, st.cx.gc),
        at_hand(st, vars, m),
        of_ir(st, fuel, ir) is Ok,
        holds_part(script, st, of_ir(st, fuel, ir)->Ok_0.0),
    ensures
        done_by(
            script,
            st.script.len() as int,
            m,
            of_ir(st, fuel, ir)->Ok_0.0.script.len() as int,
            of_ir(st, fuel, ir)->Ok_0.1,
            resumed_meaning(resume, ir, vars, turns),
            st.script.len() as int,
            r.0,
            r.1,
        ),
    decreases ir,
{
    let n = st.script.len() as int;
    let (end, v) = of_ir(st, fuel, ir)->Ok_0;
    let e = end.script.len() as int;
    match ir {
        Ir::Block { binds, comp, .. } => {
            lemma_of_block(st, fuel, ir);
            let next = of_binds(st, fuel, binds, 0)->Ok_0;
            let k = next.script.len() as int;
            lemma_binds_len(st, fuel, binds, 0);
            lemma_last_len(next, fuel, target(comp), resume);
            lemma_binds_grown(st, fuel, binds, 0);
            lemma_last_grown(next, fuel, target(comp), resume);
            lemma_extends(next.script, end.script, script);
            lemma_own_blocks(script, end.script, k, e);
            lemma_apart(script, n, k, e);
            let (mid, i) = lemma_binds_run(st, fuel, binds, 0, vars, turns, script, m);
            match vars_from(binds, 0, vars, turns) {
                Ok(later) => {
                    let (after, j) = lemma_last_runs(
                        next,
                        fuel,
                        target(comp),
                        resume,
                        later,
                        turns,
                        script,
                        mid,
                    );
                    let meant = last_meaning(resume, target(comp), later, turns);
                    lemma_follows(script, n, m, k, mid, i, e, v, meant, n, k, after, j);
                    (after, i + j)
                },
                Err(_) => (mid, i),
            }
        },
        Ir::Let { name, ty, layout, comp, rest, .. } => {
            lemma_of_step(st, fuel, ir);
            let (mid_st, x) = of_comp(st, fuel, target(comp))->Ok_0;
            let next = mid_st.bind(name, x, ty, layout);
            let k = next.script.len() as int;
            lemma_comp_len(st, fuel, target(comp));
            lemma_clause_len(next, fuel, target(rest), resume);
            lemma_comp_grown(st, fuel, target(comp));
            lemma_env_kept(st, mid_st);
            lemma_bound(mid_st, name, x, ty, layout);
            lemma_clause_grown(next, fuel, target(rest), resume);
            lemma_extends(next.script, end.script, script);
            lemma_own_blocks(script, end.script, k, e);
            lemma_apart(script, n, k, e);
            let (mid, i) = lemma_comp_runs(st, fuel, target(comp), vars, turns, script, m);
            match comp_meaning(target(comp), vars, turns) {
                Meant::Word(w) => {
                    lemma_models_kept(st, mid_st, m, mid, vars);
                    lemma_models_bound(mid_st, name, x, ty, layout, mid, vars);
                    let later = vars.insert(name@, w);
                    let (after, j) = lemma_clause_runs(
                        next,
                        fuel,
                        target(rest),
                        resume,
                        later,
                        turns,
                        script,
                        mid,
                    );
                    let meant = resumed_meaning(resume, target(rest), later, turns);
                    lemma_follows(script, n, m, k, mid, i, e, v, meant, n, k, after, j);
                    (after, i + j)
                },
                _ => (mid, i),
            }
        },
        Ir::Ret { comp, .. } => {
            lemma_of_ret(st, fuel, ir);
            lemma_last_runs(st, fuel, target(comp), resume, vars, turns, script, m)
        },
    }
}

/// The state in which the clause for an operation is inlined: its argument is bound,
/// and its continuation is the identity.
pub open spec fn clause_begun(st: St, label: Label, arg: Val, c: IrOpClause, outside: u64) -> St {
    st.bind(c.arg, arg, c.arg_ty, c.arg_layout).with_inlined(
        Rc::new(Inlined::More { op: label, outside, rest: st.cx.inlined }),
    ).with_resume(Some(c.resume))
}

/// The code of an operation.
#[verifier::opaque]
pub open spec fn of_perform(st: St, fuel: nat, label: Label, arg: Atom) -> Result<
    (St, Val),
    CodegenError,
> {
    st.perform(fuel, Comp::Perform(label, arg))
}

pub(crate) proof fn lemma_of_perform(
    st: St,
    fuel: nat,
    label: Label,
    arg: Atom,
    c: IrOpClause,
    exit: Option<Exit>,
    outside: u64,
) -> (r: (St, Val))
    requires
        !(arg is Str),
        clause_for(*st.cx.handlers, label) == Some((c, exit, outside)),
        c.shape is Tail,
        of_perform(st, fuel, label, arg) is Ok,
    ensures
        fuel > 0,
        st.atom(arg) is Ok,
        of_ir(
            clause_begun(st, label, st.atom(arg)->Ok_0.1, c, outside),
            (fuel - 1) as nat,
            *c.body,
        ) == Ok::<(St, Val), CodegenError>(r),
        of_perform(st, fuel, label, arg)->Ok_0.0.script == r.0.script,
        of_perform(st, fuel, label, arg)->Ok_0.0.cx.env == st.cx.env,
        of_perform(st, fuel, label, arg)->Ok_0.1 == r.1,
        of_perform(st, fuel, label, arg)->Ok_0.0.cx == (Cx {
            resume: st.cx.resume,
            inlined: st.cx.inlined,
            env: st.cx.env,
            ..r.0.cx
        }),
{
    reveal(of_perform);
    reveal(of_ir);
    lemma_atom(st, arg);
    of_ir(
        clause_begun(st, label, st.atom(arg)->Ok_0.1, c, outside),
        (fuel - 1) as nat,
        target(c.body),
    )->Ok_0
}

/// An operation whose clause resumes last gives what the clause resumes with: the
/// clause stands in the place of the operation, its argument has the operation's
/// word, and what it hands its continuation is the operation's value.
pub proof fn an_operation_gives_what_its_clause_resumes_with(
    st: St,
    fuel: nat,
    label: Label,
    arg: Atom,
    c: IrOpClause,
    exit: Option<Exit>,
    outside: u64,
    vars: Vars,
    turns: nat,
    script: Seq<Cmd>,
    m: Machine,
) -> (r: (Machine, nat))
    requires
        !(arg is Str),
        clause_for(*st.cx.handlers, label) == Some((c, exit, outside)),
        c.shape is Tail,
        plain_clause(c.resume@, *c.body, st.cx.gc),
        at_hand(st, vars, m),
        of_perform(st, fuel, label, arg) is Ok,
        holds_part(script, st, of_perform(st, fuel, label, arg)->Ok_0.0),
    ensures
        done_by(
            script,
            st.script.len() as int,
            m,
            of_perform(st, fuel, label, arg)->Ok_0.0.script.len() as int,
            of_perform(st, fuel, label, arg)->Ok_0.1,
            resumed_meaning(
                c.resume@,
                *c.body,
                vars.insert(c.arg@, atom_word(arg, vars)),
                turns,
            ),
            st.script.len() as int,
            r.0,
            r.1,
        ),
{
    let (out, v) = lemma_of_perform(st, fuel, label, arg, c, exit, outside);
    let a = st.atom(arg)->Ok_0.1;
    let bound = st.bind(c.arg, a, c.arg_ty, c.arg_layout);
    let inside = clause_begun(st, label, a, c, outside);
    lemma_atom_ready(st, arg);
    lemma_atom_word(st, arg, m, vars);
    lemma_bound(st, c.arg, a, c.arg_ty, c.arg_layout);
    lemma_models_bound(st, c.arg, a, c.arg_ty, c.arg_layout, m, vars);
    let later = vars.insert(c.arg@, atom_word(arg, vars));
    assert(inside.cx.env == bound.cx.env && inside.script == st.script && inside.cx.block
        == st.cx.block);
    assert(settled(inside));
    lemma_env_kept(bound, inside);
    assert(models(inside, m, later));
    lemma_clause_runs(
        inside,
        (fuel - 1) as nat,
        target(c.body),
        c.resume@,
        later,
        turns,
        script,
        m,
    )
}

/// The state in which the clause for an operation is inlined that does not resume.
pub open spec fn abort_begun(st: St, label: Label, arg: Val, c: IrOpClause, outside: u64) -> St {
    st.bind(c.arg, arg, c.arg_ty, c.arg_layout).with_inlined(
        Rc::new(Inlined::More { op: label, outside, rest: st.cx.inlined }),
    )
}

pub(crate) proof fn lemma_of_abort(
    st: St,
    fuel: nat,
    label: Label,
    arg: Atom,
    c: IrOpClause,
    exit: Exit,
    outside: u64,
) -> (r: (St, Val))
    requires
        !(arg is Str),
        clause_for(*st.cx.handlers, label) == Some((c, Some(exit), outside)),
        c.shape is Abort,
        of_perform(st, fuel, label, arg) is Ok,
    ensures
        fuel > 0,
        st.atom(arg) is Ok,
        of_ir(
            abort_begun(st, label, st.atom(arg)->Ok_0.1, c, outside),
            (fuel - 1) as nat,
            *c.body,
        ) == Ok::<(St, Val), CodegenError>(r),
        of_perform(st, fuel, label, arg)->Ok_0.0.script.len() == r.0.script.len() + 4,
        extends(of_perform(st, fuel, label, arg)->Ok_0.0.script, r.0.script),
        of_perform(st, fuel, label, arg)->Ok_0.0.script[r.0.script.len() as int] == (Cmd::Store {
            ptr: exit.slot,
            val: r.1,
            align: 0,
        }),
        of_perform(st, fuel, label, arg)->Ok_0.0.script[r.0.script.len() as int + 1] == (Cmd::Br {
            to: exit.block,
        }),
        of_perform(st, fuel, label, arg)->Ok_0.0.cx == (Cx {
            block: (r.0.script.len() + 2) as u64,
            inlined: st.cx.inlined,
            env: st.cx.env,
            ..r.0.cx
        }),
        of_perform(st, fuel, label, arg)->Ok_0.1 == constant(0),
{
    reveal(of_perform);
    reveal(of_ir);
    lemma_atom(st, arg);
    of_ir(
        abort_begun(st, label, st.atom(arg)->Ok_0.1, c, outside),
        (fuel - 1) as nat,
        target(c.body),
    )->Ok_0
}

/// The code leaves for `end` with a word in a cell of memory, once it went back `j`
/// times, or traps.
pub open spec fn leaves_with(
    script: Seq<Cmd>,
    n: int,
    m: Machine,
    end: int,
    cell: u64,
    meant: Meant,
    after: Machine,
    j: nat,
) -> bool {
    match meant {
        Meant::Word(w) => {
            &&& leads_in(script, n, m, end, after, j)
            &&& after.mem == m.mem.insert(cell, w)
            &&& after.objects == m.objects
            &&& goes_on(m, after, n)
        },
        Meant::Trap => traps_in(script, n, m, j),
        Meant::Open => true,
    }
}

/// An operation whose clause does not resume leaves the handler: what the clause means
/// is put into the cell of the handler's result, and the code goes on behind the
/// handler.
pub proof fn an_operation_whose_clause_aborts_leaves_the_handler(
    st: St,
    fuel: nat,
    label: Label,
    arg: Atom,
    c: IrOpClause,
    exit: Exit,
    outside: u64,
    vars: Vars,
    turns: nat,
    script: Seq<Cmd>,
    behind: int,
    m: Machine,
) -> (r: (Machine, nat))
    requires
        !(arg is Str),
        clause_for(*st.cx.handlers, label) == Some((c, Some(exit), outside)),
        c.shape is Abort,
        plain_ir(*c.body, st.cx.gc),
        ready(st, exit.slot),
        at_hand(st, vars, m),
        of_perform(st, fuel, label, arg) is Ok,
        holds_part(script, st, of_perform(st, fuel, label, arg)->Ok_0.0),
        of_perform(st, fuel, label, arg)->Ok_0.0.script.len() <= behind < script.len(),
        script[behind] == (Cmd::At { block: exit.block }),
        exit.block < st.script.len(),
        forall|i: int|
            of_perform(st, fuel, label, arg)->Ok_0.0.script.len() <= i < behind
                ==> #[trigger] script[i] != (Cmd::At { block: exit.block }),
    ensures
        leaves_with(
            script,
            st.script.len() as int,
            m,
            behind,
            m.value(exit.slot),
            ir_meaning(*c.body, vars.insert(c.arg@, atom_word(arg, vars)), turns),
            r.0,
            r.1,
        ),
{
    let n = st.script.len() as int;
    let end = of_perform(st, fuel, label, arg)->Ok_0.0;
    let (out, v) = lemma_of_abort(st, fuel, label, arg, c, exit, outside);
    let k = out.script.len() as int;
    let a = st.atom(arg)->Ok_0.1;
    let bound = st.bind(c.arg, a, c.arg_ty, c.arg_layout);
    let inside = abort_begun(st, label, a, c, outside);
    lemma_atom_ready(st, arg);
    lemma_atom_word(st, arg, m, vars);
    lemma_bound(st, c.arg, a, c.arg_ty, c.arg_layout);
    lemma_models_bound(st, c.arg, a, c.arg_ty, c.arg_layout, m, vars);
    let later = vars.insert(c.arg@, atom_word(arg, vars));
    assert(inside.cx.env == bound.cx.env && inside.script == st.script && inside.cx.block
        == st.cx.block);
    assert(settled(inside));
    lemma_env_kept(bound, inside);
    assert(models(inside, m, later));
    lemma_ir_len(inside, (fuel - 1) as nat, target(c.body));
    lemma_ir_grown(inside, (fuel - 1) as nat, target(c.body));
    lemma_extends(out.script, end.script, script);
    assert(script[k] == end.script[k] && script[k + 1] == end.script[k + 1]);
    lemma_abort_tail(st, fuel, label, arg, c, exit, outside);
    assert(script[k + 2] == end.script[k + 2] && script[k + 3] == end.script[k + 3]);
    assert(followed(script, n, k));
    let (mid, j) = lemma_ir_runs(
        inside,
        (fuel - 1) as nat,
        target(c.body),
        later,
        turns,
        script,
        m,
    );
    match ir_meaning(target(c.body), later, turns) {
        Meant::Word(w) => {
            let m1 = Machine { mem: mid.mem.insert(m.value(exit.slot), w), ..mid };
            let after = m1.left(opened(script, k + 1));
            assert(mid.value(exit.slot) == m.value(exit.slot));
            assert(run(script, k, mid) == run(script, k + 1, m1));
            assert forall|i: int| k + 2 <= i < behind implies #[trigger] script[i] != (Cmd::At {
                block: exit.block,
            }) by {
                if i < end.script.len() {
                    assert(script[i] == end.script[i]);
                }
            }
            lemma_seek_at(script, exit.block, k + 2, behind);
            assert(run(script, k + 1, m1) == run(script, behind, after));
            lemma_run_leads(script, k, mid, behind, after);
            lemma_leads(script, n, m, k, mid, j, behind, after, 0);
            (after, j)
        },
        _ => (mid, j),
    }
}

pub(crate) proof fn lemma_abort_tail(
    st: St,
    fuel: nat,
    label: Label,
    arg: Atom,
    c: IrOpClause,
    exit: Exit,
    outside: u64,
)
    requires
        !(arg is Str),
        clause_for(*st.cx.handlers, label) == Some((c, Some(exit), outside)),
        c.shape is Abort,
        of_perform(st, fuel, label, arg) is Ok,
        countable(of_perform(st, fuel, label, arg)->Ok_0.0),
    ensures
        ({
            let end = of_perform(st, fuel, label, arg)->Ok_0.0.script;
            &&& end[end.len() - 2] is Block
            &&& end[end.len() - 1] == (Cmd::At { block: (end.len() - 2) as u64 })
        }),
{
    reveal(of_perform);
    lemma_atom(st, arg);
}

} // verus!
