//! How programs of integers are lowered: the shape of their code.
use crate::blocks::{any_root, loop_arrays, storages_from, LoopHead};
use crate::error::CodegenError;
use crate::ir::{target, Atom, BinOp, Comp, Ir, IrBind, LoopVar, Type, ValueLayout};
use crate::layout::LoopVarStorage;
use crate::loops::{proved_bound, raw_uses, raw_uses_binds, raw_uses_comp, raw_uses_steps};
use crate::meaning::{extends, opened, ready};
use crate::programs::{
    known_atom, known_binds, known_comp, known_ir, known_steps, names_from, names_with, plain_binds,
    plain_comp, plain_ir, plain_steps, plain_var, Names,
};
use crate::state::St;
use crate::target::{constant, Cmd, Id, IntPred, Title, Ty, Val};
use std::rc::Rc;
use vstd::prelude::*;

verus! {

// ── the shape of code ────────────────────────────────────────────────────
/// What opens a block in this part of the script opens one that was added there,
/// and the edges in it lead into phis of its own.
pub open spec fn own_blocks(script: Seq<Cmd>, from: int, to: int) -> bool {
    forall|i: int|
        from <= i < to ==> match #[trigger] script[i] {
            Cmd::At { block } => from <= block < to,
            Cmd::Incoming { phi, .. } => from <= phi < to,
            _ => true,
        }
}

/// The state goes on in the block that was opened last, and what was opened was
/// added before.
pub open spec fn settled(st: St) -> bool {
    &&& opened(st.script, st.script.len() as int) == st.cx.block
    &&& st.cx.block <= st.script.len()
    &&& own_blocks(st.script, 0, st.script.len() as int)
}

/// Code was added to a state.
pub open spec fn grown(st: St, end: St) -> bool {
    &&& st.script.len() <= end.script.len()
    &&& extends(end.script, st.script)
    &&& settled(end)
    &&& own_blocks(end.script, st.script.len() as int, end.script.len() as int)
    &&& end.cx.block == st.cx.block || st.script.len() <= end.cx.block < end.script.len()
    &&& end.cx.gc == st.cx.gc
}

/// What opens a block in this part of the script opens one of its own or goes back to
/// the one around it.
pub open spec fn nested_in(script: Seq<Cmd>, from: int, to: int, block: u64) -> bool {
    forall|i: int|
        from <= i < to ==> match #[trigger] script[i] {
            Cmd::At { block: b } => from <= b < to || b == block,
            Cmd::Incoming { phi, .. } => from <= phi < to,
            _ => true,
        }
}

/// Code was added to a state, which may lead back into the block that was open.
pub open spec fn laid_in(st: St, end: St) -> bool {
    &&& st.script.len() <= end.script.len()
    &&& extends(end.script, st.script)
    &&& settled(end)
    &&& nested_in(end.script, st.script.len() as int, end.script.len() as int, st.cx.block)
    &&& end.cx.block == st.cx.block || st.script.len() <= end.cx.block < end.script.len()
    &&& end.cx.gc == st.cx.gc
}

/// The variables of a state have their values.
pub open spec fn env_ready(st: St) -> bool {
    forall|x: Seq<char>| #[trigger]
        st.cx.env.get(x) matches Some(e) ==> ready(st, e.value)
}

/// The positions of the commands can be counted.
pub open spec fn countable(st: St) -> bool {
    st.script.len() + 64 <= u64::MAX
}

pub(crate) proof fn lemma_opened(script: Seq<Cmd>, start: Seq<Cmd>, i: int)
    requires
        extends(script, start),
        i <= start.len(),
    ensures
        opened(script, i) == opened(start, i),
    decreases i,
{
    if i > 0 {
        lemma_opened(script, start, i - 1);
    }
}

pub(crate) proof fn lemma_extends(a: Seq<Cmd>, b: Seq<Cmd>, c: Seq<Cmd>)
    requires
        extends(b, a),
        extends(c, b),
    ensures
        extends(c, a),
{
    assert forall|i: int| 0 <= i < a.len() implies c[i] == #[trigger] a[i] by {
        assert(b[i] == a[i]);
    }
}

pub(crate) proof fn lemma_whole(st: St, end: St)
    requires
        settled(st),
        st.script.len() <= end.script.len(),
        extends(end.script, st.script),
        own_blocks(end.script, st.script.len() as int, end.script.len() as int),
    ensures
        own_blocks(end.script, 0, end.script.len() as int),
{
    assert forall|i: int| 0 <= i < end.script.len() implies match #[trigger] end.script[i] {
        Cmd::At { block } => 0 <= block < end.script.len(),
        Cmd::Incoming { phi, .. } => 0 <= phi < end.script.len(),
        _ => true,
    } by {
        if i < st.script.len() {
            assert(end.script[i] == st.script[i]);
        }
    }
}

pub(crate) proof fn lemma_grown(a: St, b: St, c: St)
    requires
        grown(a, b),
        grown(b, c),
    ensures
        grown(a, c),
{
    lemma_extends(a.script, b.script, c.script);
    assert forall|i: int| a.script.len() <= i < c.script.len() implies match #[trigger] c.script[i] {
        Cmd::At { block } => a.script.len() <= block < c.script.len(),
        Cmd::Incoming { phi, .. } => a.script.len() <= phi < c.script.len(),
        _ => true,
    } by {
        if i < b.script.len() {
            assert(c.script[i] == b.script[i]);
        }
    }
}

pub(crate) proof fn lemma_put(st: St, cmd: Cmd)
    requires
        settled(st),
        !(cmd is At),
        !(cmd is Incoming),
    ensures
        grown(st, st.put(cmd)),
{
    let end = st.put(cmd);
    assert(extends(end.script, st.script));
    lemma_opened(end.script, st.script, st.script.len() as int);
    assert(end.script[st.script.len() as int] == cmd);
    lemma_whole(st, end);
}

proof fn lemma_trap_grown(
    st: St,
    cond: Val,
    trap: &'static str,
    cont: &'static str,
    abort: &'static str,
)
    requires
        settled(st),
        countable(st),
    ensures
        grown(st, st.trap_if(cond, trap, cont, abort)),
        st.trap_if(cond, trap, cont, abort).script.len() == st.script.len() + 7,
{
    let end = st.trap_if(cond, trap, cont, abort);
    let n = st.script.len() as int;
    assert(end.script.len() == n + 7);
    assert(end.script[n + 6] == (Cmd::At { block: (n + 1) as u64 }));
    assert(end.script[n + 3] == (Cmd::At { block: n as u64 }));
    assert(opened(end.script, n + 7) == (n + 1) as u64);
    assert(extends(end.script, st.script));
    lemma_whole(st, end);
}

/// Five commands that open no block.
proof fn lemma_five(st: St, end: St)
    requires
        settled(st),
        end.cx == st.cx,
        end.script.len() == st.script.len() + 5,
        extends(end.script, st.script),
        forall|i: int|
            st.script.len() <= i < end.script.len() ==> !(#[trigger] end.script[i] is At) && !(
            end.script[i] is Incoming),
    ensures
        grown(st, end),
{
    let n = st.script.len() as int;
    lemma_opened(end.script, st.script, n);
    assert(opened(end.script, n + 1) == opened(end.script, n));
    assert(opened(end.script, n + 2) == opened(end.script, n + 1));
    assert(opened(end.script, n + 3) == opened(end.script, n + 2));
    assert(opened(end.script, n + 4) == opened(end.script, n + 3));
    assert(opened(end.script, n + 5) == opened(end.script, n + 4));
    lemma_whole(st, end);
}

/// The code of a division or remainder.
#[verifier::spinoff_prover]
proof fn lemma_quotient_grown(st: St, op: BinOp, a: Val, b: Val)
    requires
        settled(st),
        op is Div || op is Mod,
        countable(st.int_bin(op, a, b).0),
    ensures
        grown(st, st.int_bin(op, a, b).0),
        ready(st.int_bin(op, a, b).0, st.int_bin(op, a, b).1),
        st.int_bin(op, a, b).0.cx.env == st.cx.env,
{
    let (end, v) = st.int_bin(op, a, b);
    let n = st.script.len() as int;
    let st5 = St { script: end.script.take(n + 5), cx: st.cx };
    let cond = Val { id: Id::Reg((n + 4) as u64), ty: Ty::I1 };
    let names = if op is Mod {
        ("rem.trap", "rem.cont", "rem.abort")
    } else {
        ("div.trap", "div.cont", "div.abort")
    };
    let guarded = st5.trap_if(cond, names.0, names.1, names.2);
    assert(end.script.len() == n + 13);
    assert(guarded.script =~= end.script.take(n + 12));
    lemma_five(st, st5);
    lemma_trap_grown(st5, cond, names.0, names.1, names.2);
    lemma_grown(st, st5, guarded);
    let last = end.script[n + 12];
    assert(guarded.put(last).script =~= end.script);
    lemma_put(guarded, last);
    lemma_grown(st, guarded, end);
}

/// The code of an operation that traps where it overflows.
#[verifier::spinoff_prover]
proof fn lemma_checked_grown(st: St, op: BinOp, a: Val, b: Val)
    requires
        settled(st),
        op is AddChecked || op is SubChecked || op is MulChecked,
        countable(st.int_bin(op, a, b).0),
    ensures
        grown(st, st.int_bin(op, a, b).0),
        ready(st.int_bin(op, a, b).0, st.int_bin(op, a, b).1),
        st.int_bin(op, a, b).0.cx.env == st.cx.env,
{
    let (end, v) = st.int_bin(op, a, b);
    let n = st.script.len() as int;
    let st5 = St { script: end.script.take(n + 5), cx: st.cx };
    let cond = Val { id: Id::Reg((n + 4) as u64), ty: Ty::I1 };
    assert(end.script.len() == n + 12);
    let guarded = st5.trap_if(cond, "overflow.trap", "overflow.cont", "overflow.abort");
    assert(guarded.script =~= end.script);
    lemma_five(st, st5);
    lemma_trap_grown(st5, cond, "overflow.trap", "overflow.cont", "overflow.abort");
    lemma_grown(st, st5, guarded);
}

/// The code of an integer operation.
proof fn lemma_int_bin_grown(st: St, op: BinOp, a: Val, b: Val)
    requires
        settled(st),
        countable(st.int_bin(op, a, b).0),
    ensures
        grown(st, st.int_bin(op, a, b).0),
        ready(st.int_bin(op, a, b).0, st.int_bin(op, a, b).1),
        st.int_bin(op, a, b).0.cx.env == st.cx.env,
{
    let (end, v) = st.int_bin(op, a, b);
    let n = st.script.len() as int;
    match op {
        BinOp::Div | BinOp::Mod => lemma_quotient_grown(st, op, a, b),
        BinOp::AddChecked | BinOp::SubChecked | BinOp::MulChecked => lemma_checked_grown(st, op, a, b),
        BinOp::Eq | BinOp::Ne | BinOp::Lt | BinOp::Le | BinOp::Gt | BinOp::Ge => {
            let first = end.script[n];
            let mid = st.put(first);
            lemma_put(st, first);
            lemma_put(mid, end.script[n + 1]);
            assert(mid.put(end.script[n + 1]).script =~= end.script);
            lemma_grown(st, mid, end);
        },
        _ => {
            lemma_put(st, end.script[n]);
            assert(st.put(end.script[n]).script =~= end.script);
        },
    }
}

// ── how code is lowered ──────────────────────────────────────────────────
/// The code of a computation.
#[verifier::opaque]
pub open spec fn of_comp(st: St, fuel: nat, comp: Comp) -> Result<(St, Val), CodegenError> {
    st.comp(fuel, comp)
}

/// The code of a block.
#[verifier::opaque]
pub open spec fn of_ir(st: St, fuel: nat, ir: Ir) -> Result<(St, Val), CodegenError> {
    st.block(fuel, ir)
}

/// The code of the bindings from position `i` on.
#[verifier::opaque]
pub open spec fn of_binds(st: St, fuel: nat, binds: Vec<IrBind>, i: nat) -> Result<
    St,
    CodegenError,
> {
    st.binds_from(fuel, binds, i)
}

pub(crate) proof fn lemma_of_atom(st: St, fuel: nat, comp: Comp)
    requires
        comp is Atom,
    ensures
        of_comp(st, fuel, comp) == st.atom(comp->Atom_0),
{
    reveal(of_comp);
}

pub(crate) proof fn lemma_of_bin(st: St, fuel: nat, comp: Comp)
    requires
        comp is Bin,
    ensures
        of_comp(st, fuel, comp) == st.bin(comp->Bin_0, comp->Bin_1, comp->Bin_2),
{
    reveal(of_comp);
}

pub(crate) proof fn lemma_of_bind(st: St, fuel: nat, name: String, ty: Rc<Type>, layout: ValueLayout, comp: Comp)
    requires
        plain_comp(comp, st.cx.gc),
    ensures
        st.binding(fuel, name, ty, layout, comp) == match of_comp(st, fuel, comp) {
            Err(e) => Err(e),
            Ok((next, v)) => Ok(next.bind(name, v, ty, layout)),
        },
{
    reveal(of_comp);
}

pub(crate) proof fn lemma_of_binds(st: St, fuel: nat, binds: Vec<IrBind>, i: nat)
    requires
        plain_binds(binds, binds.len() as nat, st.cx.gc),
    ensures
        i >= binds.len() ==> of_binds(st, fuel, binds, i) == Ok::<St, CodegenError>(st),
        i < binds.len() ==> ({
            let b = binds[i as int];
            of_binds(st, fuel, binds, i) == match of_comp(st, fuel, *b.comp) {
                Err(e) => Err(e),
                Ok((next, v)) => of_binds(
                    next.bind(b.name, v, b.ty, b.layout),
                    fuel,
                    binds,
                    i + 1,
                ),
            }
        }),
{
    reveal(of_binds);
    if i < binds.len() {
        let b = binds[i as int];
        lemma_plain_bind(binds, binds.len() as nat, i as int, st.cx.gc);
        lemma_of_bind(st, fuel, b.name, b.ty, b.layout, target(b.comp));
    }
}

pub(crate) proof fn lemma_of_block(st: St, fuel: nat, ir: Ir)
    requires
        ir is Block,
    ensures
        of_ir(st, fuel, ir) == match of_binds(st, fuel, ir->Block_binds, 0) {
            Err(e) => Err(e),
            Ok(next) => of_comp(next, fuel, *ir->Block_comp),
        },
{
    reveal(of_ir);
    reveal(of_binds);
    reveal(of_comp);
}

pub(crate) proof fn lemma_of_let(st: St, fuel: nat, ir: Ir)
    requires
        ir is Let,
        plain_ir(ir, st.cx.gc),
    ensures
        of_ir(st, fuel, ir) == match of_comp(st, fuel, *ir->Let_comp) {
            Err(e) => Err(e),
            Ok((next, v)) => of_ir(
                next.bind(ir->Let_name, v, ir->Let_ty, ir->Let_layout),
                fuel,
                *ir->rest,
            ),
        },
{
    reveal(of_ir);
    lemma_of_bind(st, fuel, ir->Let_name, ir->Let_ty, ir->Let_layout, target(ir->Let_comp));
}

pub(crate) proof fn lemma_of_ret(st: St, fuel: nat, ir: Ir)
    requires
        ir is Ret,
    ensures
        of_ir(st, fuel, ir) == of_comp(st, fuel, *ir->Ret_comp),
{
    reveal(of_ir);
    reveal(of_comp);
}

pub(crate) proof fn lemma_plain_bind(binds: Vec<IrBind>, n: nat, i: int, gc: bool)
    requires
        plain_binds(binds, n, gc),
        0 <= i < n <= binds.len(),
    ensures
        plain_comp(*binds[i].comp, gc),
    decreases n,
{
    if i < n - 1 {
        lemma_plain_bind(binds, (n - 1) as nat, i, gc);
    }
}

pub(crate) proof fn lemma_plain_step(steps: Vec<Ir>, n: nat, i: int, gc: bool)
    requires
        plain_steps(steps, n, gc),
        0 <= i < n <= steps.len(),
    ensures
        plain_ir(steps[i], gc),
    decreases n,
{
    if i < n - 1 {
        lemma_plain_step(steps, (n - 1) as nat, i, gc);
    }
}

/// The head of a branch up to its first part, the block of its second part and the
/// block in which they meet.
pub open spec fn if_head(st: St, c: Val) -> (St, u64, u64) {
    let (st, test) = st.itest(IntPred::Ne, c, constant(0), "if.test");
    let (st, yes) = st.new_block("then");
    let (st, no) = st.new_block("else");
    let (st, merge) = st.new_block("merge");
    (st.cond_br(test, yes, no).at(yes), no, merge)
}

/// The way from the first part of a branch to its second.
pub open spec fn if_turn(st: St, c: Val, then_end: St) -> St {
    then_end.br(if_head(st, c).2).in_env(st.cx.env).at(if_head(st, c).1)
}

/// The tail of a branch and its value.
pub open spec fn if_tail(st: St, c: Val, then_end: St, a: Val, else_end: St, b: Val) -> (St, Val) {
    let merge = if_head(st, c).2;
    let end = else_end.br(merge).in_env(st.cx.env).at(merge);
    let phi = end.here();
    let (end, v) = end.phi(a.ty, "if.val");
    (end.incoming(phi, a, then_end.cx.block).incoming(phi, b, else_end.cx.block), v)
}

pub(crate) proof fn lemma_atom(st: St, a: Atom)
    requires
        !(a is Str),
        st.atom(a) is Ok,
    ensures
        st.atom(a)->Ok_0.0 == st,
{
}

pub(crate) proof fn lemma_cell(st: St, a: Atom, context: &'static str)
    requires
        !(a is Str),
        st.cell(a, context) is Ok,
    ensures
        st.atom(a) is Ok,
        st.cell(a, context)->Ok_0 == (st, st.atom(a)->Ok_0.1),
{
    lemma_atom(st, a);
}

pub(crate) proof fn lemma_of_ir(st: St, fuel: nat, ir: Ir)
    ensures
        of_ir(st, fuel, ir) == st.block(fuel, ir),
{
    reveal(of_ir);
}

/// A branch is lowered in these steps.
proof fn lemma_if_code(st: St, fuel: nat, comp: Comp, c: Val)
    requires
        comp is If,
        st.cell(comp->If_0, "if condition") == Ok::<(St, Val), CodegenError>((st, c)),
    ensures
        st.if_code(fuel, comp) == match if_head(st, c).0.block(fuel, *comp->If_1) {
            Err(e) => Err(e),
            Ok((t1, a)) => match if_turn(st, c, t1).block(fuel, *comp->If_2) {
                Err(e) => Err(e),
                Ok((e1, b)) => Ok(if_tail(st, c, t1, a, e1, b)),
            },
        },
{
}

proof fn lemma_if_cell(st: St, fuel: nat, comp: Comp)
    requires
        comp is If,
        !(comp->If_0 is Str),
        of_comp(st, fuel, comp) is Ok,
    ensures
        st.atom(comp->If_0) is Ok,
        st.cell(comp->If_0, "if condition") == Ok::<(St, Val), CodegenError>(
            (st, st.atom(comp->If_0)->Ok_0.1),
        ),
        of_comp(st, fuel, comp) == st.if_code(fuel, comp),
{
    reveal(of_comp);
    assert(st.cell(comp->If_0, "if condition") is Ok);
    lemma_cell(st, comp->If_0, "if condition");
}

/// The parts of a branch.
pub open spec fn if_parts(st: St, fuel: nat, comp: Comp, c: Val, t1: St, a: Val, e1: St, b: Val) -> bool {
    &&& comp is If
    &&& of_ir(if_head(st, c).0, fuel, *comp->If_1) == Ok::<(St, Val), CodegenError>((t1, a))
    &&& of_ir(if_turn(st, c, t1), fuel, *comp->If_2) == Ok::<(St, Val), CodegenError>((e1, b))
    &&& of_comp(st, fuel, comp) == Ok::<(St, Val), CodegenError>(if_tail(st, c, t1, a, e1, b))
}

pub(crate) proof fn lemma_of_if(st: St, fuel: nat, comp: Comp) -> (r: (Val, St, Val, St, Val))
    requires
        comp is If,
        !(comp->If_0 is Str),
        of_comp(st, fuel, comp) is Ok,
    ensures
        st.atom(comp->If_0) == Ok::<(St, Val), CodegenError>((st, r.0)),
        if_parts(st, fuel, comp, r.0, r.1, r.2, r.3, r.4),
{
    lemma_if_cell(st, fuel, comp);
    lemma_atom(st, comp->If_0);
    let c = st.atom(comp->If_0)->Ok_0.1;
    lemma_if_code(st, fuel, comp, c);
    lemma_of_ir(if_head(st, c).0, fuel, target(comp->If_1));
    let (t1, a) = of_ir(if_head(st, c).0, fuel, target(comp->If_1))->Ok_0;
    lemma_of_ir(if_turn(st, c, t1), fuel, target(comp->If_2));
    let (e1, b) = of_ir(if_turn(st, c, t1), fuel, target(comp->If_2))->Ok_0;
    (c, t1, a, e1, b)
}

// ── loops ────────────────────────────────────────────────────────────────
/// The code of the steps from position `i` on.
#[verifier::opaque]
pub open spec fn of_steps(
    st: St,
    fuel: nat,
    steps: Vec<Ir>,
    h: LoopHead,
    i: nat,
    done: Seq<Val>,
) -> Result<(St, Seq<Val>), CodegenError> {
    st.steps_from(fuel, steps, h, i, done)
}

/// All accumulators are carried in phis.
pub open spec fn all_scalar(storages: Seq<LoopVarStorage>) -> bool {
    forall|i: int| 0 <= i < storages.len() ==> (#[trigger] storages[i]) is Scalar
}

pub(crate) proof fn lemma_of_steps(st: St, fuel: nat, steps: Vec<Ir>, h: LoopHead, i: nat, done: Seq<Val>)
    requires
        !st.cx.gc,
        all_scalar(h.storages),
        h.storages.len() == steps.len(),
    ensures
        i >= steps.len() ==> of_steps(st, fuel, steps, h, i, done) == Ok::<
            (St, Seq<Val>),
            CodegenError,
        >((st, done)),
        i < steps.len() ==> of_steps(st, fuel, steps, h, i, done) == match of_ir(
            st.in_env(h.env),
            fuel,
            steps[i as int],
        ) {
            Err(e) => Err(e),
            Ok((next, v)) => of_steps(next, fuel, steps, h, i + 1, done.push(v)),
        },
{
    reveal(of_steps);
    if i < steps.len() {
        let start = st.in_env(h.env);
        lemma_of_ir(start, fuel, steps[i as int]);
        lemma_loop_block(start, fuel, steps[i as int]);
        assert(h.storages[i as int] is Scalar);
    }
}

proof fn lemma_loop_block(st: St, fuel: nat, ir: Ir)
    requires
        !st.cx.gc,
    ensures
        st.loop_block(fuel, ir) == of_ir(st, fuel, ir),
{
    lemma_of_ir(st, fuel, ir);
}

/// The way from the test of a loop to its steps.
pub open spec fn loop_turn(c1: St, cv: Val, h: LoopHead, bound: Option<(String, String)>) -> St {
    let (st, test) = c1.itest(IntPred::Ne, cv, constant(0), "loop.test");
    st.in_env(h.env).cond_br(test, h.body, h.exit).at(h.body).note_bound(bound)
}

proof fn lemma_loop_test(st: St, fuel: nat, cond: Ir, h: LoopHead)
    requires
        !st.cx.gc,
        st.loop_test(fuel, cond, h) is Ok,
    ensures
        of_ir(st, fuel, cond) is Ok,
        ({
            let (c1, cv) = of_ir(st, fuel, cond)->Ok_0;
            &&& cv.ty is I64
            &&& forall|bound: Option<(String, String)>|
                st.loop_test(fuel, cond, h)->Ok_0.note_bound(bound) == #[trigger] loop_turn(
                    c1,
                    cv,
                    h,
                    bound,
                )
        }),
{
    lemma_loop_block(st, fuel, cond);
}

proof fn lemma_no_arrays(ir: Ir, gc: bool)
    requires
        plain_ir(ir, gc),
    ensures
        raw_uses(ir) =~= Seq::<String>::empty(),
    decreases ir, 0nat,
{
    match ir {
        Ir::Block { binds, comp, .. } => {
            lemma_no_arrays_binds(binds, binds.len() as nat, gc);
            lemma_no_arrays_comp(target(comp), gc);
        },
        Ir::Let { comp, rest, .. } => {
            lemma_no_arrays_comp(target(comp), gc);
            lemma_no_arrays(target(rest), gc);
        },
        Ir::Ret { comp, .. } => lemma_no_arrays_comp(target(comp), gc),
    }
}

proof fn lemma_no_arrays_binds(binds: Vec<IrBind>, n: nat, gc: bool)
    requires
        plain_binds(binds, n, gc),
    ensures
        raw_uses_binds(binds, n) =~= Seq::<String>::empty(),
    decreases binds, n,
{
    if 0 < n <= binds.len() {
        lemma_no_arrays_binds(binds, (n - 1) as nat, gc);
        lemma_no_arrays_comp(target(binds[n - 1].comp), gc);
    }
}

proof fn lemma_no_arrays_steps(steps: Vec<Ir>, n: nat, gc: bool)
    requires
        plain_steps(steps, n, gc),
    ensures
        raw_uses_steps(steps, n) =~= Seq::<String>::empty(),
    decreases steps, n,
{
    if 0 < n <= steps.len() {
        lemma_no_arrays_steps(steps, (n - 1) as nat, gc);
        lemma_no_arrays(steps[n - 1], gc);
    }
}

proof fn lemma_no_arrays_comp(comp: Comp, gc: bool)
    requires
        plain_comp(comp, gc),
    ensures
        raw_uses_comp(comp) =~= Seq::<String>::empty(),
    decreases comp, 0nat,
{
    match comp {
        Comp::If(_, yes, no) => {
            lemma_no_arrays(target(yes), gc);
            lemma_no_arrays(target(no), gc);
        },
        Comp::Loop { cond, steps, result, .. } => {
            lemma_no_arrays(target(cond), gc);
            lemma_no_arrays_steps(steps, steps.len() as nat, gc);
            lemma_no_arrays(target(result), gc);
        },
        _ => {},
    }
}

proof fn lemma_storages(vars: Seq<LoopVar>, i: nat, done: Seq<LoopVarStorage>)
    requires
        forall|k: int| 0 <= k < vars.len() ==> plain_var(#[trigger] vars[k]),
        all_scalar(done),
        done.len() == i,
        i <= vars.len(),
    ensures
        storages_from(vars, i, done) matches Ok(all) && all_scalar(all) && all.len() == vars.len(),
    decreases vars.len() - i,
{
    if i < vars.len() {
        assert(plain_var(vars[i as int]));
        lemma_storages(vars, i + 1, done.push(LoopVarStorage::Scalar));
    }
}

/// The values that the accumulators start with.
pub open spec fn starts(st: St, vars: Seq<LoopVar>, inits: Seq<Val>) -> bool {
    &&& inits.len() == vars.len()
    &&& forall|i: int|
        0 <= i < vars.len() ==> st.atom((#[trigger] vars[i]).init) == Ok::<(St, Val), CodegenError>(
            (st, inits[i]),
        )
}

proof fn lemma_inits(
    st: St,
    vars: Seq<LoopVar>,
    storages: Seq<LoopVarStorage>,
    i: nat,
    done: Seq<Val>,
)
    requires
        forall|k: int| 0 <= k < vars.len() ==> plain_var(#[trigger] vars[k]),
        all_scalar(storages),
        storages.len() == vars.len(),
        i <= vars.len(),
        done.len() == i,
        forall|k: int|
            0 <= k < i ==> st.atom((#[trigger] vars[k]).init) == Ok::<(St, Val), CodegenError>(
                (st, done[k]),
            ),
        st.loop_inits(vars, storages, i, done) is Ok,
    ensures
        st.loop_inits(vars, storages, i, done)->Ok_0.0 == st,
        starts(st, vars, st.loop_inits(vars, storages, i, done)->Ok_0.1),
    decreases vars.len() - i,
{
    if i < vars.len() {
        assert(storages[i as int] is Scalar);
        assert(plain_var(vars[i as int]));
        let init = vars[i as int].init;
        lemma_atom(st, init);
        lemma_inits(st, vars, storages, i + 1, done.push(st.atom(init)->Ok_0.1));
    }
}

/// Everything in front of the test of a loop.
proof fn lemma_loop_enter(st: St, vars: Seq<LoopVar>, cond: Ir, steps: Vec<Ir>) -> (r: (
    Seq<LoopVarStorage>,
    Seq<Val>,
))
    requires
        forall|k: int| 0 <= k < vars.len() ==> plain_var(#[trigger] vars[k]),
        raw_uses(cond) =~= Seq::<String>::empty(),
        raw_uses_steps(steps, steps.len() as nat) =~= Seq::<String>::empty(),
        st.loop_enter(vars, cond, steps) is Ok,
    ensures
        vars.len() == steps.len(),
        all_scalar(r.0),
        r.0.len() == vars.len(),
        starts(st, vars, r.1),
        st.loop_enter(vars, cond, steps)->Ok_0 == st.loop_blocks(vars, r.0, r.1, st.cx.raws),
{
    lemma_storages(vars, 0, Seq::empty());
    let storages = storages_from(vars, 0, Seq::empty())->Ok_0;
    lemma_inits(st, vars, storages, 0, Seq::empty());
    assert(raw_uses(cond) + raw_uses_steps(steps, steps.len() as nat) =~= Seq::<String>::empty());
    assert(loop_arrays(vars, storages, cond, steps) =~= Seq::<String>::empty());
    (storages, st.loop_inits(vars, storages, 0, Seq::empty())->Ok_0.1)
}

/// The parts of a loop.
pub struct LoopParts {
    pub storages: Seq<LoopVarStorage>,
    pub inits: Seq<Val>,
    /// Behind the test, with its value.
    pub c1: St,
    pub cv: Val,
    /// Behind the steps, with the next values.
    pub s1: St,
    pub nexts: Seq<Val>,
    /// Behind the result, with its value.
    pub r1: St,
    pub v: Val,
}

impl LoopParts {
    /// The state at the test of the loop, and its layout.
    pub open spec fn head(self, st: St, comp: Comp) -> (St, LoopHead) {
        st.loop_blocks(comp->Loop_vars@, self.storages, self.inits, st.cx.raws)
    }

    /// The state at its steps.
    pub open spec fn body(self, st: St, comp: Comp) -> St {
        loop_turn(
            self.c1,
            self.cv,
            self.head(st, comp).1,
            proved_bound(comp->Loop_vars@, *comp->cond, comp->steps@),
        )
    }

    /// The state at its result.
    pub open spec fn out(self, st: St, comp: Comp) -> St {
        self.s1.loop_close(self.head(st, comp).1, self.nexts, st)
    }

    /// A loop is lowered in these steps.
    pub open spec fn of(self, st: St, fuel: nat, comp: Comp) -> bool {
        &&& comp is Loop
        &&& comp->Loop_vars@.len() == comp->steps.len()
        &&& all_scalar(self.storages)
        &&& self.storages.len() == comp->Loop_vars@.len()
        &&& starts(st, comp->Loop_vars@, self.inits)
        &&& of_ir(self.head(st, comp).0, fuel, *comp->cond) == Ok::<(St, Val), CodegenError>(
            (self.c1, self.cv),
        )
        &&& self.cv.ty is I64
        &&& of_steps(
            self.body(st, comp),
            fuel,
            comp->steps,
            self.head(st, comp).1,
            0,
            Seq::empty(),
        ) == Ok::<(St, Seq<Val>), CodegenError>((self.s1, self.nexts))
        &&& of_ir(self.out(st, comp), fuel, *comp->result) == Ok::<(St, Val), CodegenError>(
            (self.r1, self.v),
        )
        &&& of_comp(st, fuel, comp) == Ok::<(St, Val), CodegenError>(
            (self.r1.in_env(st.cx.env), self.v),
        )
    }
}

proof fn lemma_loop_code(st: St, fuel: nat, comp: Comp, hd: St, h: LoopHead)
    requires
        comp is Loop,
        st.loop_enter(comp->Loop_vars@, *comp->cond, comp->steps) == Ok::<(St, LoopHead), CodegenError>(
            (hd, h),
        ),
        st.loop_code(fuel, comp) is Ok,
    ensures
        hd.loop_test(fuel, *comp->cond, h) is Ok,
        ({
            let bound = proved_bound(comp->Loop_vars@, *comp->cond, comp->steps@);
            let body = hd.loop_test(fuel, *comp->cond, h)->Ok_0.note_bound(bound);
            &&& body.loop_steps(fuel, comp->steps, h) is Ok
            &&& ({
                let (s1, nexts) = body.loop_steps(fuel, comp->steps, h)->Ok_0;
                let out = s1.loop_close(h, nexts, st);
                &&& out.block(fuel, *comp->result) is Ok
                &&& ({
                    let (r1, v) = out.block(fuel, *comp->result)->Ok_0;
                    st.loop_code(fuel, comp)->Ok_0 == (r1.in_env(st.cx.env), v)
                })
            })
        }),
{
}

proof fn lemma_loop_steps(st: St, fuel: nat, steps: Vec<Ir>, h: LoopHead)
    requires
        all_scalar(h.storages),
    ensures
        st.loop_steps(fuel, steps, h) == of_steps(st, fuel, steps, h, 0, Seq::empty()),
{
    assert(!any_root(h.storages));
    reveal(of_steps);
}

proof fn lemma_loop_is(st: St, fuel: nat, comp: Comp)
    requires
        comp is Loop,
    ensures
        of_comp(st, fuel, comp) == st.loop_code(fuel, comp),
{
    reveal(of_comp);
}

proof fn lemma_loop_entered(st: St, fuel: nat, comp: Comp)
    requires
        comp is Loop,
        st.loop_code(fuel, comp) is Ok,
    ensures
        st.loop_enter(comp->Loop_vars@, *comp->cond, comp->steps) is Ok,
{
}

pub(crate) proof fn lemma_of_loop(st: St, fuel: nat, comp: Comp) -> (p: LoopParts)
    requires
        plain_comp(comp, st.cx.gc),
        comp is Loop,
        of_comp(st, fuel, comp) is Ok,
    ensures
        p.of(st, fuel, comp),
{
    lemma_no_arrays(target(comp->cond), st.cx.gc);
    lemma_no_arrays_steps(comp->steps, comp->steps.len() as nat, st.cx.gc);
    lemma_of_bare_loop(st, fuel, comp)
}

/// The parts of a loop that borrows no arrays.
pub(crate) proof fn lemma_of_bare_loop(st: St, fuel: nat, comp: Comp) -> (p: LoopParts)
    requires
        comp is Loop,
        !st.cx.gc,
        forall|k: int| 0 <= k < comp->Loop_vars@.len() ==> plain_var(#[trigger] comp->Loop_vars@[k]),
        raw_uses(*comp->cond) =~= Seq::<String>::empty(),
        raw_uses_steps(comp->steps, comp->steps.len() as nat) =~= Seq::<String>::empty(),
        of_comp(st, fuel, comp) is Ok,
    ensures
        p.of(st, fuel, comp),
{
    let vars = comp->Loop_vars@;
    lemma_loop_is(st, fuel, comp);
    lemma_loop_entered(st, fuel, comp);
    let (storages, inits) = lemma_loop_enter(st, vars, target(comp->cond), comp->steps);
    let (hd, h) = st.loop_blocks(vars, storages, inits, st.cx.raws);
    lemma_loop_code(st, fuel, comp, hd, h);
    lemma_loop_head_gc(st, vars, storages, inits);
    lemma_loop_test(hd, fuel, target(comp->cond), h);
    let (c1, cv) = of_ir(hd, fuel, target(comp->cond))->Ok_0;
    let body = loop_turn(c1, cv, h, proved_bound(vars, target(comp->cond), comp->steps@));
    lemma_loop_steps(body, fuel, comp->steps, h);
    let (s1, nexts) = of_steps(body, fuel, comp->steps, h, 0, Seq::empty())->Ok_0;
    let out = s1.loop_close(h, nexts, st);
    lemma_of_ir(out, fuel, target(comp->result));
    let (r1, v) = of_ir(out, fuel, target(comp->result))->Ok_0;
    LoopParts { storages, inits, c1, cv, s1, nexts, r1, v }
}

/// The position of the phi of an accumulator.
pub open spec fn phi_at(base: int, j: int) -> int {
    base + 2 * j
}

/// The phis of the accumulators from position `i` on, each with the edge from where
/// the loop was entered.
pub open spec fn heads_laid(
    script: Seq<Cmd>,
    base: int,
    i: int,
    k: int,
    inits: Seq<Val>,
    from: u64,
) -> bool {
    forall|j: int|
        #![trigger phi_at(base, j)]
        i <= j < k ==> script[phi_at(base, j)] is Phi && script[phi_at(base, j) + 1] == (Cmd::Incoming {
            phi: phi_at(base, j) as u64,
            val: inits[j],
            from,
        })
}

proof fn lemma_heads(
    st: St,
    vars: Seq<LoopVar>,
    storages: Seq<LoopVarStorage>,
    inits: Seq<Val>,
    from: u64,
    i: nat,
    phis: Seq<Option<u64>>,
    base: int,
)
    requires
        all_scalar(storages),
        storages.len() == vars.len(),
        i <= vars.len(),
        phis.len() == i,
        st.script.len() == phi_at(base, i as int),
        forall|j: int| 0 <= j < i ==> #[trigger] phis[j] == Some(phi_at(base, j) as u64),
    ensures
        ({
            let (end, all) = st.loop_head(vars, storages, inits, from, i, phis);
            &&& end.cx.gc == st.cx.gc
            &&& end.cx.resume == st.cx.resume
            &&& end.cx.handlers == st.cx.handlers
            &&& end.cx.slots == st.cx.slots
            &&& end.cx.block == st.cx.block
            &&& end.script.len() == phi_at(base, vars.len() as int)
            &&& extends(end.script, st.script)
            &&& all.len() == vars.len()
            &&& forall|j: int| 0 <= j < vars.len() ==> #[trigger] all[j] == Some(
                phi_at(base, j) as u64,
            )
            &&& heads_laid(end.script, base, i as int, vars.len() as int, inits, from)
        }),
    decreases vars.len() - i,
{
    if i < vars.len() {
        assert(storages[i as int] is Scalar);
        let var = vars[i as int];
        let init = inits[i as int];
        let phi = st.here();
        let (mid, v) = st.phi_as(
            init.ty,
            Title::Var { before: "loop.", name: var.name, after: "" },
        );
        let next = mid.incoming(phi, init, from).bind(var.name, v, var.ty, var.layout);
        let (end, all) = st.loop_head(vars, storages, inits, from, i, phis);
        assert(phi_at(base, i as int) as u64 == phi);
        lemma_heads(next, vars, storages, inits, from, i + 1, phis.push(Some(phi)), base);
        assert(next.script[st.script.len() as int] is Phi);
        assert(next.script[st.script.len() as int + 1] == (Cmd::Incoming { phi, val: init, from }));
        lemma_extends(st.script, next.script, end.script);
        assert(end.script[st.script.len() as int] == next.script[st.script.len() as int]);
        assert(end.script[st.script.len() as int + 1] == next.script[st.script.len() as int + 1]);
    }
}

/// The state at the head of a loop, in front of its accumulators.
pub open spec fn loop_opened(st: St) -> St {
    let (a, head) = st.new_block("loop");
    let (b, body) = a.new_block("loop.body");
    let (c, exit) = b.new_block("loop.exit");
    c.br(head).with_raws(st.cx.raws).at(head)
}

pub(crate) proof fn lemma_loop_blocks(
    st: St,
    vars: Seq<LoopVar>,
    storages: Seq<LoopVarStorage>,
    inits: Seq<Val>,
)
    requires
        all_scalar(storages),
        storages.len() == vars.len(),
        st.script.len() + 5 + 2 * vars.len() <= u64::MAX,
    ensures
        ({
            let (hd, h) = st.loop_blocks(vars, storages, inits, st.cx.raws);
            let n = st.script.len() as int;
            let s = hd.script;
            &&& hd.cx.gc == st.cx.gc
            &&& hd.cx.resume == st.cx.resume
            &&& hd.cx.handlers == st.cx.handlers
            &&& hd.cx.slots == st.cx.slots
            &&& hd.cx.block == n
            &&& h.head == n
            &&& h.body == n + 1
            &&& h.exit == n + 2
            &&& h.env == hd.cx.env
            &&& h.storages == storages
            &&& h.phis.len() == vars.len()
            &&& forall|j: int| 0 <= j < vars.len() ==> #[trigger] h.phis[j] == Some(
                phi_at(n + 5, j) as u64,
            )
            &&& s.len() == n + 5 + 2 * vars.len()
            &&& extends(s, st.script)
            &&& s[n] is Block
            &&& s[n + 1] is Block
            &&& s[n + 2] is Block
            &&& s[n + 3] == (Cmd::Br { to: n as u64 })
            &&& s[n + 4] == (Cmd::At { block: n as u64 })
            &&& heads_laid(s, n + 5, 0, vars.len() as int, inits, st.cx.block)
            &&& (hd, h.phis) == loop_opened(st).loop_head(
                vars,
                storages,
                inits,
                st.cx.block,
                0,
                Seq::empty(),
            )
        }),
{
    let n = st.script.len() as int;
    let d = loop_opened(st);
    let (hd, h) = st.loop_blocks(vars, storages, inits, st.cx.raws);
    lemma_heads(d, vars, storages, inits, st.cx.block, 0, Seq::empty(), n + 5);
    assert(extends(d.script, st.script));
    lemma_extends(st.script, d.script, hd.script);
    assert(hd.script[n] == d.script[n]);
    assert(hd.script[n + 1] == d.script[n + 1]);
    assert(hd.script[n + 2] == d.script[n + 2]);
    assert(hd.script[n + 3] == d.script[n + 3]);
    assert(hd.script[n + 4] == d.script[n + 4]);
}

/// The head of a loop, wherever it is.
pub(crate) proof fn lemma_loop_head_gc(
    st: St,
    vars: Seq<LoopVar>,
    storages: Seq<LoopVarStorage>,
    inits: Seq<Val>,
)
    requires
        all_scalar(storages),
        storages.len() == vars.len(),
    ensures
        ({
            let (hd, h) = st.loop_blocks(vars, storages, inits, st.cx.raws);
            &&& hd.cx.gc == st.cx.gc
            &&& hd.cx.resume == st.cx.resume
            &&& hd.cx.handlers == st.cx.handlers
            &&& hd.cx.slots == st.cx.slots
            &&& h.storages == storages
            &&& hd.script.len() == st.script.len() + 5 + 2 * vars.len()
        }),
{
    let n = st.script.len() as int;
    lemma_heads(loop_opened(st), vars, storages, inits, st.cx.block, 0, Seq::empty(), n + 5);
}

// ── code only grows ──────────────────────────────────────────────────────
pub(crate) proof fn lemma_int_bin_len(st: St, op: BinOp, a: Val, b: Val)
    ensures
        st.script.len() <= st.int_bin(op, a, b).0.script.len(),
        st.int_bin(op, a, b).0.cx.gc == st.cx.gc,
        st.int_bin(op, a, b).0.cx.resume == st.cx.resume,
        st.int_bin(op, a, b).0.cx.handlers == st.cx.handlers,
        st.int_bin(op, a, b).0.cx.slots == st.cx.slots,
{
}

/// The operands of an operation.
pub(crate) proof fn lemma_bin(st: St, op: BinOp, a: Atom, b: Atom)
    requires
        !(a is Str),
        !(b is Str),
        st.bin(op, a, b) is Ok,
    ensures
        st.atom(a) is Ok,
        st.atom(b) is Ok,
        st.bin(op, a, b)->Ok_0 == st.int_bin(op, st.atom(a)->Ok_0.1, st.atom(b)->Ok_0.1),
{
    lemma_cell(st, a, "integer operand");
    lemma_cell(st, b, "integer operand");
}

pub(crate) proof fn lemma_head(st: St, c: Val)
    requires
        st.script.len() + 6 <= u64::MAX,
    ensures
        if_head(st, c).0.script.len() == st.script.len() + 6,
        if_head(st, c).0.cx.block == st.script.len() + 1,
        if_head(st, c).0.cx.env == st.cx.env,
        if_head(st, c).1 == st.script.len() + 2,
        if_head(st, c).2 == st.script.len() + 3,
        extends(if_head(st, c).0.script, st.script),
        ({
            let s = if_head(st, c).0.script;
            let n = st.script.len() as int;
            let test = Val { id: Id::Reg(n as u64), ty: Ty::I1 };
            &&& s[n] == (Cmd::IntTest { pred: IntPred::Ne, a: c, b: constant(0), label: "if.test" })
            &&& s[n + 1] is Block
            &&& s[n + 2] is Block
            &&& s[n + 3] is Block
            &&& s[n + 4] == (Cmd::CondBr { cond: test, yes: (n + 1) as u64, no: (n + 2) as u64 })
            &&& s[n + 5] == (Cmd::At { block: (n + 1) as u64 })
        }),
{
}

pub(crate) proof fn lemma_comp_len(st: St, fuel: nat, comp: Comp)
    requires
        plain_comp(comp, st.cx.gc),
        of_comp(st, fuel, comp) is Ok,
    ensures
        st.script.len() <= of_comp(st, fuel, comp)->Ok_0.0.script.len(),
        of_comp(st, fuel, comp)->Ok_0.0.cx.gc == st.cx.gc,
        of_comp(st, fuel, comp)->Ok_0.0.cx.resume == st.cx.resume,
        of_comp(st, fuel, comp)->Ok_0.0.cx.handlers == st.cx.handlers,
        of_comp(st, fuel, comp)->Ok_0.0.cx.slots == st.cx.slots,
    decreases comp, 0nat,
{
    match comp {
        Comp::Atom(a) => {
            lemma_of_atom(st, fuel, comp);
            lemma_atom(st, a);
        },
        Comp::Bin(op, a, b) => {
            lemma_of_bin(st, fuel, comp);
            lemma_bin(st, op, a, b);
            lemma_int_bin_len(st, op, st.atom(a)->Ok_0.1, st.atom(b)->Ok_0.1);
        },
        Comp::If(c, yes, no) => {
            let (c, t1, a, e1, b) = lemma_of_if(st, fuel, comp);
            lemma_ir_len(if_head(st, c).0, fuel, target(yes));
            lemma_ir_len(if_turn(st, c, t1), fuel, target(no));
        },
        Comp::Loop { vars, cond, steps, result } => {
            let p = lemma_of_loop(st, fuel, comp);
            lemma_loop_len(st, fuel, comp, p);
            let (hd, h) = p.head(st, comp);
            lemma_ir_len(hd, fuel, target(cond));
            lemma_steps_len(p.body(st, comp), fuel, steps, h, 0, Seq::empty());
            lemma_ir_len(p.out(st, comp), fuel, target(result));
        },
        _ => {},
    }
}

proof fn lemma_edges_len(st: St, phis: Seq<Option<u64>>, nexts: Seq<Val>, from: u64, n: nat)
    ensures
        st.script.len() <= st.loop_edges(phis, nexts, from, n).script.len(),
        st.loop_edges(phis, nexts, from, n).cx == st.cx,
    decreases n,
{
    if n > 0 {
        lemma_edges_len(st, phis, nexts, from, (n - 1) as nat);
    }
}

/// How the parts of a loop follow one another.
pub(crate) proof fn lemma_loop_len(st: St, fuel: nat, comp: Comp, p: LoopParts)
    requires
        p.of(st, fuel, comp),
    ensures
        ({
            let (hd, h) = p.head(st, comp);
            let out = p.out(st, comp);
            &&& hd.script.len() == st.script.len() + 5 + 2 * comp->Loop_vars@.len()
            &&& hd.cx.gc == st.cx.gc
            &&& hd.cx.resume == st.cx.resume
            &&& hd.cx.handlers == st.cx.handlers
            &&& hd.cx.slots == st.cx.slots
            &&& h.storages == p.storages
            &&& p.body(st, comp).script.len() == p.c1.script.len() + 3
            &&& p.body(st, comp).cx.gc == p.c1.cx.gc
            &&& p.body(st, comp).cx.resume == p.c1.cx.resume
            &&& p.body(st, comp).cx.handlers == p.c1.cx.handlers
            &&& p.body(st, comp).cx.slots == p.c1.cx.slots
            &&& p.s1.script.len() + 2 <= out.script.len()
            &&& out.cx.gc == p.s1.cx.gc
            &&& out.cx.resume == p.s1.cx.resume
            &&& out.cx.handlers == p.s1.cx.handlers
            &&& out.cx.slots == p.s1.cx.slots
        }),
{
    let (hd, h) = p.head(st, comp);
    lemma_loop_head_gc(st, comp->Loop_vars@, p.storages, p.inits);
    lemma_edges_len(
        p.s1.with_bounds(st.cx.bounds),
        h.phis,
        p.nexts,
        p.s1.cx.block,
        h.phis.len(),
    );
}

pub(crate) proof fn lemma_steps_len(st: St, fuel: nat, steps: Vec<Ir>, h: LoopHead, i: nat, done: Seq<Val>)
    requires
        !st.cx.gc,
        plain_steps(steps, steps.len() as nat, false),
        all_scalar(h.storages),
        h.storages.len() == steps.len(),
        of_steps(st, fuel, steps, h, i, done) is Ok,
    ensures
        st.script.len() <= of_steps(st, fuel, steps, h, i, done)->Ok_0.0.script.len(),
        !of_steps(st, fuel, steps, h, i, done)->Ok_0.0.cx.gc,
        of_steps(st, fuel, steps, h, i, done)->Ok_0.0.cx.resume == st.cx.resume,
        of_steps(st, fuel, steps, h, i, done)->Ok_0.0.cx.handlers == st.cx.handlers,
        of_steps(st, fuel, steps, h, i, done)->Ok_0.0.cx.slots == st.cx.slots,
    decreases steps, steps.len() - i,
{
    lemma_of_steps(st, fuel, steps, h, i, done);
    if i < steps.len() {
        lemma_plain_step(steps, steps.len() as nat, i as int, false);
        lemma_ir_len(st.in_env(h.env), fuel, steps[i as int]);
        let (next, v) = of_ir(st.in_env(h.env), fuel, steps[i as int])->Ok_0;
        lemma_steps_len(next, fuel, steps, h, i + 1, done.push(v));
    }
}

pub(crate) proof fn lemma_ir_len(st: St, fuel: nat, ir: Ir)
    requires
        plain_ir(ir, st.cx.gc),
        of_ir(st, fuel, ir) is Ok,
    ensures
        st.script.len() <= of_ir(st, fuel, ir)->Ok_0.0.script.len(),
        of_ir(st, fuel, ir)->Ok_0.0.cx.gc == st.cx.gc,
        of_ir(st, fuel, ir)->Ok_0.0.cx.resume == st.cx.resume,
        of_ir(st, fuel, ir)->Ok_0.0.cx.handlers == st.cx.handlers,
        of_ir(st, fuel, ir)->Ok_0.0.cx.slots == st.cx.slots,
    decreases ir, 0nat,
{
    match ir {
        Ir::Block { binds, comp, .. } => {
            lemma_of_block(st, fuel, ir);
            lemma_binds_len(st, fuel, binds, 0);
            lemma_comp_len(of_binds(st, fuel, binds, 0)->Ok_0, fuel, target(comp));
        },
        Ir::Let { name, ty, layout, comp, rest, .. } => {
            lemma_of_let(st, fuel, ir);
            lemma_comp_len(st, fuel, target(comp));
            let (next, v) = of_comp(st, fuel, target(comp))->Ok_0;
            lemma_ir_len(next.bind(name, v, ty, layout), fuel, target(rest));
        },
        Ir::Ret { comp, .. } => {
            lemma_of_ret(st, fuel, ir);
            lemma_comp_len(st, fuel, target(comp));
        },
    }
}

pub(crate) proof fn lemma_binds_len(st: St, fuel: nat, binds: Vec<IrBind>, i: nat)
    requires
        plain_binds(binds, binds.len() as nat, st.cx.gc),
        of_binds(st, fuel, binds, i) is Ok,
    ensures
        st.script.len() <= of_binds(st, fuel, binds, i)->Ok_0.script.len(),
        of_binds(st, fuel, binds, i)->Ok_0.cx.gc == st.cx.gc,
        of_binds(st, fuel, binds, i)->Ok_0.cx.resume == st.cx.resume,
        of_binds(st, fuel, binds, i)->Ok_0.cx.handlers == st.cx.handlers,
        of_binds(st, fuel, binds, i)->Ok_0.cx.slots == st.cx.slots,
    decreases binds, binds.len() - i,
{
    lemma_of_binds(st, fuel, binds, i);
    if i < binds.len() {
        let b = binds[i as int];
        lemma_plain_bind(binds, binds.len() as nat, i as int, st.cx.gc);
        lemma_comp_len(st, fuel, target(binds[i as int].comp));
        let (next, v) = of_comp(st, fuel, target(b.comp))->Ok_0;
        lemma_binds_len(next.bind(b.name, v, b.ty, b.layout), fuel, binds, i + 1);
    }
}

// ── and grows by blocks of its own ───────────────────────────────────────
pub(crate) proof fn lemma_atom_ready(st: St, a: Atom)
    requires
        !(a is Str),
        env_ready(st),
        st.atom(a) is Ok,
    ensures
        ready(st, st.atom(a)->Ok_0.1),
{
}

pub(crate) proof fn lemma_bound(st: St, name: String, v: Val, ty: Rc<Type>, layout: ValueLayout)
    requires
        env_ready(st),
        ready(st, v),
    ensures
        env_ready(st.bind(name, v, ty, layout)),
{
    let end = st.bind(name, v, ty, layout);
    assert forall|x: Seq<char>| #[trigger] end.cx.env.get(x) matches Some(e) ==> ready(end, e.value) by {
        if name@ != x {
            assert(end.cx.env.get(x) == st.cx.env.get(x));
        }
    }
}

pub(crate) proof fn lemma_env_kept(st: St, end: St)
    requires
        env_ready(st),
        end.cx.env == st.cx.env,
        st.script.len() <= end.script.len(),
    ensures
        env_ready(end),
{
    assert forall|x: Seq<char>| #[trigger] end.cx.env.get(x) matches Some(e) ==> ready(end, e.value) by {
        assert(st.cx.env.get(x) == end.cx.env.get(x));
    }
}

/// Where the parts of a branch lie.
pub open spec fn if_laid(st: St, c: Val, t1: St, a: Val, e1: St, b: Val) -> bool {
    let n = st.script.len() as int;
    let t = t1.script.len() as int;
    let e = e1.script.len() as int;
    let end = if_tail(st, c, t1, a, e1, b).0;
    &&& n + 6 <= t
    &&& t + 2 <= e
    &&& end.script.len() == e + 5
    &&& extends(end.script, e1.script)
    &&& extends(e1.script, if_turn(st, c, t1).script)
    &&& extends(if_turn(st, c, t1).script, t1.script)
    &&& extends(t1.script, if_head(st, c).0.script)
    &&& if_turn(st, c, t1).script.len() == t + 2
    &&& if_turn(st, c, t1).script[t] == (Cmd::Br { to: (n + 3) as u64 })
    &&& if_turn(st, c, t1).script[t + 1] == (Cmd::At { block: (n + 2) as u64 })
    &&& end.script[e] == (Cmd::Br { to: (n + 3) as u64 })
    &&& end.script[e + 1] == (Cmd::At { block: (n + 3) as u64 })
    &&& end.script[e + 2] is Phi
    &&& end.script[e + 3] == (Cmd::Incoming { phi: (e + 2) as u64, val: a, from: t1.cx.block })
    &&& end.script[e + 4] == (Cmd::Incoming { phi: (e + 2) as u64, val: b, from: e1.cx.block })
}

pub(crate) proof fn lemma_if_laid(st: St, c: Val, t1: St, a: Val, e1: St, b: Val)
    requires
        e1.script.len() + 64 <= u64::MAX,
        st.script.len() + 6 <= t1.script.len(),
        t1.script.len() + 2 <= e1.script.len(),
        extends(t1.script, if_head(st, c).0.script),
        extends(e1.script, if_turn(st, c, t1).script),
    ensures
        if_laid(st, c, t1, a, e1, b),
        if_tail(st, c, t1, a, e1, b).0.cx.block == st.script.len() + 3,
        if_tail(st, c, t1, a, e1, b).0.cx.env == st.cx.env,
        if_tail(st, c, t1, a, e1, b).1.id == Id::Reg((e1.script.len() + 2) as u64),
        if_turn(st, c, t1).cx.block == st.script.len() + 2,
        if_turn(st, c, t1).cx.env == st.cx.env,
{
    lemma_head(st, c);
}

pub(crate) proof fn lemma_head_settled(st: St, c: Val)
    requires
        st.script.len() + 6 <= u64::MAX,
        settled(st),
    ensures
        settled(if_head(st, c).0),
{
    lemma_head(st, c);
    lemma_whole(st, if_head(st, c).0);
}

/// The code of a branch has grown from the code of its parts.
#[verifier::rlimit(40)]
pub(crate) proof fn lemma_if_grown(st: St, c: Val, t1: St, a: Val, e1: St, b: Val)
    requires
        countable(e1),
        settled(st),
        laid_in(if_head(st, c).0, t1),
        laid_in(if_turn(st, c, t1), e1),
    ensures
        if_laid(st, c, t1, a, e1, b),
        grown(st, if_tail(st, c, t1, a, e1, b).0),
{
    let n = st.script.len() as int;
    let t = t1.script.len() as int;
    let e = e1.script.len() as int;
    let head = if_head(st, c).0;
    let turn = if_turn(st, c, t1);
    let end = if_tail(st, c, t1, a, e1, b).0;
    assert(t <= e);
    lemma_head(st, c);
    lemma_if_laid(st, c, t1, a, e1, b);
    lemma_extends(st.script, head.script, t1.script);
    lemma_extends(st.script, t1.script, turn.script);
    lemma_extends(st.script, turn.script, e1.script);
    lemma_extends(st.script, e1.script, end.script);
    assert(opened(end.script, e + 5) == (n + 3) as u64) by {
        reveal_with_fuel(opened, 5);
    }
    assert forall|i: int| n <= i < e + 5 implies match #[trigger] end.script[i] {
        Cmd::At { block } => n <= block < e + 5,
        Cmd::Incoming { phi, .. } => n <= phi < e + 5,
        _ => true,
    } by {
        if i < e {
            assert(end.script[i] == e1.script[i]);
            if i < t + 2 {
                assert(e1.script[i] == turn.script[i]);
                if i < t {
                    assert(turn.script[i] == t1.script[i]);
                    if i < n + 6 {
                        assert(t1.script[i] == head.script[i]);
                    }
                }
            }
        }
    }
    lemma_whole(st, end);
}

pub(crate) proof fn lemma_own_blocks(script: Seq<Cmd>, start: Seq<Cmd>, from: int, to: int)
    requires
        0 <= from,
        to <= start.len(),
        extends(script, start),
        own_blocks(start, from, to),
    ensures
        own_blocks(script, from, to),
{
    assert forall|i: int| from <= i < to implies match #[trigger] script[i] {
        Cmd::At { block } => from <= block < to,
        Cmd::Incoming { phi, .. } => from <= phi < to,
        _ => true,
    } by {
        assert(script[i] == start[i]);
    }
}

/// The edges of a loop back to its head.
pub open spec fn edges_laid(
    script: Seq<Cmd>,
    base: int,
    s: int,
    k: int,
    nexts: Seq<Val>,
    from: u64,
) -> bool {
    forall|j: int|
        #![trigger phi_at(base, j)]
        0 <= j < k ==> script[s + j] == (Cmd::Incoming {
            phi: phi_at(base, j) as u64,
            val: nexts[j],
            from,
        })
}

proof fn lemma_edges(
    st: St,
    phis: Seq<Option<u64>>,
    nexts: Seq<Val>,
    from: u64,
    n: nat,
    base: int,
)
    requires
        n <= phis.len(),
        forall|j: int| 0 <= j < phis.len() ==> #[trigger] phis[j] == Some(phi_at(base, j) as u64),
    ensures
        ({
            let end = st.loop_edges(phis, nexts, from, n);
            &&& end.script.len() == st.script.len() + n
            &&& end.cx == st.cx
            &&& extends(end.script, st.script)
            &&& edges_laid(end.script, base, st.script.len() as int, n as int, nexts, from)
        }),
    decreases n,
{
    if n > 0 {
        lemma_edges(st, phis, nexts, from, (n - 1) as nat, base);
        let mid = st.loop_edges(phis, nexts, from, (n - 1) as nat);
        let end = st.loop_edges(phis, nexts, from, n);
        assert(phis[n - 1] == Some(phi_at(base, n - 1) as u64));
        assert(extends(end.script, mid.script));
        lemma_extends(st.script, mid.script, end.script);
        assert forall|j: int| #![trigger phi_at(base, j)] 0 <= j < n implies end.script[st.script.len()
            + j] == (Cmd::Incoming { phi: phi_at(base, j) as u64, val: nexts[j], from }) by {
            if j < n - 1 {
                assert(end.script[st.script.len() + j] == mid.script[st.script.len() + j]);
            }
        }
    }
}

/// The commands of a loop around its parts: its test lies from `hd` to `c`, its
/// steps end at `s`, and its result at `e`.
#[verifier::opaque]
pub open spec fn loop_around(
    script: Seq<Cmd>,
    n: int,
    k: int,
    c: int,
    s: int,
    e: int,
    cv: Val,
    inits: Seq<Val>,
    nexts: Seq<Val>,
    from: u64,
    last: u64,
) -> bool {
    let hd = n + 5 + 2 * k;
    let test = Val { id: Id::Reg(c as u64), ty: Ty::I1 };
    &&& 0 <= n
    &&& 0 <= k
    &&& hd <= c
    &&& c + 3 <= s
    &&& s + k + 2 <= e
    &&& e <= script.len()
    &&& e + 64 <= u64::MAX
    &&& script[n] is Block
    &&& script[n + 1] is Block
    &&& script[n + 2] is Block
    &&& script[n + 3] == (Cmd::Br { to: n as u64 })
    &&& script[n + 4] == (Cmd::At { block: n as u64 })
    &&& heads_laid(script, n + 5, 0, k, inits, from)
    &&& own_blocks(script, hd, c)
    &&& script[c] == (Cmd::IntTest {
        pred: IntPred::Ne,
        a: cv,
        b: constant(0),
        label: "loop.test",
    })
    &&& script[c + 1] == (Cmd::CondBr { cond: test, yes: (n + 1) as u64, no: (n + 2) as u64 })
    &&& script[c + 2] == (Cmd::At { block: (n + 1) as u64 })
    &&& own_blocks(script, c + 3, s)
    &&& edges_laid(script, n + 5, s, k, nexts, last)
    &&& script[s + k] == (Cmd::Br { to: n as u64 })
    &&& script[s + k + 1] == (Cmd::At { block: (n + 2) as u64 })
    &&& own_blocks(script, s + k + 2, e)
    &&& own_blocks(script, 0, n)
    &&& opened(script, n + 3) == from
    &&& opened(script, s + k) == last
    &&& from <= n
    &&& last == n + 1 || c + 3 <= last < s
}

proof fn lemma_opened_on(script: Seq<Cmd>, a: int, b: int)
    requires
        0 <= a <= b <= script.len(),
        forall|i: int| a <= i < b ==> !(#[trigger] script[i] is At),
    ensures
        opened(script, b) == opened(script, a),
    decreases b - a,
{
    if a < b {
        lemma_opened_on(script, a, b - 1);
    }
}

proof fn lemma_loop_turn(c1: St, cv: Val, h: LoopHead, bound: Option<(String, String)>)
    ensures
        ({
            let body = loop_turn(c1, cv, h, bound);
            let c = c1.script.len() as int;
            let test = Val { id: Id::Reg(c as u64), ty: Ty::I1 };
            &&& body.script.len() == c + 3
            &&& extends(body.script, c1.script)
            &&& body.cx.gc == c1.cx.gc
            &&& body.cx.block == h.body
            &&& body.cx.env == h.env
            &&& body.script[c] == (Cmd::IntTest {
                pred: IntPred::Ne,
                a: cv,
                b: constant(0),
                label: "loop.test",
            })
            &&& body.script[c + 1] == (Cmd::CondBr { cond: test, yes: h.body, no: h.exit })
            &&& body.script[c + 2] == (Cmd::At { block: h.body })
        }),
{
}

pub(crate) proof fn lemma_loop_close(
    s1: St,
    h: LoopHead,
    nexts: Seq<Val>,
    outer: St,
    base: int,
)
    requires
        forall|j: int| 0 <= j < h.phis.len() ==> #[trigger] h.phis[j] == Some(phi_at(base, j) as u64),
    ensures
        ({
            let out = s1.loop_close(h, nexts, outer);
            let s = s1.script.len() as int;
            let k = h.phis.len() as int;
            &&& out.script.len() == s + k + 2
            &&& extends(out.script, s1.script)
            &&& out.cx.gc == s1.cx.gc
            &&& out.cx.block == h.exit
            &&& out.cx.env == h.env
            &&& edges_laid(out.script, base, s, k, nexts, s1.cx.block)
            &&& out.script[s + k] == (Cmd::Br { to: h.head })
            &&& out.script[s + k + 1] == (Cmd::At { block: h.exit })
        }),
{
    let start = s1.with_bounds(outer.cx.bounds);
    let out = s1.loop_close(h, nexts, outer);
    let s = s1.script.len() as int;
    let k = h.phis.len() as int;
    lemma_edges(start, h.phis, nexts, s1.cx.block, h.phis.len(), base);
    let mid = start.loop_edges(h.phis, nexts, s1.cx.block, h.phis.len());
    assert(extends(out.script, mid.script));
    lemma_extends(s1.script, mid.script, out.script);
    assert forall|j: int| #![trigger phi_at(base, j)] 0 <= j < k implies out.script[s + j] == (
    Cmd::Incoming { phi: phi_at(base, j) as u64, val: nexts[j], from: s1.cx.block }) by {
        assert(out.script[s + j] == mid.script[s + j]);
    }
}

pub(crate) proof fn lemma_heads_kind(
    script: Seq<Cmd>,
    base: int,
    k: int,
    inits: Seq<Val>,
    from: u64,
    i: int,
)
    requires
        heads_laid(script, base, 0, k, inits, from),
        0 <= base <= i < base + 2 * k,
        base + 2 * k <= u64::MAX,
    ensures
        script[i] is Phi || (script[i] matches Cmd::Incoming { phi, val, from: f } && base <= phi < base
            + 2 * k && f == from),
{
    let j = (i - base) / 2;
    assert(0 <= j < k);
    assert(i == phi_at(base, j) || i == phi_at(base, j) + 1);
}

pub(crate) proof fn lemma_edges_kind(
    script: Seq<Cmd>,
    base: int,
    s: int,
    k: int,
    nexts: Seq<Val>,
    from: u64,
    i: int,
)
    requires
        edges_laid(script, base, s, k, nexts, from),
        0 <= base,
        base + 2 * k <= u64::MAX,
        s <= i < s + k,
    ensures
        script[i] == (Cmd::Incoming {
            phi: (base + 2 * (i - s)) as u64,
            val: nexts[i - s],
            from,
        }),
{
    assert(phi_at(base, i - s) == base + 2 * (i - s));
}

proof fn lemma_heads_ready(
    st: St,
    vars: Seq<LoopVar>,
    storages: Seq<LoopVarStorage>,
    inits: Seq<Val>,
    from: u64,
    i: nat,
    phis: Seq<Option<u64>>,
)
    requires
        all_scalar(storages),
        storages.len() == vars.len(),
        i <= vars.len(),
        env_ready(st),
        st.script.len() + 2 * (vars.len() - i) <= u64::MAX,
    ensures
        env_ready(st.loop_head(vars, storages, inits, from, i, phis).0),
    decreases vars.len() - i,
{
    if i < vars.len() {
        assert(storages[i as int] is Scalar);
        let var = vars[i as int];
        let init = inits[i as int];
        let phi = st.here();
        let (mid, v) = st.phi_as(
            init.ty,
            Title::Var { before: "loop.", name: var.name, after: "" },
        );
        let joined = mid.incoming(phi, init, from);
        lemma_env_kept(st, joined);
        lemma_bound(joined, var.name, v, var.ty, var.layout);
        lemma_heads_ready(
            joined.bind(var.name, v, var.ty, var.layout),
            vars,
            storages,
            inits,
            from,
            i + 1,
            phis.push(Some(phi)),
        );
    }
}

/// The head of a loop has grown from what was there.
pub(crate) proof fn lemma_loop_head_grown(st: St, fuel: nat, comp: Comp, p: LoopParts)
    requires
        p.of(st, fuel, comp),
        settled(st),
        env_ready(st),
        countable(p.c1),
        p.head(st, comp).0.script.len() <= p.c1.script.len(),
    ensures
        grown(st, p.head(st, comp).0),
        env_ready(p.head(st, comp).0),
{
    let vars = comp->Loop_vars@;
    let k = vars.len() as int;
    let n = st.script.len() as int;
    let (hd, h) = p.head(st, comp);
    lemma_loop_head_gc(st, vars, p.storages, p.inits);
    lemma_loop_blocks(st, vars, p.storages, p.inits);
    let d = loop_opened(st);
    lemma_env_kept(st, d);
    lemma_heads_ready(d, vars, p.storages, p.inits, st.cx.block, 0, Seq::empty());
    assert forall|i: int| n <= i < hd.script.len() implies match #[trigger] hd.script[i] {
        Cmd::At { block } => n <= block < hd.script.len(),
        Cmd::Incoming { phi, .. } => n <= phi < hd.script.len(),
        _ => true,
    } by {
        if i >= n + 5 {
            lemma_heads_kind(hd.script, n + 5, k, p.inits, st.cx.block, i);
        }
    }
    assert forall|i: int| n + 5 <= i < hd.script.len() implies !(#[trigger] hd.script[i] is At) by {
        lemma_heads_kind(hd.script, n + 5, k, p.inits, st.cx.block, i);
    }
    lemma_opened_on(hd.script, n + 5, hd.script.len() as int);
    lemma_whole(st, hd);
}

/// A state at the entry of a block that was added before.
proof fn lemma_at_settled(before: St, end: St, block: u64)
    requires
        settled(before),
        extends(end.script, before.script),
        before.script.len() < end.script.len(),
        end.script[end.script.len() - 1] == (Cmd::At { block }),
        end.cx.block == block,
        block < before.script.len(),
        forall|i: int|
            before.script.len() <= i < end.script.len() - 1 ==> match #[trigger] end.script[i] {
                Cmd::At { .. } => false,
                Cmd::Incoming { phi, .. } => phi < end.script.len(),
                _ => true,
            },
    ensures
        settled(end),
{
    assert forall|i: int| 0 <= i < end.script.len() implies match #[trigger] end.script[i] {
        Cmd::At { block } => 0 <= block < end.script.len(),
        Cmd::Incoming { phi, .. } => 0 <= phi < end.script.len(),
        _ => true,
    } by {
        if i < before.script.len() {
            assert(end.script[i] == before.script[i]);
        }
    }
}

/// The steps of a loop start in order.
pub(crate) proof fn lemma_loop_body_settled(st: St, fuel: nat, comp: Comp, p: LoopParts)
    requires
        p.of(st, fuel, comp),
        countable(p.c1),
        grown(p.head(st, comp).0, p.c1),
    ensures
        settled(p.body(st, comp)),
        p.body(st, comp).cx.env == p.head(st, comp).0.cx.env,
{
    let vars = comp->Loop_vars@;
    let (hd, h) = p.head(st, comp);
    lemma_loop_head_gc(st, vars, p.storages, p.inits);
    lemma_loop_blocks(st, vars, p.storages, p.inits);
    lemma_loop_turn(p.c1, p.cv, h, proved_bound(vars, target(comp->cond), comp->steps@));
    lemma_at_settled(p.c1, p.body(st, comp), h.body);
}

/// The result of a loop starts in order.
pub(crate) proof fn lemma_loop_out_settled(st: St, fuel: nat, comp: Comp, p: LoopParts)
    requires
        p.of(st, fuel, comp),
        countable(p.s1),
        st.script.len() + 5 + 2 * comp->Loop_vars@.len() <= p.s1.script.len(),
        settled(p.s1),
    ensures
        settled(p.out(st, comp)),
        p.out(st, comp).cx.env == p.head(st, comp).0.cx.env,
{
    let vars = comp->Loop_vars@;
    let (hd, h) = p.head(st, comp);
    let n = st.script.len() as int;
    let k = vars.len() as int;
    let s = p.s1.script.len() as int;
    let out = p.out(st, comp);
    lemma_loop_blocks(st, vars, p.storages, p.inits);
    lemma_loop_close(p.s1, h, p.nexts, st, n + 5);
    assert forall|i: int| s <= i < out.script.len() - 1 implies match #[trigger] out.script[i] {
        Cmd::At { .. } => false,
        Cmd::Incoming { phi, .. } => phi < out.script.len(),
        _ => true,
    } by {
        if i < s + k {
            lemma_edges_kind(out.script, n + 5, s, k, p.nexts, p.s1.cx.block, i);
        }
    }
    lemma_at_settled(p.s1, out, h.exit);
}

#[verifier::rlimit(40)]
pub(crate) proof fn lemma_loop_around(st: St, fuel: nat, comp: Comp, p: LoopParts, script: Seq<Cmd>)
    requires
        p.of(st, fuel, comp),
        settled(st),
        env_ready(st),
        countable(p.r1),
        grown(p.head(st, comp).0, p.c1),
        grown(p.body(st, comp), p.s1),
        grown(p.out(st, comp), p.r1),
        extends(script, p.r1.script),
    ensures
        loop_around(
            script,
            st.script.len() as int,
            comp->Loop_vars@.len() as int,
            p.c1.script.len() as int,
            p.s1.script.len() as int,
            p.r1.script.len() as int,
            p.cv,
            p.inits,
            p.nexts,
            st.cx.block,
            p.s1.cx.block,
        ),
        extends(script, p.c1.script),
        extends(script, p.s1.script),
        extends(script, st.script),
{
    reveal(loop_around);
    let vars = comp->Loop_vars@;
    let (hd, h) = p.head(st, comp);
    let body = p.body(st, comp);
    let out = p.out(st, comp);
    let n = st.script.len() as int;
    let k = vars.len() as int;
    let c = p.c1.script.len() as int;
    let s = p.s1.script.len() as int;
    let e = p.r1.script.len() as int;
    lemma_loop_len(st, fuel, comp, p);
    lemma_loop_blocks(st, vars, p.storages, p.inits);
    lemma_loop_turn(p.c1, p.cv, h, proved_bound(vars, target(comp->cond), comp->steps@));
    lemma_loop_close(p.s1, h, p.nexts, st, n + 5);
    lemma_extends(out.script, p.r1.script, script);
    lemma_extends(p.s1.script, out.script, script);
    lemma_extends(body.script, p.s1.script, script);
    lemma_extends(p.c1.script, body.script, script);
    lemma_extends(hd.script, p.c1.script, script);
    lemma_extends(st.script, hd.script, script);
    lemma_own_blocks(script, p.c1.script, n + 5 + 2 * k, c);
    lemma_own_blocks(script, p.s1.script, c + 3, s);
    lemma_own_blocks(script, p.r1.script, s + k + 2, e);
    lemma_own_blocks(script, st.script, 0, n);
    lemma_opened(script, st.script, n);
    lemma_opened(script, p.s1.script, s);
    assert(script[n] == hd.script[n]);
    assert(script[n + 1] == hd.script[n + 1]);
    assert(script[n + 2] == hd.script[n + 2]);
    assert(script[n + 3] == hd.script[n + 3]);
    assert(script[n + 4] == hd.script[n + 4]);
    assert(opened(script, n + 1) == opened(script, n));
    assert(opened(script, n + 2) == opened(script, n + 1));
    assert(opened(script, n + 3) == opened(script, n + 2));
    assert(heads_laid(script, n + 5, 0, k, p.inits, st.cx.block)) by {
        assert forall|j: int| #![trigger phi_at(n + 5, j)] 0 <= j < k implies script[phi_at(
            n + 5,
            j,
        )] is Phi && script[phi_at(n + 5, j) + 1] == (Cmd::Incoming {
            phi: phi_at(n + 5, j) as u64,
            val: p.inits[j],
            from: st.cx.block,
        }) by {
            let i = phi_at(n + 5, j);
            assert(script[i] == hd.script[i]);
            assert(script[i + 1] == hd.script[i + 1]);
        }
    }
    assert(script[c] == body.script[c]);
    assert(script[c + 1] == body.script[c + 1]);
    assert(script[c + 2] == body.script[c + 2]);
    assert(edges_laid(script, n + 5, s, k, p.nexts, p.s1.cx.block)) by {
        assert forall|j: int| #![trigger phi_at(n + 5, j)] 0 <= j < k implies script[s + j] == (
        Cmd::Incoming { phi: phi_at(n + 5, j) as u64, val: p.nexts[j], from: p.s1.cx.block }) by {
            assert(script[s + j] == out.script[s + j]);
        }
    }
    assert(script[s + k] == out.script[s + k]);
    assert(script[s + k + 1] == out.script[s + k + 1]);
    assert forall|i: int| s <= i < s + k implies !(#[trigger] script[i] is At) by {
        lemma_edges_kind(script, n + 5, s, k, p.nexts, p.s1.cx.block, i);
    }
    lemma_opened_on(script, s, s + k);
}

/// The code of a loop has grown from the code of its parts.
#[verifier::rlimit(40)]
pub(crate) proof fn lemma_loop_grown(st: St, fuel: nat, comp: Comp, p: LoopParts)
    requires
        p.of(st, fuel, comp),
        settled(st),
        env_ready(st),
        countable(p.r1),
        grown(p.head(st, comp).0, p.c1),
        grown(p.body(st, comp), p.s1),
        grown(p.out(st, comp), p.r1),
    ensures
        grown(st, p.r1.in_env(st.cx.env)),
{
    reveal(loop_around);
    let k = comp->Loop_vars@.len() as int;
    let n = st.script.len() as int;
    let c = p.c1.script.len() as int;
    let s = p.s1.script.len() as int;
    let e = p.r1.script.len() as int;
    let script = p.r1.script;
    let end = p.r1.in_env(st.cx.env);
    lemma_loop_around(st, fuel, comp, p, script);
    lemma_loop_len(st, fuel, comp, p);
    lemma_loop_blocks(st, comp->Loop_vars@, p.storages, p.inits);
    let (hd, h) = p.head(st, comp);
    lemma_loop_close(p.s1, h, p.nexts, st, n + 5);
    assert forall|i: int| n <= i < e implies match #[trigger] end.script[i] {
        Cmd::At { block } => n <= block < e,
        Cmd::Incoming { phi, .. } => n <= phi < e,
        _ => true,
    } by {
        if n + 5 <= i < n + 5 + 2 * k {
            lemma_heads_kind(script, n + 5, k, p.inits, st.cx.block, i);
        } else if s <= i < s + k {
            lemma_edges_kind(script, n + 5, s, k, p.nexts, p.s1.cx.block, i);
        }
    }
}

#[verifier::rlimit(40)]
pub(crate) proof fn lemma_steps_grown(st: St, fuel: nat, steps: Vec<Ir>, h: LoopHead, i: nat, done: Seq<Val>)
    requires
        !st.cx.gc,
        plain_steps(steps, steps.len() as nat, false),
        all_scalar(h.storages),
        h.storages.len() == steps.len(),
        settled(st),
        env_ready(st.in_env(h.env)),
        i <= steps.len(),
        done.len() == i,
        forall|j: int| 0 <= j < i ==> ready(st, #[trigger] done[j]),
        of_steps(st, fuel, steps, h, i, done) is Ok,
        countable(of_steps(st, fuel, steps, h, i, done)->Ok_0.0),
    ensures
        ({
            let (end, nexts) = of_steps(st, fuel, steps, h, i, done)->Ok_0;
            &&& grown(st, end)
            &&& nexts.len() == steps.len()
            &&& forall|j: int| 0 <= j < steps.len() ==> ready(end, #[trigger] nexts[j])
            &&& forall|j: int| 0 <= j < i ==> nexts[j] == #[trigger] done[j]
        }),
    decreases steps, steps.len() - i,
{
    lemma_of_steps(st, fuel, steps, h, i, done);
    if i < steps.len() {
        let start = st.in_env(h.env);
        lemma_plain_step(steps, steps.len() as nat, i as int, false);
        let (next, v) = of_ir(start, fuel, steps[i as int])->Ok_0;
        let end = of_steps(st, fuel, steps, h, i, done)->Ok_0.0;
        lemma_ir_len(start, fuel, steps[i as int]);
        lemma_steps_len(next, fuel, steps, h, i + 1, done.push(v));
        lemma_ir_grown(start, fuel, steps[i as int]);
        lemma_env_kept(start, next.in_env(h.env));
        assert forall|j: int| 0 <= j < i + 1 implies ready(next, #[trigger] done.push(v)[j]) by {
            if j < i {
                assert(ready(st, done[j]));
            }
        }
        lemma_steps_grown(next, fuel, steps, h, i + 1, done.push(v));
        assert(grown(st, next));
        lemma_grown(st, next, end);
        assert forall|j: int| 0 <= j < i implies of_steps(st, fuel, steps, h, i, done)->Ok_0.1[j]
            == #[trigger] done[j] by {
            assert(done.push(v)[j] == done[j]);
        }
    }
}

#[verifier::rlimit(40)]
pub(crate) proof fn lemma_comp_grown(st: St, fuel: nat, comp: Comp)
    requires
        plain_comp(comp, st.cx.gc),
        settled(st),
        env_ready(st),
        of_comp(st, fuel, comp) is Ok,
        countable(of_comp(st, fuel, comp)->Ok_0.0),
    ensures
        grown(st, of_comp(st, fuel, comp)->Ok_0.0),
        ready(of_comp(st, fuel, comp)->Ok_0.0, of_comp(st, fuel, comp)->Ok_0.1),
        of_comp(st, fuel, comp)->Ok_0.0.cx.env == st.cx.env,
    decreases comp, 0nat,
{
    match comp {
        Comp::Atom(a) => {
            lemma_of_atom(st, fuel, comp);
            lemma_atom(st, a);
            lemma_atom_ready(st, a);
        },
        Comp::Bin(op, a, b) => {
            lemma_of_bin(st, fuel, comp);
            lemma_bin(st, op, a, b);
            lemma_int_bin_grown(st, op, st.atom(a)->Ok_0.1, st.atom(b)->Ok_0.1);
        },
        Comp::If(c, yes, no) => {
            let (c, t1, a, e1, b) = lemma_of_if(st, fuel, comp);
            let head = if_head(st, c).0;
            let turn = if_turn(st, c, t1);
            lemma_ir_len(head, fuel, target(yes));
            lemma_ir_len(turn, fuel, target(no));
            lemma_head(st, c);
            lemma_head_settled(st, c);
            lemma_env_kept(st, head);
            lemma_ir_grown(head, fuel, target(yes));
            lemma_turn(st, c, t1);
            lemma_env_kept(st, turn);
            lemma_ir_grown(turn, fuel, target(no));
            lemma_if_grown(st, c, t1, a, e1, b);
            lemma_if_laid(st, c, t1, a, e1, b);
        },
        Comp::Loop { vars, cond, steps, result } => {
            let p = lemma_of_loop(st, fuel, comp);
            let (hd, h) = p.head(st, comp);
            let body = p.body(st, comp);
            let out = p.out(st, comp);
            lemma_loop_len(st, fuel, comp, p);
            lemma_ir_len(hd, fuel, target(cond));
            lemma_steps_len(body, fuel, steps, h, 0, Seq::empty());
            lemma_ir_len(out, fuel, target(result));
            lemma_loop_head_grown(st, fuel, comp, p);
            lemma_ir_grown(hd, fuel, target(cond));
            lemma_loop_body_settled(st, fuel, comp, p);
            lemma_env_kept(hd, body);
            lemma_loop_blocks(st, vars@, p.storages, p.inits);
            lemma_steps_grown(body, fuel, steps, h, 0, Seq::empty());
            lemma_loop_out_settled(st, fuel, comp, p);
            lemma_env_kept(hd, out);
            lemma_ir_grown(out, fuel, target(result));
            lemma_loop_grown(st, fuel, comp, p);
        },
        _ => {},
    }
}

pub(crate) proof fn lemma_turn(st: St, c: Val, t1: St)
    requires
        st.script.len() + 6 <= t1.script.len(),
        countable(t1),
        settled(t1),
    ensures
        if_turn(st, c, t1).script.len() == t1.script.len() + 2,
        if_turn(st, c, t1).cx.env == st.cx.env,
        settled(if_turn(st, c, t1)),
{
    lemma_head(st, c);
    lemma_at_settled(t1, if_turn(st, c, t1), if_head(st, c).1);
}

pub(crate) proof fn lemma_ir_grown(st: St, fuel: nat, ir: Ir)
    requires
        plain_ir(ir, st.cx.gc),
        settled(st),
        env_ready(st),
        of_ir(st, fuel, ir) is Ok,
        countable(of_ir(st, fuel, ir)->Ok_0.0),
    ensures
        grown(st, of_ir(st, fuel, ir)->Ok_0.0),
        ready(of_ir(st, fuel, ir)->Ok_0.0, of_ir(st, fuel, ir)->Ok_0.1),
    decreases ir, 0nat,
{
    match ir {
        Ir::Block { binds, comp, .. } => {
            lemma_of_block(st, fuel, ir);
            let next = of_binds(st, fuel, binds, 0)->Ok_0;
            lemma_binds_len(st, fuel, binds, 0);
            lemma_comp_len(next, fuel, target(comp));
            lemma_binds_grown(st, fuel, binds, 0);
            lemma_comp_grown(next, fuel, target(comp));
            lemma_grown(st, next, of_ir(st, fuel, ir)->Ok_0.0);
        },
        Ir::Let { name, ty, layout, comp, rest, .. } => {
            lemma_of_let(st, fuel, ir);
            let (mid, v) = of_comp(st, fuel, target(comp))->Ok_0;
            let next = mid.bind(name, v, ty, layout);
            lemma_comp_len(st, fuel, target(comp));
            lemma_ir_len(next, fuel, target(rest));
            lemma_comp_grown(st, fuel, target(comp));
            lemma_env_kept(st, mid);
            lemma_bound(mid, name, v, ty, layout);
            lemma_ir_grown(next, fuel, target(rest));
            lemma_grown(st, next, of_ir(st, fuel, ir)->Ok_0.0);
        },
        Ir::Ret { comp, .. } => {
            lemma_of_ret(st, fuel, ir);
            lemma_comp_grown(st, fuel, target(comp));
        },
    }
}

pub(crate) proof fn lemma_binds_grown(st: St, fuel: nat, binds: Vec<IrBind>, i: nat)
    requires
        plain_binds(binds, binds.len() as nat, st.cx.gc),
        settled(st),
        env_ready(st),
        of_binds(st, fuel, binds, i) is Ok,
        countable(of_binds(st, fuel, binds, i)->Ok_0),
    ensures
        grown(st, of_binds(st, fuel, binds, i)->Ok_0),
        env_ready(of_binds(st, fuel, binds, i)->Ok_0),
    decreases binds, binds.len() - i,
{
    lemma_of_binds(st, fuel, binds, i);
    if i < binds.len() {
        let b = binds[i as int];
        lemma_plain_bind(binds, binds.len() as nat, i as int, st.cx.gc);
        let (mid, v) = of_comp(st, fuel, target(b.comp))->Ok_0;
        let next = mid.bind(b.name, v, b.ty, b.layout);
        lemma_comp_len(st, fuel, target(binds[i as int].comp));
        lemma_binds_len(next, fuel, binds, i + 1);
        lemma_comp_grown(st, fuel, target(binds[i as int].comp));
        lemma_env_kept(st, mid);
        lemma_bound(mid, b.name, v, b.ty, b.layout);
        lemma_binds_grown(next, fuel, binds, i + 1);
        lemma_grown(st, next, of_binds(st, fuel, binds, i)->Ok_0);
    }
}

// ── programs are lowered ─────────────────────────────────────────────────
/// The names are in scope, each as one cell.
pub open spec fn scoped(st: St, names: Names) -> bool {
    forall|x: Seq<char>| #[trigger]
        names.contains(x) ==> (st.cx.env.get(x) matches Some(e) && e.value.ty is I64)
}

/// The code came out with one cell.
pub open spec fn lowered(out: Result<(St, Val), CodegenError>) -> bool {
    out matches Ok((_, v)) && v.ty is I64
}

proof fn lemma_atom_known(st: St, a: Atom, names: Names, context: &'static str)
    requires
        known_atom(a, names),
        scoped(st, names),
    ensures
        st.cell(a, context) is Ok,
        lowered(st.atom(a)),
{
}

proof fn lemma_scoped_bind(
    st: St,
    name: String,
    v: Val,
    ty: Rc<Type>,
    layout: ValueLayout,
    names: Names,
)
    requires
        scoped(st, names),
        v.ty is I64,
    ensures
        scoped(st.bind(name, v, ty, layout), names.insert(name@)),
{
    let end = st.bind(name, v, ty, layout);
    assert forall|x: Seq<char>| #[trigger] names.insert(name@).contains(x) implies (
    end.cx.env.get(x) matches Some(e) && e.value.ty is I64) by {
        if x != name@ {
            assert(names.contains(x));
            assert(end.cx.env.get(x) == st.cx.env.get(x));
        }
    }
}

proof fn lemma_scoped_kept(st: St, end: St, names: Names)
    requires
        scoped(st, names),
        end.cx.env == st.cx.env,
    ensures
        scoped(end, names),
{
    assert forall|x: Seq<char>| #[trigger] names.contains(x) implies (
    end.cx.env.get(x) matches Some(e) && e.value.ty is I64) by {
        assert(end.cx.env.get(x) == st.cx.env.get(x));
    }
}

proof fn lemma_int_bin_cell(st: St, op: BinOp, a: Val, b: Val)
    requires
        a.ty is I64,
    ensures
        st.int_bin(op, a, b).1.ty is I64,
        st.int_bin(op, a, b).0.cx.env == st.cx.env,
{
}

proof fn lemma_known_bind(binds: Vec<IrBind>, i: nat, names: Names, gc: bool)
    requires
        known_binds(binds, i, names, gc),
    ensures
        forall|k: int| i <= k < binds.len() ==> plain_comp(*#[trigger] binds[k].comp, gc),
    decreases binds, binds.len() - i,
{
    if i < binds.len() {
        lemma_known_comp(target(binds[i as int].comp), names, gc);
        lemma_known_bind(binds, i + 1, names.insert(binds[i as int].name@), gc);
    }
}

proof fn lemma_plain_binds(binds: Vec<IrBind>, n: nat, gc: bool)
    requires
        forall|k: int| 0 <= k < binds.len() ==> plain_comp(*#[trigger] binds[k].comp, gc),
    ensures
        plain_binds(binds, n, gc),
    decreases n,
{
    if 0 < n <= binds.len() {
        lemma_plain_binds(binds, (n - 1) as nat, gc);
    }
}

proof fn lemma_known_steps(steps: Vec<Ir>, n: nat, names: Names, gc: bool)
    requires
        known_steps(steps, n, names, gc),
    ensures
        plain_steps(steps, n, gc),
    decreases steps, n,
{
    if 0 < n <= steps.len() {
        lemma_known_steps(steps, (n - 1) as nat, names, gc);
        lemma_known_ir(steps[n - 1], names, gc);
    }
}

proof fn lemma_known_step(steps: Vec<Ir>, n: nat, i: int, names: Names, gc: bool)
    requires
        known_steps(steps, n, names, gc),
        0 <= i < n <= steps.len(),
    ensures
        known_ir(steps[i], names, gc),
    decreases n,
{
    if i < n - 1 {
        lemma_known_step(steps, (n - 1) as nat, i, names, gc);
    }
}

proof fn lemma_known_comp(comp: Comp, names: Names, gc: bool)
    requires
        known_comp(comp, names, gc),
    ensures
        plain_comp(comp, gc),
    decreases comp, 0nat,
{
    match comp {
        Comp::If(c, yes, no) => {
            lemma_known_ir(target(yes), names, gc);
            lemma_known_ir(target(no), names, gc);
        },
        Comp::Loop { vars, cond, steps, result } => {
            let inside = names_with(vars@, vars@.len(), names);
            lemma_known_ir(target(cond), inside, gc);
            lemma_known_steps(steps, steps.len() as nat, inside, gc);
            lemma_known_ir(target(result), inside, gc);
        },
        _ => {},
    }
}

proof fn lemma_known_ir(ir: Ir, names: Names, gc: bool)
    requires
        known_ir(ir, names, gc),
    ensures
        plain_ir(ir, gc),
    decreases ir, 0nat,
{
    match ir {
        Ir::Block { binds, comp, .. } => {
            lemma_known_bind(binds, 0, names, gc);
            lemma_plain_binds(binds, binds.len() as nat, gc);
            lemma_known_comp(target(comp), names_from(binds, 0, names), gc);
        },
        Ir::Let { name, comp, rest, .. } => {
            lemma_known_comp(target(comp), names, gc);
            lemma_known_ir(target(rest), names.insert(name@), gc);
        },
        Ir::Ret { comp, .. } => lemma_known_comp(target(comp), names, gc),
    }
}

/// What a branch is lowered to.
proof fn lemma_if_is(st: St, fuel: nat, comp: Comp, c: Val)
    requires
        comp is If,
        st.cell(comp->If_0, "if condition") == Ok::<(St, Val), CodegenError>((st, c)),
    ensures
        of_comp(st, fuel, comp) == match of_ir(if_head(st, c).0, fuel, *comp->If_1) {
            Err(e) => Err(e),
            Ok((t1, a)) => match of_ir(if_turn(st, c, t1), fuel, *comp->If_2) {
                Err(e) => Err(e),
                Ok((e1, b)) => Ok(if_tail(st, c, t1, a, e1, b)),
            },
        },
{
    lemma_if_code(st, fuel, comp, c);
    lemma_of_ir(if_head(st, c).0, fuel, target(comp->If_1));
    if let Ok((t1, a)) = of_ir(if_head(st, c).0, fuel, target(comp->If_1)) {
        lemma_of_ir(if_turn(st, c, t1), fuel, target(comp->If_2));
    }
    reveal(of_comp);
}

/// The starting values of the accumulators are there, each one cell.
proof fn lemma_inits_known(
    st: St,
    vars: Seq<LoopVar>,
    storages: Seq<LoopVarStorage>,
    i: nat,
    done: Seq<Val>,
    names: Names,
)
    requires
        forall|k: int|
            0 <= k < vars.len() ==> plain_var(#[trigger] vars[k]) && known_atom(vars[k].init, names),
        scoped(st, names),
        all_scalar(storages),
        storages.len() == vars.len(),
        i <= vars.len(),
        done.len() == i,
        forall|k: int| 0 <= k < i ==> (#[trigger] done[k]).ty is I64,
    ensures
        st.loop_inits(vars, storages, i, done) matches Ok((_, inits)) && inits.len() == vars.len()
            && forall|k: int| 0 <= k < inits.len() ==> (#[trigger] inits[k]).ty is I64,
    decreases vars.len() - i,
{
    if i < vars.len() {
        assert(storages[i as int] is Scalar);
        assert(plain_var(vars[i as int]));
        let init = vars[i as int].init;
        lemma_atom_known(st, init, names, "");
        lemma_atom(st, init);
        lemma_inits_known(st, vars, storages, i + 1, done.push(st.atom(init)->Ok_0.1), names);
    }
}

/// The names inside a loop are in scope.
proof fn lemma_heads_scoped(
    st: St,
    vars: Seq<LoopVar>,
    storages: Seq<LoopVarStorage>,
    inits: Seq<Val>,
    from: u64,
    i: nat,
    phis: Seq<Option<u64>>,
    names: Names,
)
    requires
        all_scalar(storages),
        storages.len() == vars.len(),
        inits.len() == vars.len(),
        i <= vars.len(),
        scoped(st, names_with(vars, i, names)),
        forall|k: int| 0 <= k < inits.len() ==> (#[trigger] inits[k]).ty is I64,
    ensures
        scoped(
            st.loop_head(vars, storages, inits, from, i, phis).0,
            names_with(vars, vars.len(), names),
        ),
    decreases vars.len() - i,
{
    if i < vars.len() {
        assert(storages[i as int] is Scalar);
        let var = vars[i as int];
        let init = inits[i as int];
        let phi = st.here();
        let (mid, v) = st.phi_as(
            init.ty,
            Title::Var { before: "loop.", name: var.name, after: "" },
        );
        let joined = mid.incoming(phi, init, from);
        lemma_scoped_kept(st, joined, names_with(vars, i, names));
        lemma_scoped_bind(
            joined,
            var.name,
            v,
            var.ty,
            var.layout,
            names_with(vars, i, names),
        );
        lemma_heads_scoped(
            joined.bind(var.name, v, var.ty, var.layout),
            vars,
            storages,
            inits,
            from,
            i + 1,
            phis.push(Some(phi)),
            names,
        );
    }
}

/// Everything in front of the test of a loop is there.
proof fn lemma_loop_entry(st: St, comp: Comp, names: Names) -> (r: (
    Seq<LoopVarStorage>,
    Seq<Val>,
))
    requires
        known_comp(comp, names, st.cx.gc),
        comp is Loop,
        scoped(st, names),
    ensures
        ({
            let vars = comp->Loop_vars@;
            let (hd, h) = st.loop_blocks(vars, r.0, r.1, st.cx.raws);
            &&& st.loop_enter(vars, *comp->cond, comp->steps) == Ok::<(St, LoopHead), CodegenError>(
                (hd, h),
            )
            &&& all_scalar(r.0)
            &&& r.0.len() == vars.len()
            &&& hd.cx.gc == st.cx.gc
            &&& h.storages == r.0
            &&& h.env == hd.cx.env
            &&& scoped(hd, names_with(vars, vars.len(), names))
        }),
{
    let vars = comp->Loop_vars@;
    assert forall|k: int| 0 <= k < vars.len() implies plain_var(#[trigger] vars[k]) && known_atom(
        vars[k].init,
        names,
    ) by {
        assert(plain_var(comp->Loop_vars[k]));
    }
    lemma_known_comp(comp, names, st.cx.gc);
    lemma_storages(vars, 0, Seq::empty());
    let storages = storages_from(vars, 0, Seq::empty())->Ok_0;
    lemma_inits_known(st, vars, storages, 0, Seq::empty(), names);
    let inits = st.loop_inits(vars, storages, 0, Seq::empty())->Ok_0.1;
    lemma_inits(st, vars, storages, 0, Seq::empty());
    lemma_no_arrays(target(comp->cond), st.cx.gc);
    lemma_no_arrays_steps(comp->steps, comp->steps.len() as nat, st.cx.gc);
    assert(raw_uses(target(comp->cond)) + raw_uses_steps(comp->steps, comp->steps.len() as nat)
        =~= Seq::<String>::empty());
    assert(loop_arrays(vars, storages, target(comp->cond), comp->steps) =~= Seq::<String>::empty());
    assert(!any_root(storages));
    lemma_loop_head_gc(st, vars, storages, inits);
    let d = loop_opened(st);
    lemma_scoped_kept(st, d, names);
    lemma_heads_scoped(d, vars, storages, inits, st.cx.block, 0, Seq::empty(), names);
    (storages, inits)
}

proof fn lemma_loop_test_is(st: St, fuel: nat, cond: Ir, h: LoopHead)
    requires
        !st.cx.gc,
        lowered(of_ir(st, fuel, cond)),
    ensures
        st.loop_test(fuel, cond, h) is Ok,
{
    lemma_loop_block(st, fuel, cond);
}

/// A loop is lowered where its parts are.
proof fn lemma_loop_made(st: St, fuel: nat, comp: Comp, hd: St, h: LoopHead)
    requires
        comp is Loop,
        st.loop_enter(comp->Loop_vars@, *comp->cond, comp->steps) == Ok::<(St, LoopHead), CodegenError>(
            (hd, h),
        ),
        hd.loop_test(fuel, *comp->cond, h) is Ok,
        ({
            let bound = proved_bound(comp->Loop_vars@, *comp->cond, comp->steps@);
            let body = hd.loop_test(fuel, *comp->cond, h)->Ok_0.note_bound(bound);
            &&& body.loop_steps(fuel, comp->steps, h) is Ok
            &&& ({
                let (s1, nexts) = body.loop_steps(fuel, comp->steps, h)->Ok_0;
                lowered(s1.loop_close(h, nexts, st).block(fuel, *comp->result))
            })
        }),
    ensures
        lowered(st.loop_code(fuel, comp)),
        st.loop_code(fuel, comp)->Ok_0.0.cx.env == st.cx.env,
{
}

#[verifier::rlimit(40)]
proof fn lemma_comp_lowered(st: St, fuel: nat, comp: Comp, names: Names)
    requires
        known_comp(comp, names, st.cx.gc),
        scoped(st, names),
    ensures
        lowered(of_comp(st, fuel, comp)),
        of_comp(st, fuel, comp)->Ok_0.0.cx.env == st.cx.env,
    decreases comp, 0nat,
{
    match comp {
        Comp::Atom(a) => {
            lemma_of_atom(st, fuel, comp);
            lemma_atom_known(st, a, names, "");
            lemma_atom(st, a);
        },
        Comp::Bin(op, a, b) => {
            lemma_of_bin(st, fuel, comp);
            lemma_atom_known(st, a, names, "integer operand");
            lemma_atom_known(st, b, names, "integer operand");
            lemma_cell(st, a, "integer operand");
            lemma_cell(st, b, "integer operand");
            lemma_bin(st, op, a, b);
            lemma_int_bin_cell(st, op, st.atom(a)->Ok_0.1, st.atom(b)->Ok_0.1);
        },
        Comp::If(cond, yes, no) => {
            lemma_atom_known(st, cond, names, "if condition");
            lemma_cell(st, cond, "if condition");
            let c = st.atom(cond)->Ok_0.1;
            lemma_if_is(st, fuel, comp, c);
            let head = if_head(st, c).0;
            lemma_scoped_kept(st, head, names);
            lemma_ir_lowered(head, fuel, target(yes), names);
            let (t1, a) = of_ir(head, fuel, target(yes))->Ok_0;
            lemma_known_ir(target(yes), names, st.cx.gc);
            lemma_ir_len(head, fuel, target(yes));
            lemma_scoped_kept(st, if_turn(st, c, t1), names);
            lemma_ir_lowered(if_turn(st, c, t1), fuel, target(no), names);
        },
        Comp::Loop { vars, cond, steps, result } => {
            let inside = names_with(vars@, vars@.len(), names);
            let (storages, inits) = lemma_loop_entry(st, comp, names);
            let (hd, h) = st.loop_blocks(vars@, storages, inits, st.cx.raws);
            lemma_ir_lowered(hd, fuel, target(cond), inside);
            lemma_known_ir(target(cond), inside, st.cx.gc);
            lemma_ir_len(hd, fuel, target(cond));
            lemma_loop_test_is(hd, fuel, target(cond), h);
            lemma_loop_test(hd, fuel, target(cond), h);
            let (c1, cv) = of_ir(hd, fuel, target(cond))->Ok_0;
            let body = loop_turn(c1, cv, h, proved_bound(vars@, target(cond), steps@));
            lemma_loop_turn(c1, cv, h, proved_bound(vars@, target(cond), steps@));
            lemma_scoped_kept(hd, body.in_env(h.env), inside);
            lemma_known_steps(steps, steps.len() as nat, inside, false);
            lemma_steps_lowered(body, fuel, steps, h, 0, Seq::empty(), inside);
            lemma_loop_steps(body, fuel, steps, h);
            let (s1, nexts) = of_steps(body, fuel, steps, h, 0, Seq::empty())->Ok_0;
            lemma_steps_len(body, fuel, steps, h, 0, Seq::empty());
            let out = s1.loop_close(h, nexts, st);
            lemma_edges_len(
                s1.with_bounds(st.cx.bounds),
                h.phis,
                nexts,
                s1.cx.block,
                h.phis.len(),
            );
            lemma_scoped_kept(hd, out, inside);
            lemma_ir_lowered(out, fuel, target(result), inside);
            lemma_of_ir(out, fuel, target(result));
            lemma_loop_made(st, fuel, comp, hd, h);
            lemma_loop_is(st, fuel, comp);
        },
        _ => {},
    }
}

proof fn lemma_steps_lowered(
    st: St,
    fuel: nat,
    steps: Vec<Ir>,
    h: LoopHead,
    i: nat,
    done: Seq<Val>,
    names: Names,
)
    requires
        !st.cx.gc,
        known_steps(steps, steps.len() as nat, names, false),
        all_scalar(h.storages),
        h.storages.len() == steps.len(),
        scoped(st.in_env(h.env), names),
        i <= steps.len(),
    ensures
        of_steps(st, fuel, steps, h, i, done) is Ok,
    decreases steps, steps.len() - i,
{
    lemma_of_steps(st, fuel, steps, h, i, done);
    if i < steps.len() {
        let start = st.in_env(h.env);
        lemma_known_step(steps, steps.len() as nat, i as int, names, false);
        lemma_known_ir(steps[i as int], names, false);
        lemma_ir_lowered(start, fuel, steps[i as int], names);
        lemma_ir_len(start, fuel, steps[i as int]);
        let (next, v) = of_ir(start, fuel, steps[i as int])->Ok_0;
        lemma_scoped_kept(start, next.in_env(h.env), names);
        lemma_steps_lowered(next, fuel, steps, h, i + 1, done.push(v), names);
    }
}

proof fn lemma_ir_lowered(st: St, fuel: nat, ir: Ir, names: Names)
    requires
        known_ir(ir, names, st.cx.gc),
        scoped(st, names),
    ensures
        lowered(of_ir(st, fuel, ir)),
    decreases ir, 0nat,
{
    lemma_known_ir(ir, names, st.cx.gc);
    match ir {
        Ir::Block { binds, comp, .. } => {
            lemma_of_block(st, fuel, ir);
            lemma_binds_lowered(st, fuel, binds, 0, names);
            lemma_binds_len(st, fuel, binds, 0);
            let next = of_binds(st, fuel, binds, 0)->Ok_0;
            lemma_comp_lowered(next, fuel, target(comp), names_from(binds, 0, names));
        },
        Ir::Let { name, ty, layout, comp, rest, .. } => {
            lemma_of_let(st, fuel, ir);
            lemma_comp_lowered(st, fuel, target(comp), names);
            lemma_comp_len(st, fuel, target(comp));
            let (mid, v) = of_comp(st, fuel, target(comp))->Ok_0;
            lemma_scoped_kept(st, mid, names);
            lemma_scoped_bind(mid, name, v, ty, layout, names);
            lemma_ir_lowered(mid.bind(name, v, ty, layout), fuel, target(rest), names.insert(name@));
        },
        Ir::Ret { comp, .. } => {
            lemma_of_ret(st, fuel, ir);
            lemma_comp_lowered(st, fuel, target(comp), names);
        },
    }
}

proof fn lemma_binds_lowered(st: St, fuel: nat, binds: Vec<IrBind>, i: nat, names: Names)
    requires
        plain_binds(binds, binds.len() as nat, st.cx.gc),
        known_binds(binds, i, names, st.cx.gc),
        scoped(st, names),
    ensures
        of_binds(st, fuel, binds, i) is Ok,
        scoped(of_binds(st, fuel, binds, i)->Ok_0, names_from(binds, i, names)),
    decreases binds, binds.len() - i,
{
    lemma_of_binds(st, fuel, binds, i);
    if i < binds.len() {
        let b = binds[i as int];
        lemma_plain_bind(binds, binds.len() as nat, i as int, st.cx.gc);
        lemma_comp_lowered(st, fuel, target(binds[i as int].comp), names);
        lemma_comp_len(st, fuel, target(b.comp));
        let (mid, v) = of_comp(st, fuel, target(b.comp))->Ok_0;
        lemma_scoped_kept(st, mid, names);
        lemma_scoped_bind(mid, b.name, v, b.ty, b.layout, names);
        lemma_binds_lowered(
            mid.bind(b.name, v, b.ty, b.layout),
            fuel,
            binds,
            i + 1,
            names.insert(b.name@),
        );
    }
}

/// A program of integers whose variables are in scope as cells is always lowered, and
/// its value is a cell.
pub proof fn programs_of_integers_are_lowered(st: St, fuel: nat, ir: Ir, names: Names)
    requires
        known_ir(ir, names, st.cx.gc),
        scoped(st, names),
    ensures
        plain_ir(ir, st.cx.gc),
        lowered(st.block(fuel, ir)),
{
    lemma_known_ir(ir, names, st.cx.gc);
    lemma_of_ir(st, fuel, ir);
    lemma_ir_lowered(st, fuel, ir, names);
}

} // verus!
