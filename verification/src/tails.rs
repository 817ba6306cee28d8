//! What is proved of functions that call themselves last: the loop that is emitted
//! for one returns what the recursion means.
use crate::blocks::{calls_itself, loops_over, param_tys, ty_or_int, Param, Tail};
use crate::captures::cells_of;
use crate::closures::{abi_ty, env_ty, passed_in_cell};
use crate::error::CodegenError;
use crate::ir::{target, Atom, CallArg, Comp, Ir, Type, ValueLayout};
use crate::layout::CaptureInfo;
use crate::meaning::{edge, extends, flag, keeps, opened, ready, run, runs, word, Machine, Outcome};
use crate::programs::{
    atom_word, atom_words, comp_meaning, fun_meaning, own_args, plain_fun, plain_tail,
    plain_tail_comp, tail_comp_meaning, tail_meaning, vars_from, with_words, Fun, Meant, Vars,
};
use crate::running::{
    answers, apart, at_hand, leads_in, lemma_atom_word, lemma_back_leads, lemma_binds_run,
    lemma_comp_runs, lemma_edge_at, lemma_edges_run, lemma_keeps, lemma_leads, lemma_leads_to_trap,
    lemma_models_bound, lemma_models_kept, lemma_phis_run, lemma_run_leads, lemma_seek_at,
    lemma_seek_none, models, returns_in, traps_in,
};
use crate::shape::{
    countable, edges_laid, env_ready, grown, heads_laid, lemma_binds_grown, lemma_binds_len,
    lemma_bound, lemma_cell, lemma_comp_grown, lemma_comp_len, lemma_env_kept, lemma_extends,
    lemma_grown, lemma_of_bind, lemma_opened, lemma_put, of_binds, of_comp, own_blocks, phi_at,
    settled,
};
use crate::state::St;
use crate::target::{constant, Cmd, FuncName, Id, IntPred, Title, Ty, Val};
use std::rc::Rc;
use vstd::prelude::*;

verus! {

// ── how a body in tail position is lowered ───────────────────────────────
/// The code of a block in tail position.
#[verifier::opaque]
pub open spec fn of_tail(st: St, fuel: nat, ir: Ir, t: Tail) -> Result<St, CodegenError> {
    st.tail(fuel, ir, t)
}

/// The code of a computation in tail position.
#[verifier::opaque]
pub open spec fn of_tail_comp(st: St, fuel: nat, comp: Comp, t: Tail) -> Result<St, CodegenError> {
    st.tail_comp(fuel, comp, t)
}

/// The loop of a function.
pub open spec fn loop_of(t: Tail, f: Fun) -> bool {
    &&& t.own@ == f.own
    &&& t.uncurried == f.uncurried
    &&& t.phis.len() == f.params.len()
    &&& t.frame is None
    &&& t.live
    &&& !f.uncurried ==> f.params.len() == 1
}

pub(crate) proof fn lemma_of_tail(st: St, fuel: nat, ir: Ir, t: Tail, f: Fun)
    requires
        !st.cx.gc,
        plain_tail(f, ir),
        loop_of(t, f),
    ensures
        match ir {
            Ir::Block { binds, comp, .. } => of_tail(st, fuel, ir, t) == match of_binds(
                st,
                fuel,
                binds,
                0,
            ) {
                Err(e) => Err(e),
                Ok(next) => of_tail_comp(next, fuel, *comp, t),
            },
            Ir::Let { name, ty, layout, comp, rest, .. } => of_tail(st, fuel, ir, t) == match of_comp(
                st,
                fuel,
                *comp,
            ) {
                Err(e) => Err(e),
                Ok((next, v)) => of_tail(next.bind(name, v, ty, layout), fuel, *rest, t),
            },
            Ir::Ret { comp, .. } => of_tail(st, fuel, ir, t) == of_tail_comp(st, fuel, *comp, t),
        },
{
    reveal(of_tail);
    reveal(of_tail_comp);
    reveal(of_binds);
    match ir {
        Ir::Block { binds, .. } => {
            assert(t.behind_all(binds@) == t) by {
                assert forall|i: int| 0 <= i < binds@.len() implies (#[trigger] binds@[i]).name@
                    != t.own@ by {
                    assert(binds[i].name@ != f.own);
                }
            }
        },
        Ir::Let { name, ty, layout, comp, rest, .. } => {
            lemma_of_bind(st, fuel, name, ty, layout, target(comp));
            assert(t.behind(name@) == t);
        },
        Ir::Ret { .. } => {},
    }
}

/// The operands that the arguments of a call are lowered to.
pub open spec fn arg_vals(st: St, args: Seq<Atom>) -> Seq<Val> {
    Seq::new(args.len(), |i: int| st.atom(args[i])->Ok_0.1)
}

/// The head of a branch in tail position.
pub open spec fn tail_branch(st: St, c: Val) -> St {
    st.branch(c, "ifcond").0.at((st.script.len() + 1) as u64)
}

/// The way from the first part of such a branch to its second.
pub open spec fn tail_turn(st: St, mid: St) -> St {
    mid.at((st.script.len() + 2) as u64).in_env(st.cx.env)
}

pub(crate) proof fn lemma_next_args(st: St, args: Seq<CallArg>, i: nat, done: Seq<Val>)
    requires
        i <= args.len(),
        forall|k: int| 0 <= k < args.len() ==> !((#[trigger] args[k]).value is Str),
        st.next_args(args, i, done) is Ok,
    ensures
        forall|k: int| i <= k < args.len() ==> st.atom((#[trigger] args[k]).value) is Ok,
        st.next_args(args, i, done)->Ok_0.0 == st,
        st.next_args(args, i, done)->Ok_0.1 == done + arg_vals(
            st,
            Seq::new(args.len(), |k: int| args[k].value),
        ).skip(i as int),
    decreases args.len() - i,
{
    let vals = arg_vals(st, Seq::new(args.len(), |k: int| args[k].value));
    if i < args.len() {
        lemma_cell(st, args[i as int].value, "tail-recursive argument");
        let v = st.atom(args[i as int].value)->Ok_0.1;
        assert(vals[i as int] == v);
        lemma_next_args(st, args, i + 1, done.push(v));
        assert(done.push(v) + vals.skip((i + 1) as int) =~= done + vals.skip(i as int));
    } else {
        assert(done + vals.skip(i as int) =~= done);
    }
}

proof fn lemma_of_self(st: St, fuel: nat, comp: Comp, t: Tail, f: Fun)
    requires
        loop_of(t, f),
        own_args(comp, f) is Some,
        plain_tail_comp(f, comp),
        of_tail_comp(st, fuel, comp, t) is Ok,
    ensures
        forall|k: int|
            0 <= k < own_args(comp, f)->0.len() ==> st.atom(#[trigger] own_args(comp, f)->0[k]) is Ok,
        of_tail_comp(st, fuel, comp, t)->Ok_0 == st.jump(t, arg_vals(st, own_args(comp, f)->0)),
        own_args(comp, f)->0.len() == f.params.len(),
{
    reveal(of_tail_comp);
    assert(calls_itself(comp, t));
    let args = own_args(comp, f)->0;
    match comp {
        Comp::App { arg, .. } => {
            assert(args[0] == arg);
            lemma_cell(st, arg, "tail-recursive argument");
            assert(arg_vals(st, args) =~= seq![st.atom(arg)->Ok_0.1]);
        },
        Comp::Call { args: list, .. } => {
            assert forall|k: int| 0 <= k < list@.len() implies !((#[trigger] list@[k]).value is Str) by {
                assert(args[k] == list@[k].value);
            }
            lemma_next_args(st, list@, 0, Seq::empty());
            assert(args =~= Seq::new(list@.len(), |k: int| list@[k].value));
            assert(Seq::empty() + arg_vals(st, args).skip(0) =~= arg_vals(st, args));
        },
        _ => {},
    }
}

proof fn lemma_of_tail_if(st: St, fuel: nat, comp: Comp, t: Tail, f: Fun) -> (r: (Val, St))
    requires
        st.script.len() + 8 <= u64::MAX,
        loop_of(t, f),
        comp is If,
        plain_tail_comp(f, comp),
        of_tail_comp(st, fuel, comp, t) is Ok,
    ensures
        st.atom(comp->If_0) is Ok,
        r.0 == st.atom(comp->If_0)->Ok_0.1,
        of_tail(tail_branch(st, r.0), fuel, *comp->If_1, t) == Ok::<St, CodegenError>(r.1),
        of_tail_comp(st, fuel, comp, t) == of_tail(tail_turn(st, r.1), fuel, *comp->If_2, t),
{
    reveal(of_tail);
    reveal(of_tail_comp);
    let cond = comp->If_0;
    lemma_cell(st, cond, "if condition");
    let c = st.atom(cond)->Ok_0.1;
    let mid = of_tail(tail_branch(st, c), fuel, target(comp->If_1), t)->Ok_0;
    assert(st.branch(c, "ifcond").1 == (st.script.len() + 1) as u64);
    assert(st.branch(c, "ifcond").2 == (st.script.len() + 2) as u64);
    (c, mid)
}

proof fn lemma_of_tail_else(st: St, fuel: nat, comp: Comp, t: Tail, f: Fun)
    requires
        loop_of(t, f),
        own_args(comp, f) is None,
        !(comp is If),
        of_tail_comp(st, fuel, comp, t) is Ok,
    ensures
        of_comp(st, fuel, comp) is Ok,
        of_tail_comp(st, fuel, comp, t)->Ok_0 == of_comp(st, fuel, comp)->Ok_0.0.ret(
            of_comp(st, fuel, comp)->Ok_0.1,
        ),
{
    reveal(of_comp);
    reveal(of_tail_comp);
    assert(!calls_itself(comp, t));
}

// ── and what code that makes ─────────────────────────────────────────────
/// The first `n` edges into the phis.
pub(crate) proof fn lemma_feed(st: St, phis: Seq<u64>, vs: Seq<Val>, from: u64, n: nat)
    ensures
        st.feed(phis, vs, from, n).script.len() == st.script.len() + n,
        st.feed(phis, vs, from, n).cx == st.cx,
        extends(st.feed(phis, vs, from, n).script, st.script),
        forall|j: int|
            0 <= j < n ==> st.feed(phis, vs, from, n).script[#[trigger] (st.script.len() + j)] == (
            Cmd::Incoming { phi: phis[j], val: vs[j], from }),
    decreases n,
{
    if n > 0 {
        let mid = st.feed(phis, vs, from, (n - 1) as nat);
        let end = st.feed(phis, vs, from, n);
        lemma_feed(st, phis, vs, from, (n - 1) as nat);
        lemma_extends(st.script, mid.script, end.script);
        assert forall|j: int| 0 <= j < n implies end.script[#[trigger] (st.script.len() + j)] == (
        Cmd::Incoming { phi: phis[j], val: vs[j], from }) by {
            if j < n - 1 {
                assert(end.script[st.script.len() + j] == mid.script[st.script.len() + j]);
            }
        }
    }
}

proof fn lemma_tail_len(st: St, fuel: nat, ir: Ir, t: Tail, f: Fun)
    requires
        !st.cx.gc,
        loop_of(t, f),
        plain_tail(f, ir),
        of_tail(st, fuel, ir, t) is Ok,
    ensures
        st.script.len() <= of_tail(st, fuel, ir, t)->Ok_0.script.len(),
        !of_tail(st, fuel, ir, t)->Ok_0.cx.gc,
    decreases ir,
{
    lemma_of_tail(st, fuel, ir, t, f);
    match ir {
        Ir::Block { binds, comp, .. } => {
            lemma_binds_len(st, fuel, binds, 0);
            lemma_tail_comp_len(of_binds(st, fuel, binds, 0)->Ok_0, fuel, target(comp), t, f);
        },
        Ir::Let { name, ty, layout, comp, rest, .. } => {
            lemma_comp_len(st, fuel, target(comp));
            let (next, v) = of_comp(st, fuel, target(comp))->Ok_0;
            lemma_tail_len(next.bind(name, v, ty, layout), fuel, target(rest), t, f);
        },
        Ir::Ret { comp, .. } => lemma_tail_comp_len(st, fuel, target(comp), t, f),
    }
}

proof fn lemma_tail_comp_len(st: St, fuel: nat, comp: Comp, t: Tail, f: Fun)
    requires
        !st.cx.gc,
        loop_of(t, f),
        plain_tail_comp(f, comp),
        of_tail_comp(st, fuel, comp, t) is Ok,
    ensures
        st.script.len() <= of_tail_comp(st, fuel, comp, t)->Ok_0.script.len(),
        !of_tail_comp(st, fuel, comp, t)->Ok_0.cx.gc,
    decreases comp,
{
    if let Some(args) = own_args(comp, f) {
        lemma_of_self(st, fuel, comp, t, f);
        lemma_feed(st, t.phis, arg_vals(st, args), st.cx.block, t.phis.len());
    } else if comp is If {
        reveal(of_tail);
        reveal(of_tail_comp);
        let cond = comp->If_0;
        lemma_cell(st, cond, "if condition");
        let c = st.atom(cond)->Ok_0.1;
        let (s1, yes, no) = st.branch(c, "ifcond");
        let mid = of_tail(s1.at(yes), fuel, target(comp->If_1), t)->Ok_0;
        lemma_tail_len(s1.at(yes), fuel, target(comp->If_1), t, f);
        lemma_tail_len(mid.at(no).in_env(st.cx.env), fuel, target(comp->If_2), t, f);
    } else {
        lemma_of_tail_else(st, fuel, comp, t, f);
        lemma_comp_len(st, fuel, comp);
    }
}

/// The blocks that are entered are added in this part, and an edge leads to a phi of
/// this part or comes from the part or the block it is in.
pub open spec fn tail_laid(script: Seq<Cmd>, from: int, to: int, block: u64) -> bool {
    forall|i: int|
        from <= i < to ==> match #[trigger] script[i] {
            Cmd::At { block } => from <= block < to,
            Cmd::Incoming { phi, from: edge, .. } => from <= phi < to || edge == block || from <= edge
                < to,
            _ => true,
        }
}

/// Code in tail position was added to a state.
pub open spec fn tail_grown(st: St, end: St) -> bool {
    &&& st.script.len() <= end.script.len()
    &&& extends(end.script, st.script)
    &&& settled(end)
    &&& tail_laid(end.script, st.script.len() as int, end.script.len() as int, st.cx.block)
    &&& !end.cx.gc
}

proof fn lemma_tail_after(st: St, mid: St, end: St)
    requires
        grown(st, mid),
        tail_grown(mid, end),
    ensures
        tail_grown(st, end),
{
    lemma_extends(st.script, mid.script, end.script);
    let n = st.script.len() as int;
    let k = mid.script.len() as int;
    let e = end.script.len() as int;
    assert forall|i: int| n <= i < e implies match #[trigger] end.script[i] {
        Cmd::At { block } => n <= block < e,
        Cmd::Incoming { phi, from: edge, .. } => n <= phi < e || edge == st.cx.block || n <= edge < e,
        _ => true,
    } by {
        if i < k {
            assert(end.script[i] == mid.script[i]);
        }
    }
}

/// A call of the function itself.
pub(crate) proof fn lemma_jump_grown(st: St, t: Tail, vs: Seq<Val>)
    requires
        settled(st),
        !st.cx.gc,
        forall|j: int| 0 <= j < t.phis.len() ==> #[trigger] t.phis[j] < st.script.len(),
    ensures
        tail_grown(st, st.jump(t, vs)),
        st.jump(t, vs).script.len() == st.script.len() + t.phis.len() + 1,
{
    let n = st.script.len() as int;
    let k = t.phis.len() as int;
    let mid = st.feed(t.phis, vs, st.cx.block, t.phis.len());
    let end = st.jump(t, vs);
    lemma_feed(st, t.phis, vs, st.cx.block, t.phis.len());
    lemma_extends(st.script, mid.script, end.script);
    assert forall|i: int| n <= i < n + k implies #[trigger] end.script[i] == (Cmd::Incoming {
        phi: t.phis[i - n],
        val: vs[i - n],
        from: st.cx.block,
    }) by {
        assert(end.script[i] == mid.script[i]);
        assert(mid.script[st.script.len() + (i - n)] == mid.script[i]);
    }
    assert(end.script[n + k] == (Cmd::Br { to: t.head }));
    lemma_opened(end.script, st.script, n);
    lemma_edges_opened(end.script, n, n + k + 1);
    assert forall|i: int| 0 <= i < end.script.len() implies match #[trigger] end.script[i] {
        Cmd::At { block } => 0 <= block < end.script.len(),
        Cmd::Incoming { phi, .. } => 0 <= phi < end.script.len(),
        _ => true,
    } by {
        if i < n {
            assert(end.script[i] == st.script[i]);
        } else if i < n + k {
            assert(t.phis[i - n] < st.script.len());
        }
    }
}

pub(crate) proof fn lemma_edges_opened(script: Seq<Cmd>, n: int, i: int)
    requires
        0 <= n <= i <= script.len(),
        forall|j: int| n <= j < i ==> !(#[trigger] script[j] is At),
    ensures
        opened(script, i) == opened(script, n),
    decreases i - n,
{
    if n < i {
        assert(!(script[i - 1] is At));
        lemma_edges_opened(script, n, i - 1);
    }
}

/// The head of a branch in tail position.
pub(crate) proof fn lemma_tail_branch(st: St, c: Val)
    requires
        settled(st),
        !st.cx.gc,
        st.script.len() + 8 <= u64::MAX,
    ensures
        ({
            let n = st.script.len() as int;
            let head = tail_branch(st, c);
            &&& head.script.len() == n + 5
            &&& settled(head)
            &&& extends(head.script, st.script)
            &&& head.cx.env == st.cx.env
            &&& head.cx.block == n + 1
            &&& !head.cx.gc
            &&& head.script[n] == (Cmd::IntTest { pred: IntPred::Ne, a: c, b: constant(0), label: "ifcond" })
            &&& head.script[n + 1] is Block
            &&& head.script[n + 2] is Block
            &&& head.script[n + 3] == (Cmd::CondBr {
                cond: Val { id: Id::Reg(n as u64), ty: Ty::I1 },
                yes: (n + 1) as u64,
                no: (n + 2) as u64,
            })
            &&& head.script[n + 4] == (Cmd::At { block: (n + 1) as u64 })
        }),
{
    let n = st.script.len() as int;
    let head = tail_branch(st, c);
    assert(head.script.len() == n + 5);
    assert(head.script[n + 4] == (Cmd::At { block: (n + 1) as u64 }));
    assert(opened(head.script, n + 5) == (n + 1) as u64);
    assert forall|i: int| 0 <= i < head.script.len() implies match #[trigger] head.script[i] {
        Cmd::At { block } => 0 <= block < head.script.len(),
        Cmd::Incoming { phi, .. } => 0 <= phi < head.script.len(),
        _ => true,
    } by {
        if i < n {
            assert(head.script[i] == st.script[i]);
        }
    }
}

/// The way to the second part of a branch in tail position.
proof fn lemma_tail_turn(st: St, c: Val, mid: St)
    requires
        settled(st),
        !st.cx.gc,
        st.script.len() + 8 <= u64::MAX,
        tail_grown(tail_branch(st, c), mid),
    ensures
        settled(tail_turn(st, mid)),
        tail_turn(st, mid).script == mid.script.push(
            Cmd::At { block: (st.script.len() + 2) as u64 },
        ),
        tail_turn(st, mid).cx.env == st.cx.env,
        tail_turn(st, mid).cx.block == st.script.len() + 2,
        !tail_turn(st, mid).cx.gc,
        st.script.len() + 5 <= mid.script.len(),
{
    lemma_tail_branch(st, c);
    let turn = tail_turn(st, mid);
    let k = mid.script.len() as int;
    assert(turn.script[k] == (Cmd::At { block: (st.script.len() + 2) as u64 }));
    assert(opened(turn.script, k + 1) == (st.script.len() + 2) as u64);
    assert forall|i: int| 0 <= i < turn.script.len() implies match #[trigger] turn.script[i] {
        Cmd::At { block } => 0 <= block < turn.script.len(),
        Cmd::Incoming { phi, .. } => 0 <= phi < turn.script.len(),
        _ => true,
    } by {
        if i < k {
            assert(turn.script[i] == mid.script[i]);
        }
    }
}

/// A whole branch in tail position.
proof fn lemma_tail_if_grown(st: St, c: Val, mid: St, end: St)
    requires
        settled(st),
        !st.cx.gc,
        st.script.len() + 8 <= u64::MAX,
        tail_grown(tail_branch(st, c), mid),
        tail_grown(tail_turn(st, mid), end),
    ensures
        tail_grown(st, end),
{
    lemma_tail_branch(st, c);
    lemma_tail_turn(st, c, mid);
    let head = tail_branch(st, c);
    let turn = tail_turn(st, mid);
    let n = st.script.len() as int;
    let k = mid.script.len() as int;
    let e = end.script.len() as int;
    assert(extends(turn.script, mid.script));
    lemma_extends(mid.script, turn.script, end.script);
    lemma_extends(head.script, mid.script, end.script);
    lemma_extends(st.script, head.script, end.script);
    assert forall|i: int| n <= i < e implies match #[trigger] end.script[i] {
        Cmd::At { block } => n <= block < e,
        Cmd::Incoming { phi, from: edge, .. } => n <= phi < e || edge == st.cx.block || n <= edge < e,
        _ => true,
    } by {
        if i < n + 5 {
            assert(end.script[i] == head.script[i]);
        } else if i < k {
            assert(end.script[i] == mid.script[i]);
        } else if i == k {
            assert(end.script[i] == turn.script[i]);
        }
    }
}

proof fn lemma_tail_grown(st: St, fuel: nat, ir: Ir, t: Tail, f: Fun)
    requires
        !st.cx.gc,
        loop_of(t, f),
        plain_tail(f, ir),
        settled(st),
        env_ready(st),
        forall|j: int| 0 <= j < t.phis.len() ==> #[trigger] t.phis[j] < st.script.len(),
        of_tail(st, fuel, ir, t) is Ok,
        countable(of_tail(st, fuel, ir, t)->Ok_0),
    ensures
        tail_grown(st, of_tail(st, fuel, ir, t)->Ok_0),
    decreases ir,
{
    lemma_of_tail(st, fuel, ir, t, f);
    let end = of_tail(st, fuel, ir, t)->Ok_0;
    match ir {
        Ir::Block { binds, comp, .. } => {
            let next = of_binds(st, fuel, binds, 0)->Ok_0;
            lemma_binds_len(st, fuel, binds, 0);
            lemma_tail_comp_len(next, fuel, target(comp), t, f);
            lemma_binds_grown(st, fuel, binds, 0);
            lemma_tail_comp_grown(next, fuel, target(comp), t, f);
            lemma_tail_after(st, next, end);
        },
        Ir::Let { name, ty, layout, comp, rest, .. } => {
            let (mid, v) = of_comp(st, fuel, target(comp))->Ok_0;
            let next = mid.bind(name, v, ty, layout);
            lemma_comp_len(st, fuel, target(comp));
            lemma_tail_len(next, fuel, target(rest), t, f);
            lemma_comp_grown(st, fuel, target(comp));
            lemma_env_kept(st, mid);
            lemma_bound(mid, name, v, ty, layout);
            lemma_tail_grown(next, fuel, target(rest), t, f);
            lemma_tail_after(st, next, end);
        },
        Ir::Ret { comp, .. } => lemma_tail_comp_grown(st, fuel, target(comp), t, f),
    }
}

proof fn lemma_tail_comp_grown(st: St, fuel: nat, comp: Comp, t: Tail, f: Fun)
    requires
        !st.cx.gc,
        loop_of(t, f),
        plain_tail_comp(f, comp),
        settled(st),
        env_ready(st),
        forall|j: int| 0 <= j < t.phis.len() ==> #[trigger] t.phis[j] < st.script.len(),
        of_tail_comp(st, fuel, comp, t) is Ok,
        countable(of_tail_comp(st, fuel, comp, t)->Ok_0),
    ensures
        tail_grown(st, of_tail_comp(st, fuel, comp, t)->Ok_0),
    decreases comp,
{
    let end = of_tail_comp(st, fuel, comp, t)->Ok_0;
    lemma_tail_comp_len(st, fuel, comp, t, f);
    if let Some(args) = own_args(comp, f) {
        lemma_of_self(st, fuel, comp, t, f);
        lemma_jump_grown(st, t, arg_vals(st, args));
    } else if comp is If {
        let (c, mid) = lemma_of_tail_if(st, fuel, comp, t, f);
        let head = tail_branch(st, c);
        let turn = tail_turn(st, mid);
        lemma_tail_branch(st, c);
        lemma_tail_len(head, fuel, target(comp->If_1), t, f);
        lemma_tail_len(turn, fuel, target(comp->If_2), t, f);
        lemma_env_kept(st, head);
        lemma_tail_grown(head, fuel, target(comp->If_1), t, f);
        lemma_tail_turn(st, c, mid);
        lemma_env_kept(st, turn);
        lemma_tail_grown(turn, fuel, target(comp->If_2), t, f);
        lemma_tail_if_grown(st, c, mid, end);
    } else {
        lemma_of_tail_else(st, fuel, comp, t, f);
        let (next, v) = of_comp(st, fuel, comp)->Ok_0;
        lemma_comp_grown(st, fuel, comp);
        lemma_put(next, Cmd::Ret { val: v });
        lemma_grown(st, next, end);
    }
}

// ── the loop of a function ───────────────────────────────────────────────
/// The phis at a position have these words.
pub open spec fn phis_hold(base: int, k: int, m: Machine, words: Seq<u64>) -> bool {
    forall|j: int|
        #![trigger phi_at(base, j)]
        0 <= j < k ==> m.regs[phi_at(base, j) as u64] == words[j]
}

/// The loop that a function was lowered to: its function, its code and the machine
/// that entered it.
pub struct Turn {
    pub f: Fun,
    pub t: Tail,
    pub fuel: nat,
    /// What the surroundings of the function have.
    pub vars: Vars,
    pub turns: nat,
    /// Where the loop begins.
    pub n: int,
    /// The state in which the body begins.
    pub body: St,
    pub seeds: Seq<Val>,
    pub from: u64,
    pub script: Seq<Cmd>,
    pub m: Machine,
}

impl Turn {
    /// Where the phis of the parameters lie.
    pub open spec fn base(self) -> int {
        self.n + 3
    }

    pub open spec fn count(self) -> int {
        self.f.params.len() as int
    }

    /// The phis have these words.
    pub open spec fn hold(self, m: Machine, words: Seq<u64>) -> bool {
        phis_hold(self.base(), self.count(), m, words)
    }

    /// The variables in scope in the body.
    pub open spec fn local(self, words: Seq<u64>) -> Vars {
        with_words(self.f.params, words, self.f.params.len(), self.vars)
    }
}

/// The edges into the phis come from blocks added before, and none yet from the
/// block that goes on.
pub open spec fn fed_before(st: St, base: int, k: int) -> bool {
    forall|i: int|
        0 <= i < st.script.len() ==> (#[trigger] st.script[i] matches Cmd::Incoming {
            phi,
            from,
            ..
        } ==> (base <= phi < base + 2 * k ==> from < st.script.len() && from != st.cx.block))
}

/// How the loop of a function lies in its script.
pub open spec fn turn_laid(l: Turn) -> bool {
    let k = l.count();
    let base = l.base();
    &&& 0 <= l.n
    &&& base + 2 * k <= l.script.len()
    &&& base + 2 * k + 64 <= u64::MAX
    &&& l.body.script.len() == base + 2 * k
    &&& loop_of(l.t, l.f)
    &&& l.t.head == l.n
    &&& forall|j: int| 0 <= j < k ==> #[trigger] l.t.phis[j] == phi_at(base, j)
    &&& l.script[l.n + 2] == (Cmd::At { block: l.t.head })
    &&& forall|i: int|
        0 <= i < l.script.len() && i != l.n + 2 ==> #[trigger] l.script[i] != (Cmd::At {
            block: l.t.head,
        })
    &&& heads_laid(l.script, base, 0, k, l.seeds, l.from)
    &&& plain_tail(l.f, l.f.body)
    &&& settled(l.body)
    &&& env_ready(l.body)
    &&& !l.body.cx.gc
    &&& fed_before(l.body, base, k)
    &&& of_tail(l.body, l.fuel, l.f.body, l.t) is Ok
    &&& holds_function(l.script, l.body, of_tail(l.body, l.fuel, l.f.body, l.t)->Ok_0)
    &&& forall|words: Seq<u64>, m: Machine| #[trigger]
        l.hold(m, words) && keeps(l.m, m, l.n) && m.args.len() == 0 ==> models(
            l.body,
            m,
            l.local(words),
        )
}

proof fn lemma_fed_grown(st: St, end: St, base: int, k: int)
    requires
        base + 2 * k <= st.script.len(),
        fed_before(st, base, k),
        grown(st, end),
    ensures
        fed_before(end, base, k),
{
    assert forall|i: int| 0 <= i < end.script.len() implies (#[trigger] end.script[i] matches Cmd::Incoming {
        phi,
        from,
        ..
    } ==> (base <= phi < base + 2 * k ==> from < end.script.len() && from != end.cx.block)) by {
        if i < st.script.len() {
            assert(end.script[i] == st.script[i]);
        }
    }
}

pub(crate) proof fn lemma_fed_branch(st: St, c: Val, base: int, k: int)
    requires
        settled(st),
        !st.cx.gc,
        st.script.len() + 8 <= u64::MAX,
        fed_before(st, base, k),
    ensures
        fed_before(tail_branch(st, c), base, k),
{
    lemma_tail_branch(st, c);
    let head = tail_branch(st, c);
    assert forall|i: int| 0 <= i < head.script.len() implies (#[trigger] head.script[i] matches Cmd::Incoming {
        phi,
        from,
        ..
    } ==> (base <= phi < base + 2 * k ==> from < head.script.len() && from != head.cx.block)) by {
        if i < st.script.len() {
            assert(head.script[i] == st.script[i]);
        }
    }
}

proof fn lemma_fed_turn(st: St, c: Val, mid: St, base: int, k: int)
    requires
        settled(st),
        !st.cx.gc,
        st.script.len() + 8 <= u64::MAX,
        base + 2 * k <= st.script.len(),
        fed_before(st, base, k),
        tail_grown(tail_branch(st, c), mid),
    ensures
        fed_before(tail_turn(st, mid), base, k),
{
    lemma_tail_branch(st, c);
    lemma_tail_turn(st, c, mid);
    let head = tail_branch(st, c);
    let turn = tail_turn(st, mid);
    let n = st.script.len() as int;
    lemma_extends(st.script, head.script, mid.script);
    assert forall|i: int| 0 <= i < turn.script.len() implies (#[trigger] turn.script[i] matches Cmd::Incoming {
        phi,
        from,
        ..
    } ==> (base <= phi < base + 2 * k ==> from < turn.script.len() && from != turn.cx.block)) by {
        if i < n {
            assert(turn.script[i] == mid.script[i]);
            assert(mid.script[i] == st.script[i]);
        } else if i < n + 5 {
            assert(turn.script[i] == mid.script[i]);
            assert(mid.script[i] == head.script[i]);
        } else if i < mid.script.len() {
            assert(turn.script[i] == mid.script[i]);
        }
    }
}

/// What follows enters none of the blocks of the first part.
/// The script has this part, and what follows enters none of its blocks.
pub open spec fn holds_function(script: Seq<Cmd>, st: St, end: St) -> bool {
    countable(end) && extends(script, end.script) && apart(
        script,
        st.script.len() as int,
        end.script.len() as int,
    )
}

proof fn lemma_tail_apart(script: Seq<Cmd>, end: Seq<Cmd>, n: int, k: int, e: int, block: u64)
    requires
        0 <= n <= k <= e,
        e == end.len(),
        extends(script, end),
        tail_laid(end, k, e, block),
        apart(script, n, e),
    ensures
        apart(script, n, k),
        apart(script, k, e),
{
    assert forall|i: int| k <= i < script.len() implies (#[trigger] script[i] matches Cmd::At { block }
        ==> block < n || k <= block) by {
        if i < e {
            assert(script[i] == end[i]);
        }
    }
}

/// Back at the head of the loop, its body is entered with the arguments of the call.
proof fn lemma_round(l: Turn, st: St, vs: Seq<Val>, m: Machine) -> (after: Machine)
    requires
        turn_laid(l),
        settled(st),
        l.base() + 2 * l.count() <= st.script.len(),
        fed_before(st, l.base(), l.count()),
        vs.len() == l.count(),
        countable(st.jump(l.t, vs)),
        extends(l.script, st.jump(l.t, vs).script),
        keeps(l.m, m, l.n),
        m.args.len() == 0,
    ensures
        leads_in(
            l.script,
            st.script.len() as int,
            m,
            l.body.script.len() as int,
            after,
            1,
        ),
        keeps(l.m, after, l.n),
        after.args.len() == 0,
        l.hold(after, Seq::new(vs.len(), |j: int| m.value(vs[j]))),
{
    let n = st.script.len() as int;
    let k = l.count();
    let base = l.base();
    let b = st.cx.block;
    let words = Seq::new(vs.len(), |j: int| m.value(vs[j]));
    let end = st.jump(l.t, vs);
    let mid = st.feed(l.t.phis, vs, b, l.t.phis.len());
    lemma_feed(st, l.t.phis, vs, b, l.t.phis.len());
    assert(extends(end.script, mid.script));
    lemma_extends(mid.script, end.script, l.script);
    lemma_extends(st.script, mid.script, l.script);
    assert(end.script.len() == n + k + 1);
    assert(l.script[n + k] == end.script[n + k]);
    assert(edges_laid(l.script, base, n, k, vs, b)) by {
        assert forall|j: int| #![trigger phi_at(base, j)] 0 <= j < k implies l.script[n + j] == (Cmd::Incoming {
            phi: phi_at(base, j) as u64,
            val: vs[j],
            from: b,
        }) by {
            assert(mid.script[st.script.len() + j] == (Cmd::Incoming {
                phi: l.t.phis[j],
                val: vs[j],
                from: b,
            }));
            assert(l.script[n + j] == mid.script[n + j]);
        }
    }
    lemma_edges_run(l.script, base, n, k, vs, b, 0, m);
    let back = m.left(b);
    assert(opened(l.script, n + k) == b) by {
        lemma_opened(l.script, st.script, n);
        assert forall|j: int| n <= j < n + k implies !(#[trigger] l.script[j] is At) by {
            assert(phi_at(base, j - n) == base + 2 * (j - n));
            assert(l.script[n + (j - n)] == l.script[j]);
        }
        lemma_edges_opened(l.script, n, n + k);
    }
    lemma_seek_none(l.script, l.t.head, n + k + 1);
    lemma_seek_at(l.script, l.t.head, 0, l.n + 2);
    assert(run(l.script, n + k, m) == Outcome::Back(l.n + 2, back));
    lemma_back_leads(l.script, n, m, l.n + 2, back);
    assert(run(l.script, l.n + 2, back) == run(l.script, base, back));
    lemma_run_leads(l.script, l.n + 2, back, base, back);
    lemma_leads(l.script, n, m, l.n + 2, back, 1, base, back, 0);
    assert forall|j: int| #![trigger phi_at(base, j)] 0 <= j < k implies edge(
        l.script,
        phi_at(base, j),
        back.came,
        phi_at(base, j) + 1,
    ) == Some(vs[j]) && back.past(vs[j]) == words[j] by {
        let phi = phi_at(base, j);
        assert forall|i: int| phi + 1 <= i < n + j implies !(#[trigger] l.script[i] matches Cmd::Incoming {
            phi: q,
            val,
            from,
        } && q == phi && from == b) by {
            if i < n {
                assert(l.script[i] == st.script[i]);
            } else {
                assert(phi_at(base, i - n) == base + 2 * (i - n));
                assert(l.script[n + (i - n)] == l.script[i]);
            }
        }
        assert(l.script[n + j] == (Cmd::Incoming { phi: phi as u64, val: vs[j], from: b }));
        lemma_edge_at(l.script, phi, b, phi + 1, n + j, vs[j]);
    }
    let after = lemma_phis_run(l.script, base, k, l.seeds, l.from, vs, words, 0, back);
    assert(phi_at(base, 0) == base && phi_at(base, k) == base + 2 * k);
    lemma_run_leads(l.script, base, back, base + 2 * k, after);
    lemma_leads(l.script, n, m, base, back, 1, base + 2 * k, after, 0);
    assert(keeps(l.m, back, l.n));
    lemma_keeps(l.m, back, after, l.n, base);
    after
}

/// The code returns what was meant, once it went back `j` times.
pub open spec fn returned(script: Seq<Cmd>, n: int, m: Machine, meant: Meant, j: nat) -> bool {
    match meant {
        Meant::Word(w) => returns_in(script, n, m, w, j),
        Meant::Trap => traps_in(script, n, m, j),
        Meant::Open => true,
    }
}

pub(crate) proof fn lemma_returned(
    script: Seq<Cmd>,
    n: int,
    m: Machine,
    k: int,
    mid: Machine,
    i: nat,
    meant: Meant,
    j: nat,
)
    requires
        mid.store() == m.store(),
        leads_in(script, n, m, k, mid, i),
        returned(script, k, mid, meant, j),
    ensures
        returned(script, n, m, meant, i + j),
{
    match meant {
        Meant::Word(w) => {
            assert forall|t: nat| t >= i + j implies #[trigger] runs(script, n, m, t)
                == Outcome::Returned(w, m.store()) by {
                assert(runs(script, n, m, t) == runs(script, k, mid, (t - i) as nat));
            }
        },
        Meant::Trap => lemma_leads_to_trap(script, n, m, k, mid, i, j),
        Meant::Open => {},
    }
}

/// What the code of a block in tail position is run on.
pub open spec fn in_turn(l: Turn, st: St, vars: Vars, m: Machine) -> bool {
    &&& turn_laid(l)
    &&& at_hand(st, vars, m)
    &&& !st.cx.gc
    &&& keeps(l.m, m, l.n)
    &&& l.base() + 2 * l.count() <= st.script.len()
    &&& fed_before(st, l.base(), l.count())
}

proof fn lemma_phis_before(l: Turn, st: St, vars: Vars, m: Machine)
    requires
        in_turn(l, st, vars, m),
    ensures
        forall|j: int| 0 <= j < l.t.phis.len() ==> #[trigger] l.t.phis[j] < st.script.len(),
{
    assert forall|j: int| 0 <= j < l.t.phis.len() implies #[trigger] l.t.phis[j] < st.script.len() by {
        assert(l.t.phis[j] == phi_at(l.base(), j));
    }
}

#[verifier::rlimit(40)]
proof fn lemma_tail_runs(l: Turn, st: St, ir: Ir, vars: Vars, depth: nat, m: Machine) -> (j: nat)
    requires
        in_turn(l, st, vars, m),
        plain_tail(l.f, ir),
        of_tail(st, l.fuel, ir, l.t) is Ok,
        holds_function(l.script, st, of_tail(st, l.fuel, ir, l.t)->Ok_0),
    ensures
        returned(
            l.script,
            st.script.len() as int,
            m,
            tail_meaning(l.f, ir, vars, l.vars, l.turns, depth),
            j,
        ),
    decreases depth, ir, 0int,
{
    let n = st.script.len() as int;
    let fuel = l.fuel;
    let t = l.t;
    let f = l.f;
    let end = of_tail(st, fuel, ir, t)->Ok_0;
    let e = end.script.len() as int;
    lemma_of_tail(st, fuel, ir, t, f);
    lemma_phis_before(l, st, vars, m);
    match ir {
        Ir::Block { binds, comp, .. } => {
            let next = of_binds(st, fuel, binds, 0)->Ok_0;
            let k = next.script.len() as int;
            lemma_binds_len(st, fuel, binds, 0);
            lemma_tail_comp_len(next, fuel, target(comp), t, f);
            lemma_binds_grown(st, fuel, binds, 0);
            lemma_tail_comp_grown(next, fuel, target(comp), t, f);
            lemma_extends(next.script, end.script, l.script);
            lemma_tail_apart(l.script, end.script, n, k, e, next.cx.block);
            lemma_fed_grown(st, next, l.base(), l.count());
            let (mid, i) = lemma_binds_run(st, fuel, binds, 0, vars, l.turns, l.script, m);
            match vars_from(binds, 0, vars, l.turns) {
                Ok(later) => {
                    lemma_keeps(l.m, m, mid, l.n, n);
                    let j = lemma_tail_comp_runs(l, next, target(comp), later, depth, mid);
                    let meant = tail_comp_meaning(f, target(comp), later, l.vars, l.turns, depth);
                    lemma_returned(l.script, n, m, k, mid, i, meant, j);
                    i + j
                },
                Err(_) => i,
            }
        },
        Ir::Let { name, ty, layout, comp, rest, .. } => {
            let (mid_st, v) = of_comp(st, fuel, target(comp))->Ok_0;
            let next = mid_st.bind(name, v, ty, layout);
            let k = next.script.len() as int;
            lemma_comp_len(st, fuel, target(comp));
            lemma_tail_len(next, fuel, target(rest), t, f);
            lemma_comp_grown(st, fuel, target(comp));
            lemma_env_kept(st, mid_st);
            lemma_bound(mid_st, name, v, ty, layout);
            lemma_tail_grown(next, fuel, target(rest), t, f);
            lemma_extends(next.script, end.script, l.script);
            lemma_tail_apart(l.script, end.script, n, k, e, next.cx.block);
            lemma_fed_grown(st, next, l.base(), l.count());
            let (mid, i) = lemma_comp_runs(st, fuel, target(comp), vars, l.turns, l.script, m);
            match comp_meaning(target(comp), vars, l.turns) {
                Meant::Word(w) => {
                    lemma_models_kept(st, mid_st, m, mid, vars);
                    lemma_models_bound(mid_st, name, v, ty, layout, mid, vars);
                    lemma_keeps(l.m, m, mid, l.n, n);
                    let later = vars.insert(name@, w);
                    let j = lemma_tail_runs(l, next, target(rest), later, depth, mid);
                    let meant = tail_meaning(f, target(rest), later, l.vars, l.turns, depth);
                    lemma_returned(l.script, n, m, k, mid, i, meant, j);
                    i + j
                },
                _ => i,
            }
        },
        Ir::Ret { comp, .. } => lemma_tail_comp_runs(l, st, target(comp), vars, depth, m),
    }
}

#[verifier::rlimit(40)]
proof fn lemma_tail_comp_runs(l: Turn, st: St, comp: Comp, vars: Vars, depth: nat, m: Machine) -> (j: nat)
    requires
        in_turn(l, st, vars, m),
        plain_tail_comp(l.f, comp),
        of_tail_comp(st, l.fuel, comp, l.t) is Ok,
        holds_function(l.script, st, of_tail_comp(st, l.fuel, comp, l.t)->Ok_0),
    ensures
        returned(
            l.script,
            st.script.len() as int,
            m,
            tail_comp_meaning(l.f, comp, vars, l.vars, l.turns, depth),
            j,
        ),
    decreases depth, comp, 1int,
{
    let n = st.script.len() as int;
    let fuel = l.fuel;
    let t = l.t;
    let f = l.f;
    let end = of_tail_comp(st, fuel, comp, t)->Ok_0;
    let e = end.script.len() as int;
    lemma_tail_comp_len(st, fuel, comp, t, f);
    lemma_phis_before(l, st, vars, m);
    if let Some(args) = own_args(comp, f) {
        lemma_of_self(st, fuel, comp, t, f);
        if depth == 0 {
            0
        } else {
            let vs = arg_vals(st, args);
            let words = Seq::new(vs.len(), |j: int| m.value(vs[j]));
            let after = lemma_round(l, st, vs, m);
            assert(words =~= atom_words(args, vars)) by {
                assert forall|k: int| 0 <= k < args.len() implies m.value(#[trigger] vs[k]) == atom_word(
                    args[k],
                    vars,
                ) by {
                    lemma_atom_word(st, args[k], m, vars);
                }
            }
            assert(models(l.body, after, l.local(words)));
            let j = lemma_tail_runs(l, l.body, f.body, l.local(words), (depth - 1) as nat, after);
            let meant = tail_meaning(
                f,
                f.body,
                l.local(words),
                l.vars,
                l.turns,
                (depth - 1) as nat,
            );
            lemma_returned(l.script, n, m, l.body.script.len() as int, after, 1, meant, j);
            1 + j
        }
    } else if comp is If {
        let (c, mid) = lemma_of_tail_if(st, fuel, comp, t, f);
        lemma_tail_if_runs(l, st, comp, vars, depth, m, c, mid)
    } else {
        lemma_of_tail_else(st, fuel, comp, t, f);
        let (next, v) = of_comp(st, fuel, comp)->Ok_0;
        let k = next.script.len() as int;
        lemma_comp_len(st, fuel, comp);
        lemma_comp_grown(st, fuel, comp);
        assert(extends(end.script, next.script));
        lemma_extends(next.script, end.script, l.script);
        assert(l.script[k] == end.script[k]);
        assert(apart(l.script, n, k));
        let (mid, i) = lemma_comp_runs(st, fuel, comp, vars, l.turns, l.script, m);
        let meant = comp_meaning(comp, vars, l.turns);
        if let Meant::Word(w) = meant {
            assert(run(l.script, k, mid) == Outcome::Returned(w, m.store()));
            assert(returned(l.script, k, mid, meant, 0));
            lemma_returned(l.script, n, m, k, mid, i, meant, 0);
        }
        i
    }
}

#[verifier::rlimit(40)]
proof fn lemma_tail_if_runs(
    l: Turn,
    st: St,
    comp: Comp,
    vars: Vars,
    depth: nat,
    m: Machine,
    c: Val,
    mid: St,
) -> (j: nat)
    requires
        in_turn(l, st, vars, m),
        comp is If,
        plain_tail_comp(l.f, comp),
        of_tail_comp(st, l.fuel, comp, l.t) is Ok,
        holds_function(l.script, st, of_tail_comp(st, l.fuel, comp, l.t)->Ok_0),
        st.atom(comp->If_0) is Ok,
        c == st.atom(comp->If_0)->Ok_0.1,
        of_tail(tail_branch(st, c), l.fuel, *comp->If_1, l.t) == Ok::<St, CodegenError>(mid),
        of_tail_comp(st, l.fuel, comp, l.t) == of_tail(
            tail_turn(st, mid),
            l.fuel,
            *comp->If_2,
            l.t,
        ),
    ensures
        returned(
            l.script,
            st.script.len() as int,
            m,
            tail_comp_meaning(l.f, comp, vars, l.vars, l.turns, depth),
            j,
        ),
    decreases depth, comp, 0int,
{
    let n = st.script.len() as int;
    let fuel = l.fuel;
    let t = l.t;
    let f = l.f;
    let end = of_tail_comp(st, fuel, comp, t)->Ok_0;
    let e = end.script.len() as int;
    let head = tail_branch(st, c);
    let turn = tail_turn(st, mid);
    let k = mid.script.len() as int;
    lemma_tail_comp_len(st, fuel, comp, t, f);
    lemma_phis_before(l, st, vars, m);
    lemma_tail_branch(st, c);
    lemma_tail_len(head, fuel, target(comp->If_1), t, f);
    lemma_tail_len(turn, fuel, target(comp->If_2), t, f);
    lemma_env_kept(st, head);
    lemma_tail_grown(head, fuel, target(comp->If_1), t, f);
    lemma_tail_turn(st, c, mid);
    lemma_env_kept(st, turn);
    lemma_tail_grown(turn, fuel, target(comp->If_2), t, f);
    assert(extends(turn.script, mid.script));
    lemma_extends(turn.script, end.script, l.script);
    lemma_extends(mid.script, turn.script, l.script);
    lemma_extends(head.script, mid.script, l.script);
    lemma_fed_branch(st, c, l.base(), l.count());
    lemma_fed_turn(st, c, mid, l.base(), l.count());
    lemma_atom_word(st, comp->If_0, m, vars);
    assert(l.script[n] == head.script[n]);
    assert(l.script[n + 1] == head.script[n + 1]);
    assert(l.script[n + 2] == head.script[n + 2]);
    assert(l.script[n + 3] == head.script[n + 3]);
    assert(l.script[n + 4] == head.script[n + 4]);
    assert(l.script[k] == turn.script[k]);
    lemma_tail_apart(l.script, end.script, n, k + 1, e, turn.cx.block);
    let m1 = m.set(n, flag(m.value(c) != 0));
    let m2 = m1.left(opened(l.script, n + 3));
    assert(keeps(m, m2, n));
    lemma_keeps(l.m, m, m2, l.n, n);
    assert(m.value(constant(0)) == 0);
    assert(run(l.script, n, m) == run(l.script, n + 1, m1));
    assert(run(l.script, n + 1, m1) == run(l.script, n + 2, m1));
    assert(run(l.script, n + 2, m1) == run(l.script, n + 3, m1));
    if m.value(c) != 0 {
        lemma_seek_at(l.script, (n + 1) as u64, n + 4, n + 4);
        assert(run(l.script, n + 3, m1) == run(l.script, n + 4, m2));
        assert(run(l.script, n + 4, m2) == run(l.script, n + 5, m2));
        lemma_run_leads(l.script, n, m, n + 5, m2);
        lemma_models_kept(st, head, m, m2, vars);
        assert(apart(l.script, n + 5, k)) by {
            assert forall|i: int| k <= i < l.script.len() implies (#[trigger] l.script[i] matches Cmd::At {
                block,
            } ==> block < n + 5 || k <= block) by {
                if k < i < e {
                    assert(l.script[i] == end.script[i]);
                }
            }
        }
        let j = lemma_tail_runs(l, head, target(comp->If_1), vars, depth, m2);
        let meant = tail_meaning(f, target(comp->If_1), vars, l.vars, l.turns, depth);
        lemma_returned(l.script, n, m, n + 5, m2, 0, meant, j);
        j
    } else {
        assert forall|i: int| n + 4 <= i < k implies #[trigger] l.script[i] != (Cmd::At {
            block: (n + 2) as u64,
        }) by {
            if i >= n + 5 {
                assert(l.script[i] == mid.script[i]);
            }
        }
        lemma_seek_at(l.script, (n + 2) as u64, n + 4, k);
        assert(run(l.script, n + 3, m1) == run(l.script, k, m2));
        assert(run(l.script, k, m2) == run(l.script, k + 1, m2));
        lemma_run_leads(l.script, n, m, k + 1, m2);
        lemma_models_kept(st, turn, m, m2, vars);
        let j = lemma_tail_runs(l, turn, target(comp->If_2), vars, depth, m2);
        let meant = tail_meaning(f, target(comp->If_2), vars, l.vars, l.turns, depth);
        lemma_returned(l.script, n, m, k + 1, m2, 0, meant, j);
        j
    }
}

// ── functions ────────────────────────────────────────────────────────────
/// A captured value that is one cell.
pub open spec fn plain_capture(cap: CaptureInfo) -> bool {
    cells_of(cap.layout) == 1 && passed_in_cell(*cap.ty)
}

/// The variables with the first `n` captures: each has the word of its cell in the
/// closure at `env`.
pub open spec fn captured(caps: Seq<CaptureInfo>, n: nat, env: u64, mem: Map<u64, u64>, vars: Vars) -> Vars
    decreases n,
{
    if n == 0 {
        vars
    } else {
        captured(caps, (n - 1) as nat, env, mem, vars).insert(
            caps[n - 1].name@,
            mem[word(env + caps[n - 1].raw_slot * 8)],
        )
    }
}

/// The names of parameters.
pub open spec fn names_of(params: Seq<Param>) -> Seq<Seq<char>> {
    Seq::new(params.len(), |i: int| params[i].name@)
}

/// The arguments of a function.
pub open spec fn passed(func: u64, n: nat, m: Machine) -> Seq<u64> {
    Seq::new(n, |i: int| m.params[(func, (i + 1) as u32)])
}

/// Two maps of variables agree but for these names.
pub open spec fn agree_but(names: Seq<Seq<char>>, a: Vars, b: Vars) -> bool {
    forall|x: Seq<char>| #[trigger]
        names.contains(x) || (a.dom().contains(x) == b.dom().contains(x) && a[x] == b[x])
}

/// A name has the last word that it is given.
pub(crate) proof fn lemma_word_of(names: Seq<Seq<char>>, words: Seq<u64>, n: nat, a: Vars, b: Vars, x: Seq<char>)
    requires
        n <= names.len(),
    ensures
        (exists|i: int| 0 <= i < n && names[i] == x) ==> {
            &&& with_words(names, words, n, a).dom().contains(x)
            &&& with_words(names, words, n, b).dom().contains(x)
            &&& with_words(names, words, n, a)[x] == with_words(names, words, n, b)[x]
        },
        !(exists|i: int| 0 <= i < n && names[i] == x) ==> {
            &&& with_words(names, words, n, a).dom().contains(x) == a.dom().contains(x)
            &&& with_words(names, words, n, a)[x] == a[x]
        },
    decreases n,
{
    if n > 0 {
        lemma_word_of(names, words, (n - 1) as nat, a, b, x);
        if names[n - 1] != x {
            if exists|i: int| 0 <= i < n && names[i] == x {
                let i = choose|i: int| 0 <= i < n && names[i] == x;
                assert(0 <= i < n - 1 && names[i] == x);
            }
        }
    }
}

pub(crate) proof fn lemma_word_kept(names: Seq<Seq<char>>, words: Seq<u64>, a: Vars, b: Vars, x: Seq<char>)
    requires
        agree_but(names, a, b),
    ensures
        with_words(names, words, names.len(), a).dom().contains(x) == with_words(
            names,
            words,
            names.len(),
            b,
        ).dom().contains(x),
        with_words(names, words, names.len(), a)[x] == with_words(names, words, names.len(), b)[x],
{
    lemma_word_of(names, words, names.len(), a, b, x);
    lemma_word_of(names, words, names.len(), b, a, x);
    if names.contains(x) {
        let i = choose|i: int| 0 <= i < names.len() && names[i] == x;
        assert(0 <= i < names.len() && names[i] == x);
    } else {
        assert(a.dom().contains(x) == b.dom().contains(x));
    }
}

/// Parameters have the words they are given, whatever had their names before.
pub(crate) proof fn lemma_words_replaced(names: Seq<Seq<char>>, words: Seq<u64>, a: Vars, b: Vars)
    requires
        agree_but(names, a, b),
    ensures
        with_words(names, words, names.len(), a) == with_words(names, words, names.len(), b),
{
    let p = with_words(names, words, names.len(), a);
    let q = with_words(names, words, names.len(), b);
    assert forall|x: Seq<char>| #[trigger] p.dom().contains(x) == q.dom().contains(x) by {
        lemma_word_kept(names, words, a, b, x);
    }
    assert forall|x: Seq<char>| #[trigger] p[x] == q[x] by {
        lemma_word_kept(names, words, a, b, x);
    }
    assert(p.dom() =~= q.dom());
    assert(p =~= q);
}

pub(crate) proof fn lemma_captured(
    names: Seq<Seq<char>>,
    caps: Seq<CaptureInfo>,
    n: nat,
    env: u64,
    mem: Map<u64, u64>,
    a: Vars,
    b: Vars,
)
    requires
        agree_but(names, a, b),
    ensures
        agree_but(names, captured(caps, n, env, mem, a), captured(caps, n, env, mem, b)),
    decreases n,
{
    if n > 0 {
        lemma_captured(names, caps, (n - 1) as nat, env, mem, a, b);
    }
}

proof fn lemma_words_agree(names: Seq<Seq<char>>, words: Seq<u64>, vars: Vars)
    ensures
        agree_but(names, with_words(names, words, names.len(), vars), vars),
{
    assert forall|x: Seq<char>| #[trigger] names.contains(x) || ({
        let a = with_words(names, words, names.len(), vars);
        a.dom().contains(x) == vars.dom().contains(x) && a[x] == vars[x]
    }) by {
        lemma_word_of(names, words, names.len(), vars, vars, x);
        if exists|i: int| 0 <= i < names.len() && names[i] == x {
            let i = choose|i: int| 0 <= i < names.len() && names[i] == x;
            assert(names.contains(x));
        }
    }
}

pub(crate) proof fn lemma_put_params(st: St, tys: Seq<Ty>, n: nat)
    ensures
        st.put_params(tys, n).script.len() == st.script.len() + n,
        extends(st.put_params(tys, n).script, st.script),
        st.put_params(tys, n).cx == st.cx,
        forall|i: int|
            st.script.len() <= i < st.script.len() + n ==> #[trigger] st.put_params(tys, n).script[i] is Param,
    decreases n,
{
    if n > 0 {
        let mid = st.put_params(tys, (n - 1) as nat);
        let end = st.put_params(tys, n);
        lemma_put_params(st, tys, (n - 1) as nat);
        lemma_extends(st.script, mid.script, end.script);
        assert forall|i: int| st.script.len() <= i < st.script.len() + n implies #[trigger] end.script[i] is Param by {
            if i < st.script.len() + n - 1 {
                assert(end.script[i] == mid.script[i]);
            }
        }
    }
}

/// The head of a function.
proof fn lemma_begin(st: St, name: FuncName, ret: Ty, tys: Seq<Ty>, m: Machine)
    requires
        own_blocks(st.script, 0, st.script.len() as int),
        st.script.len() + tys.len() + 8 <= u64::MAX,
        m.args.len() == 0,
    ensures
        ({
            let b = st.begin_func(name, ret, tys);
            &&& at_hand(b, Map::empty(), m)
            &&& b.script.len() == st.script.len() + tys.len() + 4
            &&& extends(b.script, st.script)
            &&& b.cx.gc == st.cx.gc
            &&& b.cx.block == st.script.len() + tys.len() + 2
            &&& own_blocks(b.script, st.script.len() as int, b.script.len() as int)
        }),
{
    let n = st.script.len() as int;
    let k = tys.len() as int;
    let b = st.begin_func(name, ret, tys);
    let head = st.put(Cmd::Func { name, ret }).put(Cmd::Param { ty: env_ty(st.cx.gc) });
    let named = head.put_params(tys, tys.len());
    lemma_put_params(head, tys, tys.len());
    assert(extends(head.script, st.script));
    lemma_extends(st.script, head.script, named.script);
    assert(b.script =~= named.script.push(Cmd::Block { func: n as u64, label: "entry" }).push(
        Cmd::At { block: (n + k + 2) as u64 },
    ));
    assert(extends(b.script, named.script));
    lemma_extends(st.script, named.script, b.script);
    assert(b.script[n + k + 3] == (Cmd::At { block: (n + k + 2) as u64 }));
    assert(opened(b.script, n + k + 4) == (n + k + 2) as u64);
    assert forall|i: int| n <= i < n + k + 2 implies #[trigger] b.script[i] is Func || b.script[i] is Param by {
        assert(b.script[i] == named.script[i]);
        if i < n + 2 {
            assert(named.script[i] == head.script[i]);
        }
    }
    assert forall|i: int| 0 <= i < b.script.len() implies match #[trigger] b.script[i] {
        Cmd::At { block } => 0 <= block < b.script.len(),
        Cmd::Incoming { phi, .. } => 0 <= phi < b.script.len(),
        _ => true,
    } by {
        if i < n {
            assert(b.script[i] == st.script[i]);
        }
    }
}

/// The parameters are bound to the arguments.
proof fn lemma_bind_params(st: St, func: u64, params: Seq<Param>, tys: Seq<Ty>, i: nat, m: Machine)
    requires
        i <= params.len(),
        env_ready(st),
        models(st, m, with_words(names_of(params), passed(func, params.len(), m), i, Map::empty())),
    ensures
        ({
            let end = st.bind_params(func, params, tys, i);
            &&& env_ready(end)
            &&& models(
                end,
                m,
                with_words(names_of(params), passed(func, params.len(), m), params.len(), Map::empty()),
            )
            &&& end.script == st.script
            &&& end.cx.gc == st.cx.gc
            &&& end.cx.block == st.cx.block
        }),
    decreases params.len() - i,
{
    if i < params.len() {
        let p = params[i as int];
        let v = Val { id: Id::Param { func, index: (i + 1) as u32 }, ty: tys[i as int] };
        let before = with_words(names_of(params), passed(func, params.len(), m), i, Map::empty());
        lemma_bound(st, p.name, v, p.ty, p.layout);
        lemma_models_bound(st, p.name, v, p.ty, p.layout, m, before);
        assert(with_words(names_of(params), passed(func, params.len(), m), i + 1, Map::empty())
            == before.insert(p.name@, m.value(v)));
        lemma_bind_params(st.bind(p.name, v, p.ty, p.layout), func, params, tys, i + 1, m);
    }
}

/// One capture is read from the closure.
pub(crate) proof fn lemma_load_capture(st: St, env: Val, cap: CaptureInfo)
    requires
        !st.cx.gc,
        plain_capture(cap),
        st.load_capture(env, cap) is Ok,
    ensures
        st.load_capture(env, cap)->Ok_0.0 == st.put(
            Cmd::Gep { elem: Ty::I64, base: env, index: constant(cap.raw_slot), label: "cap.slot" },
        ).put(
            Cmd::Load {
                ty: Ty::I64,
                ptr: Val { id: Id::Reg(st.script.len() as u64), ty: Ty::Ptr },
                align: 0,
                label: Title::Fixed("cap"),
            },
        ),
        st.load_capture(env, cap)->Ok_0.1 == (Val {
            id: Id::Reg((st.script.len() + 1) as u64),
            ty: Ty::I64,
        }),
{
    reveal_with_fuel(St::block_words, 2);
    let (next, words) = st.block_words(env, cap.raw_slot as nat, 1);
    assert(words.len() == 1);
}

/// The captures are read from the closure.
proof fn lemma_captures_run(
    st: St,
    env: Val,
    caps: Seq<CaptureInfo>,
    i: nat,
    vars: Vars,
    script: Seq<Cmd>,
    m: Machine,
) -> (after: Machine)
    requires
        i <= caps.len(),
        !st.cx.gc,
        forall|k: int| 0 <= k < caps.len() ==> plain_capture(#[trigger] caps[k]),
        ready(st, env),
        at_hand(st, captured(caps, i, m.value(env), m.mem, vars), m),
        st.load_captures(env, caps, i) is Ok,
        countable(st.load_captures(env, caps, i)->Ok_0),
        extends(script, st.load_captures(env, caps, i)->Ok_0.script),
    ensures
        ({
            let end = st.load_captures(env, caps, i)->Ok_0;
            &&& grown(st, end)
            &&& at_hand(end, captured(caps, caps.len(), m.value(env), m.mem, vars), after)
            &&& run(script, st.script.len() as int, m) == run(script, end.script.len() as int, after)
            &&& keeps(m, after, st.script.len() as int)
        }),
    decreases caps.len() - i,
{
    let end = st.load_captures(env, caps, i)->Ok_0;
    if i < caps.len() {
        let n = st.script.len() as int;
        let cap = caps[i as int];
        let (mid, v) = st.load_capture(env, cap)->Ok_0;
        lemma_load_capture(st, env, cap);
        let first = mid.script[n];
        let second = mid.script[n + 1];
        let next = mid.bind(cap.name, v, cap.ty, cap.layout);
        lemma_captures_len(next, env, caps, i + 1);
        lemma_put(st, first);
        lemma_put(st.put(first), second);
        lemma_grown(st, st.put(first), mid);
        lemma_env_kept(st, mid);
        lemma_bound(mid, cap.name, v, cap.ty, cap.layout);
        let w = m.mem[word(m.value(env) + cap.raw_slot * 8)];
        let m1 = m.set(n, word(m.value(env) + cap.raw_slot * 8));
        let m2 = m1.set(n + 1, w);
        let before = captured(caps, i, m.value(env), m.mem, vars);
        assert(extends(end.script, next.script));
        lemma_extends(next.script, end.script, script);
        assert(script[n] == mid.script[n]);
        assert(script[n + 1] == mid.script[n + 1]);
        assert(run(script, n, m) == run(script, n + 1, m1));
        assert(run(script, n + 1, m1) == run(script, n + 2, m2));
        assert(keeps(m, m2, n));
        lemma_models_kept(st, mid, m, m2, before);
        lemma_models_bound(mid, cap.name, v, cap.ty, cap.layout, m2, before);
        assert(m2.value(env) == m.value(env));
        assert(captured(caps, i + 1, m.value(env), m.mem, vars) == before.insert(cap.name@, w));
        let after = lemma_captures_run(next, env, caps, i + 1, vars, script, m2);
        lemma_grown(st, next, end);
        lemma_keeps(m, m2, after, n, n + 2);
        after
    } else {
        m
    }
}

pub(crate) proof fn lemma_captures_len(st: St, env: Val, caps: Seq<CaptureInfo>, i: nat)
    requires
        i <= caps.len(),
        !st.cx.gc,
        forall|k: int| 0 <= k < caps.len() ==> plain_capture(#[trigger] caps[k]),
        st.load_captures(env, caps, i) is Ok,
    ensures
        st.script.len() <= st.load_captures(env, caps, i)->Ok_0.script.len(),
        !st.load_captures(env, caps, i)->Ok_0.cx.gc,
        extends(st.load_captures(env, caps, i)->Ok_0.script, st.script),
    decreases caps.len() - i,
{
    if i < caps.len() {
        let cap = caps[i as int];
        let (mid, v) = st.load_capture(env, cap)->Ok_0;
        lemma_load_capture(st, env, cap);
        let next = mid.bind(cap.name, v, cap.ty, cap.layout);
        lemma_captures_len(next, env, caps, i + 1);
        assert(extends(next.script, st.script));
        lemma_extends(st.script, next.script, st.load_captures(env, caps, i)->Ok_0.script);
    }
}

/// The phis of the parameters from position `i` on were added, and bound.
pub open spec fn body_laid(
    head: St,
    body: St,
    names: Seq<Seq<char>>,
    base: int,
    i: int,
    seeds: Seq<Val>,
    from: u64,
) -> bool {
    let k = names.len() as int;
    &&& head.script.len() == base + 2 * i
    &&& body.script.len() == base + 2 * k
    &&& extends(body.script, head.script)
    &&& heads_laid(body.script, base, i, k, seeds, from)
    &&& settled(body)
    &&& env_ready(body)
    &&& !body.cx.gc
    &&& body.cx.block == head.cx.block
    &&& forall|m: Machine, words: Seq<u64>, vars: Vars|
        #![trigger phis_hold(base, k, m, words), with_words(names, words, k as nat, vars)]
        phis_hold(base, k, m, words) && models(head, m, with_words(names, words, i as nat, vars))
            ==> models(body, m, with_words(names, words, k as nat, vars))
}

/// One more phi, bound to a parameter.
pub open spec fn with_phi(
    st: St,
    label: &'static str,
    seed: Val,
    from: u64,
    name: String,
    ty: Rc<Type>,
    layout: ValueLayout,
) -> St {
    let (next, v) = st.phi(Ty::I64, label);
    next.incoming(st.here(), seed, from).bind(name, v, ty, layout)
}

proof fn lemma_with_phi(
    st: St,
    label: &'static str,
    seed: Val,
    from: u64,
    name: String,
    ty: Rc<Type>,
    layout: ValueLayout,
)
    requires
        settled(st),
        env_ready(st),
        !st.cx.gc,
        st.script.len() + 4 <= u64::MAX,
    ensures
        ({
            let end = with_phi(st, label, seed, from, name, ty, layout);
            let n = st.script.len() as int;
            &&& settled(end)
            &&& env_ready(end)
            &&& !end.cx.gc
            &&& end.cx.block == st.cx.block
            &&& end.script.len() == n + 2
            &&& extends(end.script, st.script)
            &&& end.script[n] is Phi
            &&& end.script[n + 1] == (Cmd::Incoming { phi: n as u64, val: seed, from })
            &&& forall|m: Machine, vars: Vars|
                models(st, m, vars) ==> #[trigger] models(end, m, vars.insert(name@, m.regs[n as u64]))
        }),
{
    let n = st.script.len() as int;
    let end = with_phi(st, label, seed, from, name, ty, layout);
    let (next, v) = st.phi(Ty::I64, label);
    let fed = next.incoming(st.here(), seed, from);
    assert(fed.script.len() == n + 2);
    lemma_opened(fed.script, st.script, n);
    assert(opened(fed.script, n + 1) == opened(fed.script, n));
    assert(opened(fed.script, n + 2) == opened(fed.script, n + 1));
    assert forall|i: int| 0 <= i < fed.script.len() implies match #[trigger] fed.script[i] {
        Cmd::At { block } => 0 <= block < fed.script.len(),
        Cmd::Incoming { phi, .. } => 0 <= phi < fed.script.len(),
        _ => true,
    } by {
        if i < n {
            assert(fed.script[i] == st.script[i]);
        }
    }
    lemma_env_kept(st, fed);
    lemma_bound(fed, name, v, ty, layout);
    assert forall|m: Machine, vars: Vars| models(st, m, vars) implies #[trigger] models(
        end,
        m,
        vars.insert(name@, m.regs[n as u64]),
    ) by {
        assert(models(fed, m, vars));
        lemma_models_bound(fed, name, v, ty, layout, m, vars);
    }
}

/// The phis of all parameters.
proof fn lemma_param_phis(
    st: St,
    func: u64,
    params: Seq<Param>,
    tys: Seq<Ty>,
    from: u64,
    i: nat,
    done: Seq<u64>,
    base: int,
) -> (seeds: Seq<Val>)
    requires
        i <= params.len(),
        settled(st),
        env_ready(st),
        !st.cx.gc,
        0 <= base,
        st.script.len() == base + 2 * i,
        base + 2 * params.len() + 8 <= u64::MAX,
        done.len() == i,
        forall|j: int| 0 <= j < i ==> #[trigger] done[j] == phi_at(base, j),
    ensures
        ({
            let (body, phis) = st.param_phis(func, params, tys, from, i, done);
            &&& body_laid(st, body, names_of(params), base, i as int, seeds, from)
            &&& phis.len() == params.len()
            &&& forall|j: int| 0 <= j < params.len() ==> #[trigger] phis[j] == phi_at(base, j)
        }),
        seeds == Seq::new(
            params.len(),
            |j: int| Val { id: Id::Param { func, index: (j + 1) as u32 }, ty: tys[j] },
        ),
    decreases params.len() - i,
{
    let seeds = Seq::new(
        params.len(),
        |j: int| Val { id: Id::Param { func, index: (j + 1) as u32 }, ty: tys[j] },
    );
    let names = names_of(params);
    let k = params.len() as int;
    let (body, phis) = st.param_phis(func, params, tys, from, i, done);
    if i < params.len() {
        let p = params[i as int];
        let next = with_phi(st, "tail.p", seeds[i as int], from, p.name, p.ty, p.layout);
        lemma_with_phi(st, "tail.p", seeds[i as int], from, p.name, p.ty, p.layout);
        assert(st.here() == phi_at(base, i as int));
        lemma_param_phis(next, func, params, tys, from, i + 1, done.push(st.here()), base);
        lemma_extends(st.script, next.script, body.script);
        assert(heads_laid(body.script, base, i as int, k, seeds, from)) by {
            assert forall|j: int| #![trigger phi_at(base, j)] i <= j < k implies body.script[phi_at(base, j)] is Phi
                && body.script[phi_at(base, j) + 1] == (Cmd::Incoming {
                phi: phi_at(base, j) as u64,
                val: seeds[j],
                from,
            }) by {
                if j == i {
                    assert(body.script[base + 2 * i] == next.script[base + 2 * i]);
                    assert(body.script[base + 2 * i + 1] == next.script[base + 2 * i + 1]);
                }
            }
        }
        assert forall|m: Machine, words: Seq<u64>, vars: Vars|
            #![trigger phis_hold(base, k, m, words), with_words(names, words, k as nat, vars)]
            phis_hold(base, k, m, words) && models(st, m, with_words(names, words, i, vars)) implies models(
            body,
            m,
            with_words(names, words, k as nat, vars),
        ) by {
            let before = with_words(names, words, i, vars);
            assert(m.regs[phi_at(base, i as int) as u64] == words[i as int]);
            assert(models(next, m, before.insert(p.name@, m.regs[(base + 2 * i) as u64])));
            assert(with_words(names, words, i + 1, vars) == before.insert(p.name@, words[i as int]));
        }
    }
    seeds
}

/// The state at the head of the loop of a function.
pub open spec fn loop_entered(st: St) -> St {
    let (next, head) = st.new_block("tail.loop");
    next.br(head).at(head)
}

pub(crate) proof fn lemma_loop_entered(st: St)
    requires
        settled(st),
        env_ready(st),
        !st.cx.gc,
        st.script.len() + 8 <= u64::MAX,
    ensures
        ({
            let n = st.script.len() as int;
            let head = loop_entered(st);
            &&& head.script.len() == n + 3
            &&& settled(head)
            &&& env_ready(head)
            &&& !head.cx.gc
            &&& head.cx.env == st.cx.env
            &&& head.cx.block == n
            &&& extends(head.script, st.script)
            &&& head.script[n] is Block
            &&& head.script[n + 1] == (Cmd::Br { to: n as u64 })
            &&& head.script[n + 2] == (Cmd::At { block: n as u64 })
        }),
{
    let n = st.script.len() as int;
    let head = loop_entered(st);
    assert(head.script.len() == n + 3);
    assert(head.script[n + 2] == (Cmd::At { block: n as u64 }));
    assert(opened(head.script, n + 3) == n as u64);
    assert forall|i: int| 0 <= i < head.script.len() implies match #[trigger] head.script[i] {
        Cmd::At { block } => 0 <= block < head.script.len(),
        Cmd::Incoming { phi, .. } => 0 <= phi < head.script.len(),
        _ => true,
    } by {
        if i < n {
            assert(head.script[i] == st.script[i]);
        }
    }
    lemma_env_kept(st, head);
}

/// The loop of a function answers what the function means.
#[verifier::rlimit(40)]
proof fn lemma_loop_answers(
    st: St,
    fuel: nat,
    f: Fun,
    t: Tail,
    body: St,
    seeds: Seq<Val>,
    seen: Vars,
    vars: Vars,
    turns: nat,
    depth: nat,
    script: Seq<Cmd>,
    m: Machine,
)
    requires
        !st.cx.gc,
        at_hand(st, seen, m),
        st.cx.block < st.script.len(),
        agree_but(f.params, seen, vars),
        plain_fun(f),
        loop_of(t, f),
        t.head == st.script.len(),
        forall|j: int| 0 <= j < f.params.len() ==> #[trigger] t.phis[j] == phi_at(
            st.script.len() as int + 3,
            j,
        ),
        seeds.len() == f.params.len(),
        forall|j: int| 0 <= j < seeds.len() ==> ready(st, #[trigger] seeds[j]),
        body_laid(
            loop_entered(st),
            body,
            f.params,
            st.script.len() as int + 3,
            0,
            seeds,
            st.cx.block,
        ),
        of_tail(body, fuel, f.body, t) is Ok,
        countable(of_tail(body, fuel, f.body, t)->Ok_0),
        extends(script, of_tail(body, fuel, f.body, t)->Ok_0.script),
        apart(
            script,
            st.script.len() as int,
            of_tail(body, fuel, f.body, t)->Ok_0.script.len() as int,
        ),
    ensures
        answers(
            script,
            st.script.len() as int,
            m,
            fun_meaning(
                f,
                Seq::new(seeds.len(), |j: int| m.value(seeds[j])),
                vars,
                turns,
                depth,
            ),
        ),
{
    let n = st.script.len() as int;
    let k = f.params.len() as int;
    let base = n + 3;
    let from = st.cx.block;
    let head = loop_entered(st);
    let out = of_tail(body, fuel, f.body, t)->Ok_0;
    let e = out.script.len() as int;
    let words = Seq::new(seeds.len(), |j: int| m.value(seeds[j]));
    assert forall|j: int| 0 <= j < t.phis.len() implies #[trigger] t.phis[j] < body.script.len() by {
        assert(t.phis[j] == phi_at(base, j));
    }
    lemma_tail_len(body, fuel, f.body, t, f);
    lemma_loop_entered(st);
    lemma_tail_grown(body, fuel, f.body, t, f);
    lemma_extends(body.script, out.script, script);
    lemma_extends(head.script, body.script, script);
    lemma_extends(st.script, head.script, script);
    let l = Turn { f, t, fuel, vars, turns, n, body, seeds, from, script, m };
    assert(script[n] == head.script[n]);
    assert(script[n + 1] == head.script[n + 1]);
    assert(script[n + 2] == head.script[n + 2]);
    assert(heads_laid(script, base, 0, k, seeds, from)) by {
        assert forall|j: int| #![trigger phi_at(base, j)] 0 <= j < k implies script[phi_at(base, j)] is Phi
            && script[phi_at(base, j) + 1] == (Cmd::Incoming {
            phi: phi_at(base, j) as u64,
            val: seeds[j],
            from,
        }) by {
            assert(script[phi_at(base, j)] == body.script[phi_at(base, j)]);
            assert(script[phi_at(base, j) + 1] == body.script[phi_at(base, j) + 1]);
        }
    }
    assert forall|i: int| base <= i < base + 2 * k implies #[trigger] script[i] is Phi || script[i] == (
    Cmd::Incoming {
        phi: (i - (i - base) % 2) as u64,
        val: seeds[(i - base) / 2],
        from,
    }) by {
        let j = (i - base) / 2;
        assert(phi_at(base, j) == base + 2 * j);
        assert(script[phi_at(base, j)] is Phi);
        if (i - base) % 2 == 1 {
            assert(i == phi_at(base, j) + 1);
        } else {
            assert(i == phi_at(base, j));
        }
    }
    assert(forall|i: int|
        0 <= i < script.len() && i != n + 2 ==> #[trigger] script[i] != (Cmd::At { block: t.head })) by {
        assert forall|i: int| 0 <= i < script.len() && i != n + 2 implies #[trigger] script[i] != (Cmd::At {
            block: t.head,
        }) by {
            if i < n {
                assert(script[i] == st.script[i]);
            } else if base + 2 * k <= i < e {
                assert(script[i] == out.script[i]);
            }
        }
    }
    assert(fed_before(body, base, k)) by {
        assert forall|i: int| 0 <= i < body.script.len() implies (#[trigger] body.script[i] matches Cmd::Incoming {
            phi,
            from,
            ..
        } ==> (base <= phi < base + 2 * k ==> from < body.script.len() && from != body.cx.block)) by {
            assert(body.script[i] == script[i]);
            if i < n {
                assert(script[i] == st.script[i]);
            }
        }
    }
    assert(apart(script, base + 2 * k, e));
    assert forall|words: Seq<u64>, m3: Machine| #[trigger] l.hold(m3, words) && keeps(m, m3, n) && m3.args.len()
        == 0 implies models(body, m3, l.local(words)) by {
        lemma_models_kept(st, head, m, m3, seen);
        assert(phis_hold(base, k, m3, words));
        assert(with_words(f.params, words, 0, seen) == seen);
        assert(models(body, m3, with_words(f.params, words, k as nat, seen)));
        lemma_words_replaced(f.params, words, seen, vars);
    }
    assert(turn_laid(l));
    // The loop is entered.
    let m1 = m.left(from);
    lemma_opened(script, st.script, n);
    assert(opened(script, n + 1) == from);
    lemma_seek_at(script, n as u64, n + 2, n + 2);
    assert(run(script, n, m) == run(script, n + 1, m));
    assert(run(script, n + 1, m) == run(script, n + 2, m1));
    assert(run(script, n + 2, m1) == run(script, base, m1));
    assert forall|j: int| #![trigger phi_at(base, j)] 0 <= j < k implies edge(
        script,
        phi_at(base, j),
        m1.came,
        phi_at(base, j) + 1,
    ) == Some(seeds[j]) && m1.past(seeds[j]) == words[j] by {
        assert(script[phi_at(base, j) + 1] == (Cmd::Incoming {
            phi: phi_at(base, j) as u64,
            val: seeds[j],
            from,
        }));
    }
    let after = lemma_phis_run(script, base, k, seeds, from, seeds, words, 0, m1);
    assert(phi_at(base, 0) == base && phi_at(base, k) == base + 2 * k);
    assert(keeps(m, m1, n));
    lemma_keeps(m, m1, after, n, base);
    assert(l.hold(after, words));
    assert(in_turn(l, body, l.local(words), after));
    let j = lemma_tail_runs(l, body, f.body, l.local(words), depth, after);
    let meant = fun_meaning(f, words, vars, turns, depth);
    lemma_run_leads(script, n, m, base + 2 * k, after);
    lemma_returned(script, n, m, base + 2 * k, after, 0, meant, j);
    match meant {
        Meant::Word(w) => assert(returns_in(script, n, m, w, j)),
        Meant::Trap => assert(traps_in(script, n, m, j)),
        Meant::Open => {},
    }
}

/// The words of what a function captured, where its closure is at `env`.
pub open spec fn surroundings(caps: Seq<CaptureInfo>, func: u64, m: Machine) -> Vars {
    captured(caps, caps.len(), m.params[(func, 0u32)], m.mem, Map::empty())
}

/// The state behind the parameters and captures of a function.
proof fn lemma_prologue(
    st: St,
    name: FuncName,
    ret: Ty,
    params: Seq<Param>,
    tys: Seq<Ty>,
    caps: Seq<CaptureInfo>,
    script: Seq<Cmd>,
    m: Machine,
) -> (r: (Vars, Machine))
    requires
        !st.cx.gc,
        own_blocks(st.script, 0, st.script.len() as int),
        tys.len() == params.len(),
        forall|k: int| 0 <= k < caps.len() ==> plain_capture(#[trigger] caps[k]),
        m.args.len() == 0,
        ({
            let func = st.here();
            let bound = st.begin_func(name, ret, tys).bind_params(func, params, tys, 0);
            &&& bound.enter_function(func, caps) is Ok
            &&& countable(bound.enter_function(func, caps)->Ok_0.0)
            &&& extends(script, bound.enter_function(func, caps)->Ok_0.0.script)
        }),
    ensures
        ({
            let func = st.here();
            let bound = st.begin_func(name, ret, tys).bind_params(func, params, tys, 0);
            let (end, frame) = bound.enter_function(func, caps)->Ok_0;
            &&& frame is None
            &&& !end.cx.gc
            &&& at_hand(end, r.0, r.1)
            &&& agree_but(names_of(params), r.0, surroundings(caps, func, m))
            &&& r.0 == captured(
                caps,
                caps.len(),
                m.params[(func, 0u32)],
                m.mem,
                with_words(names_of(params), passed(func, params.len(), m), params.len(), Map::empty()),
            )
            &&& st.script.len() + params.len() + 4 <= end.script.len()
            &&& end.cx.block < end.script.len()
            &&& end.cx.block >= st.script.len()
            &&& keeps(m, r.1, st.script.len() as int + params.len() + 4)
            &&& extends(end.script, st.script)
            &&& own_blocks(end.script, st.script.len() as int, end.script.len() as int)
            &&& run(script, st.script.len() as int + params.len() + 4, m) == run(
                script,
                end.script.len() as int,
                r.1,
            )
        }),
{
    let n = st.script.len() as int;
    let k = params.len() as int;
    let func = st.here();
    let begun = st.begin_func(name, ret, tys);
    let bound = begun.bind_params(func, params, tys, 0);
    let env = Val { id: Id::Param { func, index: 0 }, ty: env_ty(st.cx.gc) };
    let end = bound.enter_function(func, caps)->Ok_0.0;
    let names = names_of(params);
    let words = passed(func, params.len(), m);
    lemma_prologue_len(st, name, ret, params, tys, caps);
    lemma_begin(st, name, ret, tys, m);
    assert(with_words(names, words, 0, Map::empty()) == Map::<Seq<char>, u64>::empty());
    lemma_bind_params(begun, func, params, tys, 0, m);
    let local = with_words(names, words, params.len(), Map::empty());
    assert(end == bound.load_captures(env, caps, 0)->Ok_0);
    assert(m.value(env) == m.params[(func, 0u32)]);
    assert(captured(caps, 0, m.value(env), m.mem, local) == local);
    let after = lemma_captures_run(bound, env, caps, 0, local, script, m);
    lemma_words_agree(names, words, Map::empty());
    lemma_captured(names, caps, caps.len(), m.value(env), m.mem, local, Map::empty());
    lemma_extends(st.script, bound.script, end.script);
    assert forall|i: int| n <= i < end.script.len() implies match #[trigger] end.script[i] {
        Cmd::At { block } => n <= block < end.script.len(),
        Cmd::Incoming { phi, .. } => n <= phi < end.script.len(),
        _ => true,
    } by {
        if i < bound.script.len() {
            assert(end.script[i] == bound.script[i]);
        }
    }
    (captured(caps, caps.len(), m.value(env), m.mem, local), after)
}

proof fn lemma_prologue_len(
    st: St,
    name: FuncName,
    ret: Ty,
    params: Seq<Param>,
    tys: Seq<Ty>,
    caps: Seq<CaptureInfo>,
)
    requires
        !st.cx.gc,
        tys.len() == params.len(),
        forall|k: int| 0 <= k < caps.len() ==> plain_capture(#[trigger] caps[k]),
        st.begin_func(name, ret, tys).bind_params(st.here(), params, tys, 0).enter_function(
            st.here(),
            caps,
        ) is Ok,
    ensures
        st.script.len() + params.len() + 4 <= st.begin_func(name, ret, tys).bind_params(
            st.here(),
            params,
            tys,
            0,
        ).enter_function(st.here(), caps)->Ok_0.0.script.len(),
{
    let func = st.here();
    let begun = st.begin_func(name, ret, tys);
    let bound = begun.bind_params(func, params, tys, 0);
    let head = st.put(Cmd::Func { name, ret }).put(Cmd::Param { ty: env_ty(st.cx.gc) });
    lemma_put_params(head, tys, tys.len());
    lemma_bind_same(begun, func, params, tys, 0);
    lemma_captures_len(
        bound,
        Val { id: Id::Param { func, index: 0 }, ty: env_ty(st.cx.gc) },
        caps,
        0,
    );
}

proof fn lemma_prologue_gc(
    st: St,
    name: FuncName,
    ret: Ty,
    params: Seq<Param>,
    tys: Seq<Ty>,
    caps: Seq<CaptureInfo>,
)
    requires
        !st.cx.gc,
        forall|k: int| 0 <= k < caps.len() ==> plain_capture(#[trigger] caps[k]),
        st.begin_func(name, ret, tys).bind_params(st.here(), params, tys, 0).enter_function(
            st.here(),
            caps,
        ) is Ok,
    ensures
        !st.begin_func(name, ret, tys).bind_params(st.here(), params, tys, 0).enter_function(
            st.here(),
            caps,
        )->Ok_0.0.cx.gc,
{
    let head = st.put(Cmd::Func { name, ret }).put(Cmd::Param { ty: env_ty(st.cx.gc) });
    lemma_put_params(head, tys, tys.len());
    let begun = st.begin_func(name, ret, tys);
    lemma_bind_same(begun, st.here(), params, tys, 0);
    lemma_captures_len(
        begun.bind_params(st.here(), params, tys, 0),
        Val { id: Id::Param { func: st.here(), index: 0 }, ty: env_ty(st.cx.gc) },
        caps,
        0,
    );
}

proof fn lemma_phis_len(
    st: St,
    func: u64,
    params: Seq<Param>,
    tys: Seq<Ty>,
    from: u64,
    i: nat,
    done: Seq<u64>,
)
    requires
        i <= params.len(),
    ensures
        ({
            let (body, phis) = st.param_phis(func, params, tys, from, i, done);
            &&& body.script.len() == st.script.len() + 2 * (params.len() - i)
            &&& body.cx.gc == st.cx.gc
            &&& phis.len() == done.len() + params.len() - i
        }),
    decreases params.len() - i,
{
    if i < params.len() {
        let p = params[i as int];
        let seed = Val { id: Id::Param { func, index: (i + 1) as u32 }, ty: tys[i as int] };
        let next = with_phi(st, "tail.p", seed, from, p.name, p.ty, p.layout);
        lemma_phis_len(next, func, params, tys, from, i + 1, done.push(st.here()));
    }
}

pub(crate) proof fn lemma_bind_same(st: St, func: u64, params: Seq<Param>, tys: Seq<Ty>, i: nat)
    requires
        i <= params.len(),
    ensures
        st.bind_params(func, params, tys, i).script == st.script,
        st.bind_params(func, params, tys, i).cx.gc == st.cx.gc,
    decreases params.len() - i,
{
    if i < params.len() {
        let p = params[i as int];
        let v = Val { id: Id::Param { func, index: (i + 1) as u32 }, ty: tys[i as int] };
        lemma_bind_same(st.bind(p.name, v, p.ty, p.layout), func, params, tys, i + 1);
    }
}

pub(crate) proof fn lemma_param_tys(params: Seq<Param>, i: nat, done: Seq<Ty>)
    requires
        i <= params.len(),
        param_tys(params, i, done) is Ok,
    ensures
        param_tys(params, i, done)->Ok_0.len() == done.len() + params.len() - i,
    decreases params.len() - i,
{
    if i < params.len() {
        lemma_param_tys(params, i + 1, done.push(abi_ty(params[i as int].ty)->Ok_0));
    }
}

/// The state behind the parameters and captures of a function.
#[verifier::opaque]
pub open spec fn prologue(
    st: St,
    name: FuncName,
    ret: Ty,
    params: Seq<Param>,
    tys: Seq<Ty>,
    caps: Seq<CaptureInfo>,
) -> Result<(St, Option<Val>), CodegenError> {
    st.begin_func(name, ret, tys).bind_params(st.here(), params, tys, 0).enter_function(
        st.here(),
        caps,
    )
}

/// The state in which the body of a loop begins, and the phis of the parameters.
/// The loop of a curried function has one.
#[verifier::opaque]
pub open spec fn headed(
    start: St,
    func: u64,
    params: Seq<Param>,
    tys: Seq<Ty>,
    uncurried: bool,
) -> (St, Seq<u64>) {
    if uncurried || params.len() != 1 {
        loop_entered(start).param_phis(func, params, tys, start.cx.block, 0, Seq::empty())
    } else {
        (
            with_phi(
                loop_entered(start),
                "tail.arg",
                Val { id: Id::Param { func, index: 1 }, ty: tys[0] },
                start.cx.block,
                params[0].name,
                params[0].ty,
                params[0].layout,
            ),
            seq![loop_entered(start).here()],
        )
    }
}

/// The uncurried entry of a function that names itself.
#[verifier::opaque]
pub open spec fn fast_loop(
    st: St,
    fuel: nat,
    own: String,
    params: Seq<Param>,
    caps: Seq<CaptureInfo>,
    body: Ir,
    ret_ty: Rc<Type>,
) -> Result<(St, u64), CodegenError> {
    st.fast_entry(fuel, Some(own), params, caps, body, ret_ty)
}

/// The function lifted from a lambda that names itself.
#[verifier::opaque]
pub open spec fn lifted_loop(
    st: St,
    fuel: nat,
    own: String,
    lam: Comp,
    caps: Seq<CaptureInfo>,
) -> Result<(St, u64), CodegenError> {
    st.lift(fuel, Some(own), lam, caps)
}

/// The parts of a function that is a loop.
pub struct LoopFun {
    pub tys: Seq<Ty>,
    pub ret: Ty,
    pub start: St,
    pub first: St,
    pub t: Tail,
    pub out: St,
}

proof fn lemma_of_fast(
    st: St,
    fuel: nat,
    own: String,
    params: Seq<Param>,
    caps: Seq<CaptureInfo>,
    body: Ir,
    ret_ty: Rc<Type>,
) -> (p: LoopFun)
    requires
        fast_loop(st, fuel, own, params, caps, body, ret_ty) is Ok,
    ensures
        p.tys.len() == params.len(),
        prologue(st, FuncName::Fast(st.cx.lifted), p.ret, params, p.tys, caps) == Ok::<
            (St, Option<Val>),
            CodegenError,
        >((p.start, p.t.frame)),
        headed(p.start, st.here(), params, p.tys, p.t.uncurried) == (p.first, p.t.phis),
        p.t.own == own,
        p.t.uncurried,
        p.t.head == p.start.here(),
        p.t.live,
        of_tail(p.first, fuel, body, p.t) == Ok::<St, CodegenError>(p.out),
        fast_loop(st, fuel, own, params, caps, body, ret_ty)->Ok_0.0.script == p.out.script.push(
            Cmd::At { block: st.cx.block },
        ),
{
    reveal(fast_loop);
    reveal(of_tail);
    reveal(prologue);
    reveal(headed);
    let func = st.here();
    let ret = abi_ty(ret_ty)->Ok_0;
    let tys = param_tys(params, 0, Seq::empty())->Ok_0;
    lemma_param_tys(params, 0, Seq::empty());
    let (start, frame) = prologue(st, FuncName::Fast(st.cx.lifted), ret, params, tys, caps)->Ok_0;
    let (first, phis) = headed(start, func, params, tys, true);
    let t = Tail { own, head: start.here(), phis, uncurried: true, frame, live: true };
    let out = of_tail(first, fuel, body, t)->Ok_0;
    LoopFun { tys, ret, start, first, t, out }
}

pub(crate) proof fn lemma_headed(
    start: St,
    func: u64,
    params: Seq<Param>,
    tys: Seq<Ty>,
    uncurried: bool,
) -> (seeds: Seq<Val>)
    requires
        settled(start),
        env_ready(start),
        !start.cx.gc,
        start.script.len() + 2 * params.len() + 16 <= u64::MAX,
    ensures
        ({
            let (first, phis) = headed(start, func, params, tys, uncurried);
            let base = start.script.len() as int + 3;
            &&& body_laid(
                loop_entered(start),
                first,
                names_of(params),
                base,
                0,
                seeds,
                start.cx.block,
            )
            &&& phis.len() == params.len()
            &&& forall|j: int| 0 <= j < params.len() ==> #[trigger] phis[j] == phi_at(base, j)
            &&& extends(first.script, start.script)
        }),
        seeds == Seq::new(
            params.len(),
            |j: int| Val { id: Id::Param { func, index: (j + 1) as u32 }, ty: tys[j] },
        ),
{
    reveal(headed);
    lemma_loop_entered(start);
    let head = loop_entered(start);
    let base = start.script.len() as int + 3;
    let first = headed(start, func, params, tys, uncurried).0;
    let seeds = Seq::new(
        params.len(),
        |j: int| Val { id: Id::Param { func, index: (j + 1) as u32 }, ty: tys[j] },
    );
    if uncurried || params.len() != 1 {
        lemma_param_phis(head, func, params, tys, start.cx.block, 0, Seq::empty(), base);
    } else {
        let p = params[0];
        let names = names_of(params);
        lemma_with_phi(head, "tail.arg", seeds[0], start.cx.block, p.name, p.ty, p.layout);
        assert(phi_at(base, 0) == base);
        assert forall|m: Machine, words: Seq<u64>, vars: Vars|
            #![trigger phis_hold(base, 1, m, words), with_words(names, words, 1, vars)]
            phis_hold(base, 1, m, words) && models(head, m, with_words(names, words, 0, vars)) implies models(
            first,
            m,
            with_words(names, words, 1, vars),
        ) by {
            reveal_with_fuel(with_words, 2);
            assert(m.regs[phi_at(base, 0) as u64] == words[0]);
            assert(models(first, m, vars.insert(p.name@, m.regs[base as u64])));
            assert(names[0] == p.name@);
        }
    }
    lemma_extends(start.script, head.script, first.script);
    seeds
}

pub(crate) proof fn lemma_headed_len(start: St, func: u64, params: Seq<Param>, tys: Seq<Ty>, uncurried: bool)
    ensures
        headed(start, func, params, tys, uncurried).0.script.len() == start.script.len() + 3 + 2
            * params.len(),
        headed(start, func, params, tys, uncurried).0.cx.gc == start.cx.gc,
        headed(start, func, params, tys, uncurried).1.len() == params.len(),
{
    reveal(headed);
    if uncurried || params.len() != 1 {
        lemma_phis_len(loop_entered(start), func, params, tys, start.cx.block, 0, Seq::empty());
    }
}

/// The uncurried entry of a function that calls itself last is a loop. From its
/// first block on the loop returns what the recursion means on the arguments it was
/// passed, with what its closure captured, or traps.
pub proof fn an_uncurried_loop_returns_what_the_recursion_means(
    st: St,
    fuel: nat,
    own: String,
    params: Seq<Param>,
    caps: Seq<CaptureInfo>,
    body: Ir,
    ret_ty: Rc<Type>,
    turns: nat,
    depth: nat,
    script: Seq<Cmd>,
    m: Machine,
)
    requires
        !st.cx.gc,
        own_blocks(st.script, 0, st.script.len() as int),
        plain_fun(Fun { own: own@, params: names_of(params), uncurried: true, body }),
        forall|k: int| 0 <= k < caps.len() ==> plain_capture(#[trigger] caps[k]),
        fast_loop(st, fuel, own, params, caps, body, ret_ty) is Ok,
        countable(fast_loop(st, fuel, own, params, caps, body, ret_ty)->Ok_0.0),
        extends(script, fast_loop(st, fuel, own, params, caps, body, ret_ty)->Ok_0.0.script),
        apart(
            script,
            st.script.len() as int,
            fast_loop(st, fuel, own, params, caps, body, ret_ty)->Ok_0.0.script.len() - 1,
        ),
        m.args.len() == 0,
    ensures
        answers(
            script,
            st.script.len() as int + params.len() + 4,
            m,
            fun_meaning(
                Fun { own: own@, params: names_of(params), uncurried: true, body },
                passed(st.here(), params.len(), m),
                surroundings(caps, st.here(), m),
                turns,
                depth,
            ),
        ),
{
    let f = Fun { own: own@, params: names_of(params), uncurried: true, body };
    let p = lemma_of_fast(st, fuel, own, params, caps, body, ret_ty);
    let name = FuncName::Fast(st.cx.lifted);
    let whole = p.out.script.push(Cmd::At { block: st.cx.block });
    assert(extends(whole, p.out.script));
    lemma_extends(p.out.script, whole, script);
    lemma_entry_answers(st, fuel, name, f, params, caps, p, turns, depth, script, m);
}

proof fn lemma_entry_answers(
    st: St,
    fuel: nat,
    name: FuncName,
    f: Fun,
    params: Seq<Param>,
    caps: Seq<CaptureInfo>,
    p: LoopFun,
    turns: nat,
    depth: nat,
    script: Seq<Cmd>,
    m: Machine,
)
    requires
        !st.cx.gc,
        own_blocks(st.script, 0, st.script.len() as int),
        plain_fun(f),
        f.params == names_of(params),
        forall|k: int| 0 <= k < caps.len() ==> plain_capture(#[trigger] caps[k]),
        p.tys.len() == params.len(),
        prologue(st, name, p.ret, params, p.tys, caps) == Ok::<(St, Option<Val>), CodegenError>(
            (p.start, p.t.frame),
        ),
        headed(p.start, st.here(), params, p.tys, p.t.uncurried) == (p.first, p.t.phis),
        p.t.own@ == f.own,
        p.t.uncurried == f.uncurried,
        p.t.head == p.start.here(),
        p.t.live,
        of_tail(p.first, fuel, f.body, p.t) == Ok::<St, CodegenError>(p.out),
        countable(p.out),
        extends(script, p.out.script),
        apart(script, st.script.len() as int, p.out.script.len() as int),
        m.args.len() == 0,
    ensures
        answers(
            script,
            st.script.len() as int + params.len() + 4,
            m,
            fun_meaning(
                f,
                passed(st.here(), params.len(), m),
                surroundings(caps, st.here(), m),
                turns,
                depth,
            ),
        ),
{
    let func = st.here();
    let start = p.start;
    let n = st.script.len() as int + params.len() + 4;
    lemma_prologue_start(st, name, p.ret, params, p.tys, caps);
    lemma_headed_len(start, func, params, p.tys, p.t.uncurried);
    lemma_tail_len(p.first, fuel, f.body, p.t, f);
    let _ = lemma_prologue_runs(st, name, p.ret, params, p.tys, caps, start.script, m);
    let seeds = lemma_headed(start, func, params, p.tys, p.t.uncurried);
    let base = start.script.len() as int + 3;
    assert forall|j: int| 0 <= j < p.t.phis.len() implies #[trigger] p.t.phis[j] < p.first.script.len() by {
        assert(p.t.phis[j] == phi_at(base, j));
    }
    lemma_tail_grown(p.first, fuel, f.body, p.t, f);
    lemma_extends(p.first.script, p.out.script, script);
    lemma_extends(start.script, p.first.script, script);
    let (seen, after) = lemma_prologue_runs(st, name, p.ret, params, p.tys, caps, script, m);
    lemma_loop_answers(
        start,
        fuel,
        f,
        p.t,
        p.first,
        seeds,
        seen,
        surroundings(caps, func, m),
        turns,
        depth,
        script,
        after,
    );
    let words = Seq::new(seeds.len(), |j: int| after.value(seeds[j]));
    assert(words =~= passed(func, params.len(), m));
    let meant = fun_meaning(f, words, surroundings(caps, func, m), turns, depth);
    lemma_run_leads(script, n, m, start.script.len() as int, after);
    match meant {
        Meant::Word(w) => {
            let j = choose|j: nat| #[trigger] returns_in(script, start.script.len() as int, after, w, j);
            lemma_returned(script, n, m, start.script.len() as int, after, 0, meant, j);
            assert(returns_in(script, n, m, w, j));
        },
        Meant::Trap => {
            let j = choose|j: nat| #[trigger] traps_in(script, start.script.len() as int, after, j);
            lemma_returned(script, n, m, start.script.len() as int, after, 0, meant, j);
            assert(traps_in(script, n, m, j));
        },
        Meant::Open => {},
    }
}

pub(crate) proof fn lemma_prologue_start(
    st: St,
    name: FuncName,
    ret: Ty,
    params: Seq<Param>,
    tys: Seq<Ty>,
    caps: Seq<CaptureInfo>,
)
    requires
        !st.cx.gc,
        tys.len() == params.len(),
        forall|k: int| 0 <= k < caps.len() ==> plain_capture(#[trigger] caps[k]),
        prologue(st, name, ret, params, tys, caps) is Ok,
    ensures
        !prologue(st, name, ret, params, tys, caps)->Ok_0.0.cx.gc,
        prologue(st, name, ret, params, tys, caps)->Ok_0.1 is None,
        st.script.len() + params.len() + 4 <= prologue(
            st,
            name,
            ret,
            params,
            tys,
            caps,
        )->Ok_0.0.script.len(),
{
    reveal(prologue);
    lemma_prologue_gc(st, name, ret, params, tys, caps);
    lemma_prologue_len(st, name, ret, params, tys, caps);
    let head = st.put(Cmd::Func { name, ret }).put(Cmd::Param { ty: env_ty(st.cx.gc) });
    lemma_put_params(head, tys, tys.len());
    lemma_bind_same(st.begin_func(name, ret, tys), st.here(), params, tys, 0);
}

pub(crate) proof fn lemma_prologue_runs(
    st: St,
    name: FuncName,
    ret: Ty,
    params: Seq<Param>,
    tys: Seq<Ty>,
    caps: Seq<CaptureInfo>,
    script: Seq<Cmd>,
    m: Machine,
) -> (r: (Vars, Machine))
    requires
        !st.cx.gc,
        own_blocks(st.script, 0, st.script.len() as int),
        tys.len() == params.len(),
        forall|k: int| 0 <= k < caps.len() ==> plain_capture(#[trigger] caps[k]),
        m.args.len() == 0,
        prologue(st, name, ret, params, tys, caps) is Ok,
        countable(prologue(st, name, ret, params, tys, caps)->Ok_0.0),
        extends(script, prologue(st, name, ret, params, tys, caps)->Ok_0.0.script),
    ensures
        ({
            let end = prologue(st, name, ret, params, tys, caps)->Ok_0.0;
            let n = st.script.len() as int + params.len() + 4;
            &&& at_hand(end, r.0, r.1)
            &&& agree_but(names_of(params), r.0, surroundings(caps, st.here(), m))
            &&& r.0 == captured(
                caps,
                caps.len(),
                m.params[(st.here(), 0u32)],
                m.mem,
                with_words(
                    names_of(params),
                    passed(st.here(), params.len(), m),
                    params.len(),
                    Map::empty(),
                ),
            )
            &&& st.script.len() <= end.cx.block < end.script.len()
            &&& keeps(m, r.1, n)
            &&& extends(end.script, st.script)
            &&& own_blocks(end.script, st.script.len() as int, end.script.len() as int)
            &&& run(script, n, m) == run(script, end.script.len() as int, r.1)
        }),
{
    reveal(prologue);
    lemma_prologue(st, name, ret, params, tys, caps, script, m)
}

/// The parameter of a lambda.
pub open spec fn lam_param(lam: Comp) -> Param {
    match lam {
        Comp::Lam { param, param_ty, param_layout, .. } => Param {
            name: param,
            ty: ty_or_int(param_ty),
            layout: param_layout,
        },
        _ => arbitrary(),
    }
}

/// The body of a lambda.
pub open spec fn lam_body(lam: Comp) -> Ir {
    match lam {
        Comp::Lam { body, .. } => *body,
        _ => arbitrary(),
    }
}

/// A lambda that is lifted to a loop.
pub open spec fn lam_loops(lam: Comp) -> bool {
    match lam {
        Comp::Lam { param_ty, ret_ty, body, .. } => loops_over(*ty_or_int(param_ty), *ret_ty, *body),
        _ => false,
    }
}

proof fn lemma_of_lift(st: St, fuel: nat, own: String, lam: Comp, caps: Seq<CaptureInfo>) -> (p: LoopFun)
    requires
        lam_loops(lam),
        lifted_loop(st, fuel, own, lam, caps) is Ok,
    ensures
        p.tys.len() == 1,
        prologue(st, FuncName::Lam(st.cx.lifted), p.ret, seq![lam_param(lam)], p.tys, caps) == Ok::<
            (St, Option<Val>),
            CodegenError,
        >((p.start, p.t.frame)),
        headed(p.start, st.here(), seq![lam_param(lam)], p.tys, false) == (p.first, p.t.phis),
        p.t.own == own,
        !p.t.uncurried,
        p.t.head == p.start.here(),
        p.t.live,
        of_tail(p.first, fuel, lam_body(lam), p.t) == Ok::<St, CodegenError>(p.out),
        lifted_loop(st, fuel, own, lam, caps)->Ok_0.0.script == p.out.script.push(
            Cmd::At { block: st.cx.block },
        ),
{
    reveal(lifted_loop);
    reveal(of_tail);
    reveal(prologue);
    reveal(headed);
    reveal_with_fuel(St::bind_params, 2);
    let func = st.here();
    let params = seq![lam_param(lam)];
    let ret = abi_ty(lam->Lam_ret_ty)->Ok_0;
    let tys = seq![abi_ty(lam_param(lam).ty)->Ok_0];
    let (start, frame) = prologue(st, FuncName::Lam(st.cx.lifted), ret, params, tys, caps)->Ok_0;
    let (first, phis) = headed(start, func, params, tys, false);
    let t = Tail { own, head: start.here(), phis, uncurried: false, frame, live: true };
    let out = of_tail(first, fuel, lam_body(lam), t)->Ok_0;
    LoopFun { tys, ret, start, first, t, out }
}

/// A function of one argument that calls itself last is lifted to a loop. From its
/// first block on the loop returns what the recursion means on the argument it was
/// passed, with what its closure captured, or traps.
pub proof fn a_lifted_loop_returns_what_the_recursion_means(
    st: St,
    fuel: nat,
    own: String,
    lam: Comp,
    caps: Seq<CaptureInfo>,
    turns: nat,
    depth: nat,
    script: Seq<Cmd>,
    m: Machine,
)
    requires
        !st.cx.gc,
        own_blocks(st.script, 0, st.script.len() as int),
        lam_loops(lam),
        plain_fun(
            Fun {
                own: own@,
                params: seq![lam_param(lam).name@],
                uncurried: false,
                body: lam_body(lam),
            },
        ),
        forall|k: int| 0 <= k < caps.len() ==> plain_capture(#[trigger] caps[k]),
        lifted_loop(st, fuel, own, lam, caps) is Ok,
        countable(lifted_loop(st, fuel, own, lam, caps)->Ok_0.0),
        extends(script, lifted_loop(st, fuel, own, lam, caps)->Ok_0.0.script),
        apart(
            script,
            st.script.len() as int,
            lifted_loop(st, fuel, own, lam, caps)->Ok_0.0.script.len() - 1,
        ),
        m.args.len() == 0,
    ensures
        answers(
            script,
            st.script.len() as int + 5,
            m,
            fun_meaning(
                Fun {
                    own: own@,
                    params: seq![lam_param(lam).name@],
                    uncurried: false,
                    body: lam_body(lam),
                },
                passed(st.here(), 1, m),
                surroundings(caps, st.here(), m),
                turns,
                depth,
            ),
        ),
{
    let params = seq![lam_param(lam)];
    let f = Fun {
        own: own@,
        params: seq![lam_param(lam).name@],
        uncurried: false,
        body: lam_body(lam),
    };
    assert(f.params =~= names_of(params));
    let p = lemma_of_lift(st, fuel, own, lam, caps);
    let whole = p.out.script.push(Cmd::At { block: st.cx.block });
    assert(extends(whole, p.out.script));
    lemma_extends(p.out.script, whole, script);
    lemma_entry_answers(
        st,
        fuel,
        FuncName::Lam(st.cx.lifted),
        f,
        params,
        caps,
        p,
        turns,
        depth,
        script,
        m,
    );
}

} // verus!
